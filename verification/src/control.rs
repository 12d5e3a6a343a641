//! The interactive control: a line of input that holds a whole number within
//! bounds asks for that many clients to be shown; any other line asks for
//! nothing.

use vstd::prelude::*;
use vstd::string::StrSliceExecFns;
use crate::text::{trim, trimmed};

verus! {

/// The fewest clients that can be asked for.
pub const MIN_TOP_N: usize = 1;

/// The most clients that can be asked for.
pub const MAX_TOP_N: usize = 100;

/// The number of clients shown until another is asked for.
pub const DEFAULT_TOP_N: usize = 10;

/// The value of a decimal digit; `None` for any other character.
pub open spec fn digit_value(c: char) -> Option<nat> {
    if '0' <= c <= '9' {
        Some((c as u32 - 48) as nat)
    } else {
        None
    }
}

/// The number that a non-empty run of decimal digits stands for; `None` for
/// anything else.
pub open spec fn digits_value(s: Seq<char>) -> Option<nat>
    decreases s.len(),
{
    if s.len() == 0 {
        None
    } else if s.len() == 1 {
        digit_value(s[0])
    } else {
        match (digits_value(s.drop_last()), digit_value(s.last())) {
            (Some(v), Some(d)) => Some(10 * v + d),
            _ => None,
        }
    }
}

/// The number that an unsigned numeral stands for: digits, with or without a
/// plus sign before them.
pub open spec fn unsigned_value(s: Seq<char>) -> Option<nat> {
    if s.len() > 0 && s[0] == '+' {
        digits_value(s.drop_first())
    } else {
        digits_value(s)
    }
}

/// The number of clients that a line of input asks for, if it asks for any:
/// the line, trimmed, is an unsigned numeral within the bounds.
pub open spec fn requested_top_n(input: Seq<char>) -> Option<nat> {
    match unsigned_value(trimmed(input)) {
        Some(v) if MIN_TOP_N <= v <= MAX_TOP_N => Some(v),
        _ => None,
    }
}

/// A run of digits has a digit at every place.
pub proof fn lemma_digits_everywhere(s: Seq<char>, k: int)
    requires
        digits_value(s) is Some,
        0 <= k < s.len(),
    ensures
        digit_value(s[k]) is Some,
    decreases s.len(),
{
    if s.len() > 1 && k < s.len() - 1 {
        lemma_digits_everywhere(s.drop_last(), k);
    }
}

/// The number of clients that a line of input asks for, if it asks for any.
pub fn parse_top_n(input: &str) -> (r: Option<usize>)
    ensures
        match r {
            Some(n) => requested_top_n(input@) == Some(n as nat),
            None => requested_top_n(input@) is None,
        },
{
    let text = trim(input);
    let len = text.unicode_len();
    let signed = len > 0 && text.get_char(0) == '+';
    let body = if signed {
        text.substring_char(1, len)
    } else {
        text
    };
    proof {
        if signed {
            assert(body@ =~= text@.drop_first());
        }
    }
    let body_len = body.unicode_len();
    let mut acc: usize = 0;
    let mut i: usize = 0;
    for c in it: body.chars()
        invariant
            i == it.index(),
            it.seq() == body@,
            body_len == body@.len(),
            unsigned_value(trimmed(input@)) == digits_value(body@),
            i == 0 ==> acc == 0,
            i > 0 ==> (digits_value(body@.take(i as int)) matches Some(v) && (v <= MAX_TOP_N ==> acc
                == v) && (v > MAX_TOP_N ==> MAX_TOP_N < acc <= 10 * MAX_TOP_N + 9)),
    {
        if !('0' <= c && c <= '9') {
            proof {
                if digits_value(body@) is Some {
                    lemma_digits_everywhere(body@, i as int);
                }
            }
            return None;
        }
        let d: usize = (c as u32 - 48) as usize;
        proof {
            let next = body@.take(i + 1);
            assert(next.last() == c);
            assert(next.drop_last() =~= body@.take(i as int));
        }
        if acc <= MAX_TOP_N {
            acc = 10 * acc + d;
        }
        i = i + 1;
    }
    assert(body@.take(i as int) =~= body@);
    if MIN_TOP_N <= acc && acc <= MAX_TOP_N {
        Some(acc)
    } else {
        None
    }
}

} // verus!
