//! Text helpers: the part of an address before its port, trimming, and
//! decimal numerals.

use vstd::prelude::*;
use vstd::string::StrSliceExecFns;

verus! {

/// What stands before the last occurrence of `mark` in `s`, if `mark` occurs.
pub open spec fn before_last(s: Seq<char>, mark: char) -> Option<Seq<char>>
    decreases s.len(),
{
    if s.len() == 0 {
        None
    } else if s.last() == mark {
        Some(s.drop_last())
    } else {
        before_last(s.drop_last(), mark)
    }
}

/// The characters that count as white space: the code points with the Unicode
/// property `White_Space`.
pub open spec fn is_whitespace(c: char) -> bool {
    let u = c as u32;
    ||| 0x09 <= u <= 0x0D
    ||| u == 0x20
    ||| u == 0x85
    ||| u == 0xA0
    ||| u == 0x1680
    ||| 0x2000 <= u <= 0x200A
    ||| u == 0x2028
    ||| u == 0x2029
    ||| u == 0x202F
    ||| u == 0x205F
    ||| u == 0x3000
}

/// `s` without its leading white space.
pub open spec fn trim_start(s: Seq<char>) -> Seq<char>
    decreases s.len(),
{
    if s.len() > 0 && is_whitespace(s[0]) {
        trim_start(s.drop_first())
    } else {
        s
    }
}

/// `s` without its trailing white space.
pub open spec fn trim_end(s: Seq<char>) -> Seq<char>
    decreases s.len(),
{
    if s.len() > 0 && is_whitespace(s.last()) {
        trim_end(s.drop_last())
    } else {
        s
    }
}

/// `s` without its leading and trailing white space.
pub open spec fn trimmed(s: Seq<char>) -> Seq<char> {
    trim_end(trim_start(s))
}

/// Leading white space ends at the first character that is none.
pub proof fn lemma_trim_start_at(s: Seq<char>, k: int)
    requires
        0 <= k <= s.len(),
        forall|j: int| 0 <= j < k ==> is_whitespace(s[j]),
        k == s.len() || !is_whitespace(s[k]),
    ensures
        trim_start(s) == s.skip(k),
    decreases k,
{
    if k == 0 {
        assert(s.skip(0) =~= s);
    } else {
        let t = s.drop_first();
        assert forall|j: int| 0 <= j < k - 1 implies is_whitespace(t[j]) by {
            assert(t[j] == s[j + 1]);
        }
        lemma_trim_start_at(t, k - 1);
        assert(t.skip(k - 1) =~= s.skip(k));
    }
}

/// Trailing white space begins after the last character that is none.
pub proof fn lemma_trim_end_at(s: Seq<char>, e: int)
    requires
        0 <= e <= s.len(),
        forall|j: int| e <= j < s.len() ==> is_whitespace(s[j]),
        e == 0 || !is_whitespace(s[e - 1]),
    ensures
        trim_end(s) == s.take(e),
    decreases s.len() - e,
{
    if e == s.len() {
        assert(s.take(e) =~= s);
    } else {
        let t = s.drop_last();
        lemma_trim_end_at(t, e);
        assert(t.take(e) =~= s.take(e));
    }
}

/// Whether `c` is white space.
pub fn is_space(c: char) -> (b: bool)
    ensures
        b == is_whitespace(c),
{
    let u: u32 = c as u32;
    (0x09 <= u && u <= 0x0D) || u == 0x20 || u == 0x85 || u == 0xA0 || u == 0x1680 || (0x2000 <= u
        && u <= 0x200A) || u == 0x2028 || u == 0x2029 || u == 0x202F || u == 0x205F || u == 0x3000
}

/// The part of `s` between its leading and its trailing white space.
pub fn trim(s: &str) -> (r: &str)
    ensures
        r@ == trimmed(s@),
{
    let n = s.unicode_len();
    let mut found = false;
    let mut first: usize = 0;
    let mut end: usize = 0;
    let mut i: usize = 0;
    for c in it: s.chars()
        invariant
            i == it.index(),
            it.seq() == s@,
            n == s@.len(),
            !found ==> forall|j: int| 0 <= j < i ==> is_whitespace(s@[j]),
            found ==> first < end <= i,
            found ==> forall|j: int| 0 <= j < first ==> is_whitespace(s@[j]),
            found ==> !is_whitespace(s@[first as int]),
            found ==> !is_whitespace(s@[end - 1]),
            found ==> forall|j: int| end <= j < i ==> is_whitespace(s@[j]),
    {
        if !is_space(c) {
            if !found {
                first = i;
                found = true;
            }
            end = i + 1;
        }
        i = i + 1;
    }
    if found {
        proof {
            let t = s@.skip(first as int);
            lemma_trim_start_at(s@, first as int);
            lemma_trim_end_at(t, end - first);
            assert(t.take(end - first) =~= s@.subrange(first as int, end as int));
        }
        s.substring_char(first, end)
    } else {
        proof {
            lemma_trim_start_at(s@, n as int);
            assert(s@.skip(n as int) =~= s@.subrange(0, 0));
        }
        s.substring_char(0, 0)
    }
}

/// The part of `s` before the last occurrence of `mark`; `None` if it has none.
pub fn prefix_before_last(s: &str, mark: char) -> (r: Option<&str>)
    ensures
        match r {
            Some(p) => before_last(s@, mark) == Some(p@),
            None => before_last(s@, mark) is None,
        },
{
    let n = s.unicode_len();
    let mut last: Option<usize> = None;
    let mut i: usize = 0;
    for c in it: s.chars()
        invariant
            i == it.index(),
            it.seq() == s@,
            n == s@.len(),
            match last {
                Some(k) => k < i && before_last(s@.take(i as int), mark) == Some(s@.take(k as int)),
                None => before_last(s@.take(i as int), mark) is None,
            },
    {
        proof {
            let t = s@.take(i + 1);
            assert(t.last() == c);
            assert(t.drop_last() =~= s@.take(i as int));
        }
        if c == mark {
            last = Some(i);
        }
        i = i + 1;
    }
    assert(s@.take(i as int) =~= s@);
    match last {
        Some(k) => {
            assert(s@.subrange(0, k as int) =~= s@.take(k as int));
            Some(s.substring_char(0, k))
        },
        None => None,
    }
}

/// The character of a decimal digit.
pub open spec fn digit_char(d: nat) -> char
    recommends
        d < 10,
{
    ((48 + d) as u8) as char
}

/// The decimal numeral of `n`, without a sign or leading zeros.
pub open spec fn decimal(n: nat) -> Seq<char>
    decreases n,
{
    if n < 10 {
        seq![digit_char(n)]
    } else {
        decimal(n / 10).push(digit_char(n % 10))
    }
}

/// The character of digit `d`.
pub fn digit(d: u8) -> (c: char)
    requires
        d < 10,
    ensures
        c == digit_char(d as nat),
{
    (48u8 + d) as char
}

/// Appends the decimal numeral of `n` to `out`.
pub fn push_decimal(out: &mut String, n: usize)
    ensures
        final(out)@ == old(out)@ + decimal(n as nat),
    decreases n,
{
    if n >= 10 {
        push_decimal(out, n / 10);
    }
    out.push(digit((n % 10) as u8));
    proof {
        if n < 10 {
            assert(old(out)@.push(digit_char(n as nat)) =~= old(out)@ + decimal(n as nat));
        } else {
            assert((old(out)@ + decimal((n / 10) as nat)).push(digit_char((n % 10) as nat)) =~= old(
                out,
            )@ + decimal(n as nat));
        }
    }
}

} // verus!
