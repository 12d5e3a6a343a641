//! Tail reading: what a poll makes of the bytes that were appended to the log
//! since the last one.
//!
//! The tailer keeps the offset of the next unread byte. The caller asks it
//! where to read, reads from there to the end of the file, and hands the bytes
//! over; the tailer takes the complete lines out of them and moves on by
//! exactly the bytes of those lines. A line whose end is not written yet stays
//! unread until a later poll.

use vstd::prelude::*;
use vstd::slice::slice_subrange;
use vstd::string::StringSliceAdditionalSpecFns;
use vstd::utf8::{decode_utf8, encode_utf8_decode_utf8, valid_utf8};
use crate::text::{trim, trimmed};

verus! {

/// The byte that ends a line.
pub const LINE_END: u8 = 10;

/// The length of the first line of `data`, its end included; `None` where
/// `data` holds no complete line.
pub open spec fn first_line_len(data: Seq<u8>) -> Option<nat>
    decreases data.len(),
{
    if data.len() == 0 {
        None
    } else if data[0] == LINE_END {
        Some(1)
    } else {
        match first_line_len(data.drop_first()) {
            Some(n) => Some(n + 1),
            None => None,
        }
    }
}

/// A first line is not empty and not longer than the data.
pub proof fn lemma_first_line_bounds(data: Seq<u8>)
    ensures
        first_line_len(data) matches Some(n) ==> 1 <= n <= data.len(),
    decreases data.len(),
{
    if data.len() > 0 && data[0] != LINE_END {
        lemma_first_line_bounds(data.drop_first());
    }
}

/// The first line ends at the first line end.
pub proof fn lemma_first_line_at(data: Seq<u8>, k: int)
    requires
        0 <= k < data.len(),
        forall|j: int| 0 <= j < k ==> data[j] != LINE_END,
        data[k] == LINE_END,
    ensures
        first_line_len(data) == Some((k + 1) as nat),
    decreases k,
{
    if k > 0 {
        let rest = data.drop_first();
        assert forall|j: int| 0 <= j < k - 1 implies rest[j] != LINE_END by {
            assert(rest[j] == data[j + 1]);
        }
        lemma_first_line_at(rest, k - 1);
    }
}

/// Data without a line end holds no complete line.
pub proof fn lemma_no_line(data: Seq<u8>)
    requires
        forall|j: int| 0 <= j < data.len() ==> data[j] != LINE_END,
    ensures
        first_line_len(data) is None,
    decreases data.len(),
{
    if data.len() > 0 {
        let rest = data.drop_first();
        assert forall|j: int| 0 <= j < rest.len() implies rest[j] != LINE_END by {
            assert(rest[j] == data[j + 1]);
        }
        lemma_no_line(rest);
    }
}

/// What a scan of appended bytes gives.
pub struct Scan {
    /// The number of bytes that the scan has passed.
    pub consumed: nat,
    /// The lines it has found, trimmed, the empty ones left out.
    pub lines: Seq<Seq<char>>,
    /// Whether it stopped at a line that is not UTF-8.
    pub failed: bool,
}

/// The text of a raw line as it is handed out.
pub open spec fn line_text(raw: Seq<u8>) -> Seq<char> {
    trimmed(decode_utf8(raw))
}

/// The scan of `data`: it passes the complete lines one by one and stops at
/// the first that is not UTF-8, or where no complete line is left.
pub open spec fn scan(data: Seq<u8>) -> Scan
    decreases data.len(),
    via scan_decreases
{
    match first_line_len(data) {
        None => Scan { consumed: 0, lines: Seq::empty(), failed: false },
        Some(n) => {
            let raw = data.take(n as int);
            if !valid_utf8(raw) {
                Scan { consumed: 0, lines: Seq::empty(), failed: true }
            } else {
                let rest = scan(data.skip(n as int));
                let line = line_text(raw);
                Scan {
                    consumed: n + rest.consumed,
                    lines: (if line.len() > 0 {
                        seq![line]
                    } else {
                        Seq::empty()
                    }) + rest.lines,
                    failed: rest.failed,
                }
            }
        },
    }
}

#[via_fn]
proof fn scan_decreases(data: Seq<u8>) {
    lemma_first_line_bounds(data);
}

/// A scan never passes more bytes than it was given.
pub proof fn lemma_scan_bounds(data: Seq<u8>)
    ensures
        scan(data).consumed <= data.len(),
    decreases data.len(),
{
    lemma_first_line_bounds(data);
    if let Some(n) = first_line_len(data) {
        if valid_utf8(data.take(n as int)) {
            lemma_scan_bounds(data.skip(n as int));
        }
    }
}

/// How a poll ends: where the tailer then stands, and the lines it hands out
/// (`None` where it stopped at a line that is not UTF-8).
pub struct PollOutcome {
    pub position: nat,
    pub lines: Option<Seq<Seq<char>>>,
}

/// The outcome of a poll at `position`, when the file has `file_size` bytes
/// and `appended` are its bytes from `position` on. A file that has not grown
/// past the position gives no lines and leaves the position alone.
pub open spec fn poll(position: nat, file_size: nat, appended: Seq<u8>) -> PollOutcome {
    if file_size <= position {
        PollOutcome { position, lines: Some(Seq::empty()) }
    } else {
        let s = scan(appended);
        PollOutcome {
            position: position + s.consumed,
            lines: if s.failed {
                None
            } else {
                Some(s.lines)
            },
        }
    }
}

/// The character sequences of a list of strings.
pub open spec fn texts(lines: Seq<String>) -> Seq<Seq<char>> {
    lines.map_values(|s: String| s@)
}

/// The lines of a poll's result, as character sequences.
pub open spec fn lines_of(r: Result<Vec<String>, ReadError>) -> Option<Seq<Seq<char>>> {
    match r {
        Ok(lines) => Some(texts(lines@)),
        Err(_) => None,
    }
}

/// Why a poll handed out no lines.
#[derive(Debug, Clone, Copy, PartialEq, Eq)]
pub enum ReadError {
    /// A line of the log is not valid UTF-8.
    InvalidData,
}

impl ReadError {
    /// The error in words.
    pub fn message(&self) -> (r: String)
        ensures
            r@ == "stream did not contain valid UTF-8"@,
    {
        "stream did not contain valid UTF-8".to_owned()
    }
}

/// Follows a growing log file: holds the offset of the next unread byte.
#[derive(Debug)]
pub struct LogTailer {
    position: u64,
}

impl View for LogTailer {
    type V = nat;

    /// The offset of the next unread byte.
    closed spec fn view(&self) -> nat {
        self.position as nat
    }
}

impl LogTailer {
    /// A tailer for a file that has `end` bytes now: what the file holds
    /// already is never read.
    pub fn new(end: u64) -> (r: Self)
        ensures
            r@ == end,
    {
        LogTailer { position: end }
    }

    /// The offset of the next unread byte.
    pub fn position(&self) -> (r: u64)
        ensures
            r == self@,
    {
        self.position
    }

    /// Where to read from, given the size of the file now: the position, if
    /// the file has grown past it. `None` means that there is nothing to read
    /// and nothing to do to the file.
    pub fn pending(&self, file_size: u64) -> (r: Option<u64>)
        ensures
            r == (if file_size > self@ {
                Some(self@ as u64)
            } else {
                None
            }),
    {
        if file_size > self.position {
            Some(self.position)
        } else {
            None
        }
    }

    /// One poll: takes the complete lines out of `appended`, the bytes of the
    /// file from the position on, and moves the position past them. Each line
    /// is trimmed, and lines that are empty then are left out.
    pub fn read_new_lines(&mut self, file_size: u64, appended: &[u8]) -> (r: Result<
        Vec<String>,
        ReadError,
    >)
        requires
            old(self)@ + appended@.len() <= u64::MAX,
        ensures
            final(self)@ == poll(old(self)@, file_size as nat, appended@).position,
            lines_of(r) == poll(old(self)@, file_size as nat, appended@).lines,
            old(self)@ <= final(self)@ <= old(self)@ + appended@.len(),
    {
        let mut lines: Vec<String> = Vec::new();
        if file_size <= self.position {
            assert(texts(lines@) =~= Seq::empty());
            return Ok(lines);
        }
        let start = self.position;
        let ghost all = scan(appended@);
        let mut cursor: usize = 0;
        assert(appended@.skip(0) =~= appended@);
        loop
            invariant
                cursor <= appended@.len(),
                start == old(self)@,
                file_size > start,
                start + appended@.len() <= u64::MAX,
                all == scan(appended@),
                all.consumed == cursor + scan(appended@.skip(cursor as int)).consumed,
                all.lines == texts(lines@) + scan(appended@.skip(cursor as int)).lines,
                all.failed == scan(appended@.skip(cursor as int)).failed,
            decreases appended@.len() - cursor,
        {
            let ghost rest = appended@.skip(cursor as int);
            let mut end = cursor;
            while end < appended.len() && appended[end] != LINE_END
                invariant
                    cursor <= end <= appended@.len(),
                    forall|j: int| cursor <= j < end ==> appended@[j] != LINE_END,
                decreases appended@.len() - end,
            {
                end = end + 1;
            }
            if end == appended.len() {
                proof {
                    lemma_no_line(rest);
                }
                self.position = start + cursor as u64;
                assert(texts(lines@) + Seq::<Seq<char>>::empty() =~= texts(lines@));
                return Ok(lines);
            }
            let raw = slice_subrange(appended, cursor, end + 1);
            proof {
                lemma_first_line_at(rest, end - cursor);
                assert(raw@ =~= rest.take(end + 1 - cursor));
                assert(rest.skip(end + 1 - cursor) =~= appended@.skip(end + 1));
            }
            match core::str::from_utf8(raw) {
                Ok(text) => {
                    proof {
                        encode_utf8_decode_utf8(text@);
                    }
                    let line = trim(text);
                    let ghost before = texts(lines@);
                    if !line.is_empty() {
                        lines.push(line.to_owned());
                        assert(texts(lines@) =~= before + seq![line@]);
                    }
                    assert(all.lines =~= texts(lines@) + scan(appended@.skip(end + 1)).lines);
                },
                Err(_) => {
                    self.position = start + cursor as u64;
                    return Err(ReadError::InvalidData);
                },
            }
            cursor = end + 1;
        }
    }
}

/// A poll that finds the file no larger than the position hands out no line
/// and leaves the position where it was, and so does every poll after it for
/// as long as the file does not grow: whatever bytes come with them.
pub proof fn lemma_poll_idempotent(
    position: nat,
    file_size: nat,
    first: Seq<u8>,
    second: Seq<u8>,
)
    requires
        file_size <= position,
    ensures
        poll(position, file_size, first).position == position,
        poll(position, file_size, first).lines == Some(Seq::<Seq<char>>::empty()),
        poll(poll(position, file_size, first).position, file_size, second) == poll(
            position,
            file_size,
            first,
        ),
{
}

/// A poll never moves the position back, and never past the bytes it was
/// given.
pub proof fn lemma_poll_monotonic(position: nat, file_size: nat, appended: Seq<u8>)
    ensures
        position <= poll(position, file_size, appended).position <= position + appended.len(),
{
    lemma_scan_bounds(appended);
}

} // verus!
