//! The console report: the text that shows the statistics.

use vstd::prelude::*;
use vstd::string::{StrSliceExecFns, StringExecFns};
use crate::ranking::{lemma_ranking_is, ranking};
use crate::statistics::{
    counted_views, permille, ranked_views, CollectorView, IpStats, StatsCollector,
};
use crate::text::{decimal, digit, digit_char, push_decimal};

verus! {

pub const FRAME_TOP: &'static str =
    "╔════════════════════════════════════════════════════════════════╗\n";

pub const TITLE_LEFT: &'static str = "║        Traefik Access Log Monitor - Top ";

pub const TITLE_RIGHT: &'static str = " IPs                ║\n";

pub const FRAME_BOTTOM: &'static str =
    "╚════════════════════════════════════════════════════════════════╝\n";

pub const RULE: &'static str =
    "────────────────────────────────────────────────────────────────\n";

pub const TOTAL_LABEL: &'static str = "Total Requests: ";

pub const UNIQUE_LABEL: &'static str = " | Unique IPs: ";

pub const SHOWING_LEFT: &'static str = "Showing top ";

pub const SHOWING_RIGHT: &'static str =
    " IPs | Type a number and press Enter to change\n\n";

pub const WAITING: &'static str = "⏳ Waiting for log entries...\n";

pub const MONITORING: &'static str = "\nMonitoring access.log for new requests.\n";

pub const EXIT_HINT: &'static str = "Press Ctrl+C to exit.\n";

pub const RANKING_TITLE: &'static str = "Top IPs by Request Count:\n";

pub const REQUESTS_LABEL: &'static str = "   Requests: ";

pub const PATHS_TITLE: &'static str = "   Top Paths:\n";

pub const PATH_BULLET: &'static str = "   • ";

pub const ELLIPSIS: &'static str = "...";

/// The number of paths shown for each client.
pub const PATHS_SHOWN: usize = 3;

/// The number of characters that a path may take in the report.
pub const PATH_BUDGET: usize = 55;

/// The three digits of a number below a thousand, leading zeros included.
pub open spec fn three_digits(m: nat) -> Seq<char> {
    seq![digit_char(m / 100), digit_char(m / 10 % 10), digit_char(m % 10)]
}

/// The decimal numeral of `n` with a comma before every group of three
/// digits, counted from the right.
pub open spec fn grouped(n: nat) -> Seq<char>
    decreases n,
{
    if n < 1000 {
        decimal(n)
    } else {
        grouped(n / 1000) + seq![','] + three_digits(n % 1000)
    }
}

/// `path` cut to at most `max_len` characters: unchanged where it fits, else
/// its first `max_len - 3` characters and three dots.
pub open spec fn truncated(path: Seq<char>, max_len: nat) -> Seq<char> {
    if path.len() <= max_len {
        path
    } else {
        path.take(max_len - 3) + seq!['.', '.', '.']
    }
}

/// The decimal numeral of `n`, with a blank before it where it is one digit.
pub open spec fn padded(n: nat) -> Seq<char> {
    if n < 10 {
        seq![' '] + decimal(n)
    } else {
        decimal(n)
    }
}

/// A share given in tenths of a percent, written with one decimal place.
pub open spec fn share_text(share: nat) -> Seq<char> {
    decimal(share / 10) + seq!['.', digit_char(share % 10)]
}

/// The frame with the title.
pub open spec fn header(top_n: nat) -> Seq<char> {
    FRAME_TOP@ + TITLE_LEFT@ + padded(top_n) + TITLE_RIGHT@ + FRAME_BOTTOM@ + seq!['\n']
}

/// The two lines with the totals.
pub open spec fn summary(total: nat, unique: nat, top_n: nat) -> Seq<char> {
    TOTAL_LABEL@ + grouped(total) + UNIQUE_LABEL@ + grouped(unique) + seq!['\n'] + SHOWING_LEFT@
        + decimal(top_n) + SHOWING_RIGHT@
}

/// What the report says while nothing has been counted.
pub open spec fn waiting() -> Seq<char> {
    WAITING@ + MONITORING@ + EXIT_HINT@
}

/// The line of one path of a client.
pub open spec fn path_line(path: Seq<char>, count: nat) -> Seq<char> {
    PATH_BULLET@ + truncated(path, PATH_BUDGET as nat) + seq![' ', '('] + grouped(count) + seq![
        ')',
        '\n',
    ]
}

/// The lines of the first `upto` of the given paths.
pub open spec fn path_lines(paths: Seq<(Seq<char>, nat)>, upto: nat) -> Seq<char>
    decreases upto,
{
    if upto == 0 {
        Seq::empty()
    } else {
        path_lines(paths, (upto - 1) as nat) + path_line(paths[upto - 1].0, paths[upto - 1].1)
    }
}

/// The block of one client: its rank and identifier, its request count and
/// share, and its most requested paths.
pub open spec fn client_block(
    rank: nat,
    ip: Seq<char>,
    requests: nat,
    share: nat,
    paths: Seq<(Seq<char>, nat)>,
) -> Seq<char> {
    decimal(rank) + seq!['.', ' '] + ip + seq!['\n'] + REQUESTS_LABEL@ + grouped(requests) + seq![
        ' ',
        '(',
    ] + share_text(share) + seq!['%', ')', '\n'] + (if paths.len() > 0 {
        PATHS_TITLE@ + path_lines(paths, paths.len())
    } else {
        Seq::empty()
    }) + seq!['\n']
}

/// The blocks of the first `upto` clients of a ranking.
pub open spec fn client_blocks(c: CollectorView, top: Seq<(Seq<char>, nat)>, upto: nat) -> Seq<
    char,
>
    decreases upto,
{
    if upto == 0 {
        Seq::empty()
    } else {
        let (ip, requests) = top[upto - 1];
        client_blocks(c, top, (upto - 1) as nat) + client_block(
            upto,
            ip,
            requests,
            permille(requests, c.total_requests),
            ranking(c.stats[ip].paths, PATHS_SHOWN as nat),
        )
    }
}

/// The ranking part of the report.
pub open spec fn ranking_text(c: CollectorView, top_n: nat) -> Seq<char> {
    let top = ranking(c.request_counts(), top_n);
    RANKING_TITLE@ + RULE@ + seq!['\n'] + client_blocks(c, top, top.len()) + RULE@ + EXIT_HINT@
}

/// The whole report on statistics `c`, for the `top_n` busiest clients.
pub open spec fn report(c: CollectorView, top_n: nat) -> Seq<char> {
    header(top_n) + summary(c.total_requests, c.stats.dom().len(), top_n) + (if c.total_requests
        == 0 {
        waiting()
    } else {
        ranking_text(c, top_n)
    })
}

/// Formats the statistics for the console.
pub struct DisplayFormatter;

impl DisplayFormatter {
    /// The report on the statistics, for the `top_n` busiest clients.
    pub fn render_stats(stats: &StatsCollector, top_n: usize) -> (output: String)
        requires
            stats.wf(),
        ensures
            output@ == report(stats@, top_n as nat),
    {
        let mut output = Self::header_text(top_n);
        let summary = Self::summary_text(stats.total_requests(), stats.unique_ips(), top_n);
        output.append(summary.as_str());
        if stats.total_requests() == 0 {
            let mut rest = String::from_str(WAITING);
            rest.append(MONITORING);
            rest.append(EXIT_HINT);
            output.append(rest.as_str());
            return output;
        }
        let top_ips = stats.get_top_ips(top_n);
        let ghost top = ranking(stats@.request_counts(), top_n as nat);
        proof {
            lemma_ranking_is(stats@.request_counts(), top_n as nat, ranked_views(top_ips@));
        }
        let mut blocks = String::new();
        let mut rank: usize = 0;
        while rank < top_ips.len()
            invariant
                rank <= top_ips.len(),
                top == ranked_views(top_ips@),
                blocks@ == client_blocks(stats@, top, rank as nat),
                forall|p: int|
                    0 <= p < top_ips.len() ==> {
                        let e = #[trigger] top_ips[p];
                        &&& e.1.wf()
                        &&& stats@.stats[e.0@] == e.1@
                        &&& e.2 == permille(e.1@.request_count, stats@.total_requests)
                    },
            decreases top_ips.len() - rank,
        {
            let entry = &top_ips[rank];
            let block = Self::client_text(rank + 1, entry.0.as_str(), entry.1, entry.2);
            blocks.append(block.as_str());
            rank = rank + 1;
        }
        let mut rest = String::from_str(RANKING_TITLE);
        rest.append(RULE);
        rest.push('\n');
        rest.append(blocks.as_str());
        rest.append(RULE);
        rest.append(EXIT_HINT);
        output.append(rest.as_str());
        output
    }

    /// The frame with the title.
    fn header_text(top_n: usize) -> (r: String)
        ensures
            r@ == header(top_n as nat),
    {
        let mut r = String::from_str(FRAME_TOP);
        r.append(TITLE_LEFT);
        if top_n < 10 {
            r.push(' ');
        }
        push_decimal(&mut r, top_n);
        r.append(TITLE_RIGHT);
        r.append(FRAME_BOTTOM);
        r.push('\n');
        assert(r@ =~= header(top_n as nat));
        r
    }

    /// The two lines with the totals.
    fn summary_text(total: usize, unique: usize, top_n: usize) -> (r: String)
        ensures
            r@ == summary(total as nat, unique as nat, top_n as nat),
    {
        let mut r = String::from_str(TOTAL_LABEL);
        r.append(Self::format_number(total).as_str());
        r.append(UNIQUE_LABEL);
        r.append(Self::format_number(unique).as_str());
        r.push('\n');
        r.append(SHOWING_LEFT);
        push_decimal(&mut r, top_n);
        r.append(SHOWING_RIGHT);
        r
    }

    /// The block of one client.
    fn client_text(rank: usize, ip: &str, stats: &IpStats, share: u32) -> (r: String)
        requires
            stats.wf(),
        ensures
            r@ == client_block(
                rank as nat,
                ip@,
                stats@.request_count,
                share as nat,
                ranking(stats@.paths, PATHS_SHOWN as nat),
            ),
    {
        let mut r = String::new();
        push_decimal(&mut r, rank);
        r.push('.');
        r.push(' ');
        r.append(ip);
        r.push('\n');
        r.append(REQUESTS_LABEL);
        r.append(Self::format_number(stats.request_count).as_str());
        r.push(' ');
        r.push('(');
        push_decimal(&mut r, (share / 10) as usize);
        r.push('.');
        r.push(digit((share % 10) as u8));
        r.push('%');
        r.push(')');
        r.push('\n');
        let top_paths = stats.top_paths(PATHS_SHOWN);
        let ghost paths = ranking(stats@.paths, PATHS_SHOWN as nat);
        proof {
            lemma_ranking_is(stats@.paths, PATHS_SHOWN as nat, counted_views(top_paths@));
        }
        let ghost head = r@;
        let mut lines = String::new();
        if top_paths.len() > 0 {
            lines.append(PATHS_TITLE);
            let mut i: usize = 0;
            while i < top_paths.len()
                invariant
                    i <= top_paths.len(),
                    paths == counted_views(top_paths@),
                    lines@ == PATHS_TITLE@ + path_lines(paths, i as nat),
                decreases top_paths.len() - i,
            {
                let path = Self::truncate_path(top_paths[i].0.as_str(), PATH_BUDGET);
                let mut line = String::from_str(PATH_BULLET);
                line.append(path.as_str());
                line.push(' ');
                line.push('(');
                line.append(Self::format_number(top_paths[i].1).as_str());
                line.push(')');
                line.push('\n');
                assert(line@ =~= path_line(paths[i as int].0, paths[i as int].1));
                lines.append(line.as_str());
                assert(lines@ =~= PATHS_TITLE@ + path_lines(paths, (i + 1) as nat));
                i = i + 1;
            }
        }
        r.append(lines.as_str());
        r.push('\n');
        assert(r@ =~= client_block(rank as nat, ip@, stats@.request_count, share as nat, paths));
        r
    }

    /// The decimal numeral of `n` with thousands separators.
    pub fn format_number(n: usize) -> (r: String)
        ensures
            r@ == grouped(n as nat),
        decreases n,
    {
        if n < 1000 {
            let mut r = String::new();
            push_decimal(&mut r, n);
            r
        } else {
            let mut r = Self::format_number(n / 1000);
            let m = n % 1000;
            r.push(',');
            r.push(digit((m / 100) as u8));
            r.push(digit((m / 10 % 10) as u8));
            r.push(digit((m % 10) as u8));
            assert(r@ =~= grouped(n as nat));
            r
        }
    }

    /// `path` cut to at most `max_len` characters; a path that is cut ends in
    /// three dots.
    pub fn truncate_path(path: &str, max_len: usize) -> (r: String)
        requires
            path@.len() <= max_len || max_len >= 3,
        ensures
            r@ == truncated(path@, max_len as nat),
    {
        if path.unicode_len() <= max_len {
            path.to_owned()
        } else {
            let mut r = path.substring_char(0, max_len - 3).to_owned();
            r.push('.');
            r.push('.');
            r.push('.');
            assert(r@ =~= truncated(path@, max_len as nat));
            r
        }
    }
}

} // verus!
