//! The running statistics: per client, how many requests it made and for which
//! paths; over all clients, how many requests were counted.

use vstd::prelude::*;
use crate::assoc::{
    assoc_map, find_key, key_views, lemma_assoc_at, lemma_assoc_len, lemma_assoc_push,
    lemma_assoc_update, nat_counts,
};
use crate::log_entry::{LogEntryView, TraefikLogEntry};
use crate::ranking::{
    entries_at, is_ranking, lemma_positions_rank_map, lemma_ranking_is, rank_top, ranking,
};
use crate::totals::{
    count_of, lemma_total_bounds, lemma_total_empty, lemma_total_insert, total,
};

verus! {

/// How often each path was requested. No path is held twice.
#[derive(Debug, Clone)]
pub struct PathCounter {
    keys: Vec<String>,
    counts: Vec<usize>,
}

/// What a list of `(key, count)` pairs says, as plain mathematical values.
pub open spec fn counted_views(r: Seq<(String, usize)>) -> Seq<(Seq<char>, nat)> {
    Seq::new(r.len(), |p: int| (r[p].0@, r[p].1 as nat))
}

impl View for PathCounter {
    type V = Map<Seq<char>, nat>;

    /// The map from each path to its count.
    closed spec fn view(&self) -> Map<Seq<char>, nat> {
        assoc_map(key_views(self.keys@), nat_counts(self.counts@))
    }
}

impl PathCounter {
    /// The counter is well formed.
    pub closed spec fn wf(&self) -> bool {
        &&& self.keys.len() == self.counts.len()
        &&& key_views(self.keys@).no_duplicates()
    }

    /// A well-formed counter holds finitely many paths.
    pub proof fn lemma_finite(&self)
        requires
            self.wf(),
        ensures
            self@.dom().finite(),
    {
        lemma_assoc_len(key_views(self.keys@), nat_counts(self.counts@));
    }

    /// A counter that holds no path.
    pub fn new() -> (r: Self)
        ensures
            r.wf(),
            r@ == Map::<Seq<char>, nat>::empty(),
    {
        let r = PathCounter { keys: Vec::new(), counts: Vec::new() };
        assert(r@ =~= Map::<Seq<char>, nat>::empty());
        r
    }

    /// The number of paths held.
    pub fn len(&self) -> (r: usize)
        requires
            self.wf(),
        ensures
            self@.dom().finite(),
            r == self@.dom().len(),
    {
        proof {
            lemma_assoc_len(key_views(self.keys@), nat_counts(self.counts@));
        }
        self.keys.len()
    }

    /// The count of `path`, if it is held.
    pub fn get(&self, path: &str) -> (r: Option<&usize>)
        requires
            self.wf(),
        ensures
            match r {
                Some(c) => self@.contains_key(path@) && self@[path@] == *c,
                None => !self@.contains_key(path@),
            },
    {
        match find_key(&self.keys, path) {
            Some(i) => {
                proof {
                    lemma_assoc_at(key_views(self.keys@), nat_counts(self.counts@), i as int);
                }
                Some(&self.counts[i])
            },
            None => None,
        }
    }

    /// Counts one more request for `path`.
    pub fn record(&mut self, path: &str)
        requires
            old(self).wf(),
            count_of(old(self)@, path@) < usize::MAX,
        ensures
            final(self).wf(),
            final(self)@ == old(self)@.insert(path@, count_of(old(self)@, path@) + 1),
    {
        let ghost kv = key_views(self.keys@);
        let ghost cv = nat_counts(self.counts@);
        match find_key(&self.keys, path) {
            Some(i) => {
                proof {
                    lemma_assoc_at(kv, cv, i as int);
                }
                let c = self.counts[i];
                self.counts.set(i, c + 1);
                proof {
                    lemma_assoc_update(kv, cv, i as int, (c + 1) as nat);
                    assert(nat_counts(self.counts@) =~= cv.update(i as int, (c + 1) as nat));
                }
            },
            None => {
                self.keys.push(path.to_owned());
                self.counts.push(1);
                proof {
                    lemma_assoc_push(kv, cv, path@, 1nat);
                    assert(key_views(self.keys@) =~= kv.push(path@));
                    assert(nat_counts(self.counts@) =~= cv.push(1nat));
                }
            },
        }
    }

    /// The `n` most requested paths with their counts, most requested first.
    pub fn top(&self, n: usize) -> (r: Vec<(String, usize)>)
        requires
            self.wf(),
        ensures
            is_ranking(self@, n as nat, counted_views(r@)),
    {
        let top = rank_top(&self.keys, &self.counts, n);
        let ghost kv = key_views(self.keys@);
        let mut out: Vec<(String, usize)> = Vec::new();
        let mut p: usize = 0;
        while p < top.len()
            invariant
                p <= top.len(),
                out.len() == p,
                self.keys.len() == self.counts.len(),
                kv == key_views(self.keys@),
                forall|q: int| 0 <= q < top.len() ==> #[trigger] top[q] < self.keys.len(),
                forall|q: int|
                    0 <= q < p ==> (#[trigger] out[q]).0@ == kv[top[q] as int] && out[q].1
                        == self.counts[top[q] as int],
            decreases top.len() - p,
        {
            let t = top[p];
            out.push((self.keys[t].clone(), self.counts[t]));
            p = p + 1;
        }
        proof {
            lemma_positions_rank_map(kv, self.counts@, n as nat, top@);
            assert(counted_views(out@) =~= entries_at(kv, self.counts@, top@));
        }
        out
    }
}

/// The statistics of one client.
#[derive(Debug, Clone)]
pub struct IpStats {
    /// How many requests the client made.
    pub request_count: usize,
    /// How often it requested each path.
    pub paths: PathCounter,
}

/// The statistics of one client, as plain mathematical values.
pub struct IpStatsView {
    pub request_count: nat,
    pub paths: Map<Seq<char>, nat>,
}

impl IpStatsView {
    /// The statistics of a client that made no request.
    pub open spec fn empty() -> IpStatsView {
        IpStatsView { request_count: 0, paths: Map::empty() }
    }

    /// The statistics after one more request, for `path`.
    pub open spec fn add_request(self, path: Seq<char>) -> IpStatsView {
        IpStatsView {
            request_count: self.request_count + 1,
            paths: self.paths.insert(path, count_of(self.paths, path) + 1),
        }
    }

    /// The request count is the sum of the counts of the paths.
    pub open spec fn consistent(self) -> bool {
        &&& self.paths.dom().finite()
        &&& total(self.paths) == self.request_count
    }
}

impl View for IpStats {
    type V = IpStatsView;

    open spec fn view(&self) -> IpStatsView {
        IpStatsView { request_count: self.request_count as nat, paths: self.paths@ }
    }
}

impl IpStats {
    /// The statistics are well formed.
    pub open spec fn wf(&self) -> bool {
        self.paths.wf()
    }

    /// The statistics of a client that made no request.
    pub fn new() -> (r: Self)
        ensures
            r.wf(),
            r@ == IpStatsView::empty(),
    {
        IpStats { request_count: 0, paths: PathCounter::new() }
    }

    /// Counts one more request, for `path`.
    pub fn add_request(&mut self, path: &str)
        requires
            old(self).wf(),
            old(self).request_count < usize::MAX,
            count_of(old(self)@.paths, path@) < usize::MAX,
        ensures
            final(self).wf(),
            final(self)@ == old(self)@.add_request(path@),
    {
        self.request_count = self.request_count + 1;
        self.paths.record(path);
    }

    /// The `n` paths that the client requested most, with their counts, most
    /// requested first; paths with equal counts in the order of their names.
    pub fn top_paths(&self, n: usize) -> (r: Vec<(String, usize)>)
        requires
            self.wf(),
        ensures
            is_ranking(self@.paths, n as nat, counted_views(r@)),
    {
        self.paths.top(n)
    }
}

/// The statistics of all clients, as plain mathematical values.
pub struct CollectorView {
    pub stats: Map<Seq<char>, IpStatsView>,
    pub total_requests: nat,
}

impl CollectorView {
    /// Nothing counted yet.
    pub open spec fn empty() -> CollectorView {
        CollectorView { stats: Map::empty(), total_requests: 0 }
    }

    /// The statistics of client `ip`, empty where it is not known yet.
    pub open spec fn entry(self, ip: Seq<char>) -> IpStatsView {
        if self.stats.contains_key(ip) {
            self.stats[ip]
        } else {
            IpStatsView::empty()
        }
    }

    /// The statistics after one more record. A record without a client
    /// identifier changes nothing.
    pub open spec fn ingest(self, record: LogEntryView) -> CollectorView {
        match record.ip() {
            Some(ip) => CollectorView {
                stats: self.stats.insert(ip, self.entry(ip).add_request(record.path())),
                total_requests: self.total_requests + 1,
            },
            None => self,
        }
    }

    /// The statistics after a sequence of records, in their order.
    pub open spec fn ingest_all(self, records: Seq<LogEntryView>) -> CollectorView
        decreases records.len(),
    {
        if records.len() == 0 {
            self
        } else {
            self.ingest_all(records.drop_last()).ingest(records.last())
        }
    }

    /// The request count of each client.
    pub open spec fn request_counts(self) -> Map<Seq<char>, nat> {
        self.stats.map_values(|s: IpStatsView| s.request_count)
    }

    /// The invariant of the statistics: finitely many clients, each with at
    /// least one request and with a request count that is the sum of its path
    /// counts, and a total that is the sum of the clients' request counts.
    pub open spec fn sound(self) -> bool {
        &&& self.stats.dom().finite()
        &&& forall|ip: Seq<char>| #[trigger]
            self.stats.contains_key(ip) ==> self.stats[ip].request_count >= 1
                && self.stats[ip].consistent()
        &&& self.total_requests == total(self.request_counts())
    }
}

/// The share of `count` in `total`, in tenths of a percent, rounded to the
/// nearest tenth (a half rounds up); zero where `total` is zero.
pub open spec fn permille(count: nat, total: nat) -> nat {
    if total == 0 {
        0
    } else {
        (2000 * count + total) / (2 * total)
    }
}

/// The share of `count` in `total`, in tenths of a percent.
pub fn permille_of(count: usize, total: usize) -> (r: u32)
    requires
        count <= total,
    ensures
        r == permille(count as nat, total as nat),
        r <= 1000,
{
    if total == 0 {
        0
    } else {
        let c: u128 = count as u128;
        let t: u128 = total as u128;
        let q: u128 = (2000 * c + t) / (2 * t);
        assert(q <= 1000) by (nonlinear_arith)
            requires
                q == (2000 * c + t) / (2 * t),
                c <= t,
                t > 0,
        ;
        q as u32
    }
}

/// The statistics of a list of clients.
pub open spec fn stat_views(stats: Seq<IpStats>) -> Seq<IpStatsView> {
    stats.map_values(|s: IpStats| s@)
}

/// What a list of ranked clients says: each client's identifier and request
/// count.
pub open spec fn ranked_views(r: Seq<(String, &IpStats, u32)>) -> Seq<(Seq<char>, nat)> {
    Seq::new(r.len(), |p: int| (r[p].0@, r[p].1@.request_count))
}

/// The statistics of all clients.
pub struct StatsCollector {
    ips: Vec<String>,
    stats: Vec<IpStats>,
    total_requests: usize,
}

impl View for StatsCollector {
    type V = CollectorView;

    closed spec fn view(&self) -> CollectorView {
        CollectorView {
            stats: assoc_map(key_views(self.ips@), stat_views(self.stats@)),
            total_requests: self.total_requests as nat,
        }
    }
}

impl StatsCollector {
    /// The collector is well formed.
    pub closed spec fn wf(&self) -> bool {
        &&& self.ips.len() == self.stats.len()
        &&& key_views(self.ips@).no_duplicates()
        &&& forall|i: int| 0 <= i < self.stats.len() ==> (#[trigger] self.stats[i]).wf()
        &&& self@.sound()
    }

    /// The statistics of a well-formed collector are sound: above all, the
    /// total is the sum of the clients' request counts.
    pub proof fn lemma_sound(&self)
        requires
            self.wf(),
        ensures
            self@.sound(),
    {
    }

    /// A collector that has counted nothing.
    pub fn new() -> (r: Self)
        ensures
            r.wf(),
            r@ == CollectorView::empty(),
    {
        let r = StatsCollector { ips: Vec::new(), stats: Vec::new(), total_requests: 0 };
        proof {
            assert(r@.stats =~= Map::<Seq<char>, IpStatsView>::empty());
            assert(r@.request_counts() =~= Map::<Seq<char>, nat>::empty());
            lemma_total_empty::<Seq<char>>();
        }
        r
    }

    /// Counts the request of one record: for its client, for its path under
    /// that client, and in the total. A record without a client identifier is
    /// passed over.
    pub fn add_entry(&mut self, entry: &TraefikLogEntry)
        requires
            old(self).wf(),
            old(self)@.total_requests < usize::MAX,
        ensures
            final(self).wf(),
            final(self)@ == old(self)@.ingest(entry@),
    {
        let ip = match entry.get_ip() {
            Some(ip) => ip,
            None => {
                return ;
            },
        };
        let path = entry.get_path();
        let ghost kv = key_views(self.ips@);
        let ghost sv = stat_views(self.stats@);
        let ghost before = self@;
        match find_key(&self.ips, ip.as_str()) {
            Some(i) => {
                proof {
                    lemma_assoc_at(kv, sv, i as int);
                    lemma_request_counts_dom(before);
                    lemma_total_bounds(before.request_counts(), ip@);
                    if sv[i as int].paths.contains_key(path@) {
                        lemma_total_bounds(sv[i as int].paths, path@);
                    }
                }
                self.stats[i].add_request(path.as_str());
                proof {
                    assert(stat_views(self.stats@) =~= sv.update(i as int, self.stats[i as int]@));
                    lemma_assoc_update(kv, sv, i as int, self.stats[i as int]@);
                }
            },
            None => {
                let mut fresh = IpStats::new();
                fresh.add_request(path.as_str());
                self.ips.push(ip);
                self.stats.push(fresh);
                proof {
                    assert(key_views(self.ips@) =~= kv.push(ip@));
                    assert(stat_views(self.stats@) =~= sv.push(fresh@));
                    lemma_assoc_push(kv, sv, ip@, fresh@);
                }
            },
        }
        self.total_requests = self.total_requests + 1;
        proof {
            lemma_ingest_sound(before, entry@);
        }
    }

    /// The `n` clients with the most requests, most requests first and clients
    /// with equal counts in the order of their identifiers; with each its
    /// statistics and its share of all requests in tenths of a percent.
    pub fn get_top_ips(&self, n: usize) -> (r: Vec<(String, &IpStats, u32)>)
        requires
            self.wf(),
        ensures
            is_ranking(self@.request_counts(), n as nat, ranked_views(r@)),
            forall|p: int|
                0 <= p < r.len() ==> {
                    let e = #[trigger] r[p];
                    &&& e.1.wf()
                    &&& self@.stats.contains_key(e.0@)
                    &&& self@.stats[e.0@] == e.1@
                    &&& e.2 == permille(e.1@.request_count, self@.total_requests)
                },
            self@.total_requests == 0 ==> r.len() == 0,
    {
        let ghost kv = key_views(self.ips@);
        let ghost sv = stat_views(self.stats@);
        let mut counts: Vec<usize> = Vec::new();
        let mut i: usize = 0;
        while i < self.stats.len()
            invariant
                i <= self.stats.len(),
                counts.len() == i,
                forall|j: int| 0 <= j < i ==> counts[j] == self.stats[j].request_count,
            decreases self.stats.len() - i,
        {
            counts.push(self.stats[i].request_count);
            i = i + 1;
        }
        let top = rank_top(&self.ips, &counts, n);
        proof {
            lemma_positions_rank_map(kv, counts@, n as nat, top@);
            assert(assoc_map(kv, nat_counts(counts@)) =~= self@.request_counts()) by {
                assert forall|k: Seq<char>| kv.contains(k) implies assoc_map(
                    kv,
                    nat_counts(counts@),
                )[k] == self@.request_counts()[k] by {
                    let j = kv.index_of(k);
                    lemma_assoc_at(kv, sv, j);
                    lemma_assoc_at(kv, nat_counts(counts@), j);
                }
            }
        }
        let mut out: Vec<(String, &IpStats, u32)> = Vec::new();
        let mut p: usize = 0;
        while p < top.len()
            invariant
                p <= top.len(),
                out.len() == p,
                self.wf(),
                self.ips.len() == self.stats.len(),
                self.stats.len() == counts.len(),
                kv == key_views(self.ips@),
                sv == stat_views(self.stats@),
                forall|j: int| 0 <= j < counts.len() ==> counts[j] == self.stats[j].request_count,
                forall|q: int| 0 <= q < top.len() ==> #[trigger] top[q] < self.ips.len(),
                forall|q: int|
                    0 <= q < p ==> {
                        let e = #[trigger] out[q];
                        &&& e.0@ == kv[top[q] as int]
                        &&& *e.1 == self.stats[top[q] as int]
                        &&& e.2 == permille(e.1@.request_count, self@.total_requests)
                    },
            decreases top.len() - p,
        {
            let t = top[p];
            let stats = &self.stats[t];
            proof {
                lemma_assoc_at(kv, sv, t as int);
                lemma_request_counts_dom(self@);
                lemma_total_bounds(self@.request_counts(), kv[t as int]);
            }
            let share = permille_of(stats.request_count, self.total_requests);
            out.push((self.ips[t].clone(), stats, share));
            p = p + 1;
        }
        proof {
            assert(ranked_views(out@) =~= entries_at(kv, counts@, top@));
            assert forall|p: int| 0 <= p < out.len() implies {
                let e = #[trigger] out[p];
                &&& e.1.wf()
                &&& self@.stats.contains_key(e.0@)
                &&& self@.stats[e.0@] == e.1@
            } by {
                lemma_assoc_at(kv, sv, top[p] as int);
            }
            if self@.total_requests == 0 {
                lemma_no_requests(self@);
                lemma_assoc_len(kv, sv);
            }
        }
        out
    }

    /// How many requests were counted.
    pub fn total_requests(&self) -> (r: usize)
        ensures
            r == self@.total_requests,
    {
        self.total_requests
    }

    /// How many different clients were seen.
    pub fn unique_ips(&self) -> (r: usize)
        requires
            self.wf(),
        ensures
            r == self@.stats.dom().len(),
    {
        proof {
            lemma_assoc_len(key_views(self.ips@), stat_views(self.stats@));
        }
        self.ips.len()
    }
}

/// The request counts are those of the known clients.
pub proof fn lemma_request_counts_dom(c: CollectorView)
    ensures
        c.request_counts().dom() == c.stats.dom(),
{
    assert(c.request_counts().dom() =~= c.stats.dom());
}

/// Counting a request keeps the request count equal to the sum of the path
/// counts.
pub proof fn lemma_add_request_consistent(s: IpStatsView, path: Seq<char>)
    requires
        s.consistent(),
    ensures
        s.add_request(path).consistent(),
{
    lemma_total_insert(s.paths, path, count_of(s.paths, path) + 1);
}

/// Ingesting a record keeps the statistics sound: the total stays the sum of
/// the clients' request counts, whatever the record holds.
pub proof fn lemma_ingest_sound(c: CollectorView, record: LogEntryView)
    requires
        c.sound(),
    ensures
        c.ingest(record).sound(),
{
    if let Some(ip) = record.ip() {
        let after = c.ingest(record);
        let entry = c.entry(ip).add_request(record.path());
        assert(IpStatsView::empty().consistent()) by {
            lemma_total_empty::<Seq<char>>();
        }
        lemma_add_request_consistent(c.entry(ip), record.path());
        lemma_request_counts_dom(c);
        assert(after.request_counts() =~= c.request_counts().insert(ip, entry.request_count));
        lemma_total_insert(c.request_counts(), ip, entry.request_count);
        assert(count_of(c.request_counts(), ip) == c.entry(ip).request_count);
    }
}

/// Where no request was counted, no client is known.
pub proof fn lemma_no_requests(c: CollectorView)
    requires
        c.sound(),
        c.total_requests == 0,
    ensures
        c.stats.dom().len() == 0,
        c.stats =~= Map::<Seq<char>, IpStatsView>::empty(),
{
    if exists|ip: Seq<char>| c.stats.contains_key(ip) {
        let ip = choose|ip: Seq<char>| c.stats.contains_key(ip);
        lemma_request_counts_dom(c);
        lemma_total_bounds(c.request_counts(), ip);
    }
    assert(c.stats.dom() =~= Set::<Seq<char>>::empty());
}

/// Ingesting any sequence of records keeps the statistics sound.
pub proof fn lemma_ingest_all_sound(c: CollectorView, records: Seq<LogEntryView>)
    requires
        c.sound(),
    ensures
        c.ingest_all(records).sound(),
    decreases records.len(),
{
    if records.len() > 0 {
        lemma_ingest_all_sound(c, records.drop_last());
        lemma_ingest_sound(c.ingest_all(records.drop_last()), records.last());
    }
}

/// Ingesting records that each name a client raises the total by exactly the
/// number of the records.
pub proof fn lemma_ingest_all_counts(c: CollectorView, records: Seq<LogEntryView>)
    requires
        forall|i: int| 0 <= i < records.len() ==> (#[trigger] records[i]).ip() is Some,
    ensures
        c.ingest_all(records).total_requests == c.total_requests + records.len(),
    decreases records.len(),
{
    if records.len() > 0 {
        let front = records.drop_last();
        assert forall|i: int| 0 <= i < front.len() implies (#[trigger] front[i]).ip() is Some by {
            assert(front[i] == records[i]);
        }
        lemma_ingest_all_counts(c, front);
        assert(records.last() == records[records.len() - 1]);
    }
}

/// Where no request was counted, the ranking of the clients is empty however
/// many are asked for, and every share is zero.
pub proof fn lemma_no_requests_no_ranking(c: CollectorView, n: nat, count: nat)
    requires
        c.sound(),
        c.total_requests == 0,
    ensures
        ranking(c.request_counts(), n) == Seq::<(Seq<char>, nat)>::empty(),
        permille(count, c.total_requests) == 0,
{
    lemma_no_requests(c);
    lemma_request_counts_dom(c);
    let none = Seq::<(Seq<char>, nat)>::empty();
    assert(is_ranking(c.request_counts(), n, none));
    lemma_ranking_is(c.request_counts(), n, none);
}

} // verus!
