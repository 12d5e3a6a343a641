//! Ranking: the `n` entries with the highest counts, highest first.
//!
//! Entries with equal counts are ranked by key, so that a ranking is a function
//! of the counted map alone and does not depend on the order in which the
//! entries were first seen.

use vstd::prelude::*;
use crate::assoc::{assoc_map, key_views, lemma_assoc_at, lemma_assoc_len, nat_counts};
use crate::lexical::{
    key_before, lemma_key_order_strict_total, lemma_key_order_transitive, str_lt,
};

verus! {

/// Entry `(k1, c1)` is ranked strictly before entry `(k2, c2)`: it has the
/// higher count, or the same count and the earlier key.
pub open spec fn ranks_before(k1: Seq<char>, c1: nat, k2: Seq<char>, c2: nat) -> bool {
    c1 > c2 || (c1 == c2 && key_before(k1, k2))
}

/// Key `k` is one of the keys listed in `r`.
pub open spec fn listed(r: Seq<(Seq<char>, nat)>, k: Seq<char>) -> bool {
    exists|p: int| 0 <= p < r.len() && (#[trigger] r[p]).0 == k
}

/// Every entry listed in `r` is ranked before `(k, c)`.
pub open spec fn outranked(r: Seq<(Seq<char>, nat)>, k: Seq<char>, c: nat) -> bool {
    forall|p: int| 0 <= p < r.len() ==> ranks_before((#[trigger] r[p]).0, r[p].1, k, c)
}

/// The smaller of a requested length and what is available.
pub open spec fn capped(n: nat, available: nat) -> nat {
    if n <= available {
        n
    } else {
        available
    }
}

/// `r` is the ranking of the `n` best entries of `m`: as many entries as asked
/// for or as `m` has, each one an entry of `m`, in strictly descending rank,
/// and every entry of `m` that is left out ranked after all that are listed.
pub open spec fn is_ranking(m: Map<Seq<char>, nat>, n: nat, r: Seq<(Seq<char>, nat)>) -> bool {
    &&& r.len() == capped(n, m.dom().len())
    &&& forall|p: int|
        0 <= p < r.len() ==> m.contains_key((#[trigger] r[p]).0) && m[r[p].0] == r[p].1
    &&& forall|p: int, q: int|
        0 <= p < q < r.len() ==> ranks_before(
            (#[trigger] r[p]).0,
            r[p].1,
            (#[trigger] r[q]).0,
            r[q].1,
        )
    &&& forall|k: Seq<char>| #[trigger]
        m.contains_key(k) ==> listed(r, k) || outranked(r, k, m[k])
}

/// The ranking of the `n` best entries of `m`.
pub open spec fn ranking(m: Map<Seq<char>, nat>, n: nat) -> Seq<(Seq<char>, nat)> {
    choose|r: Seq<(Seq<char>, nat)>| is_ranking(m, n, r)
}

/// Of two entries with different keys exactly one is ranked before the other,
/// and no entry is ranked before itself.
pub proof fn lemma_rank_strict_total(k1: Seq<char>, c1: nat, k2: Seq<char>, c2: nat)
    ensures
        !ranks_before(k1, c1, k1, c1),
        !(ranks_before(k1, c1, k2, c2) && ranks_before(k2, c2, k1, c1)),
        k1 == k2 || ranks_before(k1, c1, k2, c2) || ranks_before(k2, c2, k1, c1),
{
    lemma_key_order_strict_total(k1, k2);
    lemma_key_order_strict_total(k1, k1);
}

/// Rank is transitive.
pub proof fn lemma_rank_transitive(
    k1: Seq<char>,
    c1: nat,
    k2: Seq<char>,
    c2: nat,
    k3: Seq<char>,
    c3: nat,
)
    requires
        ranks_before(k1, c1, k2, c2),
        ranks_before(k2, c2, k3, c3),
    ensures
        ranks_before(k1, c1, k3, c3),
{
    if c1 == c2 && c2 == c3 {
        lemma_key_order_transitive(k1, k2, k3);
    }
}

/// Two rankings of the same map and length agree up to any position.
proof fn lemma_rankings_agree(
    m: Map<Seq<char>, nat>,
    n: nat,
    r1: Seq<(Seq<char>, nat)>,
    r2: Seq<(Seq<char>, nat)>,
    upto: int,
)
    requires
        is_ranking(m, n, r1),
        is_ranking(m, n, r2),
        0 <= upto <= r1.len(),
    ensures
        forall|p: int| 0 <= p < upto ==> r1[p] == r2[p],
    decreases upto,
{
    if upto > 0 {
        lemma_rankings_agree(m, n, r1, r2, upto - 1);
        let p = upto - 1;
        let a = r1[p];
        let b = r2[p];
        lemma_not_ahead(m, n, r1, r2, p);
        lemma_not_ahead(m, n, r2, r1, p);
        lemma_rank_strict_total(a.0, a.1, b.0, b.1);
        assert(a.0 == b.0);
        assert(m[a.0] == a.1 && m[b.0] == b.1);
    }
}

/// Where two rankings agree before position `p`, the first one's entry at `p`
/// is not ranked before the second one's.
proof fn lemma_not_ahead(
    m: Map<Seq<char>, nat>,
    n: nat,
    r1: Seq<(Seq<char>, nat)>,
    r2: Seq<(Seq<char>, nat)>,
    p: int,
)
    requires
        is_ranking(m, n, r1),
        is_ranking(m, n, r2),
        0 <= p < r1.len(),
        forall|q: int| 0 <= q < p ==> r1[q] == r2[q],
    ensures
        !ranks_before(r1[p].0, r1[p].1, r2[p].0, r2[p].1),
{
    let a = r1[p];
    let b = r2[p];
    if ranks_before(a.0, a.1, b.0, b.1) {
        assert(m.contains_key(a.0));
        lemma_rank_strict_total(a.0, a.1, b.0, b.1);
        if listed(r2, a.0) {
            let q = choose|q: int| 0 <= q < r2.len() && (#[trigger] r2[q]).0 == a.0;
            assert(r2[q].1 == a.1);
            if q < p {
                assert(r1[q] == r2[q]);
                assert(ranks_before(r1[q].0, r1[q].1, r1[p].0, r1[p].1));
                lemma_rank_strict_total(a.0, a.1, a.0, a.1);
            } else if q > p {
                assert(ranks_before(r2[p].0, r2[p].1, r2[q].0, r2[q].1));
            }
        } else {
            assert(outranked(r2, a.0, a.1));
            assert(ranks_before(r2[p].0, r2[p].1, a.0, a.1));
        }
    }
}

/// A map has at most one ranking of each length: the conditions of
/// [`is_ranking`] determine every position.
pub proof fn lemma_ranking_unique(
    m: Map<Seq<char>, nat>,
    n: nat,
    r1: Seq<(Seq<char>, nat)>,
    r2: Seq<(Seq<char>, nat)>,
)
    requires
        is_ranking(m, n, r1),
        is_ranking(m, n, r2),
    ensures
        r1 == r2,
{
    lemma_rankings_agree(m, n, r1, r2, r1.len() as int);
    assert(r1 =~= r2);
}

/// A sequence that meets [`is_ranking`] is the ranking.
pub proof fn lemma_ranking_is(m: Map<Seq<char>, nat>, n: nat, r: Seq<(Seq<char>, nat)>)
    requires
        is_ranking(m, n, r),
    ensures
        ranking(m, n) == r,
{
    lemma_ranking_unique(m, n, ranking(m, n), r);
}

/// The keys listed in `r`, in their order.
pub open spec fn keys_of(r: Seq<(Seq<char>, nat)>) -> Seq<Seq<char>> {
    r.map_values(|e: (Seq<char>, nat)| e.0)
}

/// Among finitely many keys, and at least one, there is one whose entry is
/// ranked before the entries of all the others.
proof fn lemma_best_exists(m: Map<Seq<char>, nat>, keys: Set<Seq<char>>) -> (best: Seq<char>)
    requires
        keys.finite(),
        keys.len() > 0,
    ensures
        keys.contains(best),
        forall|k: Seq<char>|
            keys.contains(k) && k != best ==> ranks_before(best, m[best], k, #[trigger] m[k]),
    decreases keys.len(),
{
    let a = keys.choose();
    let others = keys.remove(a);
    if others.len() == 0 {
        assert forall|k: Seq<char>| keys.contains(k) && k != a implies ranks_before(
            a,
            m[a],
            k,
            #[trigger] m[k],
        ) by {
            assert(others.contains(k));
        }
        a
    } else {
        let b = lemma_best_exists(m, others);
        lemma_rank_strict_total(a, m[a], b, m[b]);
        if ranks_before(a, m[a], b, m[b]) {
            assert forall|k: Seq<char>| keys.contains(k) && k != a implies ranks_before(
                a,
                m[a],
                k,
                #[trigger] m[k],
            ) by {
                assert(others.contains(k));
                if k != b {
                    lemma_rank_transitive(a, m[a], b, m[b], k, m[k]);
                }
            }
            a
        } else {
            assert forall|k: Seq<char>| keys.contains(k) && k != b implies ranks_before(
                b,
                m[b],
                k,
                #[trigger] m[k],
            ) by {
                if k != a {
                    assert(others.contains(k));
                }
            }
            b
        }
    }
}

/// Every finite map has a ranking of every length, so [`ranking`] is one.
pub proof fn lemma_ranking_exists(m: Map<Seq<char>, nat>, n: nat)
    requires
        m.dom().finite(),
    ensures
        is_ranking(m, n, ranking(m, n)),
    decreases n,
{
    if n == 0 {
        assert(is_ranking(m, n, Seq::<(Seq<char>, nat)>::empty()));
    } else {
        let shorter = ranking(m, (n - 1) as nat);
        lemma_ranking_exists(m, (n - 1) as nat);
        if m.dom().len() <= n - 1 {
            assert(is_ranking(m, n, shorter));
        } else {
            // More keys than are listed: one of those left out is the next.
            let listed_keys = keys_of(shorter).to_set();
            assert forall|k: Seq<char>| listed_keys.contains(k) <==> listed(shorter, k) by {
                if listed_keys.contains(k) {
                    let p = choose|p: int|
                        0 <= p < keys_of(shorter).len() && keys_of(shorter)[p] == k;
                    assert(shorter[p].0 == k);
                }
                if listed(shorter, k) {
                    let p = choose|p: int| 0 <= p < shorter.len() && (#[trigger] shorter[p]).0 == k;
                    assert(keys_of(shorter)[p] == k);
                }
            }
            vstd::seq_lib::seq_to_set_is_finite(keys_of(shorter));
            keys_of(shorter).lemma_cardinality_of_set();
            let rest = m.dom().difference(listed_keys);
            assert(m.dom().intersect(listed_keys) =~= listed_keys) by {
                assert forall|k: Seq<char>| listed_keys.contains(k) implies m.dom().contains(k) by {
                    let p = choose|p: int| 0 <= p < shorter.len() && (#[trigger] shorter[p]).0 == k;
                    assert(m.contains_key(shorter[p].0));
                }
            }
            vstd::set_lib::lemma_set_difference_len(m.dom(), listed_keys);
            let best = lemma_best_exists(m, rest);
            let longer = shorter.push((best, m[best]));
            assert(m.contains_key(best));
            assert(!listed(shorter, best));
            assert(outranked(shorter, best, m[best]));
            assert forall|p: int|
                0 <= p < longer.len() implies m.contains_key((#[trigger] longer[p]).0)
                && m[longer[p].0] == longer[p].1 by {
                if p < shorter.len() {
                    assert(longer[p] == shorter[p]);
                }
            }
            assert forall|p: int, q: int| 0 <= p < q < longer.len() implies ranks_before(
                (#[trigger] longer[p]).0,
                longer[p].1,
                (#[trigger] longer[q]).0,
                longer[q].1,
            ) by {
                assert(longer[p] == shorter[p]);
                if q < shorter.len() {
                    assert(longer[q] == shorter[q]);
                }
            }
            assert forall|k: Seq<char>| #[trigger] m.contains_key(k) implies listed(longer, k)
                || outranked(longer, k, m[k]) by {
                if listed(shorter, k) {
                    let p = choose|p: int| 0 <= p < shorter.len() && (#[trigger] shorter[p]).0 == k;
                    assert(longer[p].0 == k);
                } else if k == best {
                    assert(longer[shorter.len() as int].0 == k);
                } else {
                    assert(rest.contains(k));
                    assert(outranked(shorter, k, m[k]));
                    assert forall|p: int| 0 <= p < longer.len() implies ranks_before(
                        (#[trigger] longer[p]).0,
                        longer[p].1,
                        k,
                        m[k],
                    ) by {
                        if p < shorter.len() {
                            assert(longer[p] == shorter[p]);
                        }
                    }
                }
            }
            assert(is_ranking(m, n, longer));
        }
    }
}

/// Position `a` is ranked before position `b` in an association list.
pub open spec fn before_at(keys: Seq<Seq<char>>, counts: Seq<usize>, a: int, b: int) -> bool {
    ranks_before(keys[a], counts[a] as nat, keys[b], counts[b] as nat)
}

/// Position `j` is one of the positions held in `top`.
pub open spec fn holds(top: Seq<usize>, j: int) -> bool {
    exists|p: int| 0 <= p < top.len() && #[trigger] top[p] == j
}

/// Every position held in `top` is ranked before position `j`.
pub open spec fn trails(keys: Seq<Seq<char>>, counts: Seq<usize>, top: Seq<usize>, j: int) -> bool {
    forall|p: int| 0 <= p < top.len() ==> before_at(keys, counts, #[trigger] top[p] as int, j)
}

/// `top` holds the positions of the `n` best among the first `len` entries,
/// best first.
pub open spec fn ranks_prefix(
    keys: Seq<Seq<char>>,
    counts: Seq<usize>,
    len: int,
    n: nat,
    top: Seq<usize>,
) -> bool {
    &&& top.len() == capped(n, len as nat)
    &&& forall|p: int| 0 <= p < top.len() ==> #[trigger] top[p] < len
    &&& forall|p: int, q: int|
        0 <= p < q < top.len() ==> before_at(
            keys,
            counts,
            #[trigger] top[p] as int,
            #[trigger] top[q] as int,
        )
    &&& forall|j: int| 0 <= j < len ==> #[trigger] holds(top, j) || trails(keys, counts, top, j)
}

/// The entries at the positions held in `top`.
pub open spec fn entries_at(keys: Seq<Seq<char>>, counts: Seq<usize>, top: Seq<usize>) -> Seq<
    (Seq<char>, nat),
> {
    Seq::new(top.len(), |p: int| (keys[top[p] as int], counts[top[p] as int] as nat))
}

/// Positions that rank a whole association list give the ranking of its map.
pub proof fn lemma_positions_rank_map(
    keys: Seq<Seq<char>>,
    counts: Seq<usize>,
    n: nat,
    top: Seq<usize>,
)
    requires
        keys.no_duplicates(),
        keys.len() == counts.len(),
        ranks_prefix(keys, counts, keys.len() as int, n, top),
    ensures
        is_ranking(assoc_map(keys, nat_counts(counts)), n, entries_at(keys, counts, top)),
{
    let m = assoc_map(keys, nat_counts(counts));
    let r = entries_at(keys, counts, top);
    lemma_assoc_len(keys, nat_counts(counts));
    assert forall|p: int| 0 <= p < r.len() implies m.contains_key((#[trigger] r[p]).0) && m[r[p].0]
        == r[p].1 by {
        lemma_assoc_at(keys, nat_counts(counts), top[p] as int);
    }
    assert forall|p: int, q: int| 0 <= p < q < r.len() implies ranks_before(
        (#[trigger] r[p]).0,
        r[p].1,
        (#[trigger] r[q]).0,
        r[q].1,
    ) by {
        assert(before_at(keys, counts, top[p] as int, top[q] as int));
    }
    assert forall|k: Seq<char>| #[trigger] m.contains_key(k) implies listed(r, k) || outranked(
        r,
        k,
        m[k],
    ) by {
        let j = keys.index_of(k);
        lemma_assoc_at(keys, nat_counts(counts), j);
        if holds(top, j) {
            let p = choose|p: int| 0 <= p < top.len() && #[trigger] top[p] == j;
            assert(r[p].0 == k);
        } else {
            assert(trails(keys, counts, top, j));
            assert forall|p: int| 0 <= p < r.len() implies ranks_before(
                (#[trigger] r[p]).0,
                r[p].1,
                k,
                m[k],
            ) by {
                assert(before_at(keys, counts, top[p] as int, j));
            }
        }
    }
}

/// Whether the entry at position `a` is ranked before the one at position `b`.
fn entry_before(keys: &Vec<String>, counts: &Vec<usize>, a: usize, b: usize) -> (r: bool)
    requires
        keys.len() == counts.len(),
        a < keys.len(),
        b < keys.len(),
    ensures
        r == before_at(key_views(keys@), counts@, a as int, b as int),
{
    if counts[a] != counts[b] {
        counts[a] > counts[b]
    } else {
        str_lt(keys[a].as_str(), keys[b].as_str())
    }
}

/// The positions of the `n` best entries of an association list, best first.
pub fn rank_top(keys: &Vec<String>, counts: &Vec<usize>, n: usize) -> (top: Vec<usize>)
    requires
        keys.len() == counts.len(),
        key_views(keys@).no_duplicates(),
    ensures
        ranks_prefix(key_views(keys@), counts@, keys.len() as int, n as nat, top@),
{
    let ghost kv = key_views(keys@);
    let mut top: Vec<usize> = Vec::new();
    let mut i: usize = 0;
    while i < keys.len()
        invariant
            i <= keys.len(),
            keys.len() == counts.len(),
            kv == key_views(keys@),
            kv.no_duplicates(),
            ranks_prefix(kv, counts@, i as int, n as nat, top@),
            top@.len() < n ==> forall|j: int| 0 <= j < i ==> holds(top@, j),
        decreases keys.len() - i,
    {
        let mut pos: usize = 0;
        while pos < top.len() && entry_before(keys, counts, top[pos], i)
            invariant
                pos <= top.len(),
                i < keys.len(),
                keys.len() == counts.len(),
                kv == key_views(keys@),
                forall|p: int| 0 <= p < top.len() ==> #[trigger] top[p] < i,
                forall|p: int| 0 <= p < pos ==> before_at(kv, counts@, #[trigger] top[p] as int, i as int),
            decreases top.len() - pos,
        {
            pos = pos + 1;
        }
        let ghost old_top = top@;
        proof {
            // Everything from `pos` on is ranked after the new entry.
            assert forall|q: int| pos <= q < old_top.len() implies before_at(
                kv,
                counts@,
                i as int,
                #[trigger] old_top[q] as int,
            ) by {
                let f = old_top[pos as int] as int;
                let g = old_top[q] as int;
                lemma_rank_strict_total(kv[f], counts@[f] as nat, kv[i as int], counts@[i as int] as nat);
                assert(kv[f] != kv[i as int]);
                if q > pos {
                    assert(before_at(kv, counts@, f, g));
                    lemma_rank_transitive(
                        kv[i as int],
                        counts@[i as int] as nat,
                        kv[f],
                        counts@[f] as nat,
                        kv[g],
                        counts@[g] as nat,
                    );
                }
            }
        }
        if pos < n {
            top.insert(pos, i);
            if top.len() > n {
                top.pop();
            }
            proof {
                lemma_inserted(kv, counts@, i as int, n as nat, old_top, pos as int, top@);
            }
        } else {
            proof {
                assert forall|j: int| 0 <= j < i + 1 implies #[trigger] holds(top@, j) || trails(
                    kv,
                    counts@,
                    top@,
                    j,
                ) by {
                    if j == i {
                        assert(trails(kv, counts@, top@, j));
                    }
                }
            }
        }
        i = i + 1;
    }
    top
}

/// Inserting position `i` at its place among the best of the first `i`
/// entries, and dropping the last one if that makes one too many, gives the
/// best of the first `i + 1`.
proof fn lemma_inserted(
    kv: Seq<Seq<char>>,
    counts: Seq<usize>,
    i: int,
    n: nat,
    old_top: Seq<usize>,
    pos: int,
    new_top: Seq<usize>,
)
    requires
        0 <= i < kv.len(),
        i <= usize::MAX,
        kv.len() == counts.len(),
        ranks_prefix(kv, counts, i, n, old_top),
        old_top.len() < n ==> forall|j: int| 0 <= j < i ==> holds(old_top, j),
        0 <= pos <= old_top.len(),
        pos < n,
        forall|p: int| 0 <= p < pos ==> before_at(kv, counts, #[trigger] old_top[p] as int, i),
        forall|q: int| pos <= q < old_top.len() ==> before_at(kv, counts, i, #[trigger] old_top[q] as int),
        new_top == if old_top.len() + 1 > n {
            old_top.insert(pos, i as usize).drop_last()
        } else {
            old_top.insert(pos, i as usize)
        },
    ensures
        ranks_prefix(kv, counts, i + 1, n, new_top),
        new_top.len() < n ==> forall|j: int| 0 <= j < i + 1 ==> holds(new_top, j),
{
    let full = old_top.insert(pos, i as usize);
    assert(full.len() == old_top.len() + 1);
    assert(full[pos] == i);
    assert(forall|p: int| 0 <= p < pos ==> full[p] == old_top[p]);
    assert(forall|p: int| pos < p < full.len() ==> full[p] == old_top[p - 1]);
    // The list with the new position in it is in descending rank.
    assert forall|p: int, q: int| 0 <= p < q < full.len() implies before_at(
        kv,
        counts,
        #[trigger] full[p] as int,
        #[trigger] full[q] as int,
    ) by {
        if q < pos {
            assert(before_at(kv, counts, old_top[p] as int, old_top[q] as int));
        } else if q == pos {
            assert(before_at(kv, counts, old_top[p] as int, i));
        } else if p < pos {
            assert(before_at(kv, counts, old_top[p] as int, old_top[q - 1] as int));
        } else if p == pos {
            assert(before_at(kv, counts, i, old_top[q - 1] as int));
        } else {
            assert(before_at(kv, counts, old_top[p - 1] as int, old_top[q - 1] as int));
        }
    }
    // Every position seen so far is in it or ranked after all of it.
    assert forall|j: int| 0 <= j < i + 1 implies #[trigger] holds(full, j) || trails(
        kv,
        counts,
        full,
        j,
    ) by {
        if j == i {
            assert(full[pos] == j);
        } else if holds(old_top, j) {
            let p = choose|p: int| 0 <= p < old_top.len() && #[trigger] old_top[p] == j;
            if p < pos {
                assert(full[p] == j);
            } else {
                assert(full[p + 1] == j);
            }
        } else {
            assert(trails(kv, counts, old_top, j));
            assert(old_top.len() == n);
            let last = old_top[old_top.len() - 1] as int;
            assert(before_at(kv, counts, i, last));
            assert(before_at(kv, counts, last, j));
            lemma_rank_transitive(
                kv[i],
                counts[i] as nat,
                kv[last],
                counts[last] as nat,
                kv[j],
                counts[j] as nat,
            );
            assert forall|p: int| 0 <= p < full.len() implies before_at(
                kv,
                counts,
                #[trigger] full[p] as int,
                j,
            ) by {
                if p < pos {
                    assert(before_at(kv, counts, old_top[p] as int, j));
                } else if p > pos {
                    assert(before_at(kv, counts, old_top[p - 1] as int, j));
                }
            }
        }
    }
    if old_top.len() + 1 > n {
        // The last one is dropped: it is ranked after all that stay.
        let dropped = full[full.len() - 1] as int;
        assert(forall|p: int| 0 <= p < new_top.len() ==> new_top[p] == full[p]);
        assert forall|j: int| 0 <= j < i + 1 implies #[trigger] holds(new_top, j) || trails(
            kv,
            counts,
            new_top,
            j,
        ) by {
            if holds(full, j) {
                let p = choose|p: int| 0 <= p < full.len() && #[trigger] full[p] == j;
                if p < new_top.len() {
                    assert(new_top[p] == j);
                } else {
                    assert(j == dropped);
                    assert forall|q: int| 0 <= q < new_top.len() implies before_at(
                        kv,
                        counts,
                        #[trigger] new_top[q] as int,
                        j,
                    ) by {
                        assert(before_at(kv, counts, full[q] as int, full[p] as int));
                    }
                }
            } else {
                assert(trails(kv, counts, full, j));
                assert forall|q: int| 0 <= q < new_top.len() implies before_at(
                    kv,
                    counts,
                    #[trigger] new_top[q] as int,
                    j,
                ) by {
                    assert(before_at(kv, counts, full[q] as int, j));
                }
            }
        }
    } else {
        assert(new_top == full);
        if new_top.len() < n {
            assert forall|j: int| 0 <= j < i + 1 implies holds(new_top, j) by {
                if j == i {
                    assert(full[pos] == j);
                } else {
                    assert(holds(old_top, j));
                    let p = choose|p: int| 0 <= p < old_top.len() && #[trigger] old_top[p] == j;
                    if p < pos {
                        assert(full[p] == j);
                    } else {
                        assert(full[p + 1] == j);
                    }
                }
            }
        }
    }
}

} // verus!
