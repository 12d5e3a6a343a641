//! Association lists keyed by strings, and the maps they stand for.
//!
//! The aggregator keeps its entries in two parallel vectors, keys and values,
//! in which no key occurs twice. What such a pair of vectors means is a finite
//! map from key to value; the lemmas below say how pushing an entry or
//! replacing a value changes that map.

use vstd::prelude::*;
use crate::lexical::str_eq;

verus! {

/// The character sequences of a list of strings.
pub open spec fn key_views(keys: Seq<String>) -> Seq<Seq<char>> {
    keys.map_values(|s: String| s@)
}

/// The counts of a list of machine integers, as natural numbers.
pub open spec fn nat_counts(counts: Seq<usize>) -> Seq<nat> {
    counts.map_values(|c: usize| c as nat)
}

/// The map that sends each key to the value at the key's position.
pub open spec fn assoc_map<V>(keys: Seq<Seq<char>>, values: Seq<V>) -> Map<Seq<char>, V> {
    Map::new(|k: Seq<char>| keys.contains(k), |k: Seq<char>| values[keys.index_of(k)])
}

/// In a list without duplicates, a key is found at its own position.
pub proof fn lemma_assoc_at<V>(keys: Seq<Seq<char>>, values: Seq<V>, i: int)
    requires
        keys.no_duplicates(),
        0 <= i < keys.len(),
    ensures
        keys.contains(keys[i]),
        keys.index_of(keys[i]) == i,
        assoc_map(keys, values).contains_key(keys[i]),
        assoc_map(keys, values)[keys[i]] == values[i],
{
    let j = keys.index_of(keys[i]);
    assert(0 <= j < keys.len() && keys[j] == keys[i]);
}

/// The map of a list without duplicates has as many keys as the list.
pub proof fn lemma_assoc_len<V>(keys: Seq<Seq<char>>, values: Seq<V>)
    requires
        keys.no_duplicates(),
    ensures
        assoc_map(keys, values).dom().finite(),
        assoc_map(keys, values).dom().len() == keys.len(),
        assoc_map(keys, values).dom() == keys.to_set(),
{
    assert(assoc_map(keys, values).dom() =~= keys.to_set());
    vstd::seq_lib::seq_to_set_is_finite(keys);
    keys.unique_seq_to_set();
}

/// Appending an entry with a new key inserts it into the map.
pub proof fn lemma_assoc_push<V>(keys: Seq<Seq<char>>, values: Seq<V>, k: Seq<char>, v: V)
    requires
        keys.no_duplicates(),
        keys.len() == values.len(),
        !keys.contains(k),
    ensures
        keys.push(k).no_duplicates(),
        assoc_map(keys.push(k), values.push(v)) == assoc_map(keys, values).insert(k, v),
{
    let keys2 = keys.push(k);
    let values2 = values.push(v);
    assert(keys2.no_duplicates()) by {
        assert forall|i: int, j: int| 0 <= i < keys2.len() && 0 <= j < keys2.len() && i != j
            implies keys2[i] != keys2[j] by {
            if i < keys.len() {
                assert(keys.contains(keys[i]));
            }
            if j < keys.len() {
                assert(keys.contains(keys[j]));
            }
        }
    }
    let m2 = assoc_map(keys2, values2);
    let m1 = assoc_map(keys, values).insert(k, v);
    assert forall|x: Seq<char>| m2.contains_key(x) <==> m1.contains_key(x) by {
        if keys2.contains(x) {
            let i = choose|i: int| 0 <= i < keys2.len() && keys2[i] == x;
            if i < keys.len() {
                assert(keys[i] == x);
            }
        }
        if keys.contains(x) {
            let i = choose|i: int| 0 <= i < keys.len() && keys[i] == x;
            assert(keys2[i] == x);
        }
        if x == k {
            assert(keys2[keys.len() as int] == k);
        }
    }
    assert forall|x: Seq<char>| m2.contains_key(x) implies m2[x] == m1[x] by {
        let i = keys2.index_of(x);
        lemma_assoc_at(keys2, values2, i);
        if i < keys.len() {
            lemma_assoc_at(keys, values, i);
        }
    }
    assert(m2 =~= m1);
}

/// Replacing the value at a position replaces the value of that position's key.
pub proof fn lemma_assoc_update<V>(keys: Seq<Seq<char>>, values: Seq<V>, i: int, v: V)
    requires
        keys.no_duplicates(),
        keys.len() == values.len(),
        0 <= i < keys.len(),
    ensures
        assoc_map(keys, values.update(i, v)) == assoc_map(keys, values).insert(keys[i], v),
{
    let m2 = assoc_map(keys, values.update(i, v));
    let m1 = assoc_map(keys, values).insert(keys[i], v);
    lemma_assoc_at(keys, values, i);
    assert forall|x: Seq<char>| m2.contains_key(x) implies m2[x] == m1[x] by {
        let j = keys.index_of(x);
        lemma_assoc_at(keys, values, j);
    }
    assert(m2 =~= m1);
}

/// Looks for `k` among `keys`; gives the first position where it stands.
pub fn find_key(keys: &Vec<String>, k: &str) -> (r: Option<usize>)
    ensures
        match r {
            Some(i) => i < keys.len() && keys[i as int]@ == k@ && forall|j: int|
                0 <= j < i ==> keys[j]@ != k@,
            None => !key_views(keys@).contains(k@),
        },
{
    let mut i: usize = 0;
    while i < keys.len()
        invariant
            i <= keys.len(),
            forall|j: int| 0 <= j < i ==> keys[j]@ != k@,
        decreases keys.len() - i,
    {
        if str_eq(keys[i].as_str(), k) {
            return Some(i);
        }
        i = i + 1;
    }
    None
}

} // verus!
