//! The mathematical model of one bucket: a chain of entries.
//!
//! A chain is a sequence of `(key, value)` pairs in the order in which the
//! bucket stores them: the inline slot first, then the overflow entries.
//! Everything here is specification and proof; the executable bucket is
//! proved against these functions.

use vstd::prelude::*;

verus! {

/// Index of the first entry of `chain` whose key is `key`, or
/// `chain.len()` if no entry has that key.
pub open spec fn position<K, V>(chain: Seq<(K, V)>, key: K) -> int
    decreases chain.len(),
{
    if chain.len() == 0 {
        0
    } else if chain[0].0 == key {
        0
    } else {
        1 + position(chain.drop_first(), key)
    }
}

/// Whether some entry of `chain` has the key `key`.
pub open spec fn has_key<K, V>(chain: Seq<(K, V)>, key: K) -> bool {
    position(chain, key) < chain.len()
}

/// No key occurs twice in `chain`.
pub open spec fn distinct_keys<K, V>(chain: Seq<(K, V)>) -> bool {
    forall|i: int, j: int| 0 <= i < j < chain.len() ==> chain[i].0 != chain[j].0
}

/// The entry stored under `key`, if there is one.
pub open spec fn chain_get<K, V>(chain: Seq<(K, V)>, key: K) -> Option<(K, V)> {
    if has_key(chain, key) {
        Some(chain[position(chain, key)])
    } else {
        None
    }
}

/// The chain after storing `(key, value)`: an entry with an equal key is
/// overwritten where it stands, otherwise the new entry goes to the end.
pub open spec fn chain_put<K, V>(chain: Seq<(K, V)>, key: K, value: V) -> Seq<(K, V)> {
    if has_key(chain, key) {
        chain.update(position(chain, key), (key, value))
    } else {
        chain.push((key, value))
    }
}

/// The chain after removing `key`. Removing the head moves the last entry
/// into its place, so that the inline slot stays occupied; removing any
/// other entry keeps the order of the rest.
pub open spec fn chain_del<K, V>(chain: Seq<(K, V)>, key: K) -> Seq<(K, V)> {
    let p = position(chain, key);
    if p >= chain.len() {
        chain
    } else if p == 0 {
        if chain.len() == 1 {
            Seq::empty()
        } else {
            seq![chain.last()] + chain.subrange(1, chain.len() - 1)
        }
    } else {
        chain.remove(p)
    }
}

/// `position` returns the least index that holds `key`, or the length.
pub proof fn lemma_position_is_first<K, V>(chain: Seq<(K, V)>, key: K)
    ensures
        0 <= position(chain, key) <= chain.len(),
        has_key(chain, key) ==> chain[position(chain, key)].0 == key,
        forall|j: int| 0 <= j < position(chain, key) ==> chain[j].0 != key,
    decreases chain.len(),
{
    if chain.len() != 0 && chain[0].0 != key {
        let rest = chain.drop_first();
        lemma_position_is_first(rest, key);
        assert forall|j: int| 0 <= j < position(chain, key) implies chain[j].0 != key by {
            if j > 0 {
                assert(chain[j] == rest[j - 1]);
            }
        }
    }
}

/// An index before which `key` does not occur, and which holds `key` unless
/// it is the length, is the position of `key`.
pub proof fn lemma_position_at<K, V>(chain: Seq<(K, V)>, key: K, i: int)
    requires
        0 <= i <= chain.len(),
        forall|j: int| 0 <= j < i ==> chain[j].0 != key,
        i < chain.len() ==> chain[i].0 == key,
    ensures
        position(chain, key) == i,
{
    lemma_position_is_first(chain, key);
}

/// In a chain without repeated keys, a key is found where it stands.
pub proof fn lemma_position_of_entry<K, V>(chain: Seq<(K, V)>, i: int)
    requires
        distinct_keys(chain),
        0 <= i < chain.len(),
    ensures
        position(chain, chain[i].0) == i,
{
    lemma_position_is_first(chain, chain[i].0);
}

/// Storing an entry keeps the keys distinct, finds the new entry under its
/// key and leaves every other key as it was.
pub proof fn lemma_chain_put<K, V>(chain: Seq<(K, V)>, key: K, value: V, other: K)
    requires
        distinct_keys(chain),
    ensures
        distinct_keys(chain_put(chain, key, value)),
        chain_get(chain_put(chain, key, value), key) == Some((key, value)),
        other != key ==> chain_get(chain_put(chain, key, value), other) == chain_get(
            chain,
            other,
        ),
        chain_put(chain, key, value).len() == chain.len() + if has_key(chain, key) {
            0int
        } else {
            1int
        },
{
    let after = chain_put(chain, key, value);
    let p = position(chain, key);
    lemma_position_is_first(chain, key);
    lemma_position_is_first(chain, other);
    assert(distinct_keys(after));
    lemma_position_at(after, key, p);
    if other != key {
        let q = position(chain, other);
        if q < chain.len() {
            lemma_position_at(after, other, q);
        } else {
            lemma_position_at(after, other, after.len() as int);
        }
    }
}

/// Removing a key keeps the keys distinct, leaves the key absent and leaves
/// every other key as it was.
pub proof fn lemma_chain_del<K, V>(chain: Seq<(K, V)>, key: K, other: K)
    requires
        distinct_keys(chain),
    ensures
        distinct_keys(chain_del(chain, key)),
        chain_get(chain_del(chain, key), key) is None,
        other != key ==> chain_get(chain_del(chain, key), other) == chain_get(chain, other),
        chain_del(chain, key).len() == chain.len() - if has_key(chain, key) {
            1int
        } else {
            0int
        },
{
    let after = chain_del(chain, key);
    let p = position(chain, key);
    let n = chain.len() as int;
    lemma_position_is_first(chain, key);
    lemma_position_is_first(chain, other);
    let q = position(chain, other);
    if p >= n {
    } else if p == 0 {
        if n == 1 {
            lemma_position_at(after, key, 0);
            lemma_position_at(after, other, 0);
        } else {
            // after = [last] ++ chain[1 .. n-1]
            assert(after.len() == n - 1);
            assert(after[0] == chain[n - 1]);
            assert forall|i: int| 1 <= i < n - 1 implies after[i] == chain[i] by {}
            assert(distinct_keys(after));
            lemma_position_at(after, key, n - 1);
            if other != key {
                if q == n {
                    lemma_position_at(after, other, n - 1);
                } else if q == n - 1 {
                    lemma_position_at(after, other, 0);
                } else {
                    lemma_position_at(after, other, q);
                }
            }
        }
    } else {
        assert(after.len() == n - 1);
        assert forall|i: int| 0 <= i < n - 1 implies after[i] == if i < p {
            chain[i]
        } else {
            chain[i + 1]
        } by {}
        assert(distinct_keys(after));
        lemma_position_at(after, key, n - 1);
        if other != key {
            if q < p {
                lemma_position_at(after, other, q);
            } else {
                lemma_position_at(after, other, q - 1);
            }
        }
    }
}

/// The finite map that a chain stands for: each key that occurs, with the
/// value of its first entry.
pub open spec fn chain_map<K, V>(chain: Seq<(K, V)>) -> Map<K, V> {
    Map::new(|k: K| has_key(chain, k), |k: K| chain[position(chain, k)].1)
}

/// A key is in the chain exactly if some entry carries it.
pub proof fn lemma_has_key_iff<K, V>(chain: Seq<(K, V)>, key: K)
    ensures
        has_key(chain, key) <==> exists|i: int| 0 <= i < chain.len() && (#[trigger] chain[i]).0 == key,
{
    lemma_position_is_first(chain, key);
    if has_key(chain, key) {
        assert(chain[position(chain, key)].0 == key);
    }
}

/// A chain without repeated keys stands for a map with one key per entry.
pub proof fn lemma_chain_map_len<K, V>(chain: Seq<(K, V)>)
    requires
        distinct_keys(chain),
    ensures
        chain_map(chain).dom().finite(),
        chain_map(chain).dom().len() == chain.len(),
    decreases chain.len(),
{
    if chain.len() == 0 {
        assert forall|k: K| !has_key(chain, k) by {
            lemma_position_is_first(chain, k);
        }
        assert(chain_map(chain).dom() =~= Set::<K>::empty());
    } else {
        let init = chain.drop_last();
        let last = chain.last();
        lemma_chain_map_len(init);
        assert forall|k: K| has_key(chain, k) <==> (has_key(init, k) || k == last.0) by {
            lemma_has_key_iff(chain, k);
            lemma_has_key_iff(init, k);
            if has_key(init, k) {
                let i = choose|i: int| 0 <= i < init.len() && (#[trigger] init[i]).0 == k;
                assert(chain[i].0 == k);
            }
            if has_key(chain, k) && k != last.0 {
                let i = choose|i: int| 0 <= i < chain.len() && (#[trigger] chain[i]).0 == k;
                assert(init[i].0 == k);
            }
            if k == last.0 {
                assert(chain[chain.len() - 1].0 == k);
            }
        }
        assert(!has_key(init, last.0)) by {
            lemma_has_key_iff(init, last.0);
            if has_key(init, last.0) {
                let i = choose|i: int| 0 <= i < init.len() && (#[trigger] init[i]).0 == last.0;
                assert(chain[i].0 == chain[chain.len() - 1].0);
            }
        }
        assert(chain_map(chain).dom() =~= chain_map(init).dom().insert(last.0));
    }
}

/// Appending an entry with a new key is `insert` on the map.
pub proof fn lemma_chain_map_push<K, V>(chain: Seq<(K, V)>, entry: (K, V))
    requires
        !has_key(chain, entry.0),
    ensures
        chain_map(chain.push(entry)) == chain_map(chain).insert(entry.0, entry.1),
{
    let longer = chain.push(entry);
    let m = chain_map(chain).insert(entry.0, entry.1);
    assert forall|k: K|
        has_key(longer, k) == m.dom().contains(k) && (has_key(longer, k) ==> longer[position(
            longer,
            k,
        )].1 == m[k]) by {
        lemma_position_is_first(chain, k);
        if has_key(chain, k) {
            lemma_position_at(longer, k, position(chain, k));
        } else if k == entry.0 {
            lemma_position_at(longer, k, chain.len() as int);
        } else {
            lemma_position_at(longer, k, longer.len() as int);
        }
    }
    assert(chain_map(longer) =~= m);
}

/// In a chain without repeated keys, the map holds exactly the pairs that
/// occur as entries.
pub proof fn lemma_chain_map_pairs<K, V>(chain: Seq<(K, V)>, key: K, value: V)
    requires
        distinct_keys(chain),
    ensures
        chain_map(chain).contains_pair(key, value) <==> chain.contains((key, value)),
{
    lemma_position_is_first(chain, key);
    if chain.contains((key, value)) {
        let i = choose|i: int| 0 <= i < chain.len() && chain[i] == (key, value);
        lemma_position_of_entry(chain, i);
    }
    if chain_map(chain).contains_pair(key, value) {
        assert(chain[position(chain, key)] == (key, value));
    }
}

} // verus!
