//! What the table model means as a map.
//!
//! The laws are stated for a table that is `consistent` with a hash
//! function `h`: every entry sits in the bucket that `h` sends its key to.
//! A table that is only ever given `h(key)` as the hash of `key` starts
//! consistent and stays so, and behaves as the finite map `as_map`.

use crate::chain::{
    chain_del, chain_map, chain_put, distinct_keys, has_key, lemma_chain_del,
    lemma_chain_map_len, lemma_chain_map_pairs, lemma_chain_map_push, lemma_chain_put,
    lemma_has_key_iff, lemma_position_is_first, lemma_position_of_entry, position,
};
use crate::model::{
    as_map, capacity_of, chains_distinct, consistent, del, empties, entries, grown, grown_size,
    hashes_by, insert_all, insert_next, lemma_entries_cover, lemma_entries_len_update,
    lemma_entries_of_empties, lemma_entries_origin, lemma_rehash_shape, lookup, must_grow,
    overloaded, put, rehash, reserved, shrunk_size, slot_of, LOAD_FACTOR_NUM,
};
use vstd::prelude::*;

verus! {

/// No key occurs at two places of the table.
spec fn all_distinct<K, V>(t: Seq<Seq<(K, V)>>) -> bool {
    forall|i: int, j: int, i2: int, j2: int|
        0 <= i < t.len() && 0 <= j < t[i].len() && 0 <= i2 < t.len() && 0 <= j2 < t[i2].len() && (
        #[trigger] t[i][j]).0 == (#[trigger] t[i2][j2]).0 ==> i == i2 && j == j2
}

proof fn lemma_all_distinct<K, V>(t: Seq<Seq<(K, V)>>, h: spec_fn(K) -> u64)
    requires
        consistent(t, h),
    ensures
        all_distinct(t),
{
    assert forall|i: int, j: int, i2: int, j2: int|
        0 <= i < t.len() && 0 <= j < t[i].len() && 0 <= i2 < t.len() && 0 <= j2 < t[i2].len() && (
        #[trigger] t[i][j]).0 == (#[trigger] t[i2][j2]).0 implies i == i2 && j == j2 by {
        assert(distinct_keys(t[i]));
    }
}

proof fn lemma_all_distinct_entries<K, V>(t: Seq<Seq<(K, V)>>)
    requires
        all_distinct(t),
    ensures
        distinct_keys(entries(t)),
    decreases t.len(),
{
    if t.len() > 0 {
        let rest = t.drop_first();
        assert forall|i: int, j: int, i2: int, j2: int|
            0 <= i < rest.len() && 0 <= j < rest[i].len() && 0 <= i2 < rest.len() && 0 <= j2
                < rest[i2].len() && (#[trigger] rest[i][j]).0 == (#[trigger] rest[i2][j2]).0 implies i
            == i2 && j == j2 by {
            assert(rest[i][j] == t[i + 1][j]);
            assert(rest[i2][j2] == t[i2 + 1][j2]);
        }
        lemma_all_distinct_entries(rest);
        let es = entries(t);
        let head = t[0];
        assert(es =~= head + entries(rest));
        assert forall|a: int, b: int| 0 <= a < b < es.len() implies es[a].0 != es[b].0 by {
            if b < head.len() {
                assert(es[a] == t[0][a]);
                assert(es[b] == t[0][b]);
            } else if a >= head.len() {
                assert(es[a] == entries(rest)[a - head.len()]);
                assert(es[b] == entries(rest)[b - head.len()]);
            } else {
                let (i, j) = lemma_entries_origin(rest, b - head.len());
                assert(es[a] == t[0][a]);
                assert(es[b] == t[i + 1][j]);
            }
        }
    }
}

/// In a consistent table no key occurs twice among all entries.
pub proof fn lemma_entries_distinct<K, V>(t: Seq<Seq<(K, V)>>, h: spec_fn(K) -> u64)
    requires
        consistent(t, h),
    ensures
        distinct_keys(entries(t)),
{
    lemma_all_distinct(t, h);
    lemma_all_distinct_entries(t);
}

/// Looking a key up with its hash finds what the map holds for it: the
/// one bucket that the table searches is the one where the key can be.
pub proof fn lemma_lookup_is_map_get<K, V>(t: Seq<Seq<(K, V)>>, h: spec_fn(K) -> u64, key: K)
    requires
        consistent(t, h),
    ensures
        lookup(t, h(key), key) == if as_map(t).contains_key(key) {
            Some((key, as_map(t)[key]))
        } else {
            None
        },
{
    let es = entries(t);
    lemma_entries_distinct(t, h);
    lemma_position_is_first(es, key);
    if has_key(es, key) {
        let idx = position(es, key);
        let (i, j) = lemma_entries_origin(t, idx);
        assert(t[i][j].0 == key);
        assert(distinct_keys(t[i]));
        lemma_position_of_entry(t[i], j);
    } else if t.len() > 0 {
        let s = slot_of(h(key), t.len());
        lemma_position_is_first(t[s], key);
        if has_key(t[s], key) {
            let idx = lemma_entries_cover(t, s, position(t[s], key));
            lemma_has_key_iff(es, key);
            assert(es[idx].0 == key);
        }
    }
}

/// Storing a pair with the hash of its key is `insert` on the map. The
/// table stays consistent, and it gains an entry exactly if the key is new.
pub proof fn lemma_put_is_map_insert<K, V>(
    t: Seq<Seq<(K, V)>>,
    h: spec_fn(K) -> u64,
    key: K,
    value: V,
)
    requires
        consistent(t, h),
        t.len() > 0,
    ensures
        consistent(put(t, h(key), key, value), h),
        as_map(put(t, h(key), key, value)) == as_map(t).insert(key, value),
        entries(put(t, h(key), key, value)).len() == entries(t).len() + if as_map(t).contains_key(
            key,
        ) {
            0int
        } else {
            1int
        },
{
    let s = slot_of(h(key), t.len());
    let c = chain_put(t[s], key, value);
    let u = put(t, h(key), key, value);
    assert(distinct_keys(t[s]));
    lemma_chain_put(t[s], key, value, key);
    lemma_position_is_first(t[s], key);
    assert forall|i: int, j: int| 0 <= i < u.len() && 0 <= j < u[i].len() implies slot_of(
        h((#[trigger] u[i][j]).0),
        u.len(),
    ) == i by {
        if i == s {
            if u[i][j] != (key, value) {
                assert(u[i][j] == t[i][j]);
            }
        } else {
            assert(u[i][j] == t[i][j]);
        }
    }
    assert forall|i: int| 0 <= i < u.len() implies distinct_keys(#[trigger] u[i]) by {
        if i != s {
            assert(u[i] == t[i]);
        }
    }
    let m = as_map(t).insert(key, value);
    assert forall|x: K| #[trigger] as_map(u).dom().contains(x) == m.dom().contains(x) by {
        lemma_lookup_is_map_get(t, h, x);
        lemma_lookup_is_map_get(u, h, x);
        lemma_chain_put(t[s], key, value, x);
    }
    assert forall|x: K| as_map(u).dom().contains(x) implies #[trigger] as_map(u)[x] == m[x] by {
        lemma_lookup_is_map_get(t, h, x);
        lemma_lookup_is_map_get(u, h, x);
        lemma_chain_put(t[s], key, value, x);
    }
    assert(as_map(u) =~= m);
    lemma_entries_len_update(t, s, c);
    lemma_lookup_is_map_get(t, h, key);
}

/// Removing a key with its hash is `remove` on the map. The table stays
/// consistent, and it loses an entry exactly if the key was there.
pub proof fn lemma_del_is_map_remove<K, V>(t: Seq<Seq<(K, V)>>, h: spec_fn(K) -> u64, key: K)
    requires
        consistent(t, h),
    ensures
        consistent(del(t, h(key), key), h),
        as_map(del(t, h(key), key)) == as_map(t).remove(key),
        entries(del(t, h(key), key)).len() == entries(t).len() - if as_map(t).contains_key(key) {
            1int
        } else {
            0int
        },
{
    lemma_lookup_is_map_get(t, h, key);
    if t.len() == 0 {
        assert(as_map(t) =~= as_map(t).remove(key));
    } else {
        let s = slot_of(h(key), t.len());
        let c = chain_del(t[s], key);
        let u = del(t, h(key), key);
        assert(distinct_keys(t[s]));
        lemma_chain_del(t[s], key, key);
        lemma_position_is_first(t[s], key);
        assert forall|i: int, j: int| 0 <= i < u.len() && 0 <= j < u[i].len() implies slot_of(
            h((#[trigger] u[i][j]).0),
            u.len(),
        ) == i by {
            if i == s {
                // every entry of the shortened chain is an entry of the old one
                let p = position(t[s], key);
                let n = t[s].len() as int;
                if p >= n {
                    assert(u[i][j] == t[i][j]);
                } else if p == 0 {
                    if j == 0 {
                        assert(u[i][j] == t[i][n - 1]);
                    } else {
                        assert(u[i][j] == t[i][j]);
                    }
                } else if j < p {
                    assert(u[i][j] == t[i][j]);
                } else {
                    assert(u[i][j] == t[i][j + 1]);
                }
            } else {
                assert(u[i][j] == t[i][j]);
            }
        }
        assert forall|i: int| 0 <= i < u.len() implies distinct_keys(#[trigger] u[i]) by {
            if i != s {
                assert(u[i] == t[i]);
            }
        }
        let m = as_map(t).remove(key);
        assert forall|x: K| #[trigger] as_map(u).dom().contains(x) == m.dom().contains(x) by {
            lemma_lookup_is_map_get(t, h, x);
            lemma_lookup_is_map_get(u, h, x);
            lemma_chain_del(t[s], key, x);
        }
        assert forall|x: K| as_map(u).dom().contains(x) implies #[trigger] as_map(u)[x] == m[x] by {
            lemma_lookup_is_map_get(t, h, x);
            lemma_lookup_is_map_get(u, h, x);
            lemma_chain_del(t[s], key, x);
        }
        assert(as_map(u) =~= m);
        lemma_entries_len_update(t, s, c);
    }
}

/// Storing a sequence of entries with distinct keys into empty buckets,
/// each with the hash of its key, gives a consistent table that holds
/// exactly those entries.
pub proof fn lemma_rehash_entries<K, V>(es: Seq<(K, V)>, h: spec_fn(K) -> u64, n: nat)
    requires
        distinct_keys(es),
        n > 0 || es.len() == 0,
    ensures
        rehash(es, hashes_by(es, h), n).len() == n,
        consistent(rehash(es, hashes_by(es, h), n), h),
        as_map(rehash(es, hashes_by(es, h), n)) == chain_map(es),
        entries(rehash(es, hashes_by(es, h), n)).len() == es.len(),
    decreases es.len(),
{
    let hs = hashes_by(es, h);
    let u = rehash(es, hs, n);
    lemma_rehash_shape(es, hs, n);
    if es.len() == 0 {
        lemma_entries_of_empties::<K, V>(n);
        assert(es =~= entries(u));
    } else {
        let m = es.len() - 1;
        let init = es.take(m);
        let before = rehash(init, hashes_by(init, h), n);
        lemma_rehash_entries(init, h, n);
        crate::model::lemma_rehash_prefix(init, hs, hashes_by(init, h), n);
        lemma_put_is_map_insert(before, h, es[m].0, es[m].1);
        assert(!has_key(init, es[m].0)) by {
            lemma_has_key_iff(init, es[m].0);
            if has_key(init, es[m].0) {
                let i = choose|i: int| 0 <= i < init.len() && (#[trigger] init[i]).0 == es[m].0;
                assert(es[i].0 == es[m].0);
            }
        }
        assert(es =~= init.push(es[m]));
        lemma_chain_map_push(init, es[m]);
    }
}

/// Resizing keeps the contents: storing every entry of a consistent table
/// anew, each with the hash of its key, gives a consistent table of the
/// requested number of buckets that stands for the same map.
pub proof fn lemma_rehash_keeps_map<K, V>(t: Seq<Seq<(K, V)>>, h: spec_fn(K) -> u64, n: nat)
    requires
        consistent(t, h),
        n > 0 || entries(t).len() == 0,
    ensures
        rehash(entries(t), hashes_by(entries(t), h), n).len() == n,
        consistent(rehash(entries(t), hashes_by(entries(t), h), n), h),
        as_map(rehash(entries(t), hashes_by(entries(t), h), n)) == as_map(t),
        entries(rehash(entries(t), hashes_by(entries(t), h), n)).len() == entries(t).len(),
{
    lemma_entries_distinct(t, h);
    lemma_rehash_entries(entries(t), h, n);
}

/// After a resize every key is found as before.
pub proof fn lemma_rehash_keeps_lookups<K, V>(
    t: Seq<Seq<(K, V)>>,
    h: spec_fn(K) -> u64,
    n: nat,
    key: K,
)
    requires
        consistent(t, h),
        n > 0 || entries(t).len() == 0,
    ensures
        lookup(rehash(entries(t), hashes_by(entries(t), h), n), h(key), key) == lookup(
            t,
            h(key),
            key,
        ),
{
    lemma_rehash_keeps_map(t, h, n);
    lemma_lookup_is_map_get(t, h, key);
    lemma_lookup_is_map_get(rehash(entries(t), hashes_by(entries(t), h), n), h, key);
}

/// A table of empty buckets stands for the empty map, and is consistent
/// with every hash function.
pub proof fn lemma_empties_is_empty_map<K, V>(n: nat)
    ensures
        as_map(empties::<K, V>(n)) == Map::<K, V>::empty(),
        chains_distinct(empties::<K, V>(n)),
        forall|h: spec_fn(K) -> u64| #[trigger] consistent(empties::<K, V>(n), h),
{
    lemma_entries_of_empties::<K, V>(n);
    assert forall|k: K| !has_key(Seq::<(K, V)>::empty(), k) by {
        lemma_position_is_first(Seq::<(K, V)>::empty(), k);
    }
    assert(as_map(empties::<K, V>(n)) =~= Map::<K, V>::empty());
}

/// The number of entries of a consistent table is the number of keys of
/// its map.
pub proof fn lemma_len_is_map_len<K, V>(t: Seq<Seq<(K, V)>>, h: spec_fn(K) -> u64)
    requires
        consistent(t, h),
    ensures
        as_map(t).dom().finite(),
        as_map(t).len() == entries(t).len(),
{
    lemma_entries_distinct(t, h);
    lemma_chain_map_len(entries(t));
}

/// Iteration is complete and free of repetition: the entries of a
/// consistent table are exactly the pairs of its map, each of them once.
pub proof fn lemma_entries_are_map_pairs<K, V>(t: Seq<Seq<(K, V)>>, h: spec_fn(K) -> u64)
    requires
        consistent(t, h),
    ensures
        distinct_keys(entries(t)),
        entries(t).no_duplicates(),
        entries(t).len() == as_map(t).len(),
        forall|k: K, v: V| #[trigger]
            as_map(t).contains_pair(k, v) <==> entries(t).contains((k, v)),
        forall|k: K, v: V|
            #[trigger] entries(t).to_multiset().count((k, v)) == if as_map(t).contains_pair(k, v) {
                1nat
            } else {
                0nat
            },
{
    let es = entries(t);
    lemma_entries_distinct(t, h);
    lemma_len_is_map_len(t, h);
    assert forall|k: K, v: V| #[trigger]
        as_map(t).contains_pair(k, v) <==> es.contains((k, v)) by {
        lemma_chain_map_pairs(es, k, v);
    }
    assert(es.no_duplicates());
    assert forall|k: K, v: V|
        #[trigger] es.to_multiset().count((k, v)) == if as_map(t).contains_pair(k, v) {
            1nat
        } else {
            0nat
        } by {
        broadcast use vstd::seq_lib::group_to_multiset_ensures;

        lemma_chain_map_pairs(es, k, v);
        es.lemma_multiset_has_no_duplicates();
        if es.contains((k, v)) {
            assert(es.to_multiset().contains((k, v)));
        } else {
            assert(!es.to_multiset().contains((k, v)));
        }
    }
}

/// The growth decision keeps the contents: whether or not the table grows,
/// it stays consistent, stands for the same map, and has a bucket to take
/// the next entry.
pub proof fn lemma_grown_keeps_map<K, V>(
    t: Seq<Seq<(K, V)>>,
    h: spec_fn(K) -> u64,
    capacity: nat,
    len: nat,
)
    requires
        consistent(t, h),
        capacity > 0,
    ensures
        grown(t, capacity, len, hashes_by(entries(t), h)).len() == grown_size(
            t.len(),
            capacity,
            len,
        ),
        grown(t, capacity, len, hashes_by(entries(t), h)).len() > 0,
        consistent(grown(t, capacity, len, hashes_by(entries(t), h)), h),
        as_map(grown(t, capacity, len, hashes_by(entries(t), h))) == as_map(t),
        entries(grown(t, capacity, len, hashes_by(entries(t), h))).len() == entries(t).len(),
{
    if must_grow(t.len(), capacity, len) {
        lemma_rehash_keeps_map(t, h, grown_size(t.len(), capacity, len));
    }
}

/// The growth decision keeps the load in bounds: a table that is not
/// overloaded by its `len` entries has, after the decision, room for one
/// entry more.
pub proof fn lemma_growth_bounds_load(buckets: nat, len: nat)
    requires
        buckets == 0 ==> len == 0,
        !overloaded(len, buckets),
    ensures
        grown_size(buckets, buckets, len + 1) > 0,
        !overloaded(len + 1, grown_size(buckets, buckets, len + 1)),
{
}

/// An insertion, with the growth that may come before it, is `insert` on
/// the map: afterwards the key has the new value, every other key is as it
/// was, and the table has one entry more exactly if the key is new.
pub proof fn lemma_insert_is_map_insert<K, V>(
    t: Seq<Seq<(K, V)>>,
    zero_sized: bool,
    h: spec_fn(K) -> u64,
    key: K,
    value: V,
)
    requires
        consistent(t, h),
    ensures
        consistent(insert_next(t, zero_sized, h, key, value), h),
        as_map(insert_next(t, zero_sized, h, key, value)) == as_map(t).insert(key, value),
        lookup(insert_next(t, zero_sized, h, key, value), h(key), key) == Some((key, value)),
        entries(insert_next(t, zero_sized, h, key, value)).len() == entries(t).len()
            + if as_map(t).contains_key(key) {
            0int
        } else {
            1int
        },
{
    let capacity = capacity_of(t.len(), zero_sized);
    let len = entries(t).len() + 1;
    let g = grown(t, capacity, len, hashes_by(entries(t), h));
    if capacity == 0 {
        lemma_rehash_keeps_map(t, h, grown_size(t.len(), capacity, len));
    } else {
        lemma_grown_keeps_map(t, h, capacity, len);
    }
    lemma_put_is_map_insert(g, h, key, value);
    lemma_lookup_is_map_get(insert_next(t, zero_sized, h, key, value), h, key);
}

/// Reserving room keeps the contents.
pub proof fn lemma_reserved_keeps_map<K, V>(
    t: Seq<Seq<(K, V)>>,
    h: spec_fn(K) -> u64,
    capacity: nat,
    wanted: nat,
)
    requires
        consistent(t, h),
    ensures
        consistent(reserved(t, capacity, wanted, hashes_by(entries(t), h)), h),
        as_map(reserved(t, capacity, wanted, hashes_by(entries(t), h))) == as_map(t),
        entries(reserved(t, capacity, wanted, hashes_by(entries(t), h))).len() == entries(t).len(),
{
    if capacity < wanted {
        lemma_rehash_keeps_map(t, h, wanted);
    }
}

/// Round trip: after the pairs of `kvs`, whose keys are all different,
/// have been inserted into an empty table, every key is found with the
/// value that was inserted for it, and the table holds as many entries as
/// there are keys.
pub proof fn lemma_round_trip<K, V>(
    buckets: nat,
    zero_sized: bool,
    h: spec_fn(K) -> u64,
    kvs: Seq<(K, V)>,
)
    requires
        distinct_keys(kvs),
    ensures
        consistent(insert_all(empties::<K, V>(buckets), zero_sized, h, kvs), h),
        as_map(insert_all(empties::<K, V>(buckets), zero_sized, h, kvs)) == chain_map(kvs),
        entries(insert_all(empties::<K, V>(buckets), zero_sized, h, kvs)).len() == kvs.len(),
        as_map(insert_all(empties::<K, V>(buckets), zero_sized, h, kvs)).len() == kvs.len(),
        forall|i: int|
            0 <= i < kvs.len() ==> lookup(
                insert_all(empties::<K, V>(buckets), zero_sized, h, kvs),
                h((#[trigger] kvs[i]).0),
                kvs[i].0,
            ) == Some(kvs[i]),
    decreases kvs.len(),
{
    let start = empties::<K, V>(buckets);
    let t = insert_all(start, zero_sized, h, kvs);
    if kvs.len() == 0 {
        lemma_empties_is_empty_map::<K, V>(buckets);
        lemma_entries_of_empties::<K, V>(buckets);
        assert(consistent(start, h));
        assert(kvs =~= entries(start));
    } else {
        let m = kvs.len() - 1;
        let init = kvs.take(m);
        let before = insert_all(start, zero_sized, h, init);
        lemma_round_trip(buckets, zero_sized, h, init);
        lemma_insert_is_map_insert(before, zero_sized, h, kvs[m].0, kvs[m].1);
        assert(!has_key(init, kvs[m].0)) by {
            lemma_has_key_iff(init, kvs[m].0);
            if has_key(init, kvs[m].0) {
                let i = choose|i: int| 0 <= i < init.len() && (#[trigger] init[i]).0 == kvs[m].0;
                assert(kvs[i].0 == kvs[m].0);
            }
        }
        assert(kvs =~= init.push(kvs[m]));
        lemma_chain_map_push(init, kvs[m]);
    }
    lemma_len_is_map_len(t, h);
    assert forall|i: int| 0 <= i < kvs.len() implies lookup(t, h((#[trigger] kvs[i]).0), kvs[i].0)
        == Some(kvs[i]) by {
        lemma_lookup_is_map_get(t, h, kvs[i].0);
        lemma_position_of_entry(kvs, i);
    }
}

/// Keys do not disturb each other, whether or not they share a bucket:
/// storing or removing one key changes what is found for it, and leaves
/// what is found for any other key as it was.
pub proof fn lemma_keys_are_independent<K, V>(
    t: Seq<Seq<(K, V)>>,
    h: spec_fn(K) -> u64,
    key: K,
    value: V,
    other: K,
)
    requires
        consistent(t, h),
        t.len() > 0,
        other != key,
    ensures
        lookup(put(t, h(key), key, value), h(key), key) == Some((key, value)),
        lookup(put(t, h(key), key, value), h(other), other) == lookup(t, h(other), other),
        lookup(del(t, h(key), key), h(key), key) is None,
        lookup(del(t, h(key), key), h(other), other) == lookup(t, h(other), other),
{
    lemma_put_is_map_insert(t, h, key, value);
    lemma_del_is_map_remove(t, h, key);
    lemma_lookup_is_map_get(t, h, other);
    lemma_lookup_is_map_get(put(t, h(key), key, value), h, key);
    lemma_lookup_is_map_get(put(t, h(key), key, value), h, other);
    lemma_lookup_is_map_get(del(t, h(key), key), h, key);
    lemma_lookup_is_map_get(del(t, h(key), key), h, other);
}

/// Shrinking keeps the contents: storing the entries anew into `len / 0.75`
/// buckets, rounded down, gives a consistent table for the same map, in
/// which every key is found as before.
pub proof fn lemma_shrink_keeps_map<K, V>(t: Seq<Seq<(K, V)>>, h: spec_fn(K) -> u64, key: K)
    requires
        consistent(t, h),
    ensures
        rehash(entries(t), hashes_by(entries(t), h), shrunk_size(entries(t).len())).len()
            == shrunk_size(entries(t).len()),
        consistent(
            rehash(entries(t), hashes_by(entries(t), h), shrunk_size(entries(t).len())),
            h,
        ),
        as_map(rehash(entries(t), hashes_by(entries(t), h), shrunk_size(entries(t).len())))
            == as_map(t),
        lookup(
            rehash(entries(t), hashes_by(entries(t), h), shrunk_size(entries(t).len())),
            h(key),
            key,
        ) == lookup(t, h(key), key),
{
    let n = shrunk_size(entries(t).len());
    lemma_rehash_keeps_map(t, h, n);
    lemma_lookup_is_map_get(t, h, key);
    lemma_lookup_is_map_get(rehash(entries(t), hashes_by(entries(t), h), n), h, key);
}

/// After shrinking a table whose number of entries is a multiple of three,
/// the load factor is at most 0.75. (For other numbers of entries the
/// rounding down leaves the table one bucket short of that.)
pub proof fn lemma_shrunk_load(len: nat)
    requires
        len % (LOAD_FACTOR_NUM as nat) == 0,
    ensures
        !overloaded(len, shrunk_size(len)),
{
}

/// The two values are the same.
pub open spec fn same_value<K>(a: K, b: K) -> bool {
    a == b
}

/// The type `K` has no more than one value, as a type without information
/// content does.
pub open spec fn single_valued<K>() -> bool {
    forall|a: K, b: K| #[trigger] same_value(a, b)
}

/// A key type with a single value allows a single entry: a consistent
/// table over such keys holds at most one, which is there or is not.
pub proof fn lemma_single_key<K, V>(t: Seq<Seq<(K, V)>>, h: spec_fn(K) -> u64)
    requires
        consistent(t, h),
        single_valued::<K>(),
    ensures
        entries(t).len() <= 1,
        as_map(t).len() <= 1,
{
    lemma_entries_distinct(t, h);
    lemma_len_is_map_len(t, h);
    if entries(t).len() > 1 {
        assert(same_value(entries(t)[0].0, entries(t)[1].0));
    }
}

} // verus!
