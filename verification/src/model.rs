//! The mathematical model of the table: a sequence of chains, one per
//! bucket, and the pure functions that the executable table is proved
//! against.
//!
//! The model takes every hash value as an argument. What the table means as
//! a map from keys to values is stated in `crate::laws`, for tables whose
//! entries all sit in the bucket that one hash function sends their key to.

use crate::chain::{
    chain_del, chain_get, chain_map, chain_put, distinct_keys, lemma_chain_put, position,
};
use vstd::prelude::*;

verus! {

/// Number of buckets that a table without buckets grows to on first use.
pub const INIT_CAPACITY: usize = 32;

/// Factor by which the number of buckets grows when the table is too full.
pub const GROWTH_FACTOR: usize = 4;

/// The largest load factor, entries per bucket, that an insertion leaves
/// alone, as the fraction `LOAD_FACTOR_NUM / LOAD_FACTOR_DEN` (0.75).
pub const LOAD_FACTOR_NUM: usize = 3;

/// Denominator of the largest load factor.
pub const LOAD_FACTOR_DEN: usize = 4;

/// The bucket that a hash value selects among `buckets` buckets.
pub open spec fn slot_of(hash: u64, buckets: nat) -> int {
    hash as int % buckets as int
}

/// `n` empty chains.
pub open spec fn empties<K, V>(n: nat) -> Seq<Seq<(K, V)>> {
    Seq::new(n, |i: int| Seq::<(K, V)>::empty())
}

/// All entries of the table in iteration order: bucket by bucket, each
/// chain from its head.
pub open spec fn entries<K, V>(t: Seq<Seq<(K, V)>>) -> Seq<(K, V)> {
    t.flatten()
}

/// The map that a table stands for.
pub open spec fn as_map<K, V>(t: Seq<Seq<(K, V)>>) -> Map<K, V> {
    chain_map(entries(t))
}

/// The entry found for `key` when its hash is `hash`: the table looks into
/// the bucket that the hash selects and nowhere else.
pub open spec fn lookup<K, V>(t: Seq<Seq<(K, V)>>, hash: u64, key: K) -> Option<(K, V)> {
    if t.len() == 0 {
        None
    } else {
        chain_get(t[slot_of(hash, t.len())], key)
    }
}

/// The table after storing `(key, value)` in the bucket that `hash` selects.
pub open spec fn put<K, V>(t: Seq<Seq<(K, V)>>, hash: u64, key: K, value: V) -> Seq<Seq<(K, V)>>
    recommends
        t.len() > 0,
{
    let i = slot_of(hash, t.len());
    t.update(i, chain_put(t[i], key, value))
}

/// The table after the entry found for `key` in the bucket that `hash`
/// selects was overwritten by `entry`, whatever the key of `entry` is.
pub open spec fn overwritten<K, V>(
    t: Seq<Seq<(K, V)>>,
    hash: u64,
    key: K,
    entry: (K, V),
) -> Seq<Seq<(K, V)>>
    recommends
        lookup(t, hash, key) is Some,
{
    let i = slot_of(hash, t.len());
    t.update(i, t[i].update(position(t[i], key), entry))
}

/// The table after removing `key` from the bucket that `hash` selects.
pub open spec fn del<K, V>(t: Seq<Seq<(K, V)>>, hash: u64, key: K) -> Seq<Seq<(K, V)>> {
    if t.len() == 0 {
        t
    } else {
        let i = slot_of(hash, t.len());
        t.update(i, chain_del(t[i], key))
    }
}

/// The table of `n` buckets that results from storing `es` one after the
/// other, the entry at index `i` with the hash `hashes[i]`.
pub open spec fn rehash<K, V>(es: Seq<(K, V)>, hashes: Seq<u64>, n: nat) -> Seq<Seq<(K, V)>>
    recommends
        hashes.len() >= es.len(),
    decreases es.len(),
{
    if es.len() == 0 {
        empties(n)
    } else {
        let m = es.len() - 1;
        put(rehash(es.take(m), hashes, n), hashes[m], es[m].0, es[m].1)
    }
}

/// The hash values that `h` gives to the keys of `es`, in order.
pub open spec fn hashes_by<K, V>(es: Seq<(K, V)>, h: spec_fn(K) -> u64) -> Seq<u64> {
    Seq::new(es.len(), |i: int| h(es[i].0))
}

/// No chain of the table holds a key twice.
pub open spec fn chains_distinct<K, V>(t: Seq<Seq<(K, V)>>) -> bool {
    forall|i: int| 0 <= i < t.len() ==> distinct_keys(#[trigger] t[i])
}

/// Every entry sits in the bucket that `h` sends its key to.
pub open spec fn placed_by<K, V>(t: Seq<Seq<(K, V)>>, h: spec_fn(K) -> u64) -> bool {
    forall|i: int, j: int|
        0 <= i < t.len() && 0 <= j < t[i].len() ==> slot_of(h((#[trigger] t[i][j]).0), t.len())
            == i
}

/// The table is a proper hash table for the hash function `h`: every key is
/// where `h` says, and no chain holds a key twice.
pub open spec fn consistent<K, V>(t: Seq<Seq<(K, V)>>, h: spec_fn(K) -> u64) -> bool {
    &&& placed_by(t, h)
    &&& chains_distinct(t)
}

/// The table is too full to take its `len` entries: `len / capacity`
/// exceeds the largest load factor.
pub open spec fn overloaded(len: nat, capacity: nat) -> bool {
    LOAD_FACTOR_DEN * len > LOAD_FACTOR_NUM * capacity
}

/// Whether a table with `buckets` buckets that reports `capacity` grows
/// before it holds `len` entries.
pub open spec fn must_grow(buckets: nat, capacity: nat, len: nat) -> bool {
    buckets == 0 || overloaded(len, capacity)
}

/// The number of buckets after the growth decision for `len` entries.
pub open spec fn grown_size(buckets: nat, capacity: nat, len: nat) -> nat {
    if buckets == 0 {
        INIT_CAPACITY as nat
    } else if overloaded(len, capacity) {
        capacity * GROWTH_FACTOR as nat
    } else {
        buckets
    }
}

/// The table after the growth decision for `len` entries; where it grows,
/// every entry is stored anew with the hash that `hashes` holds for it.
pub open spec fn grown<K, V>(t: Seq<Seq<(K, V)>>, capacity: nat, len: nat, hashes: Seq<u64>) -> Seq<
    Seq<(K, V)>,
> {
    if must_grow(t.len(), capacity, len) {
        rehash(entries(t), hashes, grown_size(t.len(), capacity, len))
    } else {
        t
    }
}

/// The capacity that a table of `buckets` buckets reports: the number of
/// its buckets, or, where keys and values are zero-sized, the largest
/// capacity there is.
pub open spec fn capacity_of(buckets: nat, zero_sized: bool) -> nat {
    if zero_sized {
        isize::MAX as nat
    } else {
        buckets
    }
}

/// The table after the insertion of `(key, value)`, where `h` is the hash
/// function: the table grows if it has to for its entries and the new
/// one, and then stores the pair in the bucket that the hash of the key
/// selects.
pub open spec fn insert_next<K, V>(
    t: Seq<Seq<(K, V)>>,
    zero_sized: bool,
    h: spec_fn(K) -> u64,
    key: K,
    value: V,
) -> Seq<Seq<(K, V)>> {
    put(
        grown(
            t,
            capacity_of(t.len(), zero_sized),
            entries(t).len() + 1,
            hashes_by(entries(t), h),
        ),
        h(key),
        key,
        value,
    )
}

/// The table after the insertion of the pairs of `kvs`, one after the
/// other, where `h` is the hash function.
pub open spec fn insert_all<K, V>(
    t: Seq<Seq<(K, V)>>,
    zero_sized: bool,
    h: spec_fn(K) -> u64,
    kvs: Seq<(K, V)>,
) -> Seq<Seq<(K, V)>>
    decreases kvs.len(),
{
    if kvs.len() == 0 {
        t
    } else {
        let m = kvs.len() - 1;
        insert_next(insert_all(t, zero_sized, h, kvs.take(m)), zero_sized, h, kvs[m].0, kvs[m].1)
    }
}

/// The table after room was asked for `wanted` entries in all: it is
/// resized to `wanted` buckets if its capacity is less, and left alone
/// otherwise.
pub open spec fn reserved<K, V>(
    t: Seq<Seq<(K, V)>>,
    capacity: nat,
    wanted: nat,
    hashes: Seq<u64>,
) -> Seq<Seq<(K, V)>> {
    if capacity < wanted {
        rehash(entries(t), hashes, wanted)
    } else {
        t
    }
}

/// The smallest number of buckets that shrinking leaves for `len` entries:
/// `len / 0.75`, rounded down.
pub open spec fn shrunk_size(len: nat) -> nat {
    (len * LOAD_FACTOR_DEN as nat) / LOAD_FACTOR_NUM as nat
}

/// Every entry of a chain occurs among the entries of the table.
pub proof fn lemma_entries_cover<K, V>(t: Seq<Seq<(K, V)>>, i: int, j: int) -> (idx: int)
    requires
        0 <= i < t.len(),
        0 <= j < t[i].len(),
    ensures
        0 <= idx < entries(t).len(),
        entries(t)[idx] == t[i][j],
    decreases t.len(),
{
    if i == 0 {
        j
    } else {
        let rest = t.drop_first();
        assert(rest[i - 1] == t[i]);
        let r = lemma_entries_cover(rest, i - 1, j);
        t[0].len() + r
    }
}

/// Every entry of the table comes from one of its chains.
pub proof fn lemma_entries_origin<K, V>(t: Seq<Seq<(K, V)>>, idx: int) -> (at: (int, int))
    requires
        0 <= idx < entries(t).len(),
    ensures
        0 <= at.0 < t.len(),
        0 <= at.1 < t[at.0].len(),
        t[at.0][at.1] == entries(t)[idx],
    decreases t.len(),
{
    if t.len() == 0 {
        (0, 0)
    } else if idx < t[0].len() {
        (0, idx)
    } else {
        let rest = t.drop_first();
        let (i, j) = lemma_entries_origin(rest, idx - t[0].len());
        assert(rest[i] == t[i + 1]);
        (i + 1, j)
    }
}

/// Replacing one chain changes the number of entries by the difference of
/// the two lengths.
pub proof fn lemma_entries_len_update<K, V>(t: Seq<Seq<(K, V)>>, i: int, c: Seq<(K, V)>)
    requires
        0 <= i < t.len(),
    ensures
        entries(t.update(i, c)).len() == entries(t).len() - t[i].len() + c.len(),
    decreases t.len(),
{
    let u = t.update(i, c);
    if i == 0 {
        assert(u.drop_first() =~= t.drop_first());
    } else {
        let rest = t.drop_first();
        assert(rest[i - 1] == t[i]);
        lemma_entries_len_update(rest, i - 1, c);
        assert(u.drop_first() =~= rest.update(i - 1, c));
    }
}

/// The entries of the first `i + 1` buckets are those of the first `i`,
/// followed by the chain of bucket `i`.
pub proof fn lemma_entries_take_next<K, V>(t: Seq<Seq<(K, V)>>, i: int)
    requires
        0 <= i < t.len(),
    ensures
        entries(t.take(i + 1)) == entries(t.take(i)) + t[i],
{
    assert(t.take(i + 1) =~= t.take(i).push(t[i]));
    t.take(i).lemma_flatten_push(t[i]);
}

/// The first `i` buckets hold no more entries than the whole table.
pub proof fn lemma_entries_take_len<K, V>(t: Seq<Seq<(K, V)>>, i: int)
    requires
        0 <= i <= t.len(),
    ensures
        entries(t.take(i)).len() <= entries(t).len(),
    decreases t.len() - i,
{
    if i == t.len() {
        assert(t.take(i) =~= t);
    } else {
        lemma_entries_take_next(t, i);
        lemma_entries_take_len(t, i + 1);
    }
}

/// The entries from bucket `b` on are the chain of bucket `b`, followed by
/// the entries from bucket `b + 1` on.
pub proof fn lemma_entries_skip_next<K, V>(t: Seq<Seq<(K, V)>>, b: int)
    requires
        0 <= b < t.len(),
    ensures
        entries(t.skip(b)) == t[b] + entries(t.skip(b + 1)),
{
    assert(t.skip(b).drop_first() =~= t.skip(b + 1));
}

/// No chain is longer than the table has entries.
pub proof fn lemma_chain_len_le<K, V>(t: Seq<Seq<(K, V)>>, i: int)
    requires
        0 <= i < t.len(),
    ensures
        t[i].len() <= entries(t).len(),
    decreases t.len(),
{
    if i > 0 {
        let rest = t.drop_first();
        assert(rest[i - 1] == t[i]);
        lemma_chain_len_le(rest, i - 1);
    }
}

/// A table of empty chains has no entries.
pub proof fn lemma_entries_of_empties<K, V>(n: nat)
    ensures
        entries(empties::<K, V>(n)) == Seq::<(K, V)>::empty(),
    decreases n,
{
    let t = empties::<K, V>(n);
    if n > 0 {
        lemma_entries_of_empties::<K, V>((n - 1) as nat);
        assert(t.drop_first() =~= empties::<K, V>((n - 1) as nat));
        assert(entries(t) =~= Seq::<(K, V)>::empty());
    }
}

/// Storing entries anew uses only the hash values of those entries.
pub proof fn lemma_rehash_prefix<K, V>(es: Seq<(K, V)>, a: Seq<u64>, b: Seq<u64>, n: nat)
    requires
        forall|i: int| 0 <= i < es.len() ==> a[i] == b[i],
    ensures
        rehash(es, a, n) == rehash(es, b, n),
    decreases es.len(),
{
    if es.len() > 0 {
        lemma_rehash_prefix(es.take(es.len() - 1), a, b, n);
    }
}

/// Storing one more entry anew is storing it into the table of the
/// entries before it.
pub proof fn lemma_rehash_push<K, V>(
    es: Seq<(K, V)>,
    hashes: Seq<u64>,
    n: nat,
    e: (K, V),
    hash: u64,
)
    requires
        hashes.len() == es.len(),
    ensures
        rehash(es.push(e), hashes.push(hash), n) == put(rehash(es, hashes, n), hash, e.0, e.1),
{
    let es2 = es.push(e);
    assert(es2.take(es2.len() - 1) =~= es);
    lemma_rehash_prefix(es, hashes, hashes.push(hash), n);
}

/// Storing entries anew gives the number of buckets asked for, and chains
/// without repeated keys.
pub proof fn lemma_rehash_shape<K, V>(es: Seq<(K, V)>, hashes: Seq<u64>, n: nat)
    requires
        n > 0 || es.len() == 0,
    ensures
        rehash(es, hashes, n).len() == n,
        chains_distinct(rehash(es, hashes, n)),
        entries(rehash(es, hashes, n)).len() <= es.len(),
    decreases es.len(),
{
    if es.len() == 0 {
        lemma_entries_of_empties::<K, V>(n);
    } else {
        let m = es.len() - 1;
        let before = rehash(es.take(m), hashes, n);
        lemma_rehash_shape(es.take(m), hashes, n);
        let i = slot_of(hashes[m], n);
        lemma_chain_put(before[i], es[m].0, es[m].1, es[m].0);
        lemma_entries_len_update(before, i, chain_put(before[i], es[m].0, es[m].1));
    }
}

} // verus!
