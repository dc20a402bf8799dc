//! A hash table with separate chaining: a vector of buckets and a count of
//! the entries they hold.

use crate::bucket::Bucket;
use crate::chain::{distinct_keys, has_key, position};
use crate::hashing::{hash, obeys_key_eq};
use crate::laws::lemma_lookup_is_map_get;
use crate::model::{
    as_map, chains_distinct, consistent, del, empties, entries, grown, grown_size,
    lemma_entries_of_empties, lookup, overloaded, overwritten, put, rehash, reserved,
    shrunk_size, slot_of,
    GROWTH_FACTOR, INIT_CAPACITY, LOAD_FACTOR_DEN, LOAD_FACTOR_NUM,
};
use std::collections::hash_map::DefaultHasher;
use std::hash::Hash;
use vstd::prelude::*;

verus! {

/// A map from keys to values, stored as a hash table with chaining.
#[derive(Clone)]
pub struct HashMap<K, V> {
    buckets: Vec<Bucket<K, V>>,
    len: usize,
}

impl<K, V> View for HashMap<K, V> {
    type V = Map<K, V>;

    /// The map that the table stands for.
    open spec fn view(&self) -> Map<K, V> {
        as_map(self.chains())
    }
}

/// Both types are zero-sized.
pub open spec fn zero_sized<K, V>() -> bool {
    vstd::layout::size_of::<K>() == 0 && vstd::layout::size_of::<V>() == 0
}

/// The option of a pair as the option of two references, as lookups
/// return it.
pub open spec fn by_ref<'a, K, V>(e: Option<(K, V)>) -> Option<(&'a K, &'a V)> {
    match e {
        Some(e) => Some((&e.0, &e.1)),
        None => None,
    }
}

/// Whether `len` entries in a table of capacity `capacity` exceed the
/// largest load factor.
pub fn load_factor_exceeded(len: usize, capacity: usize) -> (b: bool)
    ensures
        b == overloaded(len as nat, capacity as nat),
{
    let entries: u128 = len as u128;
    let room: u128 = capacity as u128;
    assert(entries <= 0xffff_ffff_ffff_ffff && room <= 0xffff_ffff_ffff_ffff);
    entries * 4 > room * 3
}

impl<K, V> HashMap<K, V> {
    /// The chains of the buckets, in the order of the bucket array.
    pub closed spec fn chains(&self) -> Seq<Seq<(K, V)>> {
        Seq::new(self.buckets@.len(), |i: int| self.buckets@[i]@)
    }

    /// Every bucket uses its inline slot before its overflow and keeps no
    /// empty overflow vector.
    pub closed spec fn well_shaped(&self) -> bool {
        forall|i: int| 0 <= i < self.buckets@.len() ==> (#[trigger] self.buckets@[i]).well_shaped()
    }

    /// The number of entries that the table has counted.
    pub closed spec fn spec_len(&self) -> usize {
        self.len
    }

    /// Well-formedness: the buckets are well shaped, no bucket holds a key
    /// twice, and the count is the number of entries.
    pub open spec fn wf(&self) -> bool {
        &&& self.well_shaped()
        &&& chains_distinct(self.chains())
        &&& self.spec_len() == entries(self.chains()).len()
    }

    /// Every entry sits in the bucket that `h` sends its key to.
    pub open spec fn consistent_with(&self, h: spec_fn(K) -> u64) -> bool {
        consistent(self.chains(), h)
    }

    /// The entries in iteration order.
    pub open spec fn spec_entries(&self) -> Seq<(K, V)> {
        entries(self.chains())
    }

    /// The capacity that the table reports: the number of buckets, or, for
    /// zero-sized keys and values, the largest capacity there is.
    pub open spec fn spec_capacity(&self) -> usize {
        if zero_sized::<K, V>() {
            isize::MAX as usize
        } else {
            self.chains().len() as usize
        }
    }

    /// The number of buckets after the growth decision of an insertion.
    pub open spec fn next_size(&self) -> nat {
        grown_size(
            self.chains().len(),
            self.spec_capacity() as nat,
            (self.spec_len() + 1) as nat,
        )
    }

    /// The chains after the growth decision of an insertion; where the
    /// table grows, every entry is stored anew with the hash that `hashes`
    /// holds for it.
    pub open spec fn grown_with(&self, hashes: Seq<u64>) -> Seq<Seq<(K, V)>> {
        grown(
            self.chains(),
            self.spec_capacity() as nat,
            (self.spec_len() + 1) as nat,
            hashes,
        )
    }

    /// The chains after a resize to `n` buckets in which the entry at index
    /// `i` of the iteration order is stored with the hash `hashes[i]`.
    pub open spec fn rehashed(&self, hashes: Seq<u64>, n: nat) -> Seq<Seq<(K, V)>> {
        rehash(self.spec_entries(), hashes, n)
    }

    /// The chains after room was made for `additional` more entries.
    pub open spec fn reserved_with(&self, additional: nat, hashes: Seq<u64>) -> Seq<Seq<(K, V)>> {
        reserved(
            self.chains(),
            self.spec_capacity() as nat,
            self.spec_len() as nat + additional,
            hashes,
        )
    }

    /// The number of buckets after shrinking with the floor `min_capacity`.
    pub open spec fn shrunk_to(&self, min_capacity: nat) -> nat {
        if shrunk_size(self.spec_len() as nat) >= min_capacity {
            shrunk_size(self.spec_len() as nat)
        } else {
            min_capacity
        }
    }

    /// The count and the number of buckets that an insertion leads to can
    /// be held in a `usize`.
    pub open spec fn can_insert(&self) -> bool {
        &&& self.spec_len() < usize::MAX
        &&& self.next_size() <= usize::MAX
    }

    /// In a well-formed table that is consistent with a hash function, the
    /// count is the number of keys of the map.
    pub proof fn lemma_len_is_map_len(&self, h: spec_fn(K) -> u64)
        requires
            self.wf(),
            self.consistent_with(h),
        ensures
            self@.dom().finite(),
            self@.len() == self.spec_len(),
    {
        crate::laws::lemma_len_is_map_len(self.chains(), h);
    }

    proof fn lemma_buckets_wf(&self)
        requires
            self.wf(),
        ensures
            forall|i: int| 0 <= i < self.buckets@.len() ==> (#[trigger] self.buckets@[i]).wf(),
            self.chains().len() == self.buckets@.len(),
    {
        assert forall|i: int| 0 <= i < self.buckets@.len() implies (#[trigger] self.buckets@[i]).wf() by {
            assert(self.chains()[i] == self.buckets@[i]@);
        }
    }

    /// An empty table without buckets; the first insertion allocates.
    pub fn new() -> (map: Self)
        ensures
            map.wf(),
            map.chains() == empties::<K, V>(0),
            map@ == Map::<K, V>::empty(),
            map.spec_len() == 0,
            forall|h: spec_fn(K) -> u64| #[trigger] map.consistent_with(h),
    {
        Self::with_capacity(0)
    }

    /// An empty table with exactly `capacity` empty buckets.
    pub fn with_capacity(capacity: usize) -> (map: Self)
        ensures
            map.wf(),
            map.chains() == empties::<K, V>(capacity as nat),
            map@ == Map::<K, V>::empty(),
            map.spec_len() == 0,
            forall|h: spec_fn(K) -> u64| #[trigger] map.consistent_with(h),
    {
        let map = HashMap { buckets: Bucket::vec_of_empties(capacity), len: 0 };
        proof {
            assert(map.chains() =~= empties::<K, V>(capacity as nat));
            lemma_entries_of_empties::<K, V>(capacity as nat);
            crate::laws::lemma_empties_is_empty_map::<K, V>(capacity as nat);
        }
        map
    }

    /// The number of entries.
    #[verifier::when_used_as_spec(spec_len)]
    pub fn len(&self) -> (n: usize)
        ensures
            n == self.spec_len(),
    {
        self.len
    }

    /// Whether the table holds no entry.
    pub fn is_empty(&self) -> (b: bool)
        ensures
            b == (self.spec_len() == 0),
    {
        self.len == 0
    }

    /// The number of buckets. A table of zero-sized keys and values reports
    /// `isize::MAX`, as the collections of the standard library do.
    #[verifier::when_used_as_spec(spec_capacity)]
    pub fn capacity(&self) -> (n: usize)
        ensures
            n == self.spec_capacity(),
            zero_sized::<K, V>() ==> n == isize::MAX as usize,
            !zero_sized::<K, V>() ==> n == self.chains().len(),
    {
        if Self::is_zst() {
            isize::MAX as usize
        } else {
            self.buckets.len()
        }
    }

    /// Whether `K` and `V` are both zero-sized.
    pub fn is_zst() -> (b: bool)
        ensures
            b == zero_sized::<K, V>(),
    {
        core::mem::size_of::<K>() == 0 && core::mem::size_of::<V>() == 0
    }

    /// The bucket that `hash` selects, or `None` if there are no buckets.
    pub fn index_hashed(&self, hash: u64) -> (r: Option<usize>)
        ensures
            r == if self.chains().len() == 0 {
                None
            } else {
                Some(slot_of(hash, self.chains().len()) as usize)
            },
            r matches Some(i) ==> i < self.chains().len() && i == slot_of(
                hash,
                self.chains().len(),
            ),
    {
        let n = self.buckets.len();
        if n == 0 {
            None
        } else {
            Some((hash % (n as u64)) as usize)
        }
    }

}

impl<K: Eq, V> HashMap<K, V> {
    /// The entry that the bucket selected by `hash` holds for `key`.
    ///
    /// For a table consistent with a hash function that gives `hash` to
    /// `key`, this is the entry of the map.
    pub fn get_kv_hashed<'a>(&'a self, hash: u64, key: &K) -> (r: Option<(&'a K, &'a V)>)
        requires
            obeys_key_eq::<K>(),
        ensures
            r == by_ref(lookup(self.chains(), hash, *key)),
            forall|h: spec_fn(K) -> u64| #[trigger]
                self.consistent_with(h) && h(*key) == hash ==> r == if self@.contains_key(*key) {
                    Some((key, &self@[*key]))
                } else {
                    None
                },
    {
        proof {
            assert forall|h: spec_fn(K) -> u64| #[trigger]
                self.consistent_with(h) && h(*key) == hash implies lookup(
                self.chains(),
                hash,
                *key,
            ) == if self@.contains_key(*key) {
                Some((*key, self@[*key]))
            } else {
                None
            } by {
                lemma_lookup_is_map_get(self.chains(), h, *key);
            }
        }
        match self.index_hashed(hash) {
            Some(idx) => {
                assert(self.chains()[idx as int] == self.buckets@[idx as int]@);
                self.buckets[idx].get(key)
            },
            None => None,
        }
    }

    /// Stores `(key, value)` in the bucket selected by `hash`, without
    /// growing the table, and returns the entry that it displaced.
    ///
    /// For a table consistent with a hash function that gives `hash` to
    /// `key`, this is `insert` on the map.
    pub fn insert_kv_hashed(&mut self, hash: u64, key: K, value: V) -> (displaced: Option<(K, V)>)
        requires
            old(self).wf(),
            obeys_key_eq::<K>(),
            old(self).chains().len() > 0,
            old(self).spec_len() < usize::MAX,
        ensures
            final(self).wf(),
            final(self).chains() == put(old(self).chains(), hash, key, value),
            displaced == lookup(old(self).chains(), hash, key),
            final(self).spec_len() == old(self).spec_len() + if displaced is Some {
                0int
            } else {
                1int
            },
            forall|h: spec_fn(K) -> u64| #[trigger]
                old(self).consistent_with(h) && h(key) == hash ==> {
                    &&& final(self).consistent_with(h)
                    &&& final(self)@ == old(self)@.insert(key, value)
                    &&& displaced == if old(self)@.contains_key(key) {
                        Some((key, old(self)@[key]))
                    } else {
                        None
                    }
                },
    {
        proof {
            self.lemma_buckets_wf();
        }
        let ghost before = self.chains();
        let idx = match self.index_hashed(hash) {
            Some(idx) => idx,
            None => 0,
        };
        assert(before[idx as int] == self.buckets@[idx as int]@);
        let displaced = self.buckets[idx].insert(key, value);
        if displaced.is_none() {
            self.len = self.len + 1;
        }
        proof {
            let after = put(before, hash, key, value);
            assert(self.chains() =~= after);
            crate::chain::lemma_position_is_first(before[idx as int], key);
            crate::chain::lemma_chain_put(before[idx as int], key, value, key);
            crate::model::lemma_entries_len_update(before, idx as int, after[idx as int]);
            assert forall|i: int| 0 <= i < after.len() implies distinct_keys(#[trigger] after[i]) by {
                if i != idx {
                    assert(after[i] == before[i]);
                }
            }
            assert forall|h: spec_fn(K) -> u64| #[trigger]
                consistent(before, h) && h(key) == hash implies {
                &&& consistent(after, h)
                &&& as_map(after) == as_map(before).insert(key, value)
                &&& displaced == if as_map(before).contains_key(key) {
                    Some((key, as_map(before)[key]))
                } else {
                    None
                }
            } by {
                crate::laws::lemma_put_is_map_insert(before, h, key, value);
                lemma_lookup_is_map_get(before, h, key);
            }
        }
        displaced
    }

    /// Mutable access to the entry that the bucket selected by `hash` holds
    /// for `key`.
    ///
    /// The table afterwards holds what the caller leaves behind the two
    /// references. While the key is left as it is, the table stays well
    /// formed, and for a table consistent with a hash function that gives
    /// `hash` to `key` the effect is `insert` of the new value on the map.
    pub fn get_mut_kv_hashed(&mut self, hash: u64, key: &K) -> (r: Option<(&mut K, &mut V)>)
        requires
            obeys_key_eq::<K>(),
        ensures
            match r {
                Some((k, v)) => {
                    &&& lookup(old(self).chains(), hash, *key) == Some((*k, *v))
                    &&& *k == *key
                    &&& final(self).chains() =~= overwritten(
                        old(self).chains(),
                        hash,
                        *key,
                        (*final(k), *final(v)),
                    )
                    &&& *final(k) == *key ==> final(self).chains() =~= put(
                        old(self).chains(),
                        hash,
                        *key,
                        *final(v),
                    )
                    &&& *final(k) == *key && old(self).wf() ==> final(self).wf()
                },
                None => {
                    &&& lookup(old(self).chains(), hash, *key) is None
                    &&& final(self).chains() =~= old(self).chains()
                    &&& old(self).wf() ==> final(self).wf()
                },
            },
            final(self).spec_len() == old(self).spec_len(),
            old(self).well_shaped() ==> final(self).well_shaped(),
            forall|h: spec_fn(K) -> u64| #[trigger]
                old(self).consistent_with(h) && h(*key) == hash ==> match r {
                    Some((k, v)) => {
                        &&& old(self)@.contains_key(*key)
                        &&& *v == old(self)@[*key]
                        &&& *final(k) == *key ==> final(self).consistent_with(h) && final(self)@
                            =~= old(self)@.insert(*key, *final(v))
                    },
                    None => !old(self)@.contains_key(*key),
                },
    {
        let ghost before = self.chains();
        proof {
            assert forall|h: spec_fn(K) -> u64| #[trigger]
                consistent(before, h) && h(*key) == hash implies lookup(before, hash, *key) == if as_map(
                before,
            ).contains_key(*key) {
                Some((*key, as_map(before)[*key]))
            } else {
                None
            } by {
                lemma_lookup_is_map_get(before, h, *key);
            }
            if before.len() > 0 {
                let s = slot_of(hash, before.len());
                crate::chain::lemma_position_is_first(before[s], *key);
                assert forall|val: V|
                    chains_distinct(before) && has_key(before[s], *key) implies chains_distinct(
                    #[trigger] put(before, hash, *key, val),
                ) && entries(put(before, hash, *key, val)).len() == entries(before).len() by {
                    let after = put(before, hash, *key, val);
                    crate::chain::lemma_chain_put(before[s], *key, val, *key);
                    crate::model::lemma_entries_len_update(before, s, after[s]);
                    assert forall|i: int| 0 <= i < after.len() implies distinct_keys(
                        #[trigger] after[i],
                    ) by {
                        if i != s {
                            assert(after[i] == before[i]);
                        }
                    }
                }
                assert forall|h: spec_fn(K) -> u64, val: V|
                    consistent(before, h) && h(*key) == hash implies #[trigger] consistent(
                    put(before, hash, *key, val),
                    h,
                ) && as_map(put(before, hash, *key, val)) == as_map(before).insert(*key, val) by {
                    crate::laws::lemma_put_is_map_insert(before, h, *key, val);
                }
            }
        }
        self.entry_mut(hash, key)
    }

    /// The two references behind `get_mut_kv_hashed`, with what the table
    /// holds afterwards.
    fn entry_mut(&mut self, hash: u64, key: &K) -> (r: Option<(&mut K, &mut V)>)
        requires
            obeys_key_eq::<K>(),
        ensures
            r matches Some((k, v)) ==> lookup(old(self).chains(), hash, *key) == Some((*k, *v))
                && *k == *key,
            r matches Some((k, v)) ==> final(self).chains() == overwritten(
                old(self).chains(),
                hash,
                *key,
                (*final(k), *final(v)),
            ),
            r is None ==> lookup(old(self).chains(), hash, *key) is None,
            r is None ==> final(self).chains() == old(self).chains(),
            final(self).spec_len() == old(self).spec_len(),
            old(self).well_shaped() ==> final(self).well_shaped(),
    {
        let ghost before = self.chains();
        proof {
            if before.len() > 0 {
                crate::chain::lemma_position_is_first(
                    before[slot_of(hash, before.len())],
                    *key,
                );
            }
        }
        match self.index_hashed(hash) {
            Some(idx) => {
                assert(before[idx as int] == self.buckets@[idx as int]@);
                self.buckets[idx].get_mut(key)
            },
            None => None,
        }
    }

    /// Removes `key` from the bucket selected by `hash` and returns its
    /// value.
    ///
    /// For a table consistent with a hash function that gives `hash` to
    /// `key`, this is `remove` on the map.
    pub fn remove_hashed(&mut self, hash: u64, key: &K) -> (removed: Option<V>)
        requires
            old(self).wf(),
            obeys_key_eq::<K>(),
        ensures
            final(self).wf(),
            final(self).chains() == del(old(self).chains(), hash, *key),
            removed == match lookup(old(self).chains(), hash, *key) {
                Some(e) => Some(e.1),
                None => None,
            },
            final(self).spec_len() == old(self).spec_len() - if removed is Some {
                1int
            } else {
                0int
            },
            forall|h: spec_fn(K) -> u64| #[trigger]
                old(self).consistent_with(h) && h(*key) == hash ==> {
                    &&& final(self).consistent_with(h)
                    &&& final(self)@ == old(self)@.remove(*key)
                    &&& removed == if old(self)@.contains_key(*key) {
                        Some(old(self)@[*key])
                    } else {
                        None
                    }
                },
    {
        proof {
            self.lemma_buckets_wf();
        }
        let ghost before = self.chains();
        proof {
            assert forall|h: spec_fn(K) -> u64| #[trigger]
                consistent(before, h) && h(*key) == hash implies {
                &&& consistent(del(before, hash, *key), h)
                &&& as_map(del(before, hash, *key)) == as_map(before).remove(*key)
                &&& lookup(before, hash, *key) == if as_map(before).contains_key(*key) {
                    Some((*key, as_map(before)[*key]))
                } else {
                    None
                }
            } by {
                crate::laws::lemma_del_is_map_remove(before, h, *key);
                lemma_lookup_is_map_get(before, h, *key);
            }
        }
        match self.index_hashed(hash) {
            Some(idx) => {
                assert(before[idx as int] == self.buckets@[idx as int]@);
                let removed = self.buckets[idx].remove(key);
                proof {
                    let after = del(before, hash, *key);
                    assert(self.chains() =~= after);
                    crate::chain::lemma_position_is_first(before[idx as int], *key);
                    crate::chain::lemma_chain_del(before[idx as int], *key, *key);
                    crate::model::lemma_entries_len_update(before, idx as int, after[idx as int]);
                    assert forall|i: int| 0 <= i < after.len() implies distinct_keys(
                        #[trigger] after[i],
                    ) by {
                        if i != idx {
                            assert(after[i] == before[i]);
                        }
                    }
                }
                if removed.is_some() {
                    self.len = self.len - 1;
                }
                removed
            },
            None => None,
        }
    }
}

impl<K: Hash + Eq, V> HashMap<K, V> {
    /// The bucket for `key`, or `None` if there are no buckets.
    pub fn index(&self, key: &K) -> (r: Option<usize>)
        ensures
            self.chains().len() == 0 <==> r is None,
            r matches Some(i) ==> i < self.chains().len(),
            exists|hash: u64|
                r == if self.chains().len() == 0 {
                    None
                } else {
                    Some(#[trigger] slot_of(hash, self.chains().len()) as usize)
                },
    {
        let hash = hash(DefaultHasher::new(), key);
        let r = self.index_hashed(hash);
        proof {
            let slot = slot_of(hash, self.chains().len());
            assert(r == if self.chains().len() == 0 {
                None
            } else {
                Some(slot as usize)
            });
        }
        r
    }

    /// The entry stored for `key`: what `get_kv_hashed` finds with the hash
    /// of the key.
    ///
    /// The hash is whatever the `Hash` impl of `K` yields, so the contract
    /// holds for some hash value; `crate::laws` says what that means for
    /// keys that are always hashed alike.
    pub fn get_kv<'a>(&'a self, key: &K) -> (r: Option<(&'a K, &'a V)>)
        requires
            obeys_key_eq::<K>(),
        ensures
            exists|hash: u64| r == by_ref(#[trigger] lookup(self.chains(), hash, *key)),
            self.chains().len() == 0 ==> r is None,
    {
        let hash = hash(DefaultHasher::new(), key);
        let r = self.get_kv_hashed(hash, key);
        assert(r == by_ref(lookup(self.chains(), hash, *key)));
        r
    }

    /// The value stored for `key`.
    pub fn get<'a>(&'a self, key: &K) -> (r: Option<&'a V>)
        requires
            obeys_key_eq::<K>(),
        ensures
            exists|hash: u64|
                r == match #[trigger] lookup(self.chains(), hash, *key) {
                    Some(e) => Some(&e.1),
                    None => None,
                },
            self.chains().len() == 0 ==> r is None,
    {
        match self.get_kv(key) {
            Some((_, v)) => Some(v),
            None => None,
        }
    }

    /// Mutable access to the entry stored for `key`: what
    /// `get_mut_kv_hashed` gives with the hash of the key.
    pub fn get_mut_kv(&mut self, key: &K) -> (r: Option<(&mut K, &mut V)>)
        requires
            obeys_key_eq::<K>(),
        ensures
            exists|hash: u64|
                match r {
                    Some((k, v)) => {
                        &&& #[trigger] lookup(old(self).chains(), hash, *key) == Some((*k, *v))
                        &&& final(self).chains() == overwritten(
                            old(self).chains(),
                            hash,
                            *key,
                            (*final(k), *final(v)),
                        )
                    },
                    None => {
                        &&& lookup(old(self).chains(), hash, *key) is None
                        &&& final(self).chains() == old(self).chains()
                    },
                },
            old(self).chains().len() == 0 ==> r is None,
            r matches Some((k, v)) ==> *k == *key,
            r matches Some((k, v)) ==> (*final(k) == *key && old(self).wf() ==> final(self).wf()),
            r is None ==> (old(self).wf() ==> final(self).wf()),
            final(self).spec_len() == old(self).spec_len(),
            old(self).well_shaped() ==> final(self).well_shaped(),
    {
        let hash = hash(DefaultHasher::new(), key);
        self.get_mut_kv_hashed(hash, key)
    }

    /// Mutable access to the value stored for `key`.
    pub fn get_mut(&mut self, key: &K) -> (r: Option<&mut V>)
        requires
            obeys_key_eq::<K>(),
        ensures
            exists|hash: u64|
                match r {
                    Some(v) => {
                        &&& #[trigger] lookup(old(self).chains(), hash, *key) == Some((*key, *v))
                        &&& final(self).chains() == put(
                            old(self).chains(),
                            hash,
                            *key,
                            *final(v),
                        )
                    },
                    None => {
                        &&& lookup(old(self).chains(), hash, *key) is None
                        &&& final(self).chains() == old(self).chains()
                    },
                },
            old(self).chains().len() == 0 ==> r is None,
            old(self).wf() ==> final(self).wf(),
            final(self).spec_len() == old(self).spec_len(),
    {
        let hash = hash(DefaultHasher::new(), key);
        match self.get_mut_kv_hashed(hash, key) {
            Some((_, v)) => Some(v),
            None => None,
        }
    }

    /// Replaces the bucket array by one of `new_capacity` buckets and stores
    /// every entry anew, in iteration order, each in the bucket that the
    /// hash of its key selects.
    ///
    /// A table that holds entries cannot be resized to no buckets. Where
    /// the hashes come from the hash function that the table is consistent
    /// with, the map stays as it is: `crate::laws::lemma_rehash_keeps_map`.
    pub fn resize(&mut self, new_capacity: usize)
        requires
            old(self).wf(),
            obeys_key_eq::<K>(),
            new_capacity > 0 || old(self).spec_len() == 0,
        ensures
            final(self).wf(),
            final(self).chains().len() == new_capacity,
            !zero_sized::<K, V>() ==> final(self).spec_capacity() == new_capacity,
            final(self).spec_len() <= old(self).spec_len(),
            exists|hashes: Seq<u64>|
                hashes.len() == old(self).spec_entries().len() && final(self).chains()
                    == #[trigger] old(self).rehashed(hashes, new_capacity as nat),
    {
        let ghost before = self.chains();
        let ghost total = entries(before).len();
        if Self::is_zst() && self.len == 0 {
            // Nothing is held, so there is nothing to store anew.
            self.buckets = Bucket::vec_of_empties(new_capacity);
            proof {
                assert(self.chains() =~= empties::<K, V>(new_capacity as nat));
                lemma_entries_of_empties::<K, V>(new_capacity as nat);
                let none = Seq::<u64>::empty();
                assert(none.len() == old(self).spec_entries().len());
                assert(self.chains() == old(self).rehashed(none, new_capacity as nat));
            }
            return ;
        }
        let mut old_buckets = Bucket::vec_of_empties(new_capacity);
        core::mem::swap(&mut self.buckets, &mut old_buckets);
        self.len = 0;
        let ghost mut hashes: Seq<u64> = Seq::empty();
        let ghost mut done: Seq<(K, V)> = Seq::empty();
        proof {
            assert(self.chains() =~= empties::<K, V>(new_capacity as nat));
            lemma_entries_of_empties::<K, V>(new_capacity as nat);
            assert(before.take(0) =~= Seq::<Seq<(K, V)>>::empty());
            assert(before.len() == old_buckets@.len());
            if new_capacity == 0 {
                assert forall|i: int| 0 <= i < before.len() implies (#[trigger] before[i]).len()
                    == 0 by {
                    if before[i].len() > 0 {
                        crate::model::lemma_entries_cover(before, i, 0);
                    }
                }
            }
        }
        for bucket in it: old_buckets
            invariant
                obeys_key_eq::<K>(),
                before.len() == it.seq().len(),
                forall|i: int| 0 <= i < before.len() ==> #[trigger] before[i] == it.seq()[i]@,
                entries(before).len() == total,
                total <= usize::MAX,
                new_capacity > 0 || forall|i: int|
                    0 <= i < before.len() ==> (#[trigger] before[i]).len() == 0,
                done == entries(before.take(it.index() as int)),
                hashes.len() == done.len(),
                self.chains() == rehash(done, hashes, new_capacity as nat),
                self.chains().len() == new_capacity,
                self.wf(),
        {
            let ghost i = it.index() as int;
            let ghost start = done;
            proof {
                crate::model::lemma_entries_take_next(before, i);
                crate::model::lemma_entries_take_len(before, i + 1);
            }
            let chain = bucket.into_entries();
            for entry in at: chain
                invariant
                    obeys_key_eq::<K>(),
                    0 <= i < before.len(),
                    at.seq() == before[i],
                    new_capacity > 0 || before[i].len() == 0,
                    done == start + before[i].take(at.index() as int),
                    (start + before[i]).len() <= total,
                    total <= usize::MAX,
                    hashes.len() == done.len(),
                    self.chains() == rehash(done, hashes, new_capacity as nat),
                    self.chains().len() == new_capacity,
                    self.wf(),
            {
                let ghost j = at.index() as int;
                let (key, value) = entry;
                let hash = hash(DefaultHasher::new(), &key);
                proof {
                    crate::model::lemma_rehash_push(done, hashes, new_capacity as nat, (key, value), hash);
                    crate::model::lemma_rehash_shape(done, hashes, new_capacity as nat);
                    assert(before[i].take(j + 1) =~= before[i].take(j).push(before[i][j]));
                    assert(start + before[i].take(j + 1) =~= done.push((key, value)));
                    hashes = hashes.push(hash);
                    done = done.push((key, value));
                }
                self.insert_kv_hashed(hash, key, value);
            }
            proof {
                assert(before[i].take(before[i].len() as int) =~= before[i]);
            }
        }
        proof {
            assert(before.take(before.len() as int) =~= before);
            crate::model::lemma_rehash_shape(done, hashes, new_capacity as nat);
            assert(hashes.len() == old(self).spec_entries().len());
            assert(self.chains() == old(self).rehashed(hashes, new_capacity as nat));
        }
    }

    /// Grows the table if it has no buckets, or if one more entry would
    /// take it over the largest load factor.
    fn expand_if_needed(&mut self)
        requires
            old(self).wf(),
            obeys_key_eq::<K>(),
            old(self).can_insert(),
        ensures
            final(self).wf(),
            final(self).chains().len() > 0,
            final(self).chains().len() == old(self).next_size(),
            final(self).spec_len() <= old(self).spec_len(),
            exists|hashes: Seq<u64>|
                hashes.len() == old(self).spec_entries().len() && final(self).chains()
                    == #[trigger] old(self).grown_with(hashes),
    {
        if self.buckets.len() == 0 {
            self.resize(INIT_CAPACITY);
            proof {
                let hs = choose|hs: Seq<u64>|
                    hs.len() == old(self).spec_entries().len() && self.chains()
                        == #[trigger] old(self).rehashed(hs, INIT_CAPACITY as nat);
                assert(self.chains() == old(self).grown_with(hs));
            }
        } else if load_factor_exceeded(self.len + 1, self.capacity()) {
            let new_capacity = self.capacity() * GROWTH_FACTOR;
            self.resize(new_capacity);
            proof {
                let hs = choose|hs: Seq<u64>|
                    hs.len() == old(self).spec_entries().len() && self.chains()
                        == #[trigger] old(self).rehashed(hs, new_capacity as nat);
                assert(self.chains() == old(self).grown_with(hs));
            }
        } else {
            proof {
                let hs = Seq::<u64>::new(old(self).spec_entries().len(), |i: int| 0u64);
                assert(hs.len() == old(self).spec_entries().len());
                assert(self.chains() == old(self).grown_with(hs));
            }
        }
    }

    /// Stores `(key, value)` and returns the entry that it displaced, if
    /// the key was there. The table grows first if it has to; the entry
    /// then goes to the bucket that the hash of `key` selects.
    ///
    /// The contract holds for some hash values, those that the keys
    /// yielded. Where all of them come from one hash function, this is
    /// `insert` on the map: `crate::laws::lemma_insert_is_map_insert`.
    pub fn insert_kv(&mut self, key: K, value: V) -> (displaced: Option<(K, V)>)
        requires
            old(self).wf(),
            obeys_key_eq::<K>(),
            old(self).can_insert(),
        ensures
            final(self).wf(),
            final(self).chains().len() == old(self).next_size(),
            final(self).spec_len() <= old(self).spec_len() + 1,
            exists|hashes: Seq<u64>, hash: u64|
                {
                    &&& hashes.len() == old(self).spec_entries().len()
                    &&& final(self).chains() == #[trigger] put(
                        old(self).grown_with(hashes),
                        hash,
                        key,
                        value,
                    )
                    &&& displaced == lookup(old(self).grown_with(hashes), hash, key)
                },
    {
        let ghost before = *self;
        self.expand_if_needed();
        let ghost hashes = choose|hashes: Seq<u64>|
            hashes.len() == before.spec_entries().len() && self.chains()
                == #[trigger] before.grown_with(hashes);
        let hash = hash(DefaultHasher::new(), &key);
        let displaced = self.insert_kv_hashed(hash, key, value);
        proof {
            assert(self.chains() == put(old(self).grown_with(hashes), hash, key, value));
        }
        displaced
    }

    /// Stores `value` under `key` and returns the value that it replaced,
    /// if the key was there.
    pub fn insert(&mut self, key: K, value: V) -> (replaced: Option<V>)
        requires
            old(self).wf(),
            obeys_key_eq::<K>(),
            old(self).can_insert(),
        ensures
            final(self).wf(),
            final(self).chains().len() == old(self).next_size(),
            final(self).spec_len() <= old(self).spec_len() + 1,
            exists|hashes: Seq<u64>, hash: u64|
                {
                    &&& hashes.len() == old(self).spec_entries().len()
                    &&& final(self).chains() == #[trigger] put(
                        old(self).grown_with(hashes),
                        hash,
                        key,
                        value,
                    )
                    &&& replaced == match lookup(old(self).grown_with(hashes), hash, key) {
                        Some(e) => Some(e.1),
                        None => None,
                    }
                },
    {
        match self.insert_kv(key, value) {
            Some((_, v)) => Some(v),
            None => None,
        }
    }

    /// Removes `key` and returns its value, if the key was there: what
    /// `remove_hashed` does with the hash of the key. The count changes
    /// exactly if an entry leaves.
    pub fn remove(&mut self, key: &K) -> (removed: Option<V>)
        requires
            old(self).wf(),
            obeys_key_eq::<K>(),
        ensures
            final(self).wf(),
            exists|hash: u64|
                {
                    &&& final(self).chains() == #[trigger] del(old(self).chains(), hash, *key)
                    &&& removed == match lookup(old(self).chains(), hash, *key) {
                        Some(e) => Some(e.1),
                        None => None,
                    }
                },
            final(self).spec_len() == old(self).spec_len() - if removed is Some {
                1int
            } else {
                0int
            },
    {
        let hash = hash(DefaultHasher::new(), key);
        let removed = self.remove_hashed(hash, key);
        assert(self.chains() == del(old(self).chains(), hash, *key));
        removed
    }

    /// Makes room for `additional` more entries; see `reserve_exact`.
    pub fn reserve(&mut self, additional: usize)
        requires
            old(self).wf(),
            obeys_key_eq::<K>(),
            old(self).spec_len() + additional <= usize::MAX,
        ensures
            final(self).wf(),
            final(self).spec_len() <= old(self).spec_len(),
            exists|hashes: Seq<u64>|
                hashes.len() == old(self).spec_entries().len() && final(self).chains()
                    == #[trigger] old(self).reserved_with(additional as nat, hashes),
    {
        self.reserve_exact(additional);
    }

    /// Resizes the table to `len() + additional` buckets if its capacity is
    /// less than that, and leaves it alone otherwise.
    pub fn reserve_exact(&mut self, additional: usize)
        requires
            old(self).wf(),
            obeys_key_eq::<K>(),
            old(self).spec_len() + additional <= usize::MAX,
        ensures
            final(self).wf(),
            final(self).spec_len() <= old(self).spec_len(),
            exists|hashes: Seq<u64>|
                hashes.len() == old(self).spec_entries().len() && final(self).chains()
                    == #[trigger] old(self).reserved_with(additional as nat, hashes),
    {
        let new_capacity = self.len() + additional;
        if self.capacity() < new_capacity {
            self.resize(new_capacity);
            proof {
                let hs = choose|hs: Seq<u64>|
                    hs.len() == old(self).spec_entries().len() && self.chains()
                        == #[trigger] old(self).rehashed(hs, new_capacity as nat);
                assert(self.chains() == old(self).reserved_with(additional as nat, hs));
            }
        } else {
            proof {
                let hs = Seq::<u64>::new(old(self).spec_entries().len(), |i: int| 0u64);
                assert(hs.len() == old(self).spec_entries().len());
                assert(self.chains() == old(self).reserved_with(additional as nat, hs));
            }
        }
    }

    /// Shrinks the table as far as the largest load factor allows.
    pub fn shrink_to_fit(&mut self)
        requires
            old(self).wf(),
            obeys_key_eq::<K>(),
            shrunk_size(old(self).spec_len() as nat) <= usize::MAX,
        ensures
            final(self).wf(),
            final(self).spec_len() <= old(self).spec_len(),
            final(self).chains().len() == shrunk_size(old(self).spec_len() as nat),
            exists|hashes: Seq<u64>|
                hashes.len() == old(self).spec_entries().len() && final(self).chains()
                    == #[trigger] old(self).rehashed(
                    hashes,
                    shrunk_size(old(self).spec_len() as nat),
                ),
    {
        self.shrink_to(0)
    }

    /// Resizes the table to `len() / 0.75` buckets, rounded down, or to
    /// `min_capacity` buckets if that is more.
    pub fn shrink_to(&mut self, min_capacity: usize)
        requires
            old(self).wf(),
            obeys_key_eq::<K>(),
            shrunk_size(old(self).spec_len() as nat) <= usize::MAX,
        ensures
            final(self).wf(),
            final(self).spec_len() <= old(self).spec_len(),
            final(self).chains().len() == old(self).shrunk_to(min_capacity as nat),
            exists|hashes: Seq<u64>|
                hashes.len() == old(self).spec_entries().len() && final(self).chains()
                    == #[trigger] old(self).rehashed(
                    hashes,
                    old(self).shrunk_to(min_capacity as nat),
                ),
    {
        let len = self.len();
        let needed = len / LOAD_FACTOR_NUM * LOAD_FACTOR_DEN + (len % LOAD_FACTOR_NUM)
            * LOAD_FACTOR_DEN / LOAD_FACTOR_NUM;
        assert(needed == shrunk_size(len as nat));
        let new_capacity = if needed >= min_capacity {
            needed
        } else {
            min_capacity
        };
        self.resize(new_capacity);
        proof {
            let hs = choose|hs: Seq<u64>|
                hs.len() == old(self).spec_entries().len() && self.chains()
                    == #[trigger] old(self).rehashed(hs, new_capacity as nat);
            assert(self.chains() == old(self).rehashed(
                hs,
                old(self).shrunk_to(min_capacity as nat),
            ));
        }
    }
}

/// The entries that are still to come when an iteration over `chains`
/// stands at index `pos` of bucket `bucket`.
pub open spec fn entries_from<K, V>(chains: Seq<Seq<(K, V)>>, bucket: int, pos: int) -> Seq<(K, V)> {
    entries(chains.skip(bucket)).skip(pos)
}

/// A position of an iteration: a bucket and an index into its chain, or
/// the end of the bucket array.
pub open spec fn is_position<K, V>(chains: Seq<Seq<(K, V)>>, bucket: int, pos: int) -> bool {
    &&& 0 <= bucket <= chains.len()
    &&& bucket < chains.len() ==> 0 <= pos <= chains[bucket].len()
    &&& bucket == chains.len() ==> pos == 0
    &&& entries(chains).len() <= usize::MAX
}

/// Moving on from the end of a chain to the head of the next one skips
/// nothing.
proof fn lemma_next_bucket<K, V>(chains: Seq<Seq<(K, V)>>, bucket: int)
    requires
        0 <= bucket < chains.len(),
    ensures
        entries_from(chains, bucket, chains[bucket].len() as int) == entries_from(
            chains,
            bucket + 1,
            0,
        ),
{
    crate::model::lemma_entries_skip_next(chains, bucket);
    assert(entries_from(chains, bucket, chains[bucket].len() as int) =~= entries_from(
        chains,
        bucket + 1,
        0,
    ));
}

/// Within a chain, the next entry of the iteration is the entry of the
/// chain at the position.
proof fn lemma_next_entry<K, V>(chains: Seq<Seq<(K, V)>>, bucket: int, pos: int)
    requires
        0 <= bucket < chains.len(),
        0 <= pos < chains[bucket].len(),
    ensures
        entries_from(chains, bucket, pos).len() > 0,
        entries_from(chains, bucket, pos)[0] == chains[bucket][pos],
        entries_from(chains, bucket, pos + 1) == entries_from(chains, bucket, pos).drop_first(),
        chains[bucket].len() <= entries(chains).len(),
{
    crate::model::lemma_entries_skip_next(chains, bucket);
    crate::model::lemma_chain_len_le(chains, bucket);
    assert(entries_from(chains, bucket, pos + 1) =~= entries_from(chains, bucket, pos).drop_first());
}

/// At the end of the bucket array nothing is left.
proof fn lemma_no_bucket_left<K, V>(chains: Seq<Seq<(K, V)>>)
    ensures
        entries_from(chains, chains.len() as int, 0) == Seq::<(K, V)>::empty(),
{
    assert(chains.skip(chains.len() as int) =~= Seq::<Seq<(K, V)>>::empty());
    assert(entries_from(chains, chains.len() as int, 0) =~= Seq::<(K, V)>::empty());
}

/// The chains of a bucket array.
pub open spec fn chains_of<K, V>(buckets: Seq<Bucket<K, V>>) -> Seq<Seq<(K, V)>> {
    Seq::new(buckets.len(), |i: int| buckets[i]@)
}

/// An iteration over the entries of a table, by reference.
#[derive(Clone)]
pub struct Iter<'a, K, V> {
    buckets: &'a Vec<Bucket<K, V>>,
    bucket: usize,
    pos: usize,
}

impl<'a, K, V> Iter<'a, K, V> {
    /// The chains of the table that is iterated over.
    pub closed spec fn chains(&self) -> Seq<Seq<(K, V)>> {
        chains_of(self.buckets@)
    }

    /// The entries that are still to come, in order.
    pub closed spec fn remaining(&self) -> Seq<(K, V)> {
        entries_from(self.chains(), self.bucket as int, self.pos as int)
    }

    /// The iteration stands at a position of its table.
    pub closed spec fn wf(&self) -> bool {
        is_position(self.chains(), self.bucket as int, self.pos as int)
    }

    /// An iteration that starts at the first bucket.
    fn new(buckets: &'a Vec<Bucket<K, V>>) -> (it: Self)
        requires
            entries(chains_of(buckets@)).len() <= usize::MAX,
        ensures
            it.wf(),
            it.chains() == chains_of(buckets@),
            it.remaining() == entries(chains_of(buckets@)),
    {
        proof {
            let chains = chains_of(buckets@);
            assert(chains.skip(0) =~= chains);
            assert(entries(chains).skip(0) =~= entries(chains));
        }
        Iter { buckets, bucket: 0, pos: 0 }
    }

    /// The next entry, or `None` when all entries have been handed out.
    pub fn next(&mut self) -> (r: Option<(&'a K, &'a V)>)
        requires
            old(self).wf(),
        ensures
            final(self).wf(),
            final(self).chains() == old(self).chains(),
            r == if old(self).remaining().len() > 0 {
                Some((&old(self).remaining()[0].0, &old(self).remaining()[0].1))
            } else {
                None
            },
            final(self).remaining() == if old(self).remaining().len() > 0 {
                old(self).remaining().drop_first()
            } else {
                old(self).remaining()
            },
    {
        let buckets = self.buckets;
        loop
            invariant
                self.wf(),
                self.buckets == buckets,
                buckets == old(self).buckets,
                self.remaining() == old(self).remaining(),
            decreases buckets@.len() - self.bucket,
        {
            if self.bucket >= buckets.len() {
                proof {
                    lemma_no_bucket_left(self.chains());
                }
                return None;
            }
            assert(self.chains()[self.bucket as int] == buckets@[self.bucket as int]@);
            match buckets[self.bucket].entry_at(self.pos) {
                Some(entry) => {
                    proof {
                        lemma_next_entry(self.chains(), self.bucket as int, self.pos as int);
                    }
                    self.pos = self.pos + 1;
                    return Some(entry);
                },
                None => {
                    proof {
                        lemma_next_bucket(self.chains(), self.bucket as int);
                    }
                    self.bucket = self.bucket + 1;
                    self.pos = 0;
                },
            }
        }
    }
}

impl<K, V> HashMap<K, V> {
    /// An iteration over all entries, bucket by bucket and each chain from
    /// its head.
    pub fn iter(&self) -> (it: Iter<'_, K, V>)
        requires
            self.wf(),
        ensures
            it.wf(),
            it.chains() == self.chains(),
            it.remaining() == self.spec_entries(),
    {
        assert(self.chains() =~= chains_of(self.buckets@));
        Iter::new(&self.buckets)
    }
}

/// The table after the entry at index `pos` of bucket `bucket` was
/// overwritten by `entry`.
pub open spec fn with_entry_at<K, V>(
    chains: Seq<Seq<(K, V)>>,
    bucket: int,
    pos: int,
    entry: (K, V),
) -> Seq<Seq<(K, V)>> {
    chains.update(bucket, chains[bucket].update(pos, entry))
}

/// Overwriting an entry changes neither the number of entries nor what
/// comes after it in the iteration, and while the key stays the same it
/// leaves no chain with a key twice.
proof fn lemma_with_entry_at<K, V>(chains: Seq<Seq<(K, V)>>, bucket: int, pos: int, entry: (K, V))
    requires
        0 <= bucket < chains.len(),
        0 <= pos < chains[bucket].len(),
    ensures
        with_entry_at(chains, bucket, pos, entry).len() == chains.len(),
        with_entry_at(chains, bucket, pos, entry)[bucket].len() == chains[bucket].len(),
        entries(with_entry_at(chains, bucket, pos, entry)).len() == entries(chains).len(),
        entries_from(with_entry_at(chains, bucket, pos, entry), bucket, pos + 1) == entries_from(
            chains,
            bucket,
            pos + 1,
        ),
        chains_distinct(chains) && entry.0 == chains[bucket][pos].0 ==> chains_distinct(
            with_entry_at(chains, bucket, pos, entry),
        ),
{
    let after = with_entry_at(chains, bucket, pos, entry);
    crate::model::lemma_entries_len_update(chains, bucket, after[bucket]);
    crate::model::lemma_entries_skip_next(chains, bucket);
    crate::model::lemma_entries_skip_next(after, bucket);
    assert(after.skip(bucket + 1) =~= chains.skip(bucket + 1));
    assert(entries_from(after, bucket, pos + 1) =~= entries_from(chains, bucket, pos + 1));
    if chains_distinct(chains) && entry.0 == chains[bucket][pos].0 {
        assert forall|i: int| 0 <= i < after.len() implies distinct_keys(#[trigger] after[i]) by {
            assert(distinct_keys(chains[i]));
        }
    }
}

/// An iteration over the entries of a table that lends out each entry for
/// writing.
///
/// The fields are public so that contracts can speak of the table behind
/// the borrow.
pub struct IterMut<'a, K, V> {
    /// The table that is iterated over.
    pub map: &'a mut HashMap<K, V>,
    /// The bucket of the next entry.
    pub bucket: usize,
    /// The index of the next entry in the chain of its bucket.
    pub pos: usize,
}

impl<'a, K, V> IterMut<'a, K, V> {
    /// The chains of the table as it is now.
    pub open spec fn chains(&self) -> Seq<Seq<(K, V)>> {
        self.map.chains()
    }

    /// The entries that are still to come, in order.
    pub open spec fn remaining(&self) -> Seq<(K, V)> {
        entries_from(self.chains(), self.bucket as int, self.pos as int)
    }

    /// The iteration stands at a position of its table.
    pub open spec fn wf(&self) -> bool {
        is_position(self.chains(), self.bucket as int, self.pos as int)
    }

    /// Moves to the next entry and lends it out, with the table as the
    /// borrower will leave it.
    fn step(&mut self) -> (r: Option<(&mut K, &mut V)>)
        requires
            old(self).wf(),
        ensures
            *final(final(self).map) == *final(old(self).map),
            final(self).map.spec_len() == old(self).map.spec_len(),
            old(self).map.well_shaped() ==> final(self).map.well_shaped(),
            r is Some == (old(self).remaining().len() > 0),
            r is None ==> final(self).chains() == old(self).chains() && final(self).remaining()
                == old(self).remaining() && final(self).wf(),
            r matches Some((k, v)) ==> {
                &&& (*k, *v) == old(self).remaining()[0]
                &&& 0 <= final(self).bucket < old(self).chains().len()
                &&& 1 <= final(self).pos <= old(self).chains()[final(self).bucket as int].len()
                &&& (*k, *v) == old(self).chains()[final(self).bucket as int][final(self).pos - 1]
                &&& entries_from(
                    old(self).chains(),
                    final(self).bucket as int,
                    final(self).pos as int,
                ) == old(self).remaining().drop_first()
            },
            r matches Some((k, v)) ==> final(self).chains() == with_entry_at(
                old(self).chains(),
                final(self).bucket as int,
                final(self).pos - 1,
                (*final(k), *final(v)),
            ),
    {
        let ghost chains = self.chains();
        loop
            invariant
                self.wf(),
                *self.map == *old(self).map,
                *final(self.map) == *final(old(self).map),
                chains == self.chains(),
                self.remaining() == old(self).remaining(),
            ensures
                self.bucket < chains.len(),
                self.pos < chains[self.bucket as int].len(),
            decreases chains.len() - self.bucket,
        {
            if self.bucket >= self.map.buckets.len() {
                proof {
                    lemma_no_bucket_left(chains);
                }
                return None;
            }
            assert(chains[self.bucket as int] == self.map.buckets@[self.bucket as int]@);
            if self.map.buckets[self.bucket].entry_at(self.pos).is_some() {
                break ;
            }
            proof {
                lemma_next_bucket(chains, self.bucket as int);
            }
            self.bucket = self.bucket + 1;
            self.pos = 0;
        }
        let bucket = self.bucket;
        let pos = self.pos;
        proof {
            lemma_next_entry(chains, bucket as int, pos as int);
        }
        self.pos = pos + 1;
        self.map.buckets[bucket].entry_at_mut(pos)
    }

    /// The next entry, for reading and writing, or `None` when all entries
    /// have been handed out.
    ///
    /// The table afterwards holds what the caller leaves behind the two
    /// references; while the key is left as it is, the table stays well
    /// formed.
    pub fn next(&mut self) -> (r: Option<(&mut K, &mut V)>)
        requires
            old(self).wf(),
        ensures
            *final(final(self).map) == *final(old(self).map),
            final(self).wf(),
            final(self).map.spec_len() == old(self).map.spec_len(),
            old(self).map.well_shaped() ==> final(self).map.well_shaped(),
            r is Some == (old(self).remaining().len() > 0),
            r is None ==> final(self).chains() == old(self).chains() && final(self).remaining()
                == old(self).remaining(),
            r matches Some((k, v)) ==> (*k, *v) == old(self).remaining()[0],
            r matches Some((k, v)) ==> final(self).remaining() == old(self).remaining().drop_first(),
            r matches Some((k, v)) ==> final(self).chains() == with_entry_at(
                old(self).chains(),
                final(self).bucket as int,
                final(self).pos - 1,
                (*final(k), *final(v)),
            ),
            r matches Some((k, v)) ==> (*final(k) == *k && old(self).map.wf() ==> final(self).map.wf()),
            r is None ==> (old(self).map.wf() ==> final(self).map.wf()),
    {
        let ghost chains = self.chains();
        proof {
            assert forall|b: int, p: int, e: (K, V)|
                0 <= b < chains.len() && 0 <= p < chains[b].len() implies {
                &&& (#[trigger] with_entry_at(chains, b, p, e)).len() == chains.len()
                &&& with_entry_at(chains, b, p, e)[b].len() == chains[b].len()
                &&& entries(with_entry_at(chains, b, p, e)).len() == entries(chains).len()
                &&& entries_from(with_entry_at(chains, b, p, e), b, p + 1) == entries_from(
                    chains,
                    b,
                    p + 1,
                )
                &&& chains_distinct(chains) && e.0 == chains[b][p].0 ==> chains_distinct(
                    with_entry_at(chains, b, p, e),
                )
            } by {
                lemma_with_entry_at(chains, b, p, e);
            }
        }
        self.step()
    }
}

impl<K, V> HashMap<K, V> {
    /// An iteration over all entries, in the order of `iter`, that lends
    /// out each entry for writing.
    pub fn iter_mut(&mut self) -> (it: IterMut<'_, K, V>)
        requires
            old(self).wf(),
        ensures
            *it.map == *old(self),
            *final(it.map) == *final(self),
            it.bucket == 0,
            it.pos == 0,
            it.wf(),
            it.remaining() == old(self).spec_entries(),
    {
        proof {
            let chains = self.chains();
            assert(chains.skip(0) =~= chains);
            assert(entries(chains).skip(0) =~= entries(chains));
        }
        IterMut { map: self, bucket: 0, pos: 0 }
    }
}

/// The elements of `v` in reverse order.
fn reversed<T>(v: Vec<T>) -> (r: Vec<T>)
    ensures
        r@ == v@.reverse(),
{
    let ghost orig = v@;
    let mut v = v;
    let mut r: Vec<T> = Vec::with_capacity(v.len());
    while v.len() > 0
        invariant
            v@.len() + r@.len() == orig.len(),
            v@ == orig.take(v@.len() as int),
            forall|j: int| 0 <= j < r@.len() ==> r@[j] == orig[orig.len() - 1 - j],
        decreases v@.len(),
    {
        match v.pop() {
            Some(x) => {
                r.push(x);
            },
            None => {},
        }
    }
    assert(r@ =~= orig.reverse());
    r
}

/// The chains of a bucket array that is visited from its last bucket to
/// its first, in the order of the visit.
pub open spec fn chains_from_back<K, V>(buckets: Seq<Bucket<K, V>>) -> Seq<Seq<(K, V)>> {
    Seq::new(buckets.len(), |i: int| buckets[buckets.len() - 1 - i]@)
}

/// An iteration that takes the entries out of a table.
#[derive(Clone)]
pub struct IntoIter<K, V> {
    /// The buckets still to visit; the next one is the last.
    buckets: Vec<Bucket<K, V>>,
    /// The entries of the bucket being visited; the next one is the last.
    current: Vec<(K, V)>,
}

impl<K, V> IntoIter<K, V> {
    /// The entries that are still to come, in order.
    pub closed spec fn remaining(&self) -> Seq<(K, V)> {
        self.current@.reverse() + entries(chains_from_back(self.buckets@))
    }

    /// An iteration over the entries of `buckets`, from the first bucket.
    fn new(buckets: Vec<Bucket<K, V>>) -> (it: Self)
        ensures
            it.remaining() == entries(chains_of(buckets@)),
    {
        let it = IntoIter { buckets: reversed(buckets), current: Vec::new() };
        proof {
            assert(chains_from_back(it.buckets@) =~= chains_of(buckets@));
            assert(it.current@.reverse() =~= Seq::<(K, V)>::empty());
            assert(it.remaining() =~= entries(chains_of(buckets@)));
        }
        it
    }

    /// The next entry, or `None` when all entries have been handed out.
    pub fn next(&mut self) -> (r: Option<(K, V)>)
        ensures
            r == if old(self).remaining().len() > 0 {
                Some(old(self).remaining()[0])
            } else {
                None
            },
            final(self).remaining() == if old(self).remaining().len() > 0 {
                old(self).remaining().drop_first()
            } else {
                old(self).remaining()
            },
    {
        loop
            invariant
                self.remaining() == old(self).remaining(),
            decreases self.buckets@.len(),
        {
            let ghost before = self.remaining();
            let ghost rest = entries(chains_from_back(self.buckets@));
            let ghost current = self.current@;
            match self.current.pop() {
                Some(entry) => {
                    proof {
                        assert(current.reverse() =~= seq![entry] + self.current@.reverse());
                        assert(self.remaining() =~= before.drop_first());
                    }
                    return Some(entry);
                },
                None => {
                    assert(current.reverse() =~= Seq::<(K, V)>::empty());
                },
            }
            let ghost buckets = self.buckets@;
            match self.buckets.pop() {
                Some(bucket) => {
                    self.current = reversed(bucket.into_entries());
                    proof {
                        assert(chains_from_back(buckets).drop_first() =~= chains_from_back(
                            self.buckets@,
                        ));
                        assert(chains_from_back(buckets)[0] == bucket@);
                        assert(self.current@.reverse() =~= bucket@);
                        assert(self.remaining() =~= before);
                    }
                },
                None => {
                    proof {
                        assert(chains_from_back(buckets) =~= Seq::<Seq<(K, V)>>::empty());
                        assert(before =~= Seq::<(K, V)>::empty());
                    }
                    return None;
                },
            }
        }
    }
}

impl<K, V> HashMap<K, V> {
    /// An iteration that takes all entries out of the table, in the order
    /// of `iter`.
    pub fn into_iter(self) -> (it: IntoIter<K, V>)
        ensures
            it.remaining() == self.spec_entries(),
    {
        assert(self.chains() =~= chains_of(self.buckets@));
        IntoIter::new(self.buckets)
    }
}

impl<K, V> Default for HashMap<K, V> {
    /// An empty table without buckets.
    fn default() -> (map: Self)
        ensures
            map.wf(),
            map@ == Map::<K, V>::empty(),
            map.spec_len() == 0,
    {
        Self::new()
    }
}

} // verus!
