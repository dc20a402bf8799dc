//! A hash set: a hash map from the items to the unit value.

use crate::hash_map;
use crate::hash_map::HashMap;
use crate::hashing::obeys_key_eq;
use crate::model::{empties, lookup, overwritten, put, shrunk_size};
use std::hash::Hash;
use vstd::prelude::*;

verus! {

/// A set of items, stored as the keys of a hash map.
#[derive(Clone)]
pub struct HashSet<T> {
    map: HashMap<T, ()>,
}

/// The keys of a sequence of entries, in order.
pub open spec fn keys_of<T>(es: Seq<(T, ())>) -> Seq<T> {
    Seq::new(es.len(), |i: int| es[i].0)
}

/// The key of an entry that may be there.
pub open spec fn key_of<T>(e: Option<(T, ())>) -> Option<T> {
    match e {
        Some(e) => Some(e.0),
        None => None,
    }
}

impl<T> View for HashSet<T> {
    type V = Set<T>;

    /// The set of the items held.
    open spec fn view(&self) -> Set<T> {
        self.table()@.dom()
    }
}

impl<T> HashSet<T> {
    /// The map that holds the items as its keys.
    pub closed spec fn table(&self) -> HashMap<T, ()> {
        self.map
    }

    /// The chains of the buckets of the table.
    pub open spec fn chains(&self) -> Seq<Seq<(T, ())>> {
        self.table().chains()
    }

    /// Well-formedness of the table.
    pub open spec fn wf(&self) -> bool {
        self.table().wf()
    }

    /// Every item sits in the bucket that `h` sends it to.
    pub open spec fn consistent_with(&self, h: spec_fn(T) -> u64) -> bool {
        self.table().consistent_with(h)
    }

    /// The items in iteration order.
    pub open spec fn spec_items(&self) -> Seq<T> {
        keys_of(self.table().spec_entries())
    }

    /// An empty set without buckets.
    pub fn new() -> (set: Self)
        ensures
            set.wf(),
            set.chains() == empties::<T, ()>(0),
            set@ == Set::<T>::empty(),
            set.table().spec_len() == 0,
            forall|h: spec_fn(T) -> u64| #[trigger] set.consistent_with(h),
    {
        HashSet { map: HashMap::new() }
    }

    /// An empty set with exactly `capacity` empty buckets.
    pub fn with_capacity(capacity: usize) -> (set: Self)
        ensures
            set.wf(),
            set.chains() == empties::<T, ()>(capacity as nat),
            set@ == Set::<T>::empty(),
            set.table().spec_len() == 0,
            forall|h: spec_fn(T) -> u64| #[trigger] set.consistent_with(h),
    {
        HashSet { map: HashMap::with_capacity(capacity) }
    }

    /// An iteration over the items, in the order of the table.
    pub fn iter(&self) -> (it: Iter<'_, T>)
        requires
            self.wf(),
        ensures
            it.wf(),
            it.remaining() == self.spec_items(),
    {
        Iter { inner: self.map.iter() }
    }

    /// An iteration over the items that lends out each item for writing.
    pub fn iter_mut(&mut self) -> (it: IterMut<'_, T>)
        requires
            old(self).wf(),
        ensures
            it.wf(),
            it.remaining() == old(self).spec_items(),
            *it.inner.map == old(self).table(),
            *final(it.inner.map) == final(self).table(),
    {
        IterMut { inner: self.map.iter_mut() }
    }

    /// An iteration that takes the items out of the set.
    pub fn into_iter(self) -> (it: IntoIter<T>)
        ensures
            it.remaining() == self.spec_items(),
    {
        IntoIter { inner: self.map.into_iter() }
    }

    /// The item that the bucket selected by `hash` holds equal to `key`.
    ///
    /// For a set consistent with a hash function that gives `hash` to
    /// `key`, this is the item if the set contains it.
    pub fn get_hashed<'a>(&'a self, hash: u64, key: &T) -> (r: Option<&'a T>) where T: Eq
        requires
            obeys_key_eq::<T>(),
        ensures
            r == match lookup(self.chains(), hash, *key) {
                Some(e) => Some(&e.0),
                None => None,
            },
            forall|h: spec_fn(T) -> u64| #[trigger]
                self.consistent_with(h) && h(*key) == hash ==> r == if self@.contains(*key) {
                    Some(key)
                } else {
                    None
                },
    {
        match self.map.get_kv_hashed(hash, key) {
            Some((k, _)) => Some(k),
            None => None,
        }
    }

    /// Puts `key` into the bucket selected by `hash`, without growing the
    /// table, and returns the equal item that it displaced.
    ///
    /// For a set consistent with a hash function that gives `hash` to
    /// `key`, this is `insert` on the set.
    pub fn insert_hashed(&mut self, hash: u64, key: T) -> (displaced: Option<T>) where T: Eq
        requires
            old(self).wf(),
            obeys_key_eq::<T>(),
            old(self).chains().len() > 0,
            old(self).table().spec_len() < usize::MAX,
        ensures
            final(self).wf(),
            final(self).chains() == put(old(self).chains(), hash, key, ()),
            displaced == key_of(lookup(old(self).chains(), hash, key)),
            final(self).table().spec_len() == old(self).table().spec_len() + if displaced is Some {
                0int
            } else {
                1int
            },
            forall|h: spec_fn(T) -> u64| #[trigger]
                old(self).consistent_with(h) && h(key) == hash ==> {
                    &&& final(self).consistent_with(h)
                    &&& final(self)@ == old(self)@.insert(key)
                    &&& displaced == if old(self)@.contains(key) {
                        Some(key)
                    } else {
                        None
                    }
                },
    {
        match self.map.insert_kv_hashed(hash, key, ()) {
            Some((k, _)) => Some(k),
            None => None,
        }
    }
}

impl<T: Hash + Eq> HashSet<T> {
    /// The item of the set that equals `key`: what `get_hashed` finds with
    /// the hash of the key.
    pub fn get<'a>(&'a self, key: &T) -> (r: Option<&'a T>)
        requires
            obeys_key_eq::<T>(),
        ensures
            exists|hash: u64|
                r == match #[trigger] lookup(self.chains(), hash, *key) {
                    Some(e) => Some(&e.0),
                    None => None,
                },
            self.chains().len() == 0 ==> r is None,
    {
        let found = self.map.get_kv(key);
        proof {
            let hash = choose|hash: u64|
                found == hash_map::by_ref(#[trigger] lookup(self.map.chains(), hash, *key));
            assert(key_of(lookup(self.chains(), hash, *key)) == match found {
                Some(e) => Some(*e.0),
                None => None,
            });
        }
        match found {
            Some((k, _)) => Some(k),
            None => None,
        }
    }

    /// Mutable access to the item of the set that equals `key`.
    ///
    /// A caller that changes the item so that it no longer equals `key` is
    /// responsible for the well-formedness of the set.
    pub fn get_mut(&mut self, key: &T) -> (r: Option<&mut T>)
        requires
            obeys_key_eq::<T>(),
        ensures
            exists|hash: u64|
                match r {
                    Some(k) => {
                        &&& #[trigger] lookup(old(self).chains(), hash, *key) == Some((*k, ()))
                        &&& final(self).chains() == overwritten(
                            old(self).chains(),
                            hash,
                            *key,
                            (*final(k), ()),
                        )
                    },
                    None => {
                        &&& lookup(old(self).chains(), hash, *key) is None
                        &&& final(self).chains() == old(self).chains()
                    },
                },
            r matches Some(k) ==> *k == *key,
            r matches Some(k) ==> (*final(k) == *key && old(self).wf() ==> final(self).wf()),
            r is None ==> (old(self).wf() ==> final(self).wf()),
    {
        assert(self.chains() == self.map.chains());
        match self.map.get_mut_kv(key) {
            Some((k, _)) => Some(k),
            None => None,
        }
    }

    /// Puts `key` into the set and returns the equal item that it
    /// displaced, if there was one. The table grows first if it has to.
    pub fn insert(&mut self, key: T) -> (displaced: Option<T>)
        requires
            old(self).wf(),
            obeys_key_eq::<T>(),
            old(self).table().can_insert(),
        ensures
            final(self).wf(),
            final(self).chains().len() == old(self).table().next_size(),
            final(self).table().spec_len() <= old(self).table().spec_len() + 1,
            exists|hashes: Seq<u64>, hash: u64|
                {
                    &&& hashes.len() == old(self).table().spec_entries().len()
                    &&& final(self).chains() == #[trigger] put(
                        old(self).table().grown_with(hashes),
                        hash,
                        key,
                        (),
                    )
                    &&& displaced == key_of(
                        lookup(old(self).table().grown_with(hashes), hash, key),
                    )
                },
    {
        assert(self.chains() == self.map.chains());
        match self.map.insert_kv(key, ()) {
            Some((k, _)) => Some(k),
            None => None,
        }
    }

    /// Makes room for `additional` more items; see `reserve_exact`.
    pub fn reserve(&mut self, additional: usize)
        requires
            old(self).wf(),
            obeys_key_eq::<T>(),
            old(self).table().spec_len() + additional <= usize::MAX,
        ensures
            final(self).wf(),
            final(self).table().spec_len() <= old(self).table().spec_len(),
            exists|hashes: Seq<u64>|
                hashes.len() == old(self).table().spec_entries().len() && final(self).chains()
                    == #[trigger] old(self).table().reserved_with(additional as nat, hashes),
    {
        self.reserve_exact(additional)
    }

    /// Resizes the table to `len + additional` buckets if its capacity is
    /// less than that, and leaves it alone otherwise.
    pub fn reserve_exact(&mut self, additional: usize)
        requires
            old(self).wf(),
            obeys_key_eq::<T>(),
            old(self).table().spec_len() + additional <= usize::MAX,
        ensures
            final(self).wf(),
            final(self).table().spec_len() <= old(self).table().spec_len(),
            exists|hashes: Seq<u64>|
                hashes.len() == old(self).table().spec_entries().len() && final(self).chains()
                    == #[trigger] old(self).table().reserved_with(additional as nat, hashes),
    {
        assert(self.table() == self.map);
        self.map.reserve_exact(additional);
    }

    /// Resizes the table to `len / 0.75` buckets, rounded down, or to
    /// `min_capacity` buckets if that is more.
    pub fn shrink_to(&mut self, min_capacity: usize)
        requires
            old(self).wf(),
            obeys_key_eq::<T>(),
            shrunk_size(old(self).table().spec_len() as nat) <= usize::MAX,
        ensures
            final(self).wf(),
            final(self).table().spec_len() <= old(self).table().spec_len(),
            final(self).chains().len() == old(self).table().shrunk_to(min_capacity as nat),
            exists|hashes: Seq<u64>|
                hashes.len() == old(self).table().spec_entries().len() && final(self).chains()
                    == #[trigger] old(self).table().rehashed(
                    hashes,
                    old(self).table().shrunk_to(min_capacity as nat),
                ),
    {
        assert(self.table() == self.map);
        self.map.shrink_to(min_capacity);
    }

    /// Shrinks the table as far as the largest load factor allows.
    pub fn shrink_to_fit(&mut self)
        requires
            old(self).wf(),
            obeys_key_eq::<T>(),
            shrunk_size(old(self).table().spec_len() as nat) <= usize::MAX,
        ensures
            final(self).wf(),
            final(self).table().spec_len() <= old(self).table().spec_len(),
            final(self).chains().len() == shrunk_size(old(self).table().spec_len() as nat),
            exists|hashes: Seq<u64>|
                hashes.len() == old(self).table().spec_entries().len() && final(self).chains()
                    == #[trigger] old(self).table().rehashed(
                    hashes,
                    shrunk_size(old(self).table().spec_len() as nat),
                ),
    {
        assert(self.table() == self.map);
        self.map.shrink_to_fit();
    }
}

impl<T> Default for HashSet<T> {
    /// An empty set without buckets.
    fn default() -> (set: Self)
        ensures
            set.wf(),
            set@ == Set::<T>::empty(),
            set.table().spec_len() == 0,
    {
        Self::new()
    }
}

/// An iteration over the items of a set, by reference.
#[derive(Clone)]
pub struct Iter<'a, T> {
    inner: hash_map::Iter<'a, T, ()>,
}

impl<'a, T> Iter<'a, T> {
    /// The items that are still to come, in order.
    pub closed spec fn remaining(&self) -> Seq<T> {
        keys_of(self.inner.remaining())
    }

    /// The iteration stands at a position of its table.
    pub closed spec fn wf(&self) -> bool {
        self.inner.wf()
    }

    /// The next item, or `None` when all items have been handed out.
    pub fn next(&mut self) -> (r: Option<&'a T>)
        requires
            old(self).wf(),
        ensures
            final(self).wf(),
            r == if old(self).remaining().len() > 0 {
                Some(&old(self).remaining()[0])
            } else {
                None
            },
            final(self).remaining() == if old(self).remaining().len() > 0 {
                old(self).remaining().drop_first()
            } else {
                old(self).remaining()
            },
    {
        let r = match self.inner.next() {
            Some((k, _)) => Some(k),
            None => None,
        };
        assert(self.remaining() =~= if old(self).remaining().len() > 0 {
            old(self).remaining().drop_first()
        } else {
            old(self).remaining()
        });
        r
    }
}

/// An iteration over the items of a set that lends out each item for
/// writing.
///
/// The field is public so that contracts can speak of the table behind the
/// borrow.
pub struct IterMut<'a, T> {
    /// The iteration over the table of the set.
    pub inner: hash_map::IterMut<'a, T, ()>,
}

impl<'a, T> IterMut<'a, T> {
    /// The items that are still to come, in order.
    pub open spec fn remaining(&self) -> Seq<T> {
        keys_of(self.inner.remaining())
    }

    /// The iteration stands at a position of its table.
    pub open spec fn wf(&self) -> bool {
        self.inner.wf()
    }

    /// The next item, for reading and writing, or `None` when all items
    /// have been handed out.
    pub fn next(&mut self) -> (r: Option<&mut T>)
        requires
            old(self).wf(),
        ensures
            *final(final(self).inner.map) == *final(old(self).inner.map),
            final(self).wf(),
            r is Some == (old(self).remaining().len() > 0),
            r is None ==> final(self).inner.chains() == old(self).inner.chains(),
            r is None ==> final(self).remaining() == old(self).remaining(),
            r matches Some(k) ==> *k == old(self).remaining()[0],
            r matches Some(k) ==> final(self).remaining() == old(self).remaining().drop_first(),
            r matches Some(k) ==> final(self).inner.chains() == hash_map::with_entry_at(
                old(self).inner.chains(),
                final(self).inner.bucket as int,
                final(self).inner.pos - 1,
                (*final(k), ()),
            ),
            r matches Some(k) ==> (*final(k) == *k && old(self).inner.map.wf() ==> final(self).inner.map.wf()),
            r is None ==> (old(self).inner.map.wf() ==> final(self).inner.map.wf()),
    {
        let ghost before = self.inner.remaining();
        proof {
            if before.len() > 0 {
                assert(keys_of(before.drop_first()) =~= keys_of(before).drop_first());
            }
        }
        match self.inner.next() {
            Some((k, _)) => Some(k),
            None => None,
        }
    }
}

/// An iteration that takes the items out of a set.
#[derive(Clone)]
pub struct IntoIter<T> {
    inner: hash_map::IntoIter<T, ()>,
}

impl<T> IntoIter<T> {
    /// The items that are still to come, in order.
    pub closed spec fn remaining(&self) -> Seq<T> {
        keys_of(self.inner.remaining())
    }

    /// The next item, or `None` when all items have been handed out.
    pub fn next(&mut self) -> (r: Option<T>)
        ensures
            r == if old(self).remaining().len() > 0 {
                Some(old(self).remaining()[0])
            } else {
                None
            },
            final(self).remaining() == if old(self).remaining().len() > 0 {
                old(self).remaining().drop_first()
            } else {
                old(self).remaining()
            },
    {
        let r = match self.inner.next() {
            Some((k, _)) => Some(k),
            None => None,
        };
        assert(self.remaining() =~= if old(self).remaining().len() > 0 {
            old(self).remaining().drop_first()
        } else {
            old(self).remaining()
        });
        r
    }
}

} // verus!
