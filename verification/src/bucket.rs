//! The chaining unit of the table: one inline slot and an optional overflow
//! sequence for the keys that collide with it.

use crate::chain::{
    chain_del, chain_get, chain_put, distinct_keys, has_key, lemma_position_at,
    lemma_position_is_first, position,
};
use crate::hashing::obeys_key_eq;
use vstd::prelude::*;

verus! {

/// The entries that share one index of the table.
///
/// The first entry lives inline; further entries go to an overflow vector
/// that is allocated on first use and dropped as soon as it is empty again.
#[derive(Clone)]
pub struct Bucket<K, V> {
    first: Option<(K, V)>,
    others: Option<Vec<(K, V)>>,
}

impl<K, V> View for Bucket<K, V> {
    type V = Seq<(K, V)>;

    /// The chain of entries: the inline slot, then the overflow in order.
    closed spec fn view(&self) -> Seq<(K, V)> {
        self.head() + self.tail()
    }
}

/// Index of the first entry of `entries` whose key equals `key`, or the
/// length if there is none.
fn find<K: Eq, V>(entries: &Vec<(K, V)>, key: &K) -> (i: usize)
    requires
        obeys_key_eq::<K>(),
    ensures
        i == position(entries@, *key),
        i <= entries.len(),
{
    let mut i: usize = 0;
    while i < entries.len()
        invariant
            obeys_key_eq::<K>(),
            i <= entries.len(),
            forall|j: int| 0 <= j < i ==> entries@[j].0 != *key,
        decreases entries.len() - i,
    {
        if entries[i].0 == *key {
            proof {
                lemma_position_at(entries@, *key, i as int);
            }
            return i;
        }
        i += 1;
    }
    proof {
        lemma_position_at(entries@, *key, i as int);
    }
    i
}

impl<K, V> Bucket<K, V> {
    spec fn head(&self) -> Seq<(K, V)> {
        match self.first {
            Some(e) => seq![e],
            None => Seq::empty(),
        }
    }

    spec fn tail(&self) -> Seq<(K, V)> {
        match self.others {
            Some(o) => o@,
            None => Seq::empty(),
        }
    }

    /// The inline slot is used before the overflow, and an overflow vector
    /// is present only while it holds an entry.
    pub closed spec fn well_shaped(&self) -> bool {
        &&& self.first is None ==> self.others is None
        &&& self.others matches Some(o) ==> o@.len() > 0
    }

    /// Well-formedness: the shape above, and no key stored twice.
    pub open spec fn wf(&self) -> bool {
        &&& self.well_shaped()
        &&& distinct_keys(self@)
    }

    /// An empty bucket.
    pub fn new() -> (b: Self)
        ensures
            b@ == Seq::<(K, V)>::empty(),
            b.wf(),
    {
        Bucket { first: None, others: None }
    }

    /// `count` empty buckets.
    pub fn vec_of_empties(count: usize) -> (v: Vec<Self>)
        ensures
            v@.len() == count,
            forall|i: int| 0 <= i < count ==> (#[trigger] v@[i])@ == Seq::<(K, V)>::empty(),
            forall|i: int| 0 <= i < count ==> (#[trigger] v@[i]).wf(),
    {
        let mut v: Vec<Self> = Vec::with_capacity(count);
        let mut i: usize = 0;
        while i < count
            invariant
                i <= count,
                v@.len() == i,
                forall|j: int| 0 <= j < i ==> (#[trigger] v@[j])@ == Seq::<(K, V)>::empty(),
                forall|j: int| 0 <= j < i ==> (#[trigger] v@[j]).wf(),
            decreases count - i,
        {
            v.push(Bucket::new());
            i += 1;
        }
        v
    }

    /// Stores `(k, v)`. An entry with an equal key is overwritten where it
    /// stands and handed back; a new key takes the inline slot if that is
    /// free and goes to the end of the overflow otherwise.
    pub fn insert(&mut self, k: K, v: V) -> (displaced: Option<(K, V)>) where K: Eq
        requires
            old(self).wf(),
            obeys_key_eq::<K>(),
        ensures
            final(self).wf(),
            final(self)@ == chain_put(old(self)@, k, v),
            displaced == chain_get(old(self)@, k),
    {
        let in_first = match &self.first {
            Some(e) => e.0 == k,
            None => false,
        };
        proof {
            lemma_position_is_first(self@, k);
            crate::chain::lemma_chain_put(self@, k, v, k);
        }
        let displaced = if self.first.is_none() || in_first {
            proof {
                lemma_position_at(self@, k, 0);
            }
            let displaced = self.first.take();
            self.first = Some((k, v));
            displaced
        } else {
            let ghost head = self.head();
            match &mut self.others {
                Some(others) => {
                    let i = find(others, &k);
                    proof {
                        lemma_position_is_first(others@, k);
                        lemma_position_at(head + others@, k, i + 1);
                    }
                    if i < others.len() {
                        let mut entry = (k, v);
                        core::mem::swap(&mut others[i], &mut entry);
                        Some(entry)
                    } else {
                        others.push((k, v));
                        None
                    }
                },
                None => {
                    proof {
                        lemma_position_at(self@, k, 1);
                    }
                    let mut others = Vec::with_capacity(1);
                    others.push((k, v));
                    self.others = Some(others);
                    None
                },
            }
        };
        assert(self@ =~= chain_put(old(self)@, k, v));
        displaced
    }

    /// The entry stored under `k`, if there is one.
    pub fn get(&self, k: &K) -> (r: Option<(&K, &V)>) where K: Eq
        requires
            obeys_key_eq::<K>(),
        ensures
            r == match chain_get(self@, *k) {
                Some(e) => Some((&e.0, &e.1)),
                None => None,
            },
    {
        proof {
            lemma_position_is_first(self@, *k);
        }
        match &self.first {
            Some(e) => {
                if e.0 == *k {
                    proof {
                        lemma_position_at(self@, *k, 0);
                    }
                    return Some((&e.0, &e.1));
                }
            },
            None => {},
        }
        match &self.others {
            Some(others) => {
                let i = find(others, k);
                proof {
                    lemma_position_is_first(others@, *k);
                    lemma_position_at(self@, *k, i + self.head().len());
                }
                if i < others.len() {
                    let e = &others[i];
                    Some((&e.0, &e.1))
                } else {
                    None
                }
            },
            None => {
                proof {
                    lemma_position_at(self@, *k, self.head().len() as int);
                }
                None
            },
        }
    }

    /// Mutable access to the entry stored under `k`, if there is one.
    ///
    /// The bucket afterwards holds whatever the caller leaves behind the two
    /// references. A caller that changes the key is responsible for keeping
    /// the keys of the bucket distinct.
    pub fn get_mut(&mut self, k: &K) -> (r: Option<(&mut K, &mut V)>) where K: Eq
        requires
            obeys_key_eq::<K>(),
        ensures
            match r {
                Some((key, value)) => {
                    &&& has_key(old(self)@, *k)
                    &&& (*key, *value) == old(self)@[position(old(self)@, *k)]
                    &&& final(self)@ == old(self)@.update(
                        position(old(self)@, *k),
                        (*final(key), *final(value)),
                    )
                },
                None => !has_key(old(self)@, *k) && final(self)@ == old(self)@,
            },
            final(self).well_shaped() == old(self).well_shaped(),
    {
        proof {
            lemma_position_is_first(self@, *k);
        }
        let in_first = match &self.first {
            Some(e) => e.0 == *k,
            None => false,
        };
        if in_first {
            proof {
                lemma_position_at(self@, *k, 0);
            }
            match &mut self.first {
                Some(e) => Some((&mut e.0, &mut e.1)),
                None => None,
            }
        } else {
            let ghost head = self.head();
            proof {
                if self.others is None {
                    lemma_position_at(self@, *k, head.len() as int);
                }
            }
            match &mut self.others {
                Some(others) => {
                    let i = find(others, k);
                    proof {
                        lemma_position_is_first(others@, *k);
                        lemma_position_at(head + others@, *k, i + head.len());
                    }
                    if i < others.len() {
                        let e = &mut others[i];
                        Some((&mut e.0, &mut e.1))
                    } else {
                        None
                    }
                },
                None => None,
            }
        }
    }

    /// Removes the entry stored under `k` and returns its value.
    ///
    /// When the inline entry leaves, the last overflow entry moves into the
    /// inline slot; an overflow entry leaves without disturbing the order of
    /// the others. An overflow vector that has become empty is dropped.
    pub fn remove(&mut self, k: &K) -> (r: Option<V>) where K: Eq
        requires
            old(self).wf(),
            obeys_key_eq::<K>(),
        ensures
            final(self).wf(),
            final(self)@ == chain_del(old(self)@, *k),
            r == match chain_get(old(self)@, *k) {
                Some(e) => Some(e.1),
                None => None,
            },
    {
        proof {
            lemma_position_is_first(self@, *k);
            crate::chain::lemma_chain_del(self@, *k, *k);
        }
        let in_first = match &self.first {
            Some(e) => e.0 == *k,
            None => false,
        };
        let mut emptied = false;
        let removed = if in_first {
            proof {
                lemma_position_at(self@, *k, 0);
            }
            let removed = self.first.take();
            match &mut self.others {
                Some(others) => {
                    self.first = others.pop();
                    emptied = others.is_empty();
                },
                None => {},
            }
            removed
        } else {
            let ghost head = self.head();
            match &mut self.others {
                Some(others) => {
                    let i = find(others, k);
                    proof {
                        lemma_position_is_first(others@, *k);
                        lemma_position_at(head + others@, *k, i + head.len());
                    }
                    if i < others.len() {
                        let e = others.remove(i);
                        emptied = others.is_empty();
                        Some(e)
                    } else {
                        None
                    }
                },
                None => {
                    proof {
                        lemma_position_at(self@, *k, head.len() as int);
                    }
                    None
                },
            }
        };
        if emptied {
            self.others = None;
        }
        assert(self@ =~= chain_del(old(self)@, *k));
        match removed {
            Some(e) => Some(e.1),
            None => None,
        }
    }

    /// The entry at index `p` of the chain, if the chain is that long.
    pub fn entry_at(&self, p: usize) -> (r: Option<(&K, &V)>)
        ensures
            r == if p < self@.len() {
                Some((&self@[p as int].0, &self@[p as int].1))
            } else {
                None
            },
    {
        let inline: usize = match &self.first {
            Some(e) => {
                if p == 0 {
                    return Some((&e.0, &e.1));
                }
                1
            },
            None => 0,
        };
        match &self.others {
            Some(others) => {
                if p - inline < others.len() {
                    let e = &others[p - inline];
                    Some((&e.0, &e.1))
                } else {
                    None
                }
            },
            None => None,
        }
    }

    /// Mutable access to the entry at index `p` of the chain, if the chain
    /// is that long. The bucket afterwards holds whatever the caller leaves
    /// behind the two references.
    pub fn entry_at_mut(&mut self, p: usize) -> (r: Option<(&mut K, &mut V)>)
        ensures
            match r {
                Some((key, value)) => {
                    &&& p < old(self)@.len()
                    &&& (*key, *value) == old(self)@[p as int]
                    &&& final(self)@ == old(self)@.update(p as int, (*final(key), *final(value)))
                },
                None => p >= old(self)@.len() && final(self)@ == old(self)@,
            },
            final(self).well_shaped() == old(self).well_shaped(),
    {
        if p == 0 && self.first.is_some() {
            match &mut self.first {
                Some(e) => Some((&mut e.0, &mut e.1)),
                None => None,
            }
        } else {
            let inline: usize = if self.first.is_some() {
                1
            } else {
                0
            };
            match &mut self.others {
                Some(others) => {
                    if p - inline < others.len() {
                        let e = &mut others[p - inline];
                        Some((&mut e.0, &mut e.1))
                    } else {
                        None
                    }
                },
                None => None,
            }
        }
    }

    /// The entries of the bucket, in chain order.
    pub fn into_entries(self) -> (entries: Vec<(K, V)>)
        ensures
            entries@ == self@,
    {
        let mut entries: Vec<(K, V)> = Vec::new();
        match self.first {
            Some(e) => {
                entries.push(e);
            },
            None => {},
        }
        match self.others {
            Some(mut others) => {
                entries.append(&mut others);
            },
            None => {},
        }
        entries
    }
}

} // verus!
