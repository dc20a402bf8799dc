use hashmap::hash_set::HashSet;
use std::hash::{Hash, Hasher};

/// An item that compares by its name only.
#[derive(Debug, Clone)]
struct Named {
    name: &'static str,
    tag: u32,
}

impl PartialEq for Named {
    fn eq(&self, other: &Self) -> bool {
        self.name == other.name
    }
}

impl Eq for Named {}

impl Hash for Named {
    fn hash<H: Hasher>(&self, state: &mut H) {
        self.name.hash(state);
    }
}

fn sorted_items(set: &HashSet<i32>) -> Vec<i32> {
    let mut items: Vec<i32> = Vec::new();
    let mut it = set.iter();
    while let Some(item) = it.next() {
        items.push(*item);
    }
    items.sort();
    items
}

#[test]
fn set_insert_and_get() {
    let mut set: HashSet<i32> = HashSet::new();
    assert_eq!(set.get(&1), None);
    assert_eq!(set.insert(1), None);
    assert_eq!(set.insert(2), None);
    assert_eq!(set.get(&1), Some(&1));
    assert_eq!(set.get(&2), Some(&2));
    assert_eq!(set.get(&3), None);
    assert_eq!(sorted_items(&set), vec![1, 2]);
}

#[test]
fn set_insert_returns_the_displaced_item() {
    let mut set: HashSet<Named> = HashSet::new();
    assert!(set.insert(Named { name: "a", tag: 1 }).is_none());
    let displaced = set.insert(Named { name: "a", tag: 2 });
    assert_eq!(displaced.map(|n| n.tag), Some(1));
    assert_eq!(set.get(&Named { name: "a", tag: 0 }).map(|n| n.tag), Some(2));
    let mut count = 0;
    let mut it = set.iter();
    while let Some(_) = it.next() {
        count += 1;
    }
    assert_eq!(count, 1);
}

#[test]
fn set_get_mut_lends_the_item() {
    let mut set: HashSet<Named> = HashSet::with_capacity(4);
    set.insert(Named { name: "a", tag: 1 });
    match set.get_mut(&Named { name: "a", tag: 0 }) {
        Some(item) => item.tag = 9,
        None => panic!("the item was inserted"),
    }
    assert_eq!(set.get(&Named { name: "a", tag: 0 }).map(|n| n.tag), Some(9));
    assert!(set.get_mut(&Named { name: "b", tag: 0 }).is_none());
}

#[test]
fn set_hashed_operations() {
    let mut set: HashSet<i32> = HashSet::with_capacity(3);
    assert_eq!(set.insert_hashed(4, 40), None);
    assert_eq!(set.insert_hashed(7, 70), None);
    assert_eq!(set.insert_hashed(4, 40), Some(40));
    assert_eq!(set.get_hashed(1, &40), Some(&40));
    assert_eq!(set.get_hashed(1, &70), Some(&70));
    assert_eq!(set.get_hashed(2, &40), None);
    let mut items: Vec<i32> = Vec::new();
    let mut it = set.iter();
    while let Some(item) = it.next() {
        items.push(*item);
    }
    assert_eq!(items, vec![40, 70]);
}

#[test]
fn set_iterations_agree() {
    let mut set: HashSet<i32> = HashSet::default();
    for i in 0..100 {
        set.insert(i * 3);
    }
    let expected: Vec<i32> = (0..100).map(|i| i * 3).collect();
    assert_eq!(sorted_items(&set), expected);
    let mut lent: Vec<i32> = Vec::new();
    {
        let mut it = set.iter_mut();
        while let Some(item) = it.next() {
            lent.push(*item);
        }
    }
    lent.sort();
    assert_eq!(lent, expected);
    let copy = set.clone();
    let mut owned: Vec<i32> = Vec::new();
    let mut it = set.into_iter();
    while let Some(item) = it.next() {
        owned.push(item);
    }
    owned.sort();
    assert_eq!(owned, expected);
    assert_eq!(sorted_items(&copy), expected);
}

#[test]
fn set_reserve_and_shrink_keep_items() {
    let mut set: HashSet<i32> = HashSet::with_capacity(2);
    for i in 0..30 {
        set.insert(i);
    }
    let expected: Vec<i32> = (0..30).collect();
    set.reserve(500);
    assert_eq!(sorted_items(&set), expected);
    set.reserve_exact(1000);
    assert_eq!(sorted_items(&set), expected);
    set.shrink_to(64);
    assert_eq!(sorted_items(&set), expected);
    set.shrink_to_fit();
    assert_eq!(sorted_items(&set), expected);
    for i in 0..30 {
        assert_eq!(set.get(&i), Some(&i));
    }
    assert_eq!(set.get(&30), None);
}

#[test]
fn set_of_units() {
    let mut set: HashSet<()> = HashSet::new();
    assert_eq!(set.get(&()), None);
    assert_eq!(set.insert(()), None);
    assert_eq!(set.insert(()), Some(()));
    assert_eq!(set.get(&()), Some(&()));
    let mut it = set.iter();
    assert_eq!(it.next(), Some(&()));
    assert_eq!(it.next(), None);
}
