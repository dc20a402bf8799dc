use hashmap::hash_map::{load_factor_exceeded, HashMap};
use hashmap::model::{GROWTH_FACTOR, INIT_CAPACITY, LOAD_FACTOR_DEN, LOAD_FACTOR_NUM};
use std::hash::{Hash, Hasher};

/// A key whose hash is always the same, so that all keys share a bucket.
#[derive(PartialEq, Eq, Debug, Clone)]
struct Same(u32);

impl Hash for Same {
    fn hash<H: Hasher>(&self, state: &mut H) {
        7u64.hash(state);
    }
}

fn sorted_pairs(map: &HashMap<i32, i32>) -> Vec<(i32, i32)> {
    let mut pairs: Vec<(i32, i32)> = Vec::new();
    let mut it = map.iter();
    while let Some((k, v)) = it.next() {
        pairs.push((*k, *v));
    }
    pairs.sort();
    pairs
}

#[test]
fn new_is_empty_and_unallocated() {
    let map: HashMap<i32, i32> = HashMap::new();
    assert_eq!(map.len(), 0);
    assert!(map.is_empty());
    assert_eq!(map.capacity(), 0);
    assert_eq!(map.get(&1), None);
    assert_eq!(map.get_kv(&1), None);
    assert_eq!(map.index(&1), None);
}

#[test]
fn default_is_empty() {
    let map: HashMap<i32, i32> = HashMap::default();
    assert_eq!(map.len(), 0);
    assert_eq!(map.capacity(), 0);
}

#[test]
fn with_capacity_allocates_exactly() {
    let map: HashMap<i32, i32> = HashMap::with_capacity(7);
    assert_eq!(map.capacity(), 7);
    assert_eq!(map.len(), 0);
    assert!(map.is_empty());
    assert!(map.index(&1).unwrap() < 7);
}

#[test]
fn constants_are_as_documented() {
    assert_eq!(INIT_CAPACITY, 32);
    assert_eq!(GROWTH_FACTOR, 4);
    assert_eq!(LOAD_FACTOR_NUM, 3);
    assert_eq!(LOAD_FACTOR_DEN, 4);
}

#[test]
fn first_insert_allocates_initial_capacity() {
    let mut map: HashMap<i32, i32> = HashMap::new();
    assert_eq!(map.insert(1, 1), None);
    assert_eq!(map.capacity(), INIT_CAPACITY);
    assert_eq!(map.len(), 1);
    assert!(!map.is_empty());
}

#[test]
fn growth_happens_past_three_quarters() {
    let mut map: HashMap<i32, i32> = HashMap::new();
    for i in 0..24 {
        map.insert(i, i);
    }
    // 24 / 32 is exactly 0.75: no growth yet.
    assert_eq!(map.capacity(), 32);
    map.insert(24, 24);
    // 25 / 32 exceeds 0.75: four times the buckets.
    assert_eq!(map.capacity(), 128);
    assert_eq!(map.len(), 25);
    for i in 0..25 {
        assert_eq!(map.get(&i), Some(&i));
    }
}

#[test]
fn load_factor_boundary() {
    assert!(!load_factor_exceeded(24, 32));
    assert!(load_factor_exceeded(25, 32));
    assert!(!load_factor_exceeded(3, 4));
    assert!(load_factor_exceeded(4, 4));
    assert!(!load_factor_exceeded(0, 0));
    assert!(load_factor_exceeded(1, 0));
    assert!(!load_factor_exceeded(usize::MAX / 4 * 3, usize::MAX));
    assert!(load_factor_exceeded(usize::MAX, usize::MAX));
}

#[test]
fn insert_replaces_and_returns_previous_value() {
    let mut map: HashMap<i32, &str> = HashMap::new();
    assert_eq!(map.insert(1, "one"), None);
    assert_eq!(map.insert(1, "uno"), Some("one"));
    assert_eq!(map.len(), 1);
    assert_eq!(map.get(&1), Some(&"uno"));
}

#[test]
fn insert_kv_returns_displaced_pair() {
    let mut map: HashMap<i32, i32> = HashMap::new();
    assert_eq!(map.insert_kv(5, 50), None);
    assert_eq!(map.insert_kv(6, 60), None);
    assert_eq!(map.insert_kv(5, 51), Some((5, 50)));
    assert_eq!(map.len(), 2);
    assert_eq!(map.get_kv(&5), Some((&5, &51)));
    assert_eq!(map.get_kv(&6), Some((&6, &60)));
}

#[test]
fn remove_returns_value_and_counts() {
    let mut map: HashMap<i32, i32> = HashMap::new();
    map.insert(1, 10);
    map.insert(2, 20);
    assert_eq!(map.remove(&1), Some(10));
    assert_eq!(map.len(), 1);
    assert_eq!(map.remove(&1), None);
    assert_eq!(map.len(), 1);
    assert_eq!(map.get(&2), Some(&20));
}

#[test]
fn remove_of_absent_key_keeps_length() {
    let mut map: HashMap<i32, i32> = HashMap::new();
    assert_eq!(map.remove(&1), None);
    assert_eq!(map.len(), 0);
    map.insert(1, 10);
    assert_eq!(map.remove(&2), None);
    assert_eq!(map.len(), 1);
}

#[test]
fn get_mut_writes_the_value() {
    let mut map: HashMap<i32, i32> = HashMap::new();
    map.insert(1, 10);
    if let Some(v) = map.get_mut(&1) {
        *v += 5;
    }
    assert_eq!(map.get(&1), Some(&15));
    assert!(map.get_mut(&2).is_none());
    assert_eq!(map.len(), 1);
}

#[test]
fn get_mut_kv_lends_key_and_value() {
    let mut map: HashMap<i32, i32> = HashMap::new();
    map.insert(3, 30);
    match map.get_mut_kv(&3) {
        Some((k, v)) => {
            assert_eq!(*k, 3);
            *v = 31;
        }
        None => panic!("the key was inserted"),
    }
    assert_eq!(map.get_kv(&3), Some((&3, &31)));
    assert!(map.get_mut_kv(&4).is_none());
}

#[test]
fn index_hashed_is_the_remainder() {
    let map: HashMap<i32, i32> = HashMap::with_capacity(4);
    assert_eq!(map.index_hashed(10), Some(2));
    assert_eq!(map.index_hashed(3), Some(3));
    assert_eq!(map.index_hashed(4), Some(0));
    assert_eq!(map.index_hashed(u64::MAX), Some(3));
    let none: HashMap<i32, i32> = HashMap::new();
    assert_eq!(none.index_hashed(10), None);
}

#[test]
fn hashed_operations_use_the_given_hash() {
    let mut map: HashMap<i32, i32> = HashMap::with_capacity(4);
    assert_eq!(map.insert_kv_hashed(1, 100, 1), None);
    // 5 selects the same bucket as 1.
    assert_eq!(map.insert_kv_hashed(5, 200, 2), None);
    assert_eq!(map.insert_kv_hashed(2, 300, 3), None);
    assert_eq!(map.len(), 3);
    assert_eq!(map.capacity(), 4);
    assert_eq!(map.get_kv_hashed(1, &100), Some((&100, &1)));
    assert_eq!(map.get_kv_hashed(5, &100), Some((&100, &1)));
    assert_eq!(map.get_kv_hashed(1, &200), Some((&200, &2)));
    // Only the selected bucket is searched.
    assert_eq!(map.get_kv_hashed(2, &100), None);
    assert_eq!(map.insert_kv_hashed(1, 100, 11), Some((100, 1)));
    assert_eq!(map.len(), 3);
    match map.get_mut_kv_hashed(5, &200) {
        Some((_, v)) => *v = 22,
        None => panic!("the key is in the bucket"),
    }
    assert!(map.get_mut_kv_hashed(3, &200).is_none());
    assert_eq!(map.remove_hashed(2, &100), None);
    assert_eq!(map.len(), 3);
    assert_eq!(map.remove_hashed(1, &100), Some(11));
    assert_eq!(map.len(), 2);
    assert_eq!(map.get_kv_hashed(1, &200), Some((&200, &22)));
    assert_eq!(map.get_kv_hashed(2, &300), Some((&300, &3)));
}

#[test]
fn iteration_follows_buckets_then_chains() {
    let mut map: HashMap<&str, i32> = HashMap::with_capacity(2);
    map.insert_kv_hashed(1, "b", 2);
    map.insert_kv_hashed(0, "a", 1);
    map.insert_kv_hashed(2, "c", 3);
    map.insert_kv_hashed(3, "d", 4);
    map.insert_kv_hashed(4, "e", 5);
    let mut seen: Vec<(&str, i32)> = Vec::new();
    let mut it = map.iter();
    while let Some((k, v)) = it.next() {
        seen.push((*k, *v));
    }
    assert_eq!(seen, vec![("a", 1), ("c", 3), ("e", 5), ("b", 2), ("d", 4)]);
    // Removing the head of a chain moves the last entry of the chain up.
    assert_eq!(map.remove_hashed(0, &"a"), Some(1));
    let mut owned: Vec<(&str, i32)> = Vec::new();
    let mut into = map.into_iter();
    while let Some(pair) = into.next() {
        owned.push(pair);
    }
    assert_eq!(owned, vec![("e", 5), ("c", 3), ("b", 2), ("d", 4)]);
}

#[test]
fn reserve_exact_resizes_only_when_short() {
    let mut map: HashMap<i32, i32> = HashMap::with_capacity(4);
    map.insert(1, 1);
    assert_eq!(map.capacity(), 4);
    map.reserve_exact(10);
    assert_eq!(map.capacity(), 11);
    map.reserve_exact(2);
    assert_eq!(map.capacity(), 11);
    map.reserve(10);
    assert_eq!(map.capacity(), 11);
    map.reserve(11);
    assert_eq!(map.capacity(), 12);
    assert_eq!(map.get(&1), Some(&1));
    assert_eq!(map.len(), 1);
}

#[test]
fn shrink_to_fit_rounds_down() {
    let mut map: HashMap<i32, i32> = HashMap::new();
    for i in 0..40 {
        map.insert(i, -i);
    }
    map.shrink_to_fit();
    // 40 / 0.75 = 53.33..
    assert_eq!(map.capacity(), 53);
    assert_eq!(map.len(), 40);
    for i in 0..40 {
        assert_eq!(map.get(&i), Some(&-i));
    }
}

#[test]
fn shrink_to_fit_meets_load_factor_for_multiples_of_three() {
    let mut map: HashMap<i32, i32> = HashMap::new();
    for i in 0..30 {
        map.insert(i, i);
    }
    map.shrink_to_fit();
    assert_eq!(map.capacity(), 40);
    assert!(!load_factor_exceeded(map.len(), map.capacity()));
    for i in 0..30 {
        assert_eq!(map.get(&i), Some(&i));
    }
}

#[test]
fn shrink_to_keeps_the_floor() {
    let mut map: HashMap<i32, i32> = HashMap::new();
    for i in 0..6 {
        map.insert(i, i);
    }
    map.shrink_to(100);
    assert_eq!(map.capacity(), 100);
    map.shrink_to(3);
    assert_eq!(map.capacity(), 8);
    for i in 0..6 {
        assert_eq!(map.get(&i), Some(&i));
    }
}

#[test]
fn shrink_of_empty_table_leaves_no_buckets() {
    let mut map: HashMap<i32, i32> = HashMap::with_capacity(16);
    map.shrink_to_fit();
    assert_eq!(map.capacity(), 0);
    assert_eq!(map.get(&1), None);
    map.insert(1, 2);
    assert_eq!(map.capacity(), 32);
    assert_eq!(map.get(&1), Some(&2));
}

#[test]
fn resize_keeps_every_entry() {
    let mut map: HashMap<i32, i32> = HashMap::new();
    for i in 0..50 {
        map.insert(i, i + 1000);
    }
    let before = sorted_pairs(&map);
    for capacity in [1usize, 7, 50, 64, 1000] {
        map.resize(capacity);
        assert_eq!(map.capacity(), capacity);
        assert_eq!(map.len(), 50);
        assert_eq!(sorted_pairs(&map), before);
        for i in 0..50 {
            assert_eq!(map.get(&i), Some(&(i + 1000)));
        }
    }
}

#[test]
fn resize_of_empty_table_to_zero() {
    let mut map: HashMap<i32, i32> = HashMap::with_capacity(8);
    map.resize(0);
    assert_eq!(map.capacity(), 0);
    assert_eq!(map.len(), 0);
    assert_eq!(map.get(&3), None);
}

#[test]
fn round_trip_of_many_keys() {
    let mut map: HashMap<u64, String> = HashMap::new();
    for i in 0..1000u64 {
        assert_eq!(map.insert(i * 7919, format!("v{}", i)), None);
    }
    assert_eq!(map.len(), 1000);
    for i in 0..1000u64 {
        assert_eq!(map.get(&(i * 7919)), Some(&format!("v{}", i)));
    }
    assert_eq!(map.get(&1), None);
}

#[test]
fn colliding_keys_are_independent() {
    let mut map: HashMap<Same, u32> = HashMap::new();
    for i in 0..20 {
        assert_eq!(map.insert(Same(i), i * 10), None);
    }
    assert_eq!(map.len(), 20);
    for i in 0..20 {
        assert_eq!(map.get(&Same(i)), Some(&(i * 10)));
    }
    // Head of the chain, a middle entry, the last entry.
    let first_index = map.index(&Same(0));
    for i in 0..20 {
        assert_eq!(map.index(&Same(i)), first_index);
    }
    assert_eq!(map.remove(&Same(0)), Some(0));
    assert_eq!(map.remove(&Same(10)), Some(100));
    assert_eq!(map.remove(&Same(19)), Some(190));
    assert_eq!(map.remove(&Same(10)), None);
    assert_eq!(map.len(), 17);
    for i in 0..20 {
        let expected = if i == 0 || i == 10 || i == 19 { None } else { Some(i * 10) };
        assert_eq!(map.get(&Same(i)).copied(), expected);
    }
    assert_eq!(map.insert(Same(3), 33), Some(30));
    assert_eq!(map.len(), 17);
    for i in 1..19 {
        if i != 10 {
            assert!(map.remove(&Same(i)).is_some());
        }
    }
    assert_eq!(map.len(), 0);
    assert!(map.is_empty());
}

#[test]
fn iteration_yields_each_entry_once() {
    let mut map: HashMap<i32, i32> = HashMap::new();
    for i in 0..200 {
        map.insert(i, i * i);
    }
    for i in 0..200 {
        if i % 3 == 0 {
            map.remove(&i);
        }
    }
    let expected: Vec<(i32, i32)> =
        (0..200).filter(|i| i % 3 != 0).map(|i| (i, i * i)).collect();
    for capacity in [1usize, 5, 133, 512] {
        map.resize(capacity);
        assert_eq!(sorted_pairs(&map), expected);
        let mut lent: Vec<(i32, i32)> = Vec::new();
        let mut it = map.iter_mut();
        while let Some((k, v)) = it.next() {
            lent.push((*k, *v));
        }
        lent.sort();
        assert_eq!(lent, expected);
    }
    assert_eq!(map.len(), expected.len());
    let mut owned: Vec<(i32, i32)> = Vec::new();
    let mut it = map.into_iter();
    while let Some(pair) = it.next() {
        owned.push(pair);
    }
    assert!(it.next().is_none());
    owned.sort();
    assert_eq!(owned, expected);
}

#[test]
fn iteration_of_empty_tables() {
    let mut map: HashMap<i32, i32> = HashMap::new();
    assert!(map.iter().next().is_none());
    assert!(map.iter_mut().next().is_none());
    let mut sized: HashMap<i32, i32> = HashMap::with_capacity(5);
    assert!(sized.iter().next().is_none());
    assert!(sized.iter_mut().next().is_none());
    assert!(sized.into_iter().next().is_none());
    assert!(map.into_iter().next().is_none());
}

#[test]
fn iter_mut_writes_through() {
    let mut map: HashMap<i32, i32> = HashMap::new();
    for i in 0..10 {
        map.insert(i, i);
    }
    map.resize(3);
    {
        let mut it = map.iter_mut();
        while let Some((_, v)) = it.next() {
            *v *= 2;
        }
    }
    for i in 0..10 {
        assert_eq!(map.get(&i), Some(&(i * 2)));
    }
    assert_eq!(map.len(), 10);
}

#[test]
fn iterator_stays_finished() {
    let mut map: HashMap<i32, i32> = HashMap::new();
    map.insert(1, 2);
    let mut it = map.iter();
    assert_eq!(it.next(), Some((&1, &2)));
    assert_eq!(it.next(), None);
    assert_eq!(it.next(), None);
}

#[test]
fn zero_sized_entries() {
    assert!(HashMap::<(), ()>::is_zst());
    assert!(!HashMap::<u8, ()>::is_zst());
    assert!(!HashMap::<(), u8>::is_zst());
    let mut map: HashMap<(), ()> = HashMap::with_capacity(3);
    assert_eq!(map.capacity(), isize::MAX as usize);
    assert_eq!(map.insert((), ()), None);
    assert_eq!(map.insert((), ()), Some(()));
    assert_eq!(map.len(), 1);
    assert_eq!(map.capacity(), isize::MAX as usize);
    map.resize(5);
    assert_eq!(map.capacity(), isize::MAX as usize);
    assert_eq!(map.get(&()), Some(&()));
    map.shrink_to_fit();
    assert_eq!(map.get(&()), Some(&()));
    assert_eq!(map.len(), 1);
    assert_eq!(map.remove(&()), Some(()));
    assert_eq!(map.get(&()), None);
    assert_eq!(map.len(), 0);
    map.resize(0);
    assert_eq!(map.capacity(), isize::MAX as usize);
    assert_eq!(map.get(&()), None);
}

#[test]
fn zero_sized_values_only() {
    let mut map: HashMap<i32, ()> = HashMap::new();
    assert_eq!(map.capacity(), 0);
    map.insert(1, ());
    assert_eq!(map.capacity(), 32);
    assert_eq!(map.get(&1), Some(&()));
}

#[test]
fn clone_is_independent() {
    let mut map: HashMap<i32, i32> = HashMap::new();
    map.insert(1, 1);
    let copy = map.clone();
    map.insert(2, 2);
    map.remove(&1);
    assert_eq!(copy.len(), 1);
    assert_eq!(copy.get(&1), Some(&1));
    assert_eq!(copy.get(&2), None);
}

#[test]
fn owned_string_keys() {
    let mut map: HashMap<String, usize> = HashMap::new();
    for word in ["alpha", "beta", "gamma", "delta"] {
        map.insert(word.to_string(), word.len());
    }
    assert_eq!(map.get(&"gamma".to_string()), Some(&5));
    assert_eq!(map.get(&"omega".to_string()), None);
    assert_eq!(map.len(), 4);
}
