use hashmap::bucket::Bucket;

fn chain(bucket: &Bucket<i32, &'static str>) -> Vec<(i32, &'static str)> {
    let mut entries = Vec::new();
    let mut p = 0;
    while let Some((k, v)) = bucket.entry_at(p) {
        entries.push((*k, *v));
        p += 1;
    }
    entries
}

fn filled() -> Bucket<i32, &'static str> {
    let mut bucket = Bucket::new();
    bucket.insert(1, "a");
    bucket.insert(2, "b");
    bucket.insert(3, "c");
    bucket.insert(4, "d");
    bucket
}

#[test]
fn bucket_starts_empty() {
    let bucket: Bucket<i32, &'static str> = Bucket::new();
    assert_eq!(chain(&bucket), vec![]);
    assert_eq!(bucket.get(&1), None);
    assert!(bucket.entry_at(0).is_none());
    assert_eq!(bucket.into_entries(), vec![]);
}

#[test]
fn vec_of_empties_has_the_count() {
    let buckets: Vec<Bucket<i32, i32>> = Bucket::vec_of_empties(5);
    assert_eq!(buckets.len(), 5);
    for bucket in &buckets {
        assert!(bucket.entry_at(0).is_none());
    }
    let none: Vec<Bucket<i32, i32>> = Bucket::vec_of_empties(0);
    assert!(none.is_empty());
}

#[test]
fn bucket_insert_appends_new_keys() {
    let bucket = filled();
    assert_eq!(chain(&bucket), vec![(1, "a"), (2, "b"), (3, "c"), (4, "d")]);
    assert_eq!(bucket.get(&1), Some((&1, &"a")));
    assert_eq!(bucket.get(&3), Some((&3, &"c")));
    assert_eq!(bucket.get(&5), None);
    assert_eq!(bucket.entry_at(3), Some((&4, &"d")));
    assert_eq!(bucket.entry_at(4), None);
}

#[test]
fn bucket_insert_overwrites_in_place() {
    let mut bucket = filled();
    assert_eq!(bucket.insert(1, "A"), Some((1, "a")));
    assert_eq!(bucket.insert(3, "C"), Some((3, "c")));
    assert_eq!(bucket.insert(5, "e"), None);
    assert_eq!(chain(&bucket), vec![(1, "A"), (2, "b"), (3, "C"), (4, "d"), (5, "e")]);
}

#[test]
fn bucket_remove_of_head_moves_last_entry_up() {
    let mut bucket = filled();
    assert_eq!(bucket.remove(&1), Some("a"));
    assert_eq!(chain(&bucket), vec![(4, "d"), (2, "b"), (3, "c")]);
    assert_eq!(bucket.remove(&4), Some("d"));
    assert_eq!(chain(&bucket), vec![(3, "c"), (2, "b")]);
    assert_eq!(bucket.remove(&3), Some("c"));
    assert_eq!(chain(&bucket), vec![(2, "b")]);
    assert_eq!(bucket.remove(&2), Some("b"));
    assert_eq!(chain(&bucket), vec![]);
    assert_eq!(bucket.remove(&2), None);
    assert_eq!(bucket.insert(7, "g"), None);
    assert_eq!(chain(&bucket), vec![(7, "g")]);
}

#[test]
fn bucket_remove_from_overflow_keeps_order() {
    let mut bucket = filled();
    assert_eq!(bucket.remove(&3), Some("c"));
    assert_eq!(chain(&bucket), vec![(1, "a"), (2, "b"), (4, "d")]);
    assert_eq!(bucket.remove(&9), None);
    assert_eq!(bucket.remove(&2), Some("b"));
    assert_eq!(bucket.remove(&4), Some("d"));
    assert_eq!(chain(&bucket), vec![(1, "a")]);
    assert_eq!(bucket.insert(5, "e"), None);
    assert_eq!(chain(&bucket), vec![(1, "a"), (5, "e")]);
}

#[test]
fn bucket_get_mut_and_entry_at_mut() {
    let mut bucket = filled();
    match bucket.get_mut(&2) {
        Some((_, v)) => *v = "B",
        None => panic!("the key was inserted"),
    }
    assert!(bucket.get_mut(&9).is_none());
    match bucket.entry_at_mut(0) {
        Some((k, v)) => {
            assert_eq!(*k, 1);
            *v = "A";
        }
        None => panic!("the chain has a head"),
    }
    match bucket.entry_at_mut(3) {
        Some((_, v)) => *v = "D",
        None => panic!("the chain has four entries"),
    }
    assert!(bucket.entry_at_mut(4).is_none());
    assert_eq!(bucket.into_entries(), vec![(1, "A"), (2, "B"), (3, "c"), (4, "D")]);
}
