use concurrent_kit::list_set::OrderedListSet;

fn collect(set: &OrderedListSet) -> Vec<u64> {
    let mut out = Vec::new();
    let mut it = set.iter();
    while let Some(k) = it.next() {
        out.push(*k);
    }
    out
}

#[test]
fn new_set_is_empty() {
    let set = OrderedListSet::new();
    assert!(!set.contains(&0));
    assert_eq!(collect(&set), Vec::<u64>::new());
    let mut it = set.iter();
    assert_eq!(it.next(), None);
    assert_eq!(it.next(), None);
    assert_eq!(collect(&OrderedListSet::default()), Vec::<u64>::new());
}

#[test]
fn traversal_is_strictly_ascending() {
    let mut set = OrderedListSet::new();
    for k in [5u64, 1, 9, 3, 7, 0, 8, 2, 6, 4] {
        assert_eq!(set.insert(k), Ok(()));
    }
    assert_eq!(collect(&set), vec![0, 1, 2, 3, 4, 5, 6, 7, 8, 9]);
}

#[test]
fn insert_of_existing_key_reports_duplicate() {
    let mut set = OrderedListSet::new();
    assert_eq!(set.insert(4), Ok(()));
    assert_eq!(set.insert(2), Ok(()));
    assert_eq!(set.insert(4), Err(4));
    assert_eq!(set.insert(2), Err(2));
    assert_eq!(collect(&set), vec![2, 4]);
}

#[test]
fn remove_of_absent_key_reports_not_found() {
    let mut set = OrderedListSet::new();
    assert_eq!(set.remove(&1), Err(()));
    assert_eq!(set.insert(1), Ok(()));
    assert_eq!(set.insert(3), Ok(()));
    assert_eq!(set.remove(&2), Err(()));
    assert_eq!(set.remove(&4), Err(()));
    assert_eq!(set.remove(&0), Err(()));
    assert_eq!(collect(&set), vec![1, 3]);
}

#[test]
fn remove_head_middle_and_tail() {
    let mut set = OrderedListSet::new();
    for k in [10u64, 20, 30, 40] {
        assert_eq!(set.insert(k), Ok(()));
    }
    assert_eq!(set.remove(&10), Ok(10));
    assert_eq!(collect(&set), vec![20, 30, 40]);
    assert_eq!(set.remove(&30), Ok(30));
    assert_eq!(collect(&set), vec![20, 40]);
    assert_eq!(set.remove(&40), Ok(40));
    assert_eq!(collect(&set), vec![20]);
    assert_eq!(set.remove(&20), Ok(20));
    assert_eq!(collect(&set), Vec::<u64>::new());
    assert_eq!(set.remove(&20), Err(()));
}

#[test]
fn insert_becomes_new_head() {
    let mut set = OrderedListSet::new();
    assert_eq!(set.insert(u64::MAX), Ok(()));
    assert_eq!(set.insert(0), Ok(()));
    assert_eq!(collect(&set), vec![0, u64::MAX]);
}

#[test]
fn contains_follows_inserts_and_removes() {
    let mut set = OrderedListSet::new();
    assert!(!set.contains(&5));
    assert_eq!(set.insert(5), Ok(()));
    assert_eq!(set.insert(8), Ok(()));
    assert!(set.contains(&5));
    assert!(set.contains(&8));
    assert!(!set.contains(&6));
    assert!(!set.contains(&9));
    assert_eq!(set.remove(&5), Ok(5));
    assert!(!set.contains(&5));
    assert!(set.contains(&8));
}

#[test]
fn find_stops_at_the_key_or_behind_it() {
    let mut set = OrderedListSet::new();
    for k in [2u64, 4, 6] {
        assert_eq!(set.insert(k), Ok(()));
    }
    let (found, _) = set.find(&4);
    assert!(found);
    let (found, mut cursor) = set.find(&3);
    assert!(!found);
    assert!(cursor.find(&4));
    assert!(cursor.find(&4));
    assert!(!cursor.find(&2));
    assert!(cursor.find(&6));
    let (found, _) = set.find(&7);
    assert!(!found);
}

#[test]
fn clear_empties_the_set() {
    let mut set = OrderedListSet::new();
    for k in [3u64, 1, 2] {
        assert_eq!(set.insert(k), Ok(()));
    }
    set.clear();
    assert_eq!(collect(&set), Vec::<u64>::new());
    assert!(!set.contains(&1));
    assert_eq!(set.insert(1), Ok(()));
    assert_eq!(collect(&set), vec![1]);
    set.clear();
    set.clear();
    assert_eq!(collect(&set), Vec::<u64>::new());
}

#[test]
fn long_list_is_walked_without_recursion() {
    let n = 200_000u64;
    let mut set = OrderedListSet::new();
    for k in (0..n).rev() {
        assert_eq!(set.insert(k), Ok(()));
    }
    assert!(set.contains(&(n - 1)));
    assert_eq!(set.insert(n - 1), Err(n - 1));
    assert_eq!(set.insert(n), Ok(()));
    assert_eq!(set.remove(&n), Ok(n));
    assert_eq!(set.remove(&n), Err(()));
    let mut it = set.iter();
    let mut expected = 0u64;
    while let Some(k) = it.next() {
        assert_eq!(*k, expected);
        expected += 1;
    }
    assert_eq!(expected, n);
    set.clear();
    assert!(!set.contains(&0));
}
