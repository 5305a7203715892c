use bytecache::history::Bucket;

#[test]
fn usage_is_zero() {
    let b = Bucket::<u32>::new();
    assert_eq!(0, b.usage());
}

#[test]
fn store_correct_usage() {
    let mut b = Bucket::new();
    b.insert(3, 2);
    assert_eq!(2, b.usage());
    b.insert(2, 3);
    assert_eq!(5, b.usage());
}

#[test]
fn contains_stored() {
    let mut b = Bucket::new();
    b.insert(3, 2);
    assert!(b.contains(&3));
}

#[test]
fn not_contains_removed() {
    let mut b = Bucket::new();
    b.insert(3, 2);
    b.remove(&3);
    assert!(!b.contains(&3));
    assert_eq!(0, b.usage());
}

#[test]
fn is_iteratable() {
    let mut b = Bucket::new();
    b.insert(3, 2);
    b.insert(1, 1);

    let all = b.iter().map(|(k, _)| *k).collect::<Vec<_>>();
    assert!(all.contains(&3));
    assert!(all.contains(&1));
}

#[test]
fn not_contains_cleared() {
    let mut b = Bucket::new();
    b.insert(3, 2);
    b.clear();
    assert!(!b.contains(&3));
    assert_eq!(0, b.usage());
}

#[test]
fn can_be_extended() {
    let mut b = Bucket::new();
    b.insert(3, 2);

    let mut c = Bucket::new();
    c.insert(1, 1);

    b.extend(c.iter().map(|(k, v)| (*k, *v)).collect::<Vec<_>>());

    assert!(b.contains(&3));
    assert!(b.contains(&1));
    assert_eq!(3, b.usage());

    assert!(c.contains(&1));
    assert_eq!(1, c.usage());
}

#[test]
fn insert_replaces_cost_without_double_counting() {
    let mut b = Bucket::new();
    assert!(b.insert(7u64, 5));
    assert!(!b.insert(7u64, 2));
    assert_eq!(2, b.usage());
    assert_eq!(Some(&2), b.get(&7));
    assert_eq!(None, b.get(&8));
}

#[test]
fn remove_absent_key_is_a_no_op() {
    let mut b = Bucket::new();
    b.insert(1u64, 4);
    assert!(!b.remove(&2));
    assert_eq!(4, b.usage());
    assert!(b.remove(&1));
    assert_eq!(0, b.usage());
}

#[test]
fn extend_upserts_in_order() {
    let mut b = Bucket::new();
    b.insert(1u64, 10);
    b.extend(vec![(1u64, 3), (2, 4), (2, 6)]);
    assert_eq!(9, b.usage());
    assert_eq!(Some(&3), b.get(&1));
    assert_eq!(Some(&6), b.get(&2));
}

#[test]
fn pairs_lists_each_entry_once() {
    let mut b = Bucket::new();
    b.insert(5u64, 1);
    b.insert(6u64, 2);
    b.insert(5u64, 3);
    let mut all = b.pairs();
    all.sort();
    assert_eq!(vec![(5, 3), (6, 2)], all);
}
