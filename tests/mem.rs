use bytecache::mem::MemCache;
use bytecache::StoreResult;

#[test]
fn store_and_get() {
    let mut cache = MemCache::with_capacity(1000);
    cache.set("test", vec![2, 3, 4]);
    assert_eq!(&[2, 3, 4], cache.get("test").unwrap());
}

#[test]
fn should_not_get_not_stored() {
    let mut cache = MemCache::<u8>::with_capacity(1000);
    assert_eq!(None, cache.get(1));
}

#[test]
fn should_not_store_not_fitting() {
    let mut cache = MemCache::with_capacity(2);
    cache.set("test", vec![2, 3, 4]);
    assert_eq!(None, cache.get("test"));
}

#[test]
fn should_store_exactly_fitting() {
    let mut cache = MemCache::with_capacity(3);
    cache.set("test", vec![2, 3, 4]);
    assert_eq!(&[2, 3, 4], cache.get("test").unwrap());
}

#[test]
fn prefer_not_storing_new_value_if_it_is_quite_big() {
    let mut cache = MemCache::with_capacity(3);
    assert_eq!(StoreResult::Stored, cache.set("test", vec![2, 3]));
    assert_eq!(StoreResult::OutOfMemory, cache.set("test2", vec![3, 4, 5]));
    assert_eq!(&[2, 3], cache.get("test").unwrap());
    assert_eq!(None, cache.get("test2"));
}

#[test]
fn should_keep_old_if_new_does_not_fit() {
    let mut cache = MemCache::with_capacity(2);
    cache.set("test", vec![2, 3]);
    cache.set("test2", vec![3, 4, 5]);
    assert_eq!(None, cache.get("test2"));
    assert_eq!(&[2, 3], cache.get("test").unwrap());
}

#[test]
fn evicts_aged_values_to_make_room() {
    // A fifth of 10 bytes: generations of 2 bytes, two of them in the ring.
    let mut cache = MemCache::new(10u64);
    assert_eq!(StoreResult::Stored, cache.set(1u64, vec![0; 2]));
    assert_eq!(StoreResult::Stored, cache.set(2u64, vec![0; 2]));
    assert_eq!(StoreResult::Stored, cache.set(3u64, vec![0; 2]));
    assert_eq!(6, cache.usage());
    assert_eq!(StoreResult::Stored, cache.set(4u64, vec![0; 5]));
    assert!(cache.usage() <= cache.limit());
    assert_eq!(None, cache.get(1u64));
    assert_eq!(Some(&[0u8, 0][..]), cache.get(2u64));
    assert_eq!(9, cache.usage());
}

#[test]
fn failed_replacement_drops_the_key() {
    let mut cache = MemCache::new(4u64);
    assert_eq!(StoreResult::Stored, cache.set(1u64, vec![1, 2]));
    assert_eq!(StoreResult::OutOfMemory, cache.set(1u64, vec![0; 5]));
    assert_eq!(None, cache.get(1u64));
    assert_eq!(0, cache.usage());
}

#[test]
fn smaller_replacement_always_fits() {
    let mut cache = MemCache::new(3u64);
    assert_eq!(StoreResult::Stored, cache.set(1u64, vec![1, 2, 3]));
    assert_eq!(StoreResult::Stored, cache.set(1u64, vec![9]));
    assert_eq!(Some(&[9u8][..]), cache.get(1u64));
    assert_eq!(1, cache.usage());
}

#[test]
fn clear_and_introspection() {
    let mut cache = MemCache::new(100u64);
    assert_eq!(100, cache.limit());
    cache.set(1u64, vec![1; 30]);
    assert_eq!(vec![(0, None), (30, Some(20)), (0, Some(20))], cache.detailed_usage());
    assert!(cache.can_store_bytes(70));
    assert!(!cache.can_store_bytes(71));
    cache.clear();
    assert_eq!(0, cache.usage());
    assert_eq!(None, cache.get(1u64));
}
