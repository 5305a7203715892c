use bytecache::history::History;

fn spill_and_get_sorted<V: std::hash::Hash + Eq + Clone + Ord>(history: &mut History<V>) -> Vec<V> {
    let mut res = Vec::new();
    history.spill(&mut res);
    let mut keys: Vec<V> = res.into_iter().map(|(k, _)| k).collect();
    keys.sort();
    keys
}

// A generation is sealed once an insertion brings it to the threshold, so
// after four hits of the threshold's size two generations have reached `old`.
#[test]
fn spills_oldest() {
    let mut h = History::new(2, 2);
    h.hit(1, 2);
    h.hit(2, 2);
    h.hit(3, 2);
    h.hit(4, 2);

    assert_eq!(vec![4, 2, 2, 0], h.simple_usage());
    assert_eq!(8, h.usage());

    assert_eq!(vec![1, 2], spill_and_get_sorted(&mut h));

    assert_eq!(vec![0, 2, 2, 0], h.simple_usage());
    assert_eq!(4, h.usage());
}

#[test]
fn supports_oversized() {
    let mut h = History::new(2, 2);
    h.hit(1, 4);
    h.hit(2, 5);
    h.hit(3, 6);
    h.hit(4, 7);

    assert_eq!(vec![9, 6, 7, 0], h.simple_usage());
    assert_eq!(22, h.usage());

    assert_eq!(vec![1, 2], spill_and_get_sorted(&mut h));

    assert_eq!(vec![0, 6, 7, 0], h.simple_usage());
    assert_eq!(13, h.usage());
}

#[test]
fn supports_small() {
    let mut h = History::new(2, 1);
    h.hit(1, 1);
    h.hit(2, 1);
    h.hit(3, 1);

    assert_eq!(vec![0, 2, 1], h.simple_usage());
    assert_eq!(3, h.usage());

    h.hit(4, 1);
    h.hit(5, 1);

    assert_eq!(vec![2, 2, 1], h.simple_usage());
    assert_eq!(5, h.usage());

    assert_eq!(vec![1, 2], spill_and_get_sorted(&mut h));

    assert_eq!(vec![0, 2, 1], h.simple_usage());
    assert_eq!(3, h.usage());
}

#[test]
fn digs_out_when_used_again() {
    let mut h = History::new(2, 1);
    h.hit(1, 1);
    h.hit(2, 1);

    h.hit(1, 1);

    assert_eq!(vec![0, 1, 1], h.simple_usage());
    assert_eq!(2, h.usage());
}

#[test]
fn removes_recent() {
    let mut h = History::new(2, 1);
    h.hit(1, 1);
    h.hit(2, 1);
    h.hit(3, 1);

    h.remove(&3);

    assert_eq!(vec![0, 2, 0], h.simple_usage());
    assert_eq!(2, h.usage());
}

#[test]
fn removes_burried() {
    let mut h = History::new(2, 1);
    h.hit(1, 1);
    h.hit(2, 1);
    h.hit(3, 1);

    h.remove(&1);
    h.remove(&2);

    assert_eq!(vec![0, 0, 1], h.simple_usage());
    assert_eq!(1, h.usage());
}

// The fourth hit fills the open generation and seals it, so keys 1 and 2
// reach `old`; removing them empties that band.
#[test]
fn removes_old() {
    let mut h = History::new(2, 1);
    h.hit(1, 1);
    h.hit(2, 1);
    h.hit(3, 1);
    h.hit(4, 1);

    h.remove(&1);
    h.remove(&2);

    assert_eq!(vec![0, 2, 0], h.simple_usage());
    assert_eq!(2, h.usage());
}

#[test]
fn three_hits_at_threshold_fill_every_band() {
    let mut h = History::new(2, 2);
    h.hit(1, 2);
    h.hit(2, 2);
    h.hit(3, 2);
    assert_eq!(vec![2, 2, 2, 0], h.simple_usage());
    assert_eq!(6, h.usage());
    assert_eq!(vec![1], spill_and_get_sorted(&mut h));
    assert_eq!(vec![0, 2, 2, 0], h.simple_usage());
    assert_eq!(4, h.usage());
}

#[test]
fn oversized_items_rotate_on_every_hit() {
    let mut h = History::new(2, 2);
    h.hit(1, 4);
    h.hit(2, 5);
    h.hit(3, 6);
    assert_eq!(15, h.usage());
    assert_eq!(vec![1], spill_and_get_sorted(&mut h));
    assert_eq!(11, h.usage());
}

#[test]
fn remove_from_old_band_and_absent_key() {
    let mut h = History::new(2, 1);
    h.hit(1, 1);
    h.hit(2, 1);
    h.hit(3, 1);
    h.hit(4, 1);
    assert_eq!(vec![2, 2, 0], h.simple_usage());
    assert!(h.remove(&1));
    assert_eq!(vec![1, 2, 0], h.simple_usage());
    assert!(!h.remove(&9));
    assert_eq!(vec![1, 2, 0], h.simple_usage());
    assert_eq!(3, h.usage());
}

#[test]
fn second_hit_with_same_cost_keeps_usage() {
    let mut h = History::new(10, 2);
    h.hit(1u64, 3);
    let once = h.simple_usage();
    h.hit(1u64, 3);
    assert_eq!(once, h.simple_usage());
    assert_eq!(3, h.usage());
}

#[test]
fn hit_with_new_cost_updates_in_place() {
    let mut h = History::new(10, 2);
    h.hit(1u64, 3);
    h.hit(1u64, 5);
    assert_eq!(vec![0, 5], h.simple_usage());
}

#[test]
fn second_spill_is_empty() {
    let mut h = History::new(1, 1);
    h.hit(1u64, 1);
    h.hit(2u64, 1);
    assert_eq!(vec![1], spill_and_get_sorted(&mut h));
    assert_eq!(Vec::<u64>::new(), spill_and_get_sorted(&mut h));
}

#[test]
fn spilled_key_aged_past_the_ring() {
    let mut h = History::new(1, 2);
    h.hit(1u64, 1);
    h.hit(2u64, 1);
    assert_eq!(Vec::<u64>::new(), spill_and_get_sorted(&mut h));
    h.hit(3u64, 1);
    assert_eq!(vec![1], spill_and_get_sorted(&mut h));
}

#[test]
fn no_ring_sends_sealed_generation_to_old() {
    let mut h = History::new(1, 0);
    h.hit(1u64, 1);
    assert_eq!(vec![1, 0], h.simple_usage());
    assert_eq!(vec![1], spill_and_get_sorted(&mut h));
}

#[test]
fn detailed_usage_caps_generations() {
    let mut h = History::new(2, 1);
    h.hit(1u64, 1);
    h.hit(2u64, 1);
    h.hit(3u64, 1);
    assert_eq!(vec![(0, None), (2, Some(2)), (1, Some(2))], h.detailed_usage());
    h.clear();
    assert_eq!(vec![(0, None), (0, Some(2))], h.detailed_usage());
    assert_eq!(0, h.usage());
}
