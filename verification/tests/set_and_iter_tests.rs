use concurrent_bst_map::concurrent::ConcurrentBSTMap;
use concurrent_bst_map::set::ConcurrentBSTSet;
use concurrent_bst_map::DEFAULT_MAX_DEPTH;

#[test]
fn set_insert_is_idempotent() {
    let set = ConcurrentBSTSet::new();
    assert!(set.is_empty());
    assert_eq!(set.insert(42, DEFAULT_MAX_DEPTH), Ok(()));
    assert_eq!(set.insert(42, DEFAULT_MAX_DEPTH), Ok(()));
    assert_eq!(set.len(), 1);
    assert!(set.contains_key(42));
    assert!(!set.contains_key(41));
}

#[test]
fn set_remove_and_clear() {
    let set = ConcurrentBSTSet::new();
    for k in [3u64, 1, 4, 1, 5, 9, 2, 6] {
        _ = set.insert(k, DEFAULT_MAX_DEPTH);
    }
    assert_eq!(set.len(), 7);
    set.remove(4);
    assert!(!set.contains_key(4));
    assert_eq!(set.len(), 6);
    set.remove_if(9, &|k: &u64| *k > 100);
    assert!(set.contains_key(9));
    set.remove_if(9, &|k: &u64| *k < 100);
    assert!(!set.contains_key(9));
    set.clear();
    assert!(set.is_empty());
    assert_eq!(set.depth(), 0);
}

#[test]
fn set_insert_depth_bound() {
    let set = ConcurrentBSTSet::new();
    assert_eq!(set.insert(1, 3), Ok(()));
    assert_eq!(set.insert(2, 3), Ok(()));
    assert_eq!(set.insert(3, 3), Ok(()));
    assert!(set.insert(4, 3).is_err());
    assert_eq!(set.len(), 3);
}

#[test]
fn set_ordering_queries() {
    let set = ConcurrentBSTSet::new();
    for k in [20u64, 5, 30] {
        _ = set.insert(k, DEFAULT_MAX_DEPTH);
    }
    assert_eq!(set.get_min(), Some(5));
    assert_eq!(set.get_max(), Some(30));
    assert_eq!(set.get_next(5), Some(20));
    assert_eq!(set.get_next(30), None);
}

#[test]
fn set_retain_removes_selected_keys() {
    let set = ConcurrentBSTSet::new();
    for k in 0u64..10 {
        _ = set.insert(k, DEFAULT_MAX_DEPTH);
    }
    set.retain(&|k: &u64| k % 2 == 0);
    assert_eq!(set.len(), 5);
    for k in 0u64..10 {
        assert_eq!(set.contains_key(k), k % 2 == 1);
    }
}

#[test]
fn set_iter_walks_in_order() {
    let set = ConcurrentBSTSet::new();
    for k in [8u64, 3, 13] {
        _ = set.insert(k, DEFAULT_MAX_DEPTH);
    }
    let mut iter = set.iter();
    let mut keys = Vec::new();
    while let Some((k, _)) = iter.next() {
        keys.push(k);
    }
    assert_eq!(keys, vec![3, 8, 13]);
}

#[test]
fn map_iter_yields_min_first_in_order() {
    let map = ConcurrentBSTMap::<u64>::new();
    for k in [5u64, 1, 9, 7] {
        _ = map.insert_or_update(k, k * 2, DEFAULT_MAX_DEPTH);
    }
    let mut iter = map.iter();
    let mut seen = Vec::new();
    while let Some(kv) = iter.next() {
        seen.push(kv);
    }
    assert_eq!(seen, vec![(1, 2), (5, 10), (7, 14), (9, 18)]);

    let mut owned = map.into_iter();
    let mut seen_owned = Vec::new();
    while let Some(kv) = owned.next() {
        seen_owned.push(kv.0);
    }
    assert_eq!(seen_owned, vec![1, 5, 7, 9]);
}

#[test]
fn map_iter_on_empty_map() {
    let map = ConcurrentBSTMap::<u64>::new();
    let mut iter = map.iter();
    assert_eq!(iter.next(), None);
}

#[test]
fn map_retain_removes_selected_entries() {
    let map = ConcurrentBSTMap::<u64>::new();
    for k in 0u64..8 {
        _ = map.insert_or_update(k, k * k, DEFAULT_MAX_DEPTH);
    }
    map.retain(&|_k: &u64, v: &u64| *v >= 16);
    assert_eq!(map.len(), 4);
    for k in 0u64..8 {
        assert_eq!(map.get(k).is_some(), k * k < 16);
    }
}

#[test]
fn map_copy_holds_same_entries() {
    let map = ConcurrentBSTMap::<u64>::new();
    // 37 is coprime with 100, so this visits every key below 100 once, in
    // a scattered order that keeps the unbalanced tree shallow.
    for i in 0u64..100 {
        let k = (i * 37) % 100;
        assert_eq!(map.insert_or_update(k, k + 1000, DEFAULT_MAX_DEPTH), Ok(true));
    }
    let picker = |n: usize| n.wrapping_mul(31).wrapping_add(17);
    let copied = map.copy(&picker);
    assert_eq!(copied.len(), 100);
    for k in 0u64..100 {
        assert_eq!(copied.get(k), Some(k + 1000));
    }
    // The source is untouched.
    assert_eq!(map.len(), 100);
}

#[test]
fn map_get_or_closest_concurrent_facade() {
    let map = ConcurrentBSTMap::<u64>::new();
    _ = map.insert_or_update(10, 1, DEFAULT_MAX_DEPTH);
    _ = map.insert_or_update(50, 2, DEFAULT_MAX_DEPTH);
    assert_eq!(map.get_or_closest_by_key(u64::MAX - 4, true), Some((10, 1)));
    assert_eq!(map.get_or_closest_by_key(10, false), Some((50, 2)));
    assert_eq!(map.get_min_or_max(true), Some((10, 1)));
    assert_eq!(map.get_min_or_max(false), Some((50, 2)));
    let all = map.get_all_key_values();
    assert_eq!(all.len(), 2);
    map.clear();
    assert!(map.is_empty());
}
