use concurrent_bst_map::nearest::{circular_distance, get_abs_diff};
use concurrent_bst_map::tree::BstMap;
use concurrent_bst_map::DEFAULT_MAX_DEPTH;

#[test]
fn bst_insert_get_remove_round_trip() {
    let mut map = BstMap::<u64>::new();
    assert!(map.is_empty());
    assert_eq!(map.insert_or_update(17, 100, DEFAULT_MAX_DEPTH), Ok(true));
    assert_eq!(map.insert_or_update(5, 200, DEFAULT_MAX_DEPTH), Ok(true));
    assert_eq!(map.insert_or_update(17, 300, DEFAULT_MAX_DEPTH), Ok(true));
    assert_eq!(map.len(), 2);
    assert_eq!(map.get(17), Some(300));
    assert_eq!(map.get(5), Some(200));
    assert_eq!(map.get(6), None);
    assert!(map.contains_key(5));
    map.remove(17);
    assert_eq!(map.get(17), None);
    assert_eq!(map.len(), 1);
    map.clear();
    assert!(map.is_empty());
    assert_eq!(map.len(), 0);
}

#[test]
fn bst_depth_bound_rejects_deep_insert() {
    let mut map = BstMap::<u64>::new();
    // A strictly increasing insert order grows a right spine, one level
    // per key: with a bound of 3 the fourth insert cannot resolve.
    assert_eq!(map.insert_or_update(1, 1, 3), Ok(true));
    assert_eq!(map.insert_or_update(2, 2, 3), Ok(true));
    assert_eq!(map.insert_or_update(3, 3, 3), Ok(true));
    assert!(map.insert_or_update(4, 4, 3).is_err());
    assert!(map.insert_or_update(5, 5, 3).is_err());
    assert_eq!(map.len(), 3);
    assert_eq!(map.get(1), Some(1));
    assert_eq!(map.get(2), Some(2));
    assert_eq!(map.get(3), Some(3));
    assert_eq!(map.get(4), None);
    assert_eq!(map.get(5), None);
    // The bound is per call: a roomier bound accepts the same key.
    assert_eq!(map.insert_or_update(4, 4, 4), Ok(true));
    assert_eq!(map.len(), 4);
}

#[test]
fn bst_update_gating() {
    let accept_increase = |old: &u64, new: &u64| new > old;
    let mut map = BstMap::<u64>::new();
    assert_eq!(
        map.insert_or_update_if(9, 0, &accept_increase, DEFAULT_MAX_DEPTH),
        Ok(true)
    );
    assert_eq!(
        map.insert_or_update_if(9, 1, &accept_increase, DEFAULT_MAX_DEPTH),
        Ok(true)
    );
    assert_eq!(
        map.insert_or_update_if(9, 0, &accept_increase, DEFAULT_MAX_DEPTH),
        Ok(false)
    );
    assert_eq!(map.get(9), Some(1));
}

#[test]
fn bst_remove_if_consults_predicate() {
    let mut map = BstMap::<u64>::new();
    _ = map.insert_or_update(1, 10, DEFAULT_MAX_DEPTH);
    _ = map.insert_or_update(2, 20, DEFAULT_MAX_DEPTH);
    map.remove_if(1, &|v: &u64| *v > 15);
    assert_eq!(map.get(1), Some(10));
    map.remove_if(2, &|v: &u64| *v > 15);
    assert_eq!(map.get(2), None);
    // Removing an absent key is a no-op.
    map.remove_if(77, &|_: &u64| true);
    assert_eq!(map.len(), 1);
}

#[test]
fn bst_removal_completeness() {
    let mut map = BstMap::<u64>::new();
    let keys: Vec<u64> = vec![50, 20, 80, 10, 30, 70, 90, 25, 35, 65];
    for (i, k) in keys.iter().enumerate() {
        assert_eq!(map.insert_or_update(*k, i as u64, DEFAULT_MAX_DEPTH), Ok(true));
    }
    assert_eq!(map.len(), keys.len());
    // Remove interior nodes first to exercise both splice directions.
    for k in keys.iter() {
        map.remove(*k);
    }
    for k in keys.iter() {
        assert_eq!(map.get(*k), None);
    }
    assert_eq!(map.len(), 0);
}

#[test]
fn bst_min_max_and_successor_walk() {
    let mut map = BstMap::<u64>::new();
    let keys: Vec<u64> = vec![44, 2, 99, 17, 8, 63, 25];
    for k in keys.iter() {
        _ = map.insert_or_update(*k, k * 10, DEFAULT_MAX_DEPTH);
    }
    assert_eq!(map.get_min(), Some((2, 20)));
    assert_eq!(map.get_max(), Some((99, 990)));
    assert_eq!(map.get_min_or_max(true), Some((2, 20)));
    assert_eq!(map.get_min_or_max(false), Some((99, 990)));
    assert_eq!(map.get_next(2), Some((8, 80)));
    assert_eq!(map.get_next(3), Some((8, 80)));
    assert_eq!(map.get_next(99), None);
    assert_eq!(map.get_prev(99), Some((63, 630)));
    assert_eq!(map.get_prev(2), None);

    // An in-order walk chained from the minimum visits every key in
    // strictly increasing order.
    let mut visited = Vec::new();
    let mut cursor = map.get_min();
    while let Some((k, _)) = cursor {
        visited.push(k);
        cursor = map.get_next(k);
    }
    assert_eq!(visited, vec![2, 8, 17, 25, 44, 63, 99]);
    assert!(visited.windows(2).all(|w| w[0] < w[1]));
}

#[test]
fn bst_get_all_key_values_lists_every_entry() {
    let mut map = BstMap::<u64>::new();
    let keys: Vec<u64> = vec![5, 1, 9, 3, 7];
    for k in keys.iter() {
        _ = map.insert_or_update(*k, k + 100, DEFAULT_MAX_DEPTH);
    }
    let mut all = map.get_all_key_values();
    assert_eq!(all.len(), keys.len());
    all.sort();
    assert_eq!(all, vec![(1, 101), (3, 103), (5, 105), (7, 107), (9, 109)]);
}

#[test]
fn abs_diff_and_circular_distance_values() {
    assert_eq!(get_abs_diff(10, 3), 7);
    assert_eq!(get_abs_diff(3, 10), 7);
    assert_eq!(get_abs_diff(5, 5), 0);
    assert_eq!(circular_distance(0, 0), 0);
    assert_eq!(circular_distance(0, u64::MAX), 1);
    assert_eq!(circular_distance(u64::MAX, 0), 1);
    assert_eq!(circular_distance(10, u64::MAX - 4), 15);
    assert_eq!(circular_distance(0, 1 << 63), 1 << 63);
    assert_eq!(circular_distance(3, 10), 7);
}

#[test]
fn nearest_key_wraparound() {
    let mut map = BstMap::<u64>::new();
    _ = map.insert_or_update(10, 1, DEFAULT_MAX_DEPTH);
    _ = map.insert_or_update(50, 2, DEFAULT_MAX_DEPTH);
    // The probe sits five below the top of the ring: key 10 is 15 away
    // across the wraparound seam, key 50 is 55 away, so the wraparound
    // candidate wins even though 50 is closer in plain distance.
    assert_eq!(get_abs_diff(u64::MAX - 4, 10), u64::MAX - 14);
    assert_eq!(circular_distance(u64::MAX - 4, 10), 15);
    assert_eq!(map.get_or_closest_by_key(u64::MAX - 4, true), Some((10, 1)));
    // A probe in the middle is served by plain distance.
    assert_eq!(map.get_or_closest_by_key(35, true), Some((50, 2)));
    assert_eq!(map.get_or_closest_by_key(25, true), Some((10, 1)));
}

#[test]
fn nearest_key_exact_and_excluded() {
    let mut map = BstMap::<u64>::new();
    _ = map.insert_or_update(50, 5, DEFAULT_MAX_DEPTH);
    _ = map.insert_or_update(52, 6, DEFAULT_MAX_DEPTH);
    // An exact match wins when included, and is passed over when not.
    assert_eq!(map.get_or_closest_by_key(50, true), Some((50, 5)));
    assert_eq!(map.get_or_closest_by_key(50, false), Some((52, 6)));
    // With the only entry excluded there is nothing to return.
    let mut single = BstMap::<u64>::new();
    _ = single.insert_or_update(7, 70, DEFAULT_MAX_DEPTH);
    assert_eq!(single.get_or_closest_by_key(7, false), None);
    assert_eq!(single.get_or_closest_by_key(7, true), Some((7, 70)));
    // An empty map returns nothing either way.
    let empty = BstMap::<u64>::new();
    assert_eq!(empty.get_or_closest_by_key(0, true), None);
}

#[test]
fn bst_depth_of_known_shape() {
    let mut map = BstMap::<u64>::new();
    assert_eq!(map.depth(), 0);
    _ = map.insert_or_update(2, 0, DEFAULT_MAX_DEPTH);
    assert_eq!(map.depth(), 1);
    _ = map.insert_or_update(1, 0, DEFAULT_MAX_DEPTH);
    _ = map.insert_or_update(3, 0, DEFAULT_MAX_DEPTH);
    assert_eq!(map.depth(), 2);
    _ = map.insert_or_update(4, 0, DEFAULT_MAX_DEPTH);
    assert_eq!(map.depth(), 3);
}

#[test]
fn bst_from_entries_shuffled_round_trip() {
    let entries = vec![(40u64, 1u64), (10, 2), (90, 3), (60, 4), (25, 5)];
    let pick = |n: usize| n / 2;
    let map = BstMap::from_entries_shuffled(entries.clone(), &pick);
    assert_eq!(map.len(), entries.len());
    for (k, v) in entries {
        assert_eq!(map.get(k), Some(v));
    }
    assert_eq!(map.get(0), None);
    let empty = BstMap::<u64>::from_entries_shuffled(Vec::new(), &pick);
    assert!(empty.is_empty());
}

#[test]
fn max_depth_error_message() {
    let mut map = BstMap::<u64>::new();
    _ = map.insert_or_update(1, 1, 1);
    let err = map.insert_or_update(2, 2, 1).unwrap_err();
    assert_eq!(err.message(), "insert would exceed max depth given");
    assert_eq!(err, concurrent_bst_map::MaxDepthReachedError);
}
