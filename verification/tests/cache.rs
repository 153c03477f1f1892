use swap_cache::{ConfigError, SwapCache};

#[test]
fn test_simple() {
    let mut cache = SwapCache::new(10).unwrap();

    let pairs: Vec<(usize, char)> = "abcdefg".chars().enumerate().collect();

    for (value, key) in pairs.clone() {
        cache.put(key, value);
    }

    for (value, key) in pairs.clone() {
        assert_eq!(cache.get(&key), Some(&value))
    }
}

#[test]
fn test_expire() {
    let mut cache = SwapCache::new(10).unwrap();

    let pairs: Vec<(usize, char)> = "abcdefghijklmnopqrstuvwxyz".chars().enumerate().collect();

    for (value, key) in pairs.clone() {
        cache.put(key, value);
    }

    for (value, key) in &pairs[16..26] {
        assert_eq!(cache.get(key), Some(value));
    }

    for (_, key) in &pairs[0..16] {
        assert_eq!(cache.get(key), None);
    }
}

#[test]
fn test_update() {
    let mut cache = SwapCache::new(20).unwrap();

    let pairs: Vec<(usize, char)> = "abcdefghijklmnopqrstuvwxyz".chars().enumerate().collect();

    let (update_value, update_key) = pairs[0];
    let (_, displaced_key) = pairs[6];

    for (value, key) in pairs.clone() {
        cache.put(key, value);
        cache.get(&update_key);
    }
    assert_eq!(cache.get(&update_key), Some(&update_value));
    assert_eq!(cache.get(&displaced_key), None);
}

#[test]
fn new_refuses_zero_capacity() {
    let refused = SwapCache::<char, usize>::new(0);
    assert_eq!(refused.err(), Some(ConfigError::ZeroCapacity));
    assert!(SwapCache::<char, usize>::new(1).is_ok());
}

#[test]
fn new_cache_is_empty_with_default_tuning() {
    let mut cache = SwapCache::<char, usize>::new(10).unwrap();
    assert_eq!(cache.len(), 0);
    assert_eq!(cache.capacity(), 10);
    assert_eq!(cache.move_ratio(), 50);
    assert_eq!(cache.min_update_distance(), 5);
    assert_eq!(cache.min_update_limit(), 6);
    assert_eq!(cache.get(&'a'), None);
}

#[test]
fn new_tuning_follows_capacity() {
    let expected: [(usize, usize, usize); 7] =
        [(1, 0, 1), (2, 1, 2), (3, 1, 2), (4, 2, 3), (7, 3, 4), (100, 50, 51), (1000, 500, 501)];
    for (capacity, distance, limit) in expected {
        let cache = SwapCache::<u64, u64>::new(capacity).unwrap();
        assert_eq!(cache.capacity(), capacity);
        assert_eq!(cache.move_ratio(), 50);
        assert_eq!(cache.min_update_distance(), distance);
        assert_eq!(cache.min_update_limit(), limit);
    }
}

#[test]
fn new_accepts_largest_capacity() {
    let cache = SwapCache::<u64, u64>::new(usize::MAX).unwrap();
    assert_eq!(cache.capacity(), usize::MAX);
    assert_eq!(cache.min_update_distance(), usize::MAX / 2);
    assert_eq!(cache.min_update_limit(), 1 + (usize::MAX - 1) - (usize::MAX - 1) / 2);
}

#[test]
fn put_of_cached_key_keeps_old_value() {
    let mut cache = SwapCache::new(4).unwrap();
    cache.put('a', 1usize);
    cache.put('b', 2);
    cache.put('a', 100);
    assert_eq!(cache.len(), 2);
    assert_eq!(cache.get(&'a'), Some(&1));
    assert_eq!(cache.get(&'b'), Some(&2));
}

#[test]
fn put_of_cached_key_does_not_advance_eviction() {
    let mut cache = SwapCache::new(3).unwrap();
    for key in 0u32..3 {
        cache.put(key, key);
    }
    for _ in 0..10 {
        cache.put(1u32, 99);
    }
    cache.put(3, 3);
    assert_eq!(cache.get(&0), None);
    assert_eq!(cache.get(&1), Some(&1));
    assert_eq!(cache.get(&2), Some(&2));
    assert_eq!(cache.get(&3), Some(&3));
}

#[test]
fn get_of_unknown_key_changes_nothing() {
    let mut cache = SwapCache::new(10).unwrap();
    for (value, key) in "abcdefghij".chars().enumerate() {
        cache.put(key, value);
    }
    for _ in 0..5 {
        assert_eq!(cache.get(&'z'), None);
    }
    assert_eq!(cache.len(), 10);
    assert_eq!(cache.move_ratio(), 50);
    assert_eq!(cache.min_update_distance(), 5);
    assert_eq!(cache.min_update_limit(), 6);
}

#[test]
fn evicted_key_is_gone() {
    let mut cache = SwapCache::new(2).unwrap();
    cache.put(10u64, "ten");
    cache.put(20, "twenty");
    cache.put(30, "thirty");
    assert_eq!(cache.get(&10), None);
    assert_eq!(cache.get(&30), Some(&"thirty"));
    assert_eq!(cache.get(&20), Some(&"twenty"));
    assert_eq!(cache.len(), 2);
}

#[test]
fn len_never_exceeds_capacity() {
    let mut cache = SwapCache::new(7).unwrap();
    for key in 0u64..100 {
        cache.put(key, key * 2);
        assert!(cache.len() <= 7);
        assert_eq!(cache.len(), std::cmp::min(key as usize + 1, 7));
    }
}

#[test]
fn insertions_without_reads_evict_first_in_first_out() {
    let mut cache = SwapCache::new(3).unwrap();
    for key in 0u8..5 {
        cache.put(key, usize::from(key) * 10);
    }
    assert_eq!(cache.get(&0), None);
    assert_eq!(cache.get(&1), None);
    assert_eq!(cache.get(&2), Some(&20));
    assert_eq!(cache.get(&3), Some(&30));
    assert_eq!(cache.get(&4), Some(&40));
}

#[test]
fn fill_to_capacity_keeps_every_key() {
    let mut cache = SwapCache::new(26).unwrap();
    for (value, key) in "abcdefghijklmnopqrstuvwxyz".chars().enumerate() {
        cache.put(key, value);
    }
    assert_eq!(cache.len(), 26);
    for (value, key) in "abcdefghijklmnopqrstuvwxyz".chars().enumerate() {
        assert_eq!(cache.get(&key), Some(&value));
    }
    assert_eq!(cache.len(), 26);
}

#[test]
fn eviction_lowers_distance_threshold_down_to_zero() {
    let mut cache = SwapCache::new(10).unwrap();
    for key in 0u64..10 {
        cache.put(key, key);
        assert_eq!(cache.min_update_distance(), 5);
    }
    let mut seen = Vec::new();
    for key in 10u64..17 {
        cache.put(key, key);
        seen.push(cache.min_update_distance());
    }
    assert_eq!(seen, vec![4, 3, 2, 1, 0, 0, 0]);
    assert_eq!(cache.move_ratio(), 50);
    assert_eq!(cache.min_update_limit(), 6);
}

#[test]
fn near_read_leaves_tuning_alone() {
    let mut cache = SwapCache::new(10).unwrap();
    cache.put('a', 0usize);
    cache.put('b', 1);
    cache.put('c', 2);
    assert_eq!(cache.get(&'a'), Some(&0));
    assert_eq!(cache.move_ratio(), 50);
    assert_eq!(cache.min_update_distance(), 5);
    assert_eq!(cache.min_update_limit(), 6);
}

#[test]
fn far_read_promotes_and_raises_ratio() {
    let mut cache = SwapCache::new(10).unwrap();
    for (value, key) in "abcdefghij".chars().enumerate() {
        cache.put(key, value);
    }
    // 'b' stands eight positions from the top: it travels four.
    assert_eq!(cache.get(&'b'), Some(&1));
    assert_eq!(cache.move_ratio(), 51);
    assert_eq!(cache.min_update_distance(), 6);
    assert_eq!(cache.min_update_limit(), 6);
    // The next two insertions evict 'a' and 'c'; unpromoted, 'b' would have gone second.
    cache.put('k', 10);
    cache.put('l', 11);
    assert_eq!(cache.min_update_distance(), 4);
    assert_eq!(cache.get(&'b'), Some(&1));
    assert_eq!(cache.move_ratio(), 52);
    assert_eq!(cache.min_update_distance(), 5);
    assert_eq!(cache.min_update_limit(), 6);
    assert_eq!(cache.get(&'c'), None);
    assert_eq!(cache.get(&'a'), None);
}

#[test]
fn promoted_key_outlives_later_insertions() {
    let mut cache = SwapCache::new(10).unwrap();
    for (value, key) in "abcdefghij".chars().enumerate() {
        cache.put(key, value);
    }
    cache.get(&'b');
    // 'b' now stands at position five: five insertions pass before its turn.
    for (value, key) in "klmno".chars().enumerate() {
        cache.put(key, value + 10);
    }
    assert_eq!(cache.get(&'f'), None);
    assert_eq!(cache.get(&'b'), Some(&1));
}

#[test]
fn near_promotion_lowers_ratio() {
    let mut cache = SwapCache::new(8).unwrap();
    for key in 0u64..12 {
        cache.put(key, key);
    }
    assert_eq!(cache.min_update_distance(), 0);
    assert_eq!(cache.get(&11), Some(&11));
    assert_eq!(cache.move_ratio(), 49);
    assert_eq!(cache.min_update_distance(), 1);
    assert_eq!(cache.min_update_limit(), 5);
}

#[test]
fn repeated_far_reads_shrink_the_limit() {
    let mut cache = SwapCache::new(10).unwrap();
    for (value, key) in "abcdefghij".chars().enumerate() {
        cache.put(key, value);
    }
    let mut seen = Vec::new();
    for key in ['b', 'c', 'd', 'e', 'f', 'b', 'c', 'd'] {
        assert!(cache.get(&key).is_some());
        seen.push((cache.move_ratio(), cache.min_update_distance(), cache.min_update_limit()));
    }
    assert_eq!(
        seen,
        vec![
            (51, 6, 6),
            (52, 6, 6),
            (53, 6, 6),
            (54, 6, 6),
            (55, 6, 6),
            (56, 6, 5),
            (57, 6, 5),
            (58, 6, 5)
        ]
    );
}

#[test]
fn single_entry_cache_replaces_its_entry() {
    let mut cache = SwapCache::new(1).unwrap();
    cache.put('a', 1usize);
    assert_eq!(cache.get(&'a'), Some(&1));
    cache.put('b', 2);
    assert_eq!(cache.get(&'a'), None);
    assert_eq!(cache.get(&'b'), Some(&2));
    assert_eq!(cache.len(), 1);
    assert_eq!(cache.move_ratio(), 50);
    assert_eq!(cache.min_update_distance(), 0);
    assert_eq!(cache.min_update_limit(), 1);
}

#[test]
fn values_need_not_be_copyable() {
    let mut cache = SwapCache::new(2).unwrap();
    cache.put(1u32, String::from("one"));
    cache.put(2u32, String::from("two"));
    cache.put(3u32, String::from("three"));
    assert_eq!(cache.get(&2).map(String::as_str), Some("two"));
    assert_eq!(cache.get(&3).map(String::as_str), Some("three"));
    assert_eq!(cache.get(&1), None);
}

struct Draws {
    state: u64,
}

impl Draws {
    fn next(&mut self) -> u64 {
        self.state =
            self.state.wrapping_mul(6364136223846793005).wrapping_add(1442695040888963407);
        self.state >> 33
    }
}

fn run_mixed(capacity: usize, operations: usize, keyspace: u64, seed: u64) -> (usize, usize, usize, usize, usize) {
    let mut cache = SwapCache::new(capacity).unwrap();
    let mut draws = Draws { state: seed };
    let mut hits: usize = 0;
    let mut total: usize = 0;
    for round in 0..operations {
        let key = draws.next() % keyspace;
        if draws.next() % 3 == 0 {
            cache.put(key, round);
        } else if let Some(value) = cache.get(&key) {
            hits += 1;
            total += *value;
        }
        assert!(cache.len() <= capacity);
        assert!(cache.move_ratio() <= 99);
        assert!(cache.min_update_distance() <= capacity);
        let last = capacity - 1;
        assert_eq!(cache.min_update_limit(), 1 + last - last * cache.move_ratio() / 100);
    }
    (hits, total, cache.move_ratio(), cache.min_update_distance(), cache.min_update_limit())
}

#[test]
fn long_mixed_run_keeps_tuning_bounded() {
    assert_eq!(run_mixed(16, 5000, 40, 1), (1303, 3194983, 99, 2, 2));
    assert_eq!(run_mixed(64, 20000, 200, 7), (4255, 41884064, 99, 3, 2));
}

#[test]
fn long_mixed_run_on_tiny_caches() {
    assert_eq!(run_mixed(1, 200, 3, 3), (36, 3184, 50, 0, 1));
    assert_eq!(run_mixed(2, 500, 5, 11), (132, 30709, 68, 0, 2));
}

#[test]
fn reads_return_what_was_first_put() {
    let mut cache = SwapCache::new(8).unwrap();
    let mut draws = Draws { state: 99 };
    for round in 0..4000usize {
        let key = draws.next() % 24;
        let held = cache.get(&key).copied();
        cache.put(key, round);
        let expected = held.unwrap_or(round);
        assert_eq!(cache.get(&key), Some(&expected));
    }
}

#[test]
fn promotion_before_the_ring_is_full_stays_inside_it() {
    let mut cache = SwapCache::new(1000).unwrap();
    for key in 0u64..900 {
        cache.put(key, key);
    }
    for key in 0u64..60 {
        assert_eq!(cache.get(&key), Some(&key));
    }
    assert_eq!(cache.len(), 900);
    for key in 0u64..900 {
        assert_eq!(cache.get(&key), Some(&key));
    }
    for key in 900u64..1100 {
        cache.put(key, key);
    }
    assert_eq!(cache.len(), 1000);
}

fn full_hundred_with_one_promoted() -> SwapCache<u64, u64> {
    let mut cache = SwapCache::new(100).unwrap();
    for key in 0u64..100 {
        cache.put(key, key);
    }
    // Key 1 stands 98 positions from the top: it travels 49, in hops of 4,
    // and comes down 52 positions on, at position 53.
    assert_eq!(cache.get(&1), Some(&1));
    assert_eq!(cache.move_ratio(), 51);
    assert_eq!(cache.min_update_distance(), 51);
    assert_eq!(cache.min_update_limit(), 50);
    cache
}

#[test]
fn long_promotion_travels_in_hops() {
    let mut cache = full_hundred_with_one_promoted();
    for key in 1000u64..1053 {
        cache.put(key, key);
    }
    assert_eq!(cache.get(&1), Some(&1));

    let mut cache = full_hundred_with_one_promoted();
    for key in 1000u64..1054 {
        cache.put(key, key);
    }
    assert_eq!(cache.get(&1), None);
}

fn wrapped_promotion() -> SwapCache<u64, u64> {
    let mut cache = SwapCache::new(10).unwrap();
    for key in 0u64..15 {
        cache.put(key, key);
    }
    // Key 6 stands at position 6, past the top at 5: it hops to 7, 8, then
    // round to 0 and on to 1.
    assert_eq!(cache.get(&6), Some(&6));
    assert_eq!(cache.move_ratio(), 51);
    assert_eq!(cache.min_update_distance(), 1);
    cache
}

#[test]
fn promotion_wraps_round_the_ring() {
    // The next insertions evict the keys at positions 5, 6, 7, 8, 9, 0, 1:
    // keys 5, 7, 8, 10, 9, 11 and then 6.
    let mut cache = wrapped_promotion();
    for key in 100u64..106 {
        cache.put(key, key);
    }
    assert_eq!(cache.get(&11), None);
    assert_eq!(cache.get(&9), None);
    assert_eq!(cache.get(&6), Some(&6));

    let mut cache = wrapped_promotion();
    for key in 100u64..105 {
        cache.put(key, key);
    }
    assert_eq!(cache.get(&10), None);
    assert_eq!(cache.get(&11), Some(&11));

    let mut cache = wrapped_promotion();
    for key in 100u64..107 {
        cache.put(key, key);
    }
    assert_eq!(cache.get(&6), None);
    assert_eq!(cache.get(&12), Some(&12));
}
