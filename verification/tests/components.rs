use swap_cache::tuning::percent;
use swap_cache::{CacheKey, ConfigError, Lru, DEFAULT_MOVE, PROMOTION_STEPS};

#[test]
fn constants_have_their_documented_values() {
    assert_eq!(DEFAULT_MOVE, 50);
    assert_eq!(PROMOTION_STEPS, 10);
}

#[test]
fn percent_rounds_down() {
    assert_eq!(percent(9, 50), 4);
    assert_eq!(percent(999, 50), 499);
    assert_eq!(percent(8, 99), 7);
    assert_eq!(percent(1, 99), 0);
    assert_eq!(percent(0, 100), 0);
    assert_eq!(percent(12345, 0), 0);
    assert_eq!(percent(12345, 100), 12345);
}

#[test]
fn percent_of_largest_amount_does_not_overflow() {
    assert_eq!(percent(usize::MAX, 100), usize::MAX);
    assert_eq!(percent(usize::MAX, 50), usize::MAX / 2);
}

#[test]
fn controller_starts_with_default_tuning() {
    let lru = Lru::new(10).unwrap();
    assert_eq!(lru.capacity(), 10);
    assert_eq!(lru.move_ratio(), 50);
    assert_eq!(lru.min_update_distance(), 5);
    assert_eq!(lru.min_update_limit(), 6);
}

#[test]
fn controller_refuses_zero_capacity() {
    assert_eq!(Lru::new(0).err(), Some(ConfigError::ZeroCapacity));
}

#[test]
fn set_min_update_limit_recomputes_same_limit() {
    let mut lru = Lru::new(1000).unwrap();
    assert_eq!(lru.min_update_limit(), 501);
    lru.set_min_update_limit();
    assert_eq!(lru.min_update_limit(), 501);
}

#[test]
fn distance_to_top_wraps_round_the_ring() {
    let lru = Lru::new(10).unwrap();
    // The top pointer of a new controller is zero.
    assert_eq!(lru.distance_to_top(0), 0);
    assert_eq!(lru.distance_to_top(1), 8);
    assert_eq!(lru.distance_to_top(9), 0);
}

#[test]
fn adapt_follows_distance() {
    let mut lru = Lru::new(100).unwrap();
    assert_eq!((lru.move_ratio(), lru.min_update_distance(), lru.min_update_limit()), (50, 50, 51));
    // Far: the ratio rises, the threshold rises to its old limit, the limit falls.
    lru.adapt(25);
    assert_eq!((lru.move_ratio(), lru.min_update_distance(), lru.min_update_limit()), (51, 51, 50));
    // Near: the ratio falls back.
    lru.adapt(24);
    assert_eq!((lru.move_ratio(), lru.min_update_distance(), lru.min_update_limit()), (50, 51, 51));
    lru.adapt(0);
    assert_eq!((lru.move_ratio(), lru.min_update_distance(), lru.min_update_limit()), (49, 51, 52));
}

#[test]
fn adapt_stops_at_ninety_nine_and_passes_through_zero() {
    let mut lru = Lru::new(100).unwrap();
    for _ in 0..60 {
        lru.adapt(99);
    }
    assert_eq!(lru.move_ratio(), 99);
    assert_eq!(lru.min_update_limit(), 2);
    for _ in 0..99 {
        lru.adapt(0);
    }
    assert_eq!(lru.move_ratio(), 0);
    assert_eq!(lru.min_update_limit(), 100);
    lru.adapt(0);
    assert_eq!(lru.move_ratio(), 1);
}

#[test]
fn codes_of_keys() {
    assert_eq!('a'.code(), 97);
    assert_eq!('\u{10FFFF}'.code(), 0x10FFFF);
    assert_eq!(7u8.code(), 7);
    assert_eq!(300u16.code(), 300);
    assert_eq!(70000u32.code(), 70000);
    assert_eq!(u64::MAX.code(), u64::MAX);
    assert_eq!(12usize.code(), 12);
}
