use csim::address::decompose;
use csim::cache::{make_cache, ConfigError, ModelCache, Options, Outcome, Statistics};

fn zero() -> Statistics {
    Statistics { hits: 0, misses: 0, evictions: 0 }
}

fn cache(sets: u32, lines: u64, blocks: u32) -> ModelCache {
    make_cache(Options { sets, lines, blocks }, zero()).unwrap()
}

fn counts(c: &ModelCache) -> (u64, u64, u64) {
    let s = c.statistics();
    (s.hits, s.misses, s.evictions)
}

#[test]
fn decompose_round_trips() {
    let cases: [(u64, u32, u32); 5] = [
        (0x7ff000398, 4, 4),
        (u64::MAX, 0, 0),
        (u64::MAX, 32, 32),
        (0x1234_5678_9abc_def0, 10, 6),
        (0, 3, 5),
    ];
    for (addr, s, b) in cases {
        let (tag, index, offset) = decompose(addr, s, b);
        let wide = ((tag as u128) << (s + b)) | ((index as u128) << b) | offset as u128;
        assert_eq!(wide, addr as u128);
        assert!((index as u128) < (1u128 << s));
        assert!((offset as u128) < (1u128 << b));
    }
}

#[test]
fn decompose_exact_parts() {
    assert_eq!(decompose(0x7ff000398, 4, 4), (0x7ff0003, 0x9, 0x8));
    assert_eq!(decompose(0xabcd, 0, 8), (0xab, 0, 0xcd));
    assert_eq!(decompose(0xabcd, 16, 0), (0, 0xabcd, 0));
}

#[test]
fn make_cache_rejects_zero_lines() {
    let r = make_cache(Options { sets: 1, lines: 0, blocks: 1 }, zero());
    assert!(matches!(r, Err(ConfigError::NoLines)));
}

#[test]
fn make_cache_rejects_too_many_bits() {
    let r = make_cache(Options { sets: 40, lines: 1, blocks: 25 }, zero());
    assert!(matches!(r, Err(ConfigError::BitsExceedWidth)));
}

#[test]
fn make_cache_keeps_options_and_counters() {
    let start = Statistics { hits: 3, misses: 4, evictions: 1 };
    let c = make_cache(Options { sets: 2, lines: 3, blocks: 4 }, start).unwrap();
    assert_eq!(c.statistics(), start);
    assert_eq!(c.options(), Options { sets: 2, lines: 3, blocks: 4 });
}

#[test]
fn two_sets_direct_mapped_same_index() {
    // With one index bit taken from bit 0, 0x0 and 0x2 share set 0 and differ in tag.
    let mut c = cache(1, 1, 0);
    assert_eq!(c.access(0x0), Outcome::Miss);
    assert_eq!(c.access(0x2), Outcome::MissWithEviction);
    assert_eq!(c.access(0x0), Outcome::MissWithEviction);
    assert_eq!(counts(&c), (0, 3, 2));
}

#[test]
fn two_sets_direct_mapped_distinct_indices() {
    let mut c = cache(1, 1, 0);
    assert_eq!(c.access(0x0), Outcome::Miss);
    assert_eq!(c.access(0x1), Outcome::Miss);
    assert_eq!(c.access(0x0), Outcome::Hit);
    assert_eq!(counts(&c), (1, 2, 0));
}

#[test]
fn single_line_thrashing() {
    let mut c = cache(0, 1, 0);
    assert_eq!(c.access(0x0), Outcome::Miss);
    assert_eq!(c.access(0x1), Outcome::MissWithEviction);
    assert_eq!(c.access(0x0), Outcome::MissWithEviction);
    assert_eq!(c.access(0x1), Outcome::MissWithEviction);
    assert_eq!(counts(&c), (0, 4, 3));
}

#[test]
fn repeated_address_hits_after_first_miss() {
    let mut c = cache(2, 4, 3);
    assert_eq!(c.access(0x1a8), Outcome::Miss);
    for _ in 0..4 {
        assert_eq!(c.access(0x1a8), Outcome::Hit);
    }
    assert_eq!(counts(&c), (4, 1, 0));
}

#[test]
fn ascending_tags_fill_then_evict_oldest() {
    // Two index bits, two offset bits: tag k of set 1 is at (k << 4) | (1 << 2).
    let mut c = cache(2, 4, 2);
    for k in 0..4u64 {
        assert_eq!(c.access((k << 4) | 4), Outcome::Miss);
    }
    assert_eq!(counts(&c), (0, 4, 0));
    assert_eq!(c.access((4 << 4) | 4), Outcome::MissWithEviction);
    assert_eq!(counts(&c), (0, 5, 1));
    // Tags 1 to 4 are still held; tag 0 was the one evicted.
    for k in 1..5u64 {
        assert_eq!(c.access((k << 4) | 4), Outcome::Hit);
    }
    assert_eq!(c.access(4), Outcome::MissWithEviction);
}

#[test]
fn hit_refreshes_recency() {
    let mut c = cache(0, 2, 0);
    assert_eq!(c.access(0xa), Outcome::Miss);
    assert_eq!(c.access(0xb), Outcome::Miss);
    assert_eq!(c.access(0xa), Outcome::Hit);
    assert_eq!(c.access(0xc), Outcome::MissWithEviction);
    assert_eq!(c.access(0xa), Outcome::Hit);
    assert_eq!(c.access(0xb), Outcome::MissWithEviction);
    assert_eq!(counts(&c), (2, 4, 2));
}

#[test]
fn set_never_holds_more_tags_than_lines() {
    let mut c = cache(0, 2, 0);
    for t in [1u64, 2, 3] {
        c.access(t);
    }
    // Only two of the three tags can still be held: 1 went first.
    assert_eq!(c.access(2), Outcome::Hit);
    assert_eq!(c.access(3), Outcome::Hit);
    assert_eq!(c.access(1), Outcome::MissWithEviction);
}

#[test]
fn offset_bits_do_not_matter() {
    let mut c = cache(1, 1, 4);
    assert_eq!(c.access(0x100), Outcome::Miss);
    assert_eq!(c.access(0x10f), Outcome::Hit);
    assert_eq!(c.access(0x110), Outcome::Miss);
    assert_eq!(c.access(0x105), Outcome::Hit);
}

#[test]
fn room_for_checks_counters() {
    let full = Statistics { hits: u64::MAX - 1, misses: 0, evictions: 0 };
    let c = make_cache(Options { sets: 0, lines: 1, blocks: 0 }, full).unwrap();
    assert!(c.has_room_for(1));
    assert!(!c.has_room_for(2));
}
