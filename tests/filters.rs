use bloom::{optimal_num_hashes, Bloom, ConfigError, CountingBloom};
use hamcrest::{assert_that, equal_to, is};

fn num_bits_for(num_items: u64, max_false_prob: f64) -> usize {
    let ln2_squared = 2_f64.ln() * 2_f64.ln();
    let numerator = num_items as f64 * (1_f64 / max_false_prob).ln();
    (numerator / ln2_squared).round() as usize
}

#[test]
fn counting_bloom_added_value_is_part_of_a_set() {
    let mut bloom = CountingBloom::with_num_bits(10_000, num_bits_for(10_000, 0.01)).unwrap();
    bloom.add(b"a");
    assert_that(bloom.contains(b"a"), is(equal_to(true)));
    assert_that(bloom.contains(b"b"), is(equal_to(false)));
}

#[test]
fn lib_added_value_is_part_of_a_set() {
    let mut bloom = Bloom::with_num_bits(10_000, num_bits_for(10_000, 0.01)).unwrap();
    bloom.add(b"a");
    assert_that(bloom.contains(b"a"), is(equal_to(true)));
    assert_that(bloom.contains(b"b"), is(equal_to(false)));
}

#[test]
fn sizing_for_ten_thousand_items_at_one_percent() {
    let num_bits = num_bits_for(10_000, 0.01);
    assert_eq!(num_bits, 95851);
    assert_eq!(optimal_num_hashes(num_bits, 10_000), 7);
}

#[test]
fn optimal_num_hashes_rounds_to_nearest() {
    // 100 * ln 2 / 10 = 6.93...
    assert_eq!(optimal_num_hashes(100, 10), 7);
    // 10 * ln 2 / 10 = 0.69...
    assert_eq!(optimal_num_hashes(10, 10), 1);
    // 7 * ln 2 / 10 = 0.485...
    assert_eq!(optimal_num_hashes(7, 10), 0);
    assert_eq!(optimal_num_hashes(0, 10), 0);
    assert_eq!(optimal_num_hashes(1000, 1), 693);
}

#[test]
fn construction_rejects_degenerate_sizes() {
    assert!(matches!(CountingBloom::with_num_bits(0, 100), Err(ConfigError::NoExpectedItems)));
    assert!(matches!(CountingBloom::with_num_bits(10, 0), Err(ConfigError::EmptyFilter)));
    assert!(matches!(CountingBloom::with_num_bits(10, 7), Err(ConfigError::NoHashFunctions)));
    assert!(matches!(Bloom::with_num_bits(0, 100), Err(ConfigError::NoExpectedItems)));
    assert!(matches!(Bloom::with_num_bits(10, 0), Err(ConfigError::EmptyFilter)));
    assert!(matches!(Bloom::with_num_bits(10, 7), Err(ConfigError::NoHashFunctions)));
    assert!(CountingBloom::with_num_bits(10, 8).is_ok());
    assert!(Bloom::with_num_bits(10, 8).is_ok());
}

#[test]
fn empty_filters_contain_nothing() {
    let mut counting = CountingBloom::with_num_bits(100, 1000).unwrap();
    let bloom = Bloom::with_num_bits(100, 1000).unwrap();
    assert!(!counting.contains(b"a"));
    assert!(!bloom.contains(b"a"));
    assert!(!counting.contains(b""));
    assert!(!bloom.contains(b""));
}

#[test]
fn added_keys_are_always_found() {
    let mut counting = CountingBloom::with_num_bits(50, 200).unwrap();
    let mut bloom = Bloom::with_num_bits(50, 200).unwrap();
    let keys: Vec<String> = (0..50).map(|i| format!("key-{}", i)).collect();
    for k in &keys {
        counting.add(k.as_bytes());
        bloom.add(k.as_bytes());
    }
    for k in &keys {
        assert!(counting.contains(k.as_bytes()));
        assert!(bloom.contains(k.as_bytes()));
    }
}

#[test]
fn add_then_remove_forgets_a_lone_key() {
    let mut counting = CountingBloom::with_num_bits(10_000, 95851).unwrap();
    counting.add(b"a");
    assert!(counting.contains(b"a"));
    counting.remove(b"a");
    assert!(!counting.contains(b"a"));
}

#[test]
fn removing_an_absent_key_changes_nothing() {
    let mut counting = CountingBloom::with_num_bits(10_000, 95851).unwrap();
    counting.remove(b"a");
    counting.add(b"a");
    assert!(counting.contains(b"a"));
}

#[test]
fn saturated_counters_survive_removal() {
    // Sixteen adds saturate every counter of the key at fifteen, so fifteen
    // removals leave the counters at zero again and one more is a no-op.
    let mut counting = CountingBloom::with_num_bits(10_000, 95851).unwrap();
    for _ in 0..16 {
        counting.add(b"k");
    }
    for _ in 0..14 {
        counting.remove(b"k");
    }
    assert!(counting.contains(b"k"));
    counting.remove(b"k");
    assert!(!counting.contains(b"k"));
    counting.remove(b"k");
    assert!(!counting.contains(b"k"));
}
