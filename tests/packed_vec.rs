use bloom::PackedVec;
use hamcrest::{assert_that, equal_to, is};

fn new_default() -> PackedVec {
    PackedVec::new(20, 4)
}

#[test]
fn value_at_index_is_incremented() {
    let mut v = new_default();
    assert_that(v.get(0), is(equal_to(Some(0))));
    v.increment(0);
    assert_that(v.get(0), is(equal_to(Some(1))));
    v.increment(0);
    v.increment(1);
    assert_that(v.get(0), is(equal_to(Some(2))));
    assert_that(v.get(1), is(equal_to(Some(1))));
}

#[test]
fn value_when_incrementing_is_capped_at_max_valid_value() {
    let mut v = PackedVec::new(5, 2);
    v.set(0, 2);
    v.increment(0);
    assert_that(v.get(0), is(equal_to(Some(3))));
    v.increment(0);
    assert_that(v.get(0), is(equal_to(Some(3))));
}

#[test]
fn value_when_decrementing_is_capped_at_zero() {
    let mut v = PackedVec::new(5, 2);
    v.set(0, 1);
    v.decrement(0);
    assert_that(v.get(0), is(equal_to(Some(0))));
    v.decrement(0);
    assert_that(v.get(0), is(equal_to(Some(0))));
}

#[test]
fn value_when_setting_is_capped_to_max_valid_value() {
    let mut v = PackedVec::new(5, 2);
    v.set(0, 100);
    assert_that(v.get(0), is(equal_to(Some(3))));
}

#[test]
fn value_at_index_is_decremented() {
    let mut v = new_default();
    v.set(0, 3);
    v.set(1, 1);
    v.decrement(0);
    assert_that(v.get(0), is(equal_to(Some(2))));
    v.decrement(0);
    v.decrement(0);
    v.decrement(1);
    assert_that(v.get(0), is(equal_to(Some(0))));
    assert_that(v.get(1), is(equal_to(Some(0))));
}

#[test]
fn all_values_can_be_decremented_and_incremented() {
    let mut v = new_default();
    for i in 0..v.len() {
        assert_that(v.get(i), is(equal_to(Some(0))));
        v.increment(i);
        assert_that(v.get(i), is(equal_to(Some(1))));
        v.decrement(i);
        assert_that(v.get(i), is(equal_to(Some(0))));
    }
}

#[test]
fn index_past_the_end_gives_none() {
    let mut v = PackedVec::new(5, 2);
    assert_eq!(v.get(5), None);
    assert_eq!(v.get(1000), None);
    assert_eq!(v.len(), 5);
}

#[test]
fn full_word_counters_keep_their_values() {
    let mut v = PackedVec::new(3, 64);
    v.set(1, u64::MAX);
    assert_eq!(v.get(0), Some(0));
    assert_eq!(v.get(1), Some(u64::MAX));
    assert_eq!(v.get(2), Some(0));
    v.increment(1);
    assert_eq!(v.get(1), Some(u64::MAX));
    v.decrement(1);
    assert_eq!(v.get(1), Some(u64::MAX - 1));
}

#[test]
fn setting_one_counter_leaves_its_neighbours() {
    for bits in 1..=64usize {
        let mut v = PackedVec::new(70, bits);
        let max = if bits == 64 { u64::MAX } else { (1u64 << bits) - 1 };
        v.set(0, 1);
        v.set(2, u64::MAX);
        v.set(69, 1);
        assert_eq!(v.get(1), Some(0));
        assert_eq!(v.get(2), Some(max));
        assert_eq!(v.get(3), Some(0));
        assert_eq!(v.get(0), Some(1));
        assert_eq!(v.get(69), Some(1));
        assert_eq!(v.get(68), Some(0));
    }
}

#[test]
fn odd_widths_do_not_span_words() {
    // 64 / 3 = 21 counters per word; counter 21 opens the second word.
    let mut v = PackedVec::new(43, 3);
    for i in 0..43 {
        v.set(i, (i % 8) as u64);
    }
    for i in 0..43 {
        assert_eq!(v.get(i), Some((i % 8) as u64));
    }
}
