use bloom::hashes::key_hashes;
use bloom::Hashes;

#[test]
fn stream_starts_at_base_and_steps_by_increment() {
    let mut h = Hashes::new(10, 3);
    assert_eq!(h.next(), 10);
    assert_eq!(h.next(), 13);
    assert_eq!(h.next(), 16);
}

#[test]
fn stream_wraps_around() {
    let mut h = Hashes::new(u64::MAX, 2);
    assert_eq!(h.next(), u64::MAX);
    assert_eq!(h.next(), 1);
    assert_eq!(h.next(), 3);
}

#[test]
fn streams_of_one_key_agree() {
    let mut a = key_hashes(b"some key");
    let mut b = key_hashes(b"some key");
    for _ in 0..100 {
        assert_eq!(a.next(), b.next());
    }
}

#[test]
fn streams_of_different_keys_differ() {
    let mut a = key_hashes(b"a");
    let mut b = key_hashes(b"b");
    let xs: Vec<u64> = (0..4).map(|_| a.next()).collect();
    let ys: Vec<u64> = (0..4).map(|_| b.next()).collect();
    assert_ne!(xs, ys);
}

#[test]
fn stream_is_not_the_raw_key() {
    let mut a = key_hashes(b"");
    let first = a.next();
    let second = a.next();
    // The digest of the empty input with seed 0 is all zero bytes.
    assert_eq!(first, 0);
    assert_eq!(second, 0);
    let mut b = key_hashes(b"abcdefgh");
    assert_ne!(b.next(), u64::from_be_bytes(*b"abcdefgh"));
}

#[test]
fn stream_seeds_are_big_endian_words_of_the_digest() {
    let key = b"hello world";
    let mut out = [0u8; 16];
    murmur3::murmur3_x64_128(&mut std::io::Cursor::new(&key[..]), 0, &mut out);
    let mut base_bytes = [0u8; 8];
    base_bytes.copy_from_slice(&out[0..8]);
    let mut step_bytes = [0u8; 8];
    step_bytes.copy_from_slice(&out[4..12]);
    let base = u64::from_be_bytes(base_bytes);
    let step = u64::from_be_bytes(step_bytes);
    let mut h = key_hashes(key);
    assert_eq!(h.next(), base);
    assert_eq!(h.next(), base.wrapping_add(step));
    assert_eq!(h.next(), base.wrapping_add(step).wrapping_add(step));
}
