use vstd::prelude::*;
use byteorder::ByteOrder;

verus! {

/// Size of the 64-bit hash space.
pub open spec fn hash_modulus() -> nat {
    0x1_0000_0000_0000_0000
}

/// The `i`-th value of the double-hashing sequence that starts at `base`
/// and steps by `increment`, modulo 2^64.
pub open spec fn hash_at(base: u64, increment: u64, i: nat) -> u64 {
    ((base as nat + i * (increment as nat)) % hash_modulus()) as u64
}

/// An unbounded stream of 64-bit hash values derived from two seeds by
/// additive double hashing (Kirsch and Mitzenmacher).
pub struct Hashes {
    base: u64,
    increment: u64,
}

impl Hashes {
    /// The value the stream hands out next.
    pub closed spec fn base_spec(&self) -> u64 {
        self.base
    }

    /// The step added to the current value after each call of `next`.
    pub closed spec fn increment_spec(&self) -> u64 {
        self.increment
    }

    /// The `i`-th value that the stream will hand out from its current state.
    pub open spec fn nth(&self, i: nat) -> u64 {
        hash_at(self.base_spec(), self.increment_spec(), i)
    }

    pub fn new(hash1: u64, hash2: u64) -> (r: Hashes)
        ensures
            r.base_spec() == hash1,
            r.increment_spec() == hash2,
    {
        Hashes { base: hash1, increment: hash2 }
    }

    /// Hands out the current value and advances the stream by one step.
    pub fn next(&mut self) -> (r: u64)
        ensures
            r == old(self).nth(0),
            final(self).increment_spec() == old(self).increment_spec(),
            forall|i: nat| #[trigger] final(self).nth(i) == old(self).nth(i + 1),
    {
        let next_value = self.base;
        self.base = self.base.wrapping_add(self.increment);
        proof {
            let b = old(self).base as nat;
            let c = self.increment as nat;
            assert(self.base as nat == (b + c) % hash_modulus());
            assert forall|i: nat| #[trigger] self.nth(i) == old(self).nth(i + 1) by {
                lemma_step(b, c, i);
            }
            assert(next_value == old(self).nth(0)) by {
                assert(b + 0 * c == b);
                vstd::arithmetic::div_mod::lemma_small_mod(b, hash_modulus());
            }
        }
        next_value
    }
}

proof fn lemma_step(b: nat, c: nat, i: nat)
    ensures
        ((b + c) % hash_modulus() + i * c) % hash_modulus() == (b + (i + 1) * c) % hash_modulus(),
{
    let m = hash_modulus() as int;
    vstd::arithmetic::div_mod::lemma_add_mod_noop((b + c) as int, (i * c) as int, m);
    vstd::arithmetic::div_mod::lemma_mod_twice((b + c) as int, m);
    vstd::arithmetic::div_mod::lemma_add_mod_noop((b + c) as int, (i * c) as int, m);
    assert((i + 1) * c == i * c + c) by (nonlinear_arith);
    assert(b + c + i * c == b + (i + 1) * c);
}

/// The 128-bit MurmurHash3 (x64 variant, seed 0) of `key`, as 16 bytes.
pub uninterp spec fn murmur3_digest(key: Seq<u8>) -> Seq<u8>;

/// Relies on murmur3::murmur3_x64_128: with seed 0 it writes the digest of
/// every byte that the reader yields into the first 16 bytes of `out`, and
/// the digest depends on those bytes alone. It counts the bytes in a `u32`,
/// hence the bound on the key's length.
#[verifier::external_body]
fn digest128(key: &[u8]) -> (r: Vec<u8>)
    requires
        key@.len() <= u32::MAX,
    ensures
        r@ == murmur3_digest(key@),
        r@.len() == 16,
{
    let mut out = [0u8; 16];
    murmur3::murmur3_x64_128(&mut std::io::Cursor::new(key), 0, &mut out);
    out.to_vec()
}

/// The unsigned integer whose big-endian bytes are `bytes`.
pub open spec fn be_value(bytes: Seq<u8>) -> nat
    decreases bytes.len(),
{
    if bytes.len() == 0 {
        0
    } else {
        be_value(bytes.drop_last()) * 256 + bytes.last() as nat
    }
}

/// Relies on byteorder's `BigEndian::read_u64`: the first eight bytes of
/// `buf`, read as a big-endian integer; it panics on a shorter buffer.
#[verifier::external_body]
fn read_u64_be(buf: &[u8]) -> (r: u64)
    requires
        buf@.len() >= 8,
    ensures
        r as nat == be_value(buf@.subrange(0, 8)),
{
    byteorder::BigEndian::read_u64(buf)
}

/// First seed of the stream of a key: bytes 0..8 of its digest, big-endian.
pub open spec fn key_base(key: Seq<u8>) -> u64 {
    be_value(murmur3_digest(key).subrange(0, 8)) as u64
}

/// Step of the stream of a key: bytes 4..12 of its digest, big-endian.
pub open spec fn key_increment(key: Seq<u8>) -> u64 {
    be_value(murmur3_digest(key).subrange(4, 12)) as u64
}

/// The stream of hash values of `key`.
pub fn key_hashes(key: &[u8]) -> (r: Hashes)
    requires
        key@.len() <= u32::MAX,
    ensures
        r.base_spec() == key_base(key@),
        r.increment_spec() == key_increment(key@),
{
    let hash_result = digest128(key);
    let hash1 = read_u64_be(hash_result.as_slice());
    let tail = vstd::slice::slice_subrange(hash_result.as_slice(), 4, 16);
    let hash2 = read_u64_be(tail);
    proof {
        assert(tail@.subrange(0, 8) =~= hash_result@.subrange(4, 12));
    }
    Hashes::new(hash1, hash2)
}

/// The slot, among `n`, that the `i`-th hash value of `key` selects.
pub open spec fn key_slot(key: Seq<u8>, i: nat, n: nat) -> nat {
    hash_at(key_base(key), key_increment(key), i) as nat % n
}

/// The slots, among `n`, that the first `k` hash values of `key` select.
pub open spec fn key_slots(key: Seq<u8>, k: nat, n: nat) -> Seq<nat> {
    Seq::new(k, |i: int| key_slot(key, i as nat, n))
}

/// The stream hands out the hash values of `key` from position `i` on.
pub open spec fn at_position(h: Hashes, key: Seq<u8>, i: nat) -> bool {
    forall|k: nat| #[trigger] h.nth(k) == hash_at(key_base(key), key_increment(key), i + k)
}

/// A stream of `key` at position `i` hands out the `i`-th value of `key`,
/// and after `next` it stands at position `i + 1`.
pub proof fn lemma_stream_advance(before: Hashes, after: Hashes, key: Seq<u8>, i: nat)
    requires
        at_position(before, key, i),
        forall|k: nat| #[trigger] after.nth(k) == before.nth(k + 1),
    ensures
        before.nth(0) == hash_at(key_base(key), key_increment(key), i),
        at_position(after, key, i + 1),
{
    assert(before.nth(0) == hash_at(key_base(key), key_increment(key), i + 0));
    assert forall|k: nat| #[trigger] after.nth(k) == hash_at(key_base(key), key_increment(key), (i + 1) + k) by {
        assert(before.nth(k + 1) == hash_at(key_base(key), key_increment(key), i + (k + 1)));
        assert(i + (k + 1) == (i + 1) + k);
    }
}

/// The slots of the first `k + 1` hash values extend those of the first `k`
/// by the slot of the `k`-th.
pub proof fn lemma_key_slots_push(key: Seq<u8>, k: nat, n: nat)
    ensures
        key_slots(key, k + 1, n) == key_slots(key, k, n).push(key_slot(key, k, n)),
{
    assert(key_slots(key, k + 1, n) =~= key_slots(key, k, n).push(key_slot(key, k, n)));
}

/// Two streams built from the same key hand out the same sequence.
pub proof fn lemma_key_hashes_deterministic(key: Seq<u8>, s: Hashes, t: Hashes)
    requires
        s.base_spec() == key_base(key),
        s.increment_spec() == key_increment(key),
        t.base_spec() == key_base(key),
        t.increment_spec() == key_increment(key),
    ensures
        forall|i: nat| #[trigger] s.nth(i) == t.nth(i),
{
}

} // verus!
