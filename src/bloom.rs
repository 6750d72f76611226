use vstd::prelude::*;
use bit_vec::BitVec;
use crate::hashes::{
    at_position, key_hashes, key_slot, key_slots, lemma_key_slots_push, lemma_stream_advance,
};
use crate::sizing::{optimal_num_hashes, rounded_num_hashes, ConfigError};

verus! {

#[verifier::external_type_specification]
#[verifier::external_body]
#[verifier::reject_recursive_types(B)]
pub struct ExBitVec<B>(BitVec<B>);

/// The bits that a `BitVec` holds, in index order.
pub uninterp spec fn bit_contents(v: BitVec) -> Seq<bool>;

/// Relies on `BitVec::from_elem`: a vector of `len` bits, all equal to `bit`.
#[verifier::external_body]
fn bits_from_elem(len: usize, bit: bool) -> (r: BitVec)
    ensures
        bit_contents(r) == Seq::new(len as nat, |i: int| bit),
{
    BitVec::from_elem(len, bit)
}

/// Relies on `BitVec::len`: the number of bits held.
#[verifier::external_body]
fn bits_len(v: &BitVec) -> (r: usize)
    ensures
        r == bit_contents(*v).len(),
{
    v.len()
}

/// Relies on `BitVec::get`: bit `i`, or `None` past the end.
#[verifier::external_body]
fn bits_get(v: &BitVec, i: usize) -> (r: Option<bool>)
    ensures
        r == (if i < bit_contents(*v).len() {
            Some(bit_contents(*v)[i as int])
        } else {
            None::<bool>
        }),
{
    v.get(i)
}

/// Relies on `BitVec::set`: bit `i` becomes `x`, the others stay; it panics
/// past the end.
#[verifier::external_body]
fn bits_set(v: &mut BitVec, i: usize, x: bool)
    requires
        i < bit_contents(*old(v)).len(),
    ensures
        bit_contents(*final(v)) == bit_contents(*old(v)).update(i as int, x),
{
    v.set(i, x)
}

/// The bits `b` with the bit of each entry of `slots` set.
pub open spec fn bits_added(b: Seq<bool>, slots: Seq<nat>) -> Seq<bool> {
    Seq::new(b.len(), |j: int| b[j] || slots.contains(j as nat))
}

/// Every slot of `slots` holds a set bit in `b`.
pub open spec fn all_set(b: Seq<bool>, slots: Seq<nat>) -> bool {
    forall|i: int| 0 <= i < slots.len() ==> b[slots[i] as int]
}

/// A Bloom filter: an approximate set of byte strings backed by a bit set.
/// It answers `true` for every key added, and may answer `true` for others.
pub struct Bloom {
    bit_vec: BitVec,
    num_hashes: usize,
}

impl Bloom {
    /// The bits, one per slot.
    pub closed spec fn bits(&self) -> Seq<bool> {
        bit_contents(self.bit_vec)
    }

    /// How many hash values of a key the filter uses.
    pub closed spec fn hash_count(&self) -> nat {
        self.num_hashes as nat
    }

    /// The slots that `key` selects in this filter.
    pub open spec fn slots_of(&self, key: Seq<u8>) -> Seq<nat> {
        key_slots(key, self.hash_count(), self.bits().len())
    }

    pub closed spec fn wf(&self) -> bool {
        &&& self.bits().len() >= 1
        &&& self.num_hashes >= 1
    }

    /// An empty filter of `num_bits` bits, sized for `num_items` keys: it
    /// uses `optimal_num_hashes(num_bits, num_items)` hash values per key.
    pub fn with_num_bits(num_items: u64, num_bits: usize) -> (r: Result<Bloom, ConfigError>)
        ensures
            num_items == 0 <==> r == Err::<Bloom, ConfigError>(ConfigError::NoExpectedItems),
            num_items > 0 && num_bits == 0 <==> r == Err::<Bloom, ConfigError>(ConfigError::EmptyFilter),
            num_items > 0 && num_bits > 0 && rounded_num_hashes(num_bits as nat, num_items as nat) == 0
                <==> r == Err::<Bloom, ConfigError>(ConfigError::NoHashFunctions),
            r is Ok <==> (num_items > 0 && num_bits > 0 && rounded_num_hashes(num_bits as nat, num_items as nat) > 0),
            r is Ok ==> {
                let f = r->Ok_0;
                &&& f.wf()
                &&& f.bits() == Seq::new(num_bits as nat, |i: int| false)
                &&& f.hash_count() == rounded_num_hashes(num_bits as nat, num_items as nat)
            },
    {
        if num_items == 0 {
            return Err(ConfigError::NoExpectedItems);
        }
        if num_bits == 0 {
            return Err(ConfigError::EmptyFilter);
        }
        let num_hashes = optimal_num_hashes(num_bits, num_items);
        if num_hashes == 0 {
            return Err(ConfigError::NoHashFunctions);
        }
        Ok(Bloom { bit_vec: bits_from_elem(num_bits, false), num_hashes: num_hashes })
    }

    /// Adds `key`: sets the bit of each of its slots.
    pub fn add(&mut self, key: &[u8])
        requires
            old(self).wf(),
            key@.len() <= u32::MAX,
        ensures
            final(self).wf(),
            final(self).hash_count() == old(self).hash_count(),
            final(self).bits() == bits_added(old(self).bits(), old(self).slots_of(key@)),
    {
        let count = bits_len(&self.bit_vec);
        let mut hashes = key_hashes(key);
        let mut i: usize = 0;
        proof {
            assert(bits_added(self.bits(), key_slots(key@, 0, count as nat)) =~= self.bits());
        }
        while i < self.num_hashes
            invariant
                self.wf(),
                self.num_hashes == old(self).num_hashes,
                count == self.bits().len(),
                count == old(self).bits().len(),
                i <= self.num_hashes,
                at_position(hashes, key@, i as nat),
                self.bits() == bits_added(old(self).bits(), key_slots(key@, i as nat, count as nat)),
            decreases self.num_hashes - i,
        {
            let ghost prev = hashes;
            let hash = hashes.next();
            proof {
                lemma_stream_advance(prev, hashes, key@, i as nat);
            }
            let index = (hash % (count as u64)) as usize;
            assert(index == key_slot(key@, i as nat, count as nat));
            let ghost before = self.bits();
            bits_set(&mut self.bit_vec, index, true);
            proof {
                let s = key_slots(key@, i as nat, count as nat);
                let t = key_slots(key@, (i + 1) as nat, count as nat);
                lemma_key_slots_push(key@, i as nat, count as nat);
                assert forall|j: int| 0 <= j < count implies #[trigger] self.bits()[j] == bits_added(
                    old(self).bits(),
                    t,
                )[j] by {
                    assert(before[j] == bits_added(old(self).bits(), s)[j]);
                    if s.contains(j as nat) {
                        let w = choose|w: int| 0 <= w < s.len() && s[w] == j as nat;
                        assert(t[w] == j as nat);
                    }
                    if t.contains(j as nat) && j != index {
                        let w = choose|w: int| 0 <= w < t.len() && t[w] == j as nat;
                        assert(s[w] == j as nat);
                    }
                    if j == index {
                        assert(t[i as int] == index);
                    }
                }
                assert(self.bits() =~= bits_added(old(self).bits(), t));
            }
            i = i + 1;
        }
    }

    /// Whether `key` may be in the filter: every bit of its slots is set.
    pub fn contains(&self, key: &[u8]) -> (r: bool)
        requires
            self.wf(),
            key@.len() <= u32::MAX,
        ensures
            r == all_set(self.bits(), self.slots_of(key@)),
    {
        let count = bits_len(&self.bit_vec);
        let mut hashes = key_hashes(key);
        let mut contains_key = true;
        let mut i: usize = 0;
        while i < self.num_hashes
            invariant
                self.wf(),
                count == self.bits().len(),
                i <= self.num_hashes,
                at_position(hashes, key@, i as nat),
                contains_key == all_set(self.bits(), key_slots(key@, i as nat, count as nat)),
            decreases self.num_hashes - i,
        {
            let ghost prev = hashes;
            let hash = hashes.next();
            proof {
                lemma_stream_advance(prev, hashes, key@, i as nat);
            }
            let index = (hash % (count as u64)) as usize;
            assert(index == key_slot(key@, i as nat, count as nat));
            let bit = bits_get(&self.bit_vec, index);
            contains_key = contains_key && bit.unwrap();
            proof {
                let s = key_slots(key@, i as nat, count as nat);
                let t = key_slots(key@, (i + 1) as nat, count as nat);
                lemma_key_slots_push(key@, i as nat, count as nat);
                if all_set(self.bits(), s) && self.bits()[index as int] {
                    assert forall|w: int| 0 <= w < t.len() implies self.bits()[t[w] as int] by {
                        if w < s.len() {
                            assert(t[w] == s[w]);
                        }
                    }
                }
                if !all_set(self.bits(), s) {
                    let w = choose|w: int| 0 <= w < s.len() && !self.bits()[s[w] as int];
                    assert(t[w] == s[w]);
                }
                if !self.bits()[index as int] {
                    assert(t[i as int] == index);
                }
            }
            i = i + 1;
        }
        contains_key
    }
}

/// No false negatives: once `key` is added, every bit of its slots is set,
/// so `contains(key)` answers `true`.
pub proof fn lemma_added_key_is_contained(f: Bloom, key: Seq<u8>)
    requires
        f.wf(),
    ensures
        all_set(bits_added(f.bits(), f.slots_of(key)), f.slots_of(key)),
{
    let s = f.slots_of(key);
    assert forall|i: int| 0 <= i < s.len() implies bits_added(f.bits(), s)[s[i] as int] by {
        assert(s[i] < f.bits().len());
        assert(s.contains(s[i]));
    }
}

/// The bits `b` after the keys of `keys` are added in turn, each with `k`
/// hash values.
pub open spec fn bits_after_adds(b: Seq<bool>, keys: Seq<Seq<u8>>, k: nat) -> Seq<bool>
    decreases keys.len(),
{
    if keys.len() == 0 {
        b
    } else {
        bits_added(bits_after_adds(b, keys.drop_last(), k), key_slots(keys.last(), k, b.len()))
    }
}

proof fn lemma_adds_keep_set(b: Seq<bool>, s: Seq<nat>, keys: Seq<Seq<u8>>, k: nat)
    requires
        forall|i: int| 0 <= i < s.len() ==> #[trigger] s[i] < b.len(),
        all_set(b, s),
    ensures
        bits_after_adds(b, keys, k).len() == b.len(),
        all_set(bits_after_adds(b, keys, k), s),
    decreases keys.len(),
{
    if keys.len() > 0 {
        lemma_adds_keep_set(b, s, keys.drop_last(), k);
        let before = bits_after_adds(b, keys.drop_last(), k);
        let after = bits_after_adds(b, keys, k);
        assert forall|i: int| 0 <= i < s.len() implies after[s[i] as int] by {
            assert(before[s[i] as int]);
        }
    }
}

/// No false negatives: once `key` is added, `contains(key)` answers `true`
/// whatever keys are added after it.
pub proof fn lemma_added_key_stays_contained(f: Bloom, key: Seq<u8>, later: Seq<Seq<u8>>)
    requires
        f.wf(),
    ensures
        all_set(bits_after_adds(bits_added(f.bits(), f.slots_of(key)), later, f.hash_count()), f.slots_of(key)),
{
    lemma_added_key_is_contained(f, key);
    let s = f.slots_of(key);
    assert forall|i: int| 0 <= i < s.len() implies #[trigger] s[i] < f.bits().len() by {}
    lemma_adds_keep_set(bits_added(f.bits(), s), s, later, f.hash_count());
}

} // verus!
