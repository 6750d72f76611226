use vstd::prelude::*;
use crate::hashes::{
    at_position, key_hashes, key_slot, key_slots, lemma_key_slots_push, lemma_stream_advance,
};
use crate::packed_vec::PackedVec;
use crate::sizing::{optimal_num_hashes, rounded_num_hashes, ConfigError};

verus! {

/// Width in bits of each counter of a counting filter.
pub const COUNTER_BITS: usize = 4;

/// The largest value a counter of a counting filter holds: 2^4 - 1.
pub open spec fn max_count() -> nat {
    15
}

/// How many times `j` occurs in `s`.
pub open spec fn occurrences(s: Seq<nat>, j: nat) -> nat
    decreases s.len(),
{
    if s.len() == 0 {
        0
    } else {
        occurrences(s.drop_last(), j) + if s.last() == j { 1nat } else { 0nat }
    }
}

/// The counters `c` after one saturating increment for each entry of `slots`.
pub open spec fn counters_added(c: Seq<nat>, slots: Seq<nat>) -> Seq<nat> {
    Seq::new(
        c.len(),
        |j: int| vstd::math::min((c[j] + occurrences(slots, j as nat)) as int, max_count() as int) as nat,
    )
}

/// The counters `c` after one saturating decrement for each entry of `slots`.
pub open spec fn counters_removed(c: Seq<nat>, slots: Seq<nat>) -> Seq<nat> {
    Seq::new(
        c.len(),
        |j: int|
            if c[j] >= occurrences(slots, j as nat) {
                (c[j] - occurrences(slots, j as nat)) as nat
            } else {
                0nat
            },
    )
}

/// Every slot of `slots` holds a non-zero counter in `c`.
pub open spec fn all_counted(c: Seq<nat>, slots: Seq<nat>) -> bool {
    forall|i: int| 0 <= i < slots.len() ==> c[slots[i] as int] > 0
}

proof fn lemma_occurrences_push(s: Seq<nat>, x: nat, j: nat)
    ensures
        occurrences(s.push(x), j) == occurrences(s, j) + if x == j { 1nat } else { 0nat },
{
    assert(s.push(x).drop_last() =~= s);
}

proof fn lemma_all_counted_push(c: Seq<nat>, s: Seq<nat>, x: nat)
    ensures
        all_counted(c, s.push(x)) == (all_counted(c, s) && c[x as int] > 0),
{
    let t = s.push(x);
    if all_counted(c, s) && c[x as int] > 0 {
        assert forall|i: int| 0 <= i < t.len() implies c[t[i] as int] > 0 by {
            if i < s.len() {
                assert(t[i] == s[i]);
            }
        }
    }
    if !all_counted(c, s) {
        let i = choose|i: int| 0 <= i < s.len() && !(c[s[i] as int] > 0);
        assert(t[i] == s[i]);
    }
    if !(c[x as int] > 0) {
        assert(t[s.len() as int] == x);
    }
}

proof fn lemma_occurrences_of_member(s: Seq<nat>, i: int)
    requires
        0 <= i < s.len(),
    ensures
        occurrences(s, s[i]) >= 1,
    decreases s.len(),
{
    if i < s.len() - 1 {
        lemma_occurrences_of_member(s.drop_last(), i);
    }
}

proof fn lemma_occurrences_of_other(s: Seq<nat>, j: nat)
    requires
        !s.contains(j),
    ensures
        occurrences(s, j) == 0,
    decreases s.len(),
{
    if s.len() > 0 {
        assert(s.last() == s[s.len() - 1]);
        assert forall|w: int| 0 <= w < s.drop_last().len() implies s.drop_last()[w] != j by {
            assert(s.drop_last()[w] == s[w]);
        }
        lemma_occurrences_of_other(s.drop_last(), j);
    }
}

proof fn lemma_slots_in_range(key: Seq<u8>, k: nat, n: nat)
    requires
        n >= 1,
    ensures
        forall|i: int| 0 <= i < k ==> #[trigger] key_slots(key, k, n)[i] < n,
{
}

/// A counting Bloom filter: an approximate set of byte strings that also
/// supports removal, backed by 4-bit saturating counters.
pub struct CountingBloom {
    packed_vec: PackedVec,
    num_hashes: usize,
}

impl CountingBloom {
    /// The counters, one per slot.
    pub closed spec fn counters(&self) -> Seq<nat> {
        self.packed_vec@
    }

    /// How many hash values of a key the filter uses.
    pub closed spec fn hash_count(&self) -> nat {
        self.num_hashes as nat
    }

    /// The slots that `key` selects in this filter.
    pub open spec fn slots_of(&self, key: Seq<u8>) -> Seq<nat> {
        key_slots(key, self.hash_count(), self.counters().len())
    }

    pub closed spec fn wf(&self) -> bool {
        &&& self.packed_vec.wf()
        &&& self.packed_vec.element_bits() == COUNTER_BITS
        &&& self.packed_vec@.len() >= 1
        &&& self.num_hashes >= 1
    }

    /// The filter's invariant as its users see it.
    pub proof fn lemma_wf(&self)
        requires
            self.wf(),
        ensures
            self.counters().len() >= 1,
            self.hash_count() >= 1,
            forall|j: int| 0 <= j < self.counters().len() ==> #[trigger] self.counters()[j] <= max_count(),
    {
        self.packed_vec.lemma_counters_bounded();
        vstd::arithmetic::power2::lemma2_to64();
    }

    /// An empty filter of `num_bits` counters, sized for `num_items` keys:
    /// it uses `optimal_num_hashes(num_bits, num_items)` hash values per key.
    pub fn with_num_bits(num_items: u64, num_bits: usize) -> (r: Result<CountingBloom, ConfigError>)
        ensures
            num_items == 0 <==> r == Err::<CountingBloom, ConfigError>(ConfigError::NoExpectedItems),
            num_items > 0 && num_bits == 0 <==> r == Err::<CountingBloom, ConfigError>(ConfigError::EmptyFilter),
            num_items > 0 && num_bits > 0 && rounded_num_hashes(num_bits as nat, num_items as nat) == 0
                <==> r == Err::<CountingBloom, ConfigError>(ConfigError::NoHashFunctions),
            r is Ok <==> (num_items > 0 && num_bits > 0 && rounded_num_hashes(num_bits as nat, num_items as nat) > 0),
            r is Ok ==> {
                let f = r->Ok_0;
                &&& f.wf()
                &&& f.counters() == Seq::new(num_bits as nat, |i: int| 0nat)
                &&& f.hash_count() == rounded_num_hashes(num_bits as nat, num_items as nat)
            },
    {
        if num_items == 0 {
            return Err(ConfigError::NoExpectedItems);
        }
        if num_bits == 0 {
            return Err(ConfigError::EmptyFilter);
        }
        let num_hashes = optimal_num_hashes(num_bits, num_items);
        if num_hashes == 0 {
            return Err(ConfigError::NoHashFunctions);
        }
        Ok(CountingBloom { packed_vec: PackedVec::new(num_bits, COUNTER_BITS), num_hashes: num_hashes })
    }

    /// Adds `key`: increments, saturating, the counter of each of its slots.
    pub fn add(&mut self, key: &[u8])
        requires
            old(self).wf(),
            key@.len() <= u32::MAX,
        ensures
            final(self).wf(),
            final(self).hash_count() == old(self).hash_count(),
            final(self).counters() == counters_added(old(self).counters(), old(self).slots_of(key@)),
    {
        let count = self.packed_vec.len();
        let mut hashes = key_hashes(key);
        let mut i: usize = 0;
        proof {
            self.lemma_wf();
            assert(counters_added(self.counters(), key_slots(key@, 0, count as nat)) =~= self.counters());
        }
        while i < self.num_hashes
            invariant
                self.wf(),
                self.num_hashes == old(self).num_hashes,
                count == self.counters().len(),
                count == old(self).counters().len(),
                i <= self.num_hashes,
                at_position(hashes, key@, i as nat),
                self.counters() == counters_added(old(self).counters(), key_slots(key@, i as nat, count as nat)),
            decreases self.num_hashes - i,
        {
            let ghost prev = hashes;
            let hash = hashes.next();
            proof {
                lemma_stream_advance(prev, hashes, key@, i as nat);
            }
            let index = (hash % (count as u64)) as usize;
            assert(index == key_slot(key@, i as nat, count as nat));
            let ghost before = self.counters();
            self.packed_vec.increment(index);
            proof {
                vstd::arithmetic::power2::lemma2_to64();
                lemma_key_slots_push(key@, i as nat, count as nat);
                let s = key_slots(key@, i as nat, count as nat);
                assert forall|j: int| 0 <= j < count implies #[trigger] self.counters()[j] == counters_added(
                    old(self).counters(),
                    s.push(index as nat),
                )[j] by {
                    lemma_occurrences_push(s, index as nat, j as nat);
                    assert(before[j] == counters_added(old(self).counters(), s)[j]);
                }
                assert(self.counters() =~= counters_added(old(self).counters(), s.push(index as nat)));
            }
            i = i + 1;
        }
        proof {
            self.lemma_wf();
        }
    }

    /// Removes `key`: decrements, saturating at zero, the counter of each of
    /// its slots.
    pub fn remove(&mut self, key: &[u8])
        requires
            old(self).wf(),
            key@.len() <= u32::MAX,
        ensures
            final(self).wf(),
            final(self).hash_count() == old(self).hash_count(),
            final(self).counters() == counters_removed(old(self).counters(), old(self).slots_of(key@)),
    {
        let count = self.packed_vec.len();
        let mut hashes = key_hashes(key);
        let mut i: usize = 0;
        proof {
            self.lemma_wf();
            assert(counters_removed(self.counters(), key_slots(key@, 0, count as nat)) =~= self.counters());
        }
        while i < self.num_hashes
            invariant
                self.wf(),
                self.num_hashes == old(self).num_hashes,
                count == self.counters().len(),
                count == old(self).counters().len(),
                i <= self.num_hashes,
                at_position(hashes, key@, i as nat),
                self.counters() == counters_removed(old(self).counters(), key_slots(key@, i as nat, count as nat)),
            decreases self.num_hashes - i,
        {
            let ghost prev = hashes;
            let hash = hashes.next();
            proof {
                lemma_stream_advance(prev, hashes, key@, i as nat);
            }
            let index = (hash % (count as u64)) as usize;
            assert(index == key_slot(key@, i as nat, count as nat));
            let ghost before = self.counters();
            self.packed_vec.decrement(index);
            proof {
                lemma_key_slots_push(key@, i as nat, count as nat);
                let s = key_slots(key@, i as nat, count as nat);
                assert forall|j: int| 0 <= j < count implies #[trigger] self.counters()[j] == counters_removed(
                    old(self).counters(),
                    s.push(index as nat),
                )[j] by {
                    lemma_occurrences_push(s, index as nat, j as nat);
                    assert(before[j] == counters_removed(old(self).counters(), s)[j]);
                }
                assert(self.counters() =~= counters_removed(old(self).counters(), s.push(index as nat)));
            }
            i = i + 1;
        }
    }

    /// Whether `key` may be in the filter: every counter of its slots is
    /// non-zero. The filter is left as it was.
    pub fn contains(&mut self, key: &[u8]) -> (r: bool)
        requires
            old(self).wf(),
            key@.len() <= u32::MAX,
        ensures
            *final(self) == *old(self),
            r == all_counted(old(self).counters(), old(self).slots_of(key@)),
    {
        let count = self.packed_vec.len();
        let mut hashes = key_hashes(key);
        let mut contains_key = true;
        let mut i: usize = 0;
        proof {
            self.lemma_wf();
        }
        while i < self.num_hashes
            invariant
                self.wf(),
                *self == *old(self),
                count == self.counters().len(),
                i <= self.num_hashes,
                at_position(hashes, key@, i as nat),
                contains_key == all_counted(self.counters(), key_slots(key@, i as nat, count as nat)),
            decreases self.num_hashes - i,
        {
            let ghost prev = hashes;
            let hash = hashes.next();
            proof {
                lemma_stream_advance(prev, hashes, key@, i as nat);
            }
            let index = (hash % (count as u64)) as usize;
            assert(index == key_slot(key@, i as nat, count as nat));
            let value = self.packed_vec.get(index);
            contains_key = contains_key && value.unwrap() > 0;
            proof {
                lemma_key_slots_push(key@, i as nat, count as nat);
                let s = key_slots(key@, i as nat, count as nat);
                self.lemma_wf();
                lemma_all_counted_push(self.counters(), s, index as nat);
            }
            i = i + 1;
        }
        contains_key
    }
}

/// No false negatives: once `key` is added, every counter of its slots is
/// non-zero, so `contains(key)` answers `true`.
pub proof fn lemma_added_key_is_contained(f: CountingBloom, key: Seq<u8>)
    requires
        f.wf(),
    ensures
        all_counted(counters_added(f.counters(), f.slots_of(key)), f.slots_of(key)),
{
    f.lemma_wf();
    let s = f.slots_of(key);
    lemma_slots_in_range(key, f.hash_count(), f.counters().len());
    assert forall|i: int| 0 <= i < s.len() implies counters_added(f.counters(), s)[s[i] as int] > 0 by {
        lemma_occurrences_of_member(s, i);
    }
}

/// The counters `c` after the keys of `keys` are added in turn, each with
/// `k` hash values.
pub open spec fn counters_after_adds(c: Seq<nat>, keys: Seq<Seq<u8>>, k: nat) -> Seq<nat>
    decreases keys.len(),
{
    if keys.len() == 0 {
        c
    } else {
        let before = counters_after_adds(c, keys.drop_last(), k);
        counters_added(before, key_slots(keys.last(), k, c.len()))
    }
}

proof fn lemma_adds_keep_counted(c: Seq<nat>, s: Seq<nat>, keys: Seq<Seq<u8>>, k: nat)
    requires
        forall|j: int| 0 <= j < c.len() ==> #[trigger] c[j] <= max_count(),
        forall|i: int| 0 <= i < s.len() ==> #[trigger] s[i] < c.len(),
        all_counted(c, s),
    ensures
        counters_after_adds(c, keys, k).len() == c.len(),
        forall|j: int| 0 <= j < c.len() ==> #[trigger] counters_after_adds(c, keys, k)[j] <= max_count(),
        all_counted(counters_after_adds(c, keys, k), s),
    decreases keys.len(),
{
    if keys.len() > 0 {
        lemma_adds_keep_counted(c, s, keys.drop_last(), k);
        let before = counters_after_adds(c, keys.drop_last(), k);
        let after = counters_after_adds(c, keys, k);
        assert forall|i: int| 0 <= i < s.len() implies after[s[i] as int] > 0 by {
            assert(before[s[i] as int] > 0);
        }
    }
}

/// No false negatives: once `key` is added, `contains(key)` answers `true`
/// whatever keys are added after it. Counters that saturate stay non-zero.
pub proof fn lemma_added_key_stays_contained(f: CountingBloom, key: Seq<u8>, later: Seq<Seq<u8>>)
    requires
        f.wf(),
    ensures
        all_counted(
            counters_after_adds(counters_added(f.counters(), f.slots_of(key)), later, f.hash_count()),
            f.slots_of(key),
        ),
{
    f.lemma_wf();
    lemma_added_key_is_contained(f, key);
    lemma_slots_in_range(key, f.hash_count(), f.counters().len());
    lemma_adds_keep_counted(
        counters_added(f.counters(), f.slots_of(key)),
        f.slots_of(key),
        later,
        f.hash_count(),
    );
}

/// Removing what was added restores every counter that did not saturate.
pub proof fn lemma_remove_undoes_add(f: CountingBloom, key: Seq<u8>)
    requires
        f.wf(),
        forall|j: int| 0 <= j < f.counters().len() ==>
            f.counters()[j] + occurrences(f.slots_of(key), j as nat) <= max_count(),
    ensures
        counters_removed(counters_added(f.counters(), f.slots_of(key)), f.slots_of(key)) == f.counters(),
{
    let s = f.slots_of(key);
    assert(counters_removed(counters_added(f.counters(), s), s) =~= f.counters());
}

/// A key whose slots no other key counts is gone once it is added and
/// removed again: the filter is restored and `contains(key)` answers `false`.
pub proof fn lemma_add_remove_symmetry(f: CountingBloom, key: Seq<u8>)
    requires
        f.wf(),
        forall|i: int| 0 <= i < f.slots_of(key).len() ==> f.counters()[f.slots_of(key)[i] as int] == 0,
    ensures
        counters_removed(counters_added(f.counters(), f.slots_of(key)), f.slots_of(key)) == f.counters(),
        !all_counted(counters_removed(counters_added(f.counters(), f.slots_of(key)), f.slots_of(key)), f.slots_of(key)),
{
    f.lemma_wf();
    let s = f.slots_of(key);
    let c = f.counters();
    lemma_slots_in_range(key, f.hash_count(), c.len());
    assert forall|j: int| 0 <= j < c.len() implies #[trigger] counters_removed(counters_added(c, s), s)[j] == c[j] by {
        if s.contains(j as nat) {
            let w = choose|w: int| 0 <= w < s.len() && s[w] == j as nat;
            assert(c[s[w] as int] == 0);
        } else {
            lemma_occurrences_of_other(s, j as nat);
        }
    }
    assert(counters_removed(counters_added(c, s), s) =~= c);
    assert(c[s[0] as int] == 0);
}

} // verus!
