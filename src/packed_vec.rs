use vstd::prelude::*;
use vstd::arithmetic::power2::pow2;

verus! {

/// Width in bits of one storage word.
pub const WORD_BITS: usize = 64;

/// The mask of the low `bits` bits of a word.
pub open spec fn field_mask(bits: u64) -> u64 {
    if bits >= 64 {
        0xffff_ffff_ffff_ffffu64
    } else {
        ((1u64 << bits) - 1) as u64
    }
}

/// The `bits`-wide field of `word` that starts at bit `shift`.
pub open spec fn field_of(word: u64, shift: u64, bits: u64) -> u64 {
    (word >> shift) & field_mask(bits)
}

/// `word` with its field at `shift` replaced by `value`.
pub open spec fn with_field(word: u64, shift: u64, bits: u64, value: u64) -> u64 {
    (word & !(field_mask(bits) << shift)) | (value << shift)
}

proof fn lemma_field_written(word: u64, shift: u64, bits: u64, value: u64)
    by (bit_vector)
    requires
        1 <= bits <= 64,
        shift + bits <= 64,
        value <= field_mask(bits),
    ensures
        field_of(with_field(word, shift, bits, value), shift, bits) == value,
{
}

proof fn lemma_field_kept(word: u64, shift: u64, other: u64, bits: u64, value: u64)
    by (bit_vector)
    requires
        1 <= bits <= 64,
        shift + bits <= 64,
        other + bits <= 64,
        other + bits <= shift || shift + bits <= other,
        value <= field_mask(bits),
    ensures
        field_of(with_field(word, shift, bits, value), other, bits) == field_of(word, other, bits),
{
}

proof fn lemma_field_bounded(word: u64, shift: u64, bits: u64)
    by (bit_vector)
    requires
        1 <= bits <= 64,
    ensures
        field_of(word, shift, bits) <= field_mask(bits),
        field_of(0, shift, bits) == 0,
{
}

proof fn lemma_mask_is_pow2(bits: u64)
    requires
        1 <= bits <= 64,
    ensures
        field_mask(bits) as nat == pow2(bits as nat) - 1,
{
    vstd::arithmetic::power2::lemma2_to64();
    vstd::arithmetic::power2::lemma2_to64_rest();
    if bits < 64 {
        vstd::bits::lemma_u64_pow2_no_overflow(bits as nat);
        vstd::bits::lemma_u64_shl_is_mul(1u64, bits);
        assert(1u64 << bits >= 1) by (bit_vector)
            requires
                bits < 64,
        ;
    }
}

/// Number of `bits`-wide fields that fit side by side in one word.
pub open spec fn per_word(bits: nat) -> nat {
    64nat / bits
}

/// Number of words that hold `n` fields of `bits` bits each.
pub open spec fn words_for(n: nat, bits: nat) -> nat {
    if n % per_word(bits) == 0 {
        n / per_word(bits)
    } else {
        n / per_word(bits) + 1
    }
}

/// Position of the lowest bit of field `slot` within its word: fields are
/// laid out from the most significant end of the word.
pub open spec fn shift_of(slot: nat, bits: nat) -> nat {
    (64int - bits * (slot + 1)) as nat
}

/// A fixed-length array of saturating unsigned counters of `element_bits`
/// bits each, packed into 64-bit words; no counter spans two words.
pub struct PackedVec {
    num_elem: usize,
    element_size_bits: usize,
    bucket_size_bits: usize,
    elements_per_bucket: usize,
    data: Vec<u64>,
}

impl View for PackedVec {
    type V = Seq<nat>;

    /// The counters, in index order.
    closed spec fn view(&self) -> Seq<nat> {
        Seq::new(
            self.num_elem as nat,
            |i: int| self.counter_at(i as nat) as nat,
        )
    }
}

impl PackedVec {
    closed spec fn counter_at(&self, i: nat) -> u64 {
        let per = self.elements_per_bucket as nat;
        field_of(
            self.data@[(i / per) as int],
            shift_of(i % per, self.element_size_bits as nat) as u64,
            self.element_size_bits as u64,
        )
    }

    /// Width of one counter in bits.
    pub closed spec fn element_bits(&self) -> nat {
        self.element_size_bits as nat
    }

    /// The largest value a counter can hold: 2^element_bits - 1.
    pub open spec fn max_value(&self) -> nat {
        (pow2(self.element_bits()) - 1) as nat
    }

    /// The internal layout is consistent.
    pub closed spec fn wf(&self) -> bool {
        &&& 1 <= self.element_size_bits <= 64
        &&& self.bucket_size_bits == WORD_BITS
        &&& self.elements_per_bucket as nat == per_word(self.element_size_bits as nat)
        &&& self.data@.len() == words_for(self.num_elem as nat, self.element_size_bits as nat)
    }

    /// No counter ever exceeds the largest value, 2^element_bits - 1.
    pub proof fn lemma_counters_bounded(&self)
        requires
            self.wf(),
        ensures
            forall|i: int| 0 <= i < self@.len() ==> #[trigger] self@[i] <= self.max_value(),
    {
        self.lemma_max_is_mask();
        assert forall|i: int| 0 <= i < self@.len() implies #[trigger] self@[i] <= self.max_value() by {
            let per = self.elements_per_bucket as nat;
            lemma_field_bounded(
                self.data@[(i as nat / per) as int],
                shift_of(i as nat % per, self.element_size_bits as nat) as u64,
                self.element_size_bits as u64,
            );
        }
    }

    proof fn lemma_max_is_mask(&self)
        requires
            self.wf(),
        ensures
            self.max_value() == field_mask(self.element_size_bits as u64) as nat,
    {
        lemma_mask_is_pow2(self.element_size_bits as u64);
    }

    /// Where counter `index` lives: its word, and the shift and mask of its field.
    fn locate(&self, index: usize) -> (r: (usize, u64, u64))
        requires
            self.wf(),
            index < self.num_elem,
        ensures
            r.0 == index as nat / (self.elements_per_bucket as nat),
            r.0 < self.data@.len(),
            r.1 == shift_of(index as nat % (self.elements_per_bucket as nat), self.element_size_bits as nat),
            r.1 + self.element_size_bits <= 64,
            r.2 == field_mask(self.element_size_bits as u64),
    {
        proof {
            lemma_layout(self.num_elem as nat, self.element_size_bits as nat, index as nat);
        }
        let bucket_index = index / self.elements_per_bucket;
        let element_index = index % self.elements_per_bucket;
        let bits = self.element_size_bits as u64;
        let element_mask = if self.element_size_bits == WORD_BITS {
            u64::MAX
        } else {
            proof {
                assert(1u64 << bits >= 1) by (bit_vector)
                    requires
                        bits < 64,
                ;
            }
            (1u64 << bits) - 1
        };
        let shift_size = (self.bucket_size_bits - self.element_size_bits * (element_index + 1)) as u64;
        (bucket_index, shift_size, element_mask)
    }

    /// The value of counter `index`.
    fn read_element(&self, index: usize) -> (r: u64)
        requires
            self.wf(),
            index < self.num_elem,
        ensures
            r as nat == self@[index as int],
            r as nat <= self.max_value(),
    {
        let (bucket_index, shift_size, element_mask) = self.locate(index);
        let bucket = self.data[bucket_index];
        proof {
            lemma_field_bounded(bucket, shift_size, self.element_size_bits as u64);
            self.lemma_max_is_mask();
        }
        (bucket >> shift_size) & element_mask
    }

    /// Stores `new_element` in counter `index`, capped to the largest value
    /// a counter holds.
    fn write_element(&mut self, index: usize, new_element: u64)
        requires
            old(self).wf(),
            index < old(self).num_elem,
        ensures
            final(self).wf(),
            final(self).element_bits() == old(self).element_bits(),
            final(self)@ == old(self)@.update(
                index as int,
                vstd::math::min(new_element as int, old(self).max_value() as int) as nat,
            ),
    {
        let (bucket_index, shift_size, element_mask) = self.locate(index);
        let bucket = self.data[bucket_index];
        let new_value = Self::cap_value_to_valid_range(new_element, element_mask);
        let clear_mask = !(element_mask << shift_size);
        let cleared_bucket = bucket & clear_mask;
        let new_bucket = cleared_bucket | (new_value << shift_size);
        self.data.set(bucket_index, new_bucket);
        proof {
            let bits = self.element_size_bits as nat;
            let per = self.elements_per_bucket as nat;
            old(self).lemma_max_is_mask();
            lemma_layout(self.num_elem as nat, bits, index as nat);
            assert(new_bucket == with_field(bucket, shift_size, bits as u64, new_value));
            lemma_field_written(bucket, shift_size, bits as u64, new_value);
            assert forall|j: int| 0 <= j < self.num_elem && j != index implies
                #[trigger] self.counter_at(j as nat) == old(self).counter_at(j as nat) by {
                lemma_layout(self.num_elem as nat, bits, j as nat);
                if j as nat / per == index as nat / per {
                    lemma_other_slot(bits, j as nat, index as nat);
                    lemma_field_kept(
                        bucket,
                        shift_size,
                        shift_of(j as nat % per, bits) as u64,
                        bits as u64,
                        new_value,
                    );
                }
            }
            assert(self@ =~= old(self)@.update(
                index as int,
                vstd::math::min(new_element as int, old(self).max_value() as int) as nat,
            ));
        }
    }

    /// A vector of `num_elem` counters of `element_size_bits` bits each, all zero.
    pub fn new(num_elem: usize, element_size_bits: usize) -> (r: PackedVec)
        requires
            1 <= element_size_bits <= WORD_BITS,
        ensures
            r.wf(),
            r.element_bits() == element_size_bits,
            r@ == Seq::new(num_elem as nat, |i: int| 0nat),
    {
        let bucket_size_bits = WORD_BITS;
        let elements_per_bucket = bucket_size_bits / element_size_bits;
        assert(elements_per_bucket >= 1) by (nonlinear_arith)
            requires
                1 <= element_size_bits <= 64,
                elements_per_bucket == 64int / element_size_bits as int,
        ;
        let vec_size = if num_elem % elements_per_bucket == 0 {
            num_elem / elements_per_bucket
        } else {
            assert(num_elem / elements_per_bucket < num_elem) by (nonlinear_arith)
                requires
                    elements_per_bucket >= 1,
                    num_elem % elements_per_bucket != 0,
            ;
            num_elem / elements_per_bucket + 1
        };
        let mut data: Vec<u64> = Vec::new();
        while data.len() < vec_size
            invariant
                data.len() <= vec_size,
                forall|k: int| 0 <= k < data.len() ==> data@[k] == 0,
            decreases vec_size - data.len(),
        {
            data.push(0);
        }
        let r = PackedVec {
            num_elem: num_elem,
            element_size_bits: element_size_bits,
            bucket_size_bits: bucket_size_bits,
            elements_per_bucket: elements_per_bucket,
            data: data,
        };
        proof {
            assert forall|i: int| 0 <= i < num_elem implies #[trigger] r.counter_at(i as nat) == 0 by {
                lemma_layout(num_elem as nat, element_size_bits as nat, i as nat);
                lemma_field_bounded(
                    0,
                    shift_of(i as nat % (elements_per_bucket as nat), element_size_bits as nat) as u64,
                    element_size_bits as u64,
                );
            }
            assert(r@ =~= Seq::new(num_elem as nat, |i: int| 0nat));
        }
        r
    }

    /// The number of counters.
    pub fn len(&self) -> (r: usize)
        ensures
            r == self@.len(),
    {
        self.num_elem
    }

    /// Adds one to counter `index`; a counter at its largest value stays there.
    pub fn increment(&mut self, index: usize)
        requires
            old(self).wf(),
            index < old(self)@.len(),
        ensures
            final(self).wf(),
            final(self).element_bits() == old(self).element_bits(),
            final(self)@ == old(self)@.update(
                index as int,
                vstd::math::min(old(self)@[index as int] + 1int, old(self).max_value() as int) as nat,
            ),
    {
        let element = self.read_element(index);
        proof {
            self.lemma_max_is_mask();
        }
        self.write_element(index, element.saturating_add(1));
    }

    /// Subtracts one from counter `index`; a counter at zero stays there.
    pub fn decrement(&mut self, index: usize)
        requires
            old(self).wf(),
            index < old(self)@.len(),
        ensures
            final(self).wf(),
            final(self).element_bits() == old(self).element_bits(),
            final(self)@ == old(self)@.update(
                index as int,
                if old(self)@[index as int] == 0 { 0 } else { (old(self)@[index as int] - 1) as nat },
            ),
    {
        let element = self.read_element(index);
        if element == 0 {
            self.write_element(index, 0);
        } else {
            self.write_element(index, element - 1);
        }
    }

    /// The value of counter `index`, or `None` where there is no such counter.
    pub fn get(&mut self, index: usize) -> (r: Option<u64>)
        requires
            old(self).wf(),
        ensures
            *final(self) == *old(self),
            r == (if index < old(self)@.len() {
                Some(old(self)@[index as int] as u64)
            } else {
                None::<u64>
            }),
    {
        if index < self.num_elem {
            Some(self.read_element(index))
        } else {
            None
        }
    }

    /// Stores `value` in counter `index`, capped to the largest value a
    /// counter holds.
    pub fn set(&mut self, index: usize, value: u64)
        requires
            old(self).wf(),
            index < old(self)@.len(),
        ensures
            final(self).wf(),
            final(self).element_bits() == old(self).element_bits(),
            final(self)@ == old(self)@.update(
                index as int,
                vstd::math::min(value as int, old(self).max_value() as int) as nat,
            ),
    {
        self.write_element(index, value);
    }

    fn cap_value_to_valid_range(value: u64, max_value: u64) -> (r: u64)
        ensures
            r == vstd::math::min(value as int, max_value as int),
    {
        if value < max_value {
            value
        } else {
            max_value
        }
    }
}

/// Storing `value` at `index` and reading it back gives `value` capped to
/// the largest counter value, and leaves every other counter as it was.
pub proof fn lemma_set_then_get(v: PackedVec, index: int, value: u64)
    requires
        v.wf(),
        0 <= index < v@.len(),
    ensures
        ({
            let after = v@.update(index, vstd::math::min(value as int, v.max_value() as int) as nat);
            &&& after[index] == vstd::math::min(value as int, v.max_value() as int)
            &&& after[index] <= v.max_value()
            &&& forall|j: int| 0 <= j < v@.len() && j != index ==> after[j] == v@[j]
        }),
{
}

proof fn lemma_layout(n: nat, bits: nat, i: nat)
    requires
        1 <= bits <= 64,
        i < n,
    ensures
        per_word(bits) >= 1,
        i / per_word(bits) < words_for(n, bits),
        bits * (i % per_word(bits) + 1) <= 64,
        shift_of(i % per_word(bits), bits) + bits <= 64,
{
    let per = per_word(bits);
    assert(per >= 1) by (nonlinear_arith)
        requires
            1 <= bits <= 64,
            per == 64nat / bits,
    ;
    vstd::arithmetic::div_mod::lemma_fundamental_div_mod(64, bits as int);
    vstd::arithmetic::div_mod::lemma_mod_bound(i as int, per as int);
    assert(bits * (i % per + 1) <= bits * per) by (nonlinear_arith)
        requires
            i % per + 1 <= per,
    ;
    assert(bits * (i % per + 1) >= bits) by (nonlinear_arith)
        requires
            bits >= 1,
            i % per + 1 >= 1,
    ;
    vstd::arithmetic::div_mod::lemma_div_is_ordered(i as int, n as int, per as int);
    if n % per == 0 {
        vstd::arithmetic::div_mod::lemma_fundamental_div_mod(n as int, per as int);
        vstd::arithmetic::div_mod::lemma_fundamental_div_mod(i as int, per as int);
        if i / per >= n / per {
            assert(per * (i / per) >= per * (n / per)) by (nonlinear_arith)
                requires
                    i / per >= n / per,
            ;
        }
    }
}

/// Two distinct counters of one word occupy disjoint fields.
proof fn lemma_other_slot(bits: nat, j: nat, i: nat)
    requires
        1 <= bits <= 64,
        j != i,
        j / per_word(bits) == i / per_word(bits),
        bits * (j % per_word(bits) + 1) <= 64,
        bits * (i % per_word(bits) + 1) <= 64,
    ensures
        shift_of(j % per_word(bits), bits) + bits <= shift_of(i % per_word(bits), bits)
            || shift_of(i % per_word(bits), bits) + bits <= shift_of(j % per_word(bits), bits),
{
    let per = per_word(bits);
    assert(per >= 1) by (nonlinear_arith)
        requires
            1 <= bits <= 64,
            per == 64nat / bits,
    ;
    vstd::arithmetic::div_mod::lemma_fundamental_div_mod(j as int, per as int);
    vstd::arithmetic::div_mod::lemma_fundamental_div_mod(i as int, per as int);
    let a = i % per;
    let b = j % per;
    assert(a != b);
    assert(bits * (a + 1) == bits * a + bits) by (nonlinear_arith);
    assert(bits * (b + 1) == bits * b + bits) by (nonlinear_arith);
    if a < b {
        assert(bits * (a + 1) <= bits * b) by (nonlinear_arith)
            requires
                a + 1 <= b,
        ;
    } else {
        assert(bits * (b + 1) <= bits * a) by (nonlinear_arith)
            requires
                b + 1 <= a,
        ;
    }
}

} // verus!
