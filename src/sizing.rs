use vstd::prelude::*;

verus! {

/// ln 2 to sixteen decimal places, as the fraction `LN2_NUMERATOR / LN2_DENOMINATOR`.
pub const LN2_NUMERATOR: u128 = 6931471805599453;

pub const LN2_DENOMINATOR: u128 = 10000000000000000;

/// Why a filter cannot be built from the parameters given.
#[derive(Debug, Clone, Copy, PartialEq, Eq, Structural)]
pub enum ConfigError {
    /// The target false-positive rate lies outside the open interval (0, 1).
    InvalidFalsePositiveRate,
    /// The expected number of items is zero.
    NoExpectedItems,
    /// The filter would have no slots.
    EmptyFilter,
    /// The filter would use no hash values per key.
    NoHashFunctions,
}

/// `num_bits * ln 2 / num_items`, rounded to the nearest integer (halves up).
pub open spec fn rounded_num_hashes(num_bits: nat, num_items: nat) -> nat {
    ((2 * num_bits * LN2_NUMERATOR + num_items * LN2_DENOMINATOR) / (2 * num_items
        * LN2_DENOMINATOR)) as nat
}

/// The number of hash values per key that minimises the false-positive rate
/// of a filter of `num_bits` slots holding `num_items` keys.
pub fn optimal_num_hashes(num_bits: usize, num_items: u64) -> (r: usize)
    requires
        num_items > 0,
    ensures
        r == rounded_num_hashes(num_bits as nat, num_items as nat),
        r <= num_bits,
{
    let b = num_bits as u128;
    let n = num_items as u128;
    assert(2 * b * LN2_NUMERATOR < 0x100_0000_0000_0000_0000_0000_0000_0000) by (nonlinear_arith)
        requires
            b < 0x1_0000_0000_0000_0000,
    ;
    assert(n * LN2_DENOMINATOR < 0x100_0000_0000_0000_0000_0000_0000_0000) by (nonlinear_arith)
        requires
            n < 0x1_0000_0000_0000_0000,
    ;
    let numerator = 2 * b * LN2_NUMERATOR + n * LN2_DENOMINATOR;
    let denominator = 2 * n * LN2_DENOMINATOR;
    let q = numerator / denominator;
    assert(q <= b) by (nonlinear_arith)
        requires
            q == numerator / denominator,
            numerator == 2 * b * LN2_NUMERATOR + n * LN2_DENOMINATOR,
            denominator == 2 * n * LN2_DENOMINATOR,
            n >= 1,
    ;
    q as usize
}

} // verus!
