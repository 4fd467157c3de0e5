//! How many hash rounds a filter of a given size should make.
//!
//! The best number of rounds for `m` bits and `n` expected items is `m / n * ln 2`. It is
//! computed here in integers, with ln 2 taken as the fraction `LN2_NUMERATOR /
//! LN2_DENOMINATOR`, which is ln 2 to 53 bits, and rounded to the nearest integer.

use crate::bloom::Bloom;
use vstd::arithmetic::div_mod::{lemma_div_denominator, lemma_fundamental_div_mod};
use vstd::prelude::*;

verus! {

/// The numerator of the fraction that stands for ln 2.
pub const LN2_NUMERATOR: u64 = 6243314768165359;

/// The denominator of the fraction that stands for ln 2: 2^53.
pub const LN2_DENOMINATOR: u64 = 0x20_0000_0000_0000;

/// `bits / items * ln 2` rounded to the nearest integer, halves upwards: the whole part of
/// `(2 * bits * LN2_NUMERATOR + items * LN2_DENOMINATOR) / (2 * items * LN2_DENOMINATOR)`,
/// written as two divisions.
pub open spec fn nearest_k(bits: int, items: int) -> int {
    (2 * bits * 6243314768165359 + items * 0x20_0000_0000_0000) / 0x40_0000_0000_0000 / items
}

/// The number of hash rounds for `bits` bits and `items` expected items: the nearest integer
/// to `bits / items * ln 2`, kept between 1 and `u32::MAX`.
pub open spec fn optimal_k(bits: int, items: int) -> int {
    let nearest = nearest_k(bits, items);
    if nearest < 1 {
        1
    } else if nearest > u32::MAX {
        u32::MAX as int
    } else {
        nearest
    }
}

/// `nearest_k` is the nearest integer: it lies no more than a half from `bits / items * ln 2`,
/// and where two integers are as near it is the greater. Stated without fractions, with
/// both sides multiplied by `2 * items * LN2_DENOMINATOR`.
pub proof fn lemma_nearest_k(bits: int, items: int)
    requires
        0 <= bits,
        0 < items,
    ensures
        0 <= nearest_k(bits, items),
        (2 * nearest_k(bits, items) - 1) * (items * LN2_DENOMINATOR) <= 2 * bits * LN2_NUMERATOR,
        2 * bits * LN2_NUMERATOR < (2 * nearest_k(bits, items) + 1) * (items * LN2_DENOMINATOR),
{
    let numerator = 2 * bits * 6243314768165359 + items * 0x20_0000_0000_0000;
    let scale = 0x40_0000_0000_0000int;
    let q = nearest_k(bits, items);
    lemma_div_denominator(numerator, scale, items);
    assert(q == numerator / (scale * items));
    lemma_fundamental_div_mod(numerator, scale * items);
    let r = numerator % (scale * items);
    assert(0 <= r < scale * items) by (nonlinear_arith)
        requires
            r == numerator % (scale * items),
            0 < scale * items,
    ;
    assert(scale * items > 0) by (nonlinear_arith)
        requires
            scale > 0,
            items > 0,
    ;
    assert(numerator == (scale * items) * q + r);
    assert((2 * q - 1) * (items * 0x20_0000_0000_0000) == (scale * items) * q - items
        * 0x20_0000_0000_0000) by (nonlinear_arith)
        requires
            scale == 0x40_0000_0000_0000,
    ;
    assert((2 * q + 1) * (items * 0x20_0000_0000_0000) == (scale * items) * q + items
        * 0x20_0000_0000_0000) by (nonlinear_arith)
        requires
            scale == 0x40_0000_0000_0000,
    ;
    assert(q >= 0) by (nonlinear_arith)
        requires
            (scale * items) * q + r == numerator,
            numerator >= 0,
            r < scale * items,
            scale * items > 0,
    ;
}

/// `optimal_k` is the nearest integer to `bits / items * ln 2` that lies between 1 and
/// `u32::MAX`. Stated without fractions, with both sides multiplied by `2 * items *
/// LN2_DENOMINATOR`.
pub proof fn lemma_optimal_k(bits: int, items: int)
    requires
        0 <= bits,
        0 < items,
    ensures
        1 <= optimal_k(bits, items) <= u32::MAX,
        1 < optimal_k(bits, items) ==> (2 * optimal_k(bits, items) - 1) * (items
            * LN2_DENOMINATOR) <= 2 * bits * LN2_NUMERATOR,
        optimal_k(bits, items) < u32::MAX ==> 2 * bits * LN2_NUMERATOR < (2 * optimal_k(
            bits,
            items,
        ) + 1) * (items * LN2_DENOMINATOR),
{
    let q = nearest_k(bits, items);
    let unit = items * LN2_DENOMINATOR;
    lemma_nearest_k(bits, items);
    assert(unit > 0) by (nonlinear_arith)
        requires
            unit == items * LN2_DENOMINATOR,
            items > 0,
            LN2_DENOMINATOR > 0,
    ;
    if q < 1 {
        assert((2 * q + 1) * unit <= 3 * unit) by (nonlinear_arith)
            requires
                q <= 0,
                unit > 0,
        ;
    } else if q > u32::MAX {
        assert((2 * u32::MAX - 1) * unit <= (2 * q - 1) * unit) by (nonlinear_arith)
            requires
                q > u32::MAX,
                unit > 0,
        ;
    }
}

impl Bloom {
    /// The number of hash rounds for a filter of `bitmap_bits` bits that is to hold
    /// `items_count` items.
    pub fn optimal_k_num(bitmap_bits: u64, items_count: usize) -> (k_num: u32)
        requires
            items_count > 0,
        ensures
            k_num == optimal_k(bitmap_bits as int, items_count as int),
            k_num >= 1,
            1 < k_num ==> (2 * k_num - 1) * (items_count * LN2_DENOMINATOR) <= 2 * bitmap_bits
                * LN2_NUMERATOR,
            k_num < u32::MAX ==> 2 * bitmap_bits * LN2_NUMERATOR < (2 * k_num + 1) * (items_count
                * LN2_DENOMINATOR),
    {
        proof {
            lemma_optimal_k(bitmap_bits as int, items_count as int);
        }
        let m: u128 = bitmap_bits as u128;
        let n: u128 = items_count as u128;
        let numerator: u128 = LN2_NUMERATOR as u128;
        let denominator: u128 = LN2_DENOMINATOR as u128;
        assert(m * numerator == m * 6243314768165359 && n * denominator == n
            * 0x20_0000_0000_0000) by (nonlinear_arith)
            requires
                numerator == 6243314768165359,
                denominator == 0x20_0000_0000_0000,
        ;
        let doubled: u128 = 2 * (m * numerator) + n * denominator;
        let nearest: u128 = doubled / (2 * denominator) / n;
        if nearest < 1 {
            1
        } else if nearest > u32::MAX as u128 {
            u32::MAX
        } else {
            nearest as u32
        }
    }
}

} // verus!
