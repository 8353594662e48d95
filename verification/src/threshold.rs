//! The two thresholds of the detector: speech starts at the first and may end
//! below the second.
use crate::single::{
    at_least, at_least_spec, below_spec, distance, is_nearest, lemma_exact_is_nearest,
    lemma_nearest_cancel, lemma_nearest_exists, lemma_nearest_is, lemma_nearest_of_neighbours,
    lemma_scaled_increasing, lemma_scaled_step, magnitude, nearest, nearest_quotient, rounded,
    scaled, scaled_value, INFINITY_BITS, ONE_BITS, QUOTIENT_LIMIT, SIGN_BIT, ZERO_BITS,
};
use vstd::arithmetic::power2::{
    lemma2_to64, lemma2_to64_rest, lemma_pow2_adds, lemma_pow2_pos, lemma_pow2_strictly_increases,
    lemma_pow2_unfold, pow2,
};
use vstd::prelude::*;

verus! {

/// The pattern of `0.15`, by how much the second threshold is lower.
pub const MARGIN_BITS: u32 = 0x3E19_999A;

/// `0.15` in units of 2^-50.
const MARGIN_UNITS: u64 = 0x9999_9A00_0000;

/// A threshold is a number from zero to one.
pub open spec fn valid_threshold(threshold: u32) -> bool {
    at_least_spec(threshold, ZERO_BITS) && at_least_spec(ONE_BITS, threshold)
}

/// The threshold below which speech may end: the first threshold less the
/// margin, rounded once.
pub open spec fn release(threshold: u32) -> u32 {
    rounded(scaled_value(threshold) - scaled(MARGIN_BITS as int), 1)
}

/// Tests that a number can serve as threshold.
pub fn is_valid_threshold(threshold: u32) -> (result: bool)
    ensures
        result == valid_threshold(threshold),
{
    at_least(threshold, ZERO_BITS) && at_least(ONE_BITS, threshold)
}

/// Where the margin stands among the numbers.
proof fn lemma_margin()
    ensures
        scaled(MARGIN_BITS as int) == 0x99_999A * pow2(123),
        scaled(MARGIN_BITS as int) == MARGIN_UNITS * pow2(99),
        scaled(MARGIN_BITS - 1) == scaled(MARGIN_BITS as int) - pow2(123),
{
    assert(MARGIN_BITS as int / 0x80_0000 == 124 && MARGIN_BITS as int % 0x80_0000 == 0x19_999A);
    assert((MARGIN_BITS - 1) / 0x80_0000 == 124 && (MARGIN_BITS - 1) % 0x80_0000 == 0x19_9999);
    lemma2_to64();
    lemma_pow2_adds(24, 99);
}

/// A threshold below 2^-27 is lost beside the margin.
proof fn lemma_small_threshold(mag: int)
    requires
        0 <= mag < 0x3200_0000,
    ensures
        scaled(mag) < scaled(MARGIN_BITS as int),
        is_nearest(scaled(MARGIN_BITS as int) - scaled(mag), 1, MARGIN_BITS as int),
{
    let value = scaled(mag);
    let margin = scaled(MARGIN_BITS as int);
    lemma_margin();
    lemma_scaled_increasing(mag, MARGIN_BITS as int);
    assert(scaled(0) == 0);
    if mag == 0 {
        lemma_exact_is_nearest(MARGIN_BITS as int, 1);
    } else {
        lemma_scaled_increasing(0, mag);
        lemma_scaled_increasing(mag, 0x3200_0000);
        assert(scaled(0x3200_0000) == 0x80_0000 * pow2(99));
        lemma2_to64();
        lemma_pow2_adds(23, 99);
        lemma_pow2_unfold(123);
        assert(2 * value < pow2(123));
        lemma_nearest_of_neighbours(margin - value, 1, MARGIN_BITS - 1, MARGIN_BITS as int);
    }
}

/// A threshold from 2^-27 to one is a whole number of units of 2^-50.
proof fn lemma_units(mag: int, units: int)
    requires
        0x3200_0000 <= mag <= ONE_BITS,
        units == (0x80_0000 + mag % 0x80_0000) * pow2((mag / 0x80_0000 - 100) as nat),
    ensures
        scaled(mag) == units * pow2(99),
        0 < units <= QUOTIENT_LIMIT,
{
    let exponent = mag / 0x80_0000;
    let significand = 0x80_0000 + mag % 0x80_0000;
    let shift = pow2((exponent - 100) as nat) as int;
    let base = pow2(99) as int;
    lemma_pow2_adds((exponent - 100) as nat, 99);
    lemma_pow2_pos((exponent - 100) as nat);
    lemma_pow2_pos(99);
    assert(significand * (shift * base) == (significand * shift) * base) by (nonlinear_arith);
    assert(0 < significand * shift) by (nonlinear_arith)
        requires
            0 < significand,
            0 < shift,
    ;
    if mag < ONE_BITS {
        lemma_scaled_increasing(mag, ONE_BITS as int);
    }
    lemma2_to64();
    lemma_pow2_adds(27, 99);
    assert(scaled(ONE_BITS as int) == 0x80_0000 * pow2(126));
    assert(scaled(ONE_BITS as int) == QUOTIENT_LIMIT * base) by (nonlinear_arith)
        requires
            scaled(ONE_BITS as int) == 0x80_0000 * pow2(126),
            pow2(126) == 0x800_0000 * base,
            QUOTIENT_LIMIT == 0x80_0000 * 0x800_0000,
    ;
    assert(units <= QUOTIENT_LIMIT) by (nonlinear_arith)
        requires
            units * base <= QUOTIENT_LIMIT * base,
            base > 0,
    ;
}

/// A difference counted in units of 2^-50 and rounded as a quotient is the
/// difference rounded.
proof fn lemma_difference_rounds(size: int, mag: int)
    requires
        is_nearest(size * pow2(149), QUOTIENT_LIMIT as int, mag),
    ensures
        is_nearest(size * pow2(99), 1, mag),
        nearest(size * pow2(99), 1) == mag,
{
    lemma2_to64_rest();
    lemma_pow2_adds(99, 50);
    let base = pow2(99) as int;
    assert(size * (base * QUOTIENT_LIMIT) == (size * base) * QUOTIENT_LIMIT) by (nonlinear_arith);
    lemma_nearest_cancel(size * base, 1, QUOTIENT_LIMIT as int, mag);
    lemma_nearest_is(size * base, 1, mag);
}

/// The threshold below which speech may end.
pub fn release_threshold(threshold: u32) -> (bits: u32)
    requires
        valid_threshold(threshold),
    ensures
        bits == release(threshold),
{
    let mag: u32 = if threshold < SIGN_BIT {
        threshold
    } else {
        threshold - SIGN_BIT
    };
    proof {
        lemma_margin();
        assert(scaled(0) == 0);
        assert(mag <= ONE_BITS);
        assert(scaled_value(threshold) == scaled(mag as int));
    }
    if mag < 0x3200_0000 {
        proof {
            lemma_small_threshold(mag as int);
            lemma_nearest_is(
                scaled(MARGIN_BITS as int) - scaled(mag as int),
                1,
                MARGIN_BITS as int,
            );
        }
        return SIGN_BIT + MARGIN_BITS;
    }
    let exponent: u32 = mag / 0x80_0000;
    let mut units: u64 = (0x80_0000 + mag % 0x80_0000) as u64;
    let ghost significand = units as int;
    let mut i: u32 = 100;
    proof {
        lemma2_to64();
        assert(units == significand * pow2(0));
    }
    while i < exponent
        invariant
            100 <= i <= exponent <= 127,
            0x80_0000 <= significand < 0x100_0000,
            units == significand * pow2((i - 100) as nat),
        decreases exponent - i,
    {
        proof {
            let unit = pow2((i - 100) as nat) as int;
            lemma_pow2_unfold((i + 1 - 100) as nat);
            lemma2_to64();
            lemma_pow2_strictly_increases((i - 100) as nat, 27);
            assert(significand * (2 * unit) == (significand * unit) * 2) by (nonlinear_arith);
            assert(significand * unit < 0x100_0000 * 0x800_0000) by (nonlinear_arith)
                requires
                    0 <= significand < 0x100_0000,
                    0 <= unit < 0x800_0000,
            ;
        }
        units = units * 2;
        i = i + 1;
    }
    let ghost base = pow2(99) as int;
    proof {
        lemma_units(mag as int, units as int);
        lemma_pow2_pos(99);
        assert(units * base - MARGIN_UNITS * base == (units - MARGIN_UNITS) * base)
            by (nonlinear_arith);
    }
    if units == MARGIN_UNITS {
        proof {
            lemma_exact_is_nearest(0, 1);
        }
        ZERO_BITS
    } else if units > MARGIN_UNITS {
        let size: u64 = units - MARGIN_UNITS;
        let result: u32 = nearest_quotient(size, QUOTIENT_LIMIT);
        proof {
            lemma_difference_rounds(size as int, result as int);
            assert(size * base > 0) by (nonlinear_arith)
                requires
                    size > 0,
                    base > 0,
            ;
        }
        result
    } else {
        let size: u64 = MARGIN_UNITS - units;
        let result: u32 = nearest_quotient(size, QUOTIENT_LIMIT);
        proof {
            lemma_difference_rounds(size as int, result as int);
            assert(size * base > 0) by (nonlinear_arith)
                requires
                    size > 0,
                    base > 0,
            ;
            assert((units - MARGIN_UNITS) * base == -(size * base)) by (nonlinear_arith)
                requires
                    size == MARGIN_UNITS - units,
            ;
        }
        SIGN_BIT + result
    }
}

/// The second threshold is below the first, so no number is both at or above
/// the one and below the other.
pub proof fn lemma_release_below_threshold(threshold: u32)
    requires
        valid_threshold(threshold),
    ensures
        below_spec(release(threshold), threshold),
        magnitude(release(threshold)) < INFINITY_BITS,
        forall|p: u32|
            !(at_least_spec(p, threshold) && #[trigger] below_spec(p, release(threshold))),
{
    let mag = magnitude(threshold);
    let value = scaled(mag);
    let margin = scaled(MARGIN_BITS as int);
    assert(scaled(0) == 0);
    lemma_margin();
    lemma_pow2_pos(123);
    lemma_scaled_increasing(0, MARGIN_BITS as int);
    lemma_scaled_increasing(MARGIN_BITS as int, INFINITY_BITS - 1);
    if mag > 0 {
        lemma_scaled_increasing(0, mag);
    }
    lemma_scaled_increasing(mag, INFINITY_BITS - 1);
    let gap = value - margin;
    if gap < 0 {
        lemma_nearest_exists(-gap, 1);
        if mag == 0 {
            lemma_exact_is_nearest(MARGIN_BITS as int, 1);
        }
    } else {
        lemma_nearest_exists(gap, 1);
        let r = nearest(gap, 1);
        if r >= mag {
            // The number before the threshold is nearer than the threshold.
            lemma_scaled_increasing(mag - 1, mag);
            lemma_step_below_one(mag);
            assert(distance(gap, 1, mag - 1) < distance(gap, 1, mag));
            if r > mag {
                lemma_scaled_increasing(mag, r);
            }
            assert(false);
        }
    }
}

/// Below one, neighbouring numbers are closer than the margin.
proof fn lemma_step_below_one(mag: int)
    requires
        0 < mag <= ONE_BITS,
    ensures
        scaled(mag) - scaled(mag - 1) < scaled(MARGIN_BITS as int),
{
    lemma_margin();
    lemma_scaled_step(mag - 1);
    lemma2_to64();
    lemma_pow2_pos(123);
    if mag - 1 >= 0x80_0000 {
        let e = ((mag - 1) / 0x80_0000 - 1) as nat;
        assert(e < 126);
        lemma_pow2_strictly_increases(e, 126);
        lemma_pow2_adds(3, 123);
    }
}

} // verus!
