//! Single-precision numbers as bit patterns.
//!
//! The model speaks IEEE 754 binary32. The library carries such a number as
//! its bit pattern, compares patterns in the order of the numbers, and rounds
//! exact quotients to the nearest representable number.
use vstd::arithmetic::div_mod::lemma_fundamental_div_mod;
use vstd::arithmetic::mul::{lemma_mul_is_commutative, lemma_mul_strict_inequality};
use vstd::arithmetic::power2::{
    lemma2_to64, lemma_pow2_adds, lemma_pow2_pos, lemma_pow2_strictly_increases, lemma_pow2_unfold,
    pow2,
};
use vstd::prelude::*;

verus! {

/// The pattern of `+0.0`.
pub const ZERO_BITS: u32 = 0;

/// The pattern of `1.0`.
pub const ONE_BITS: u32 = 0x3F80_0000;

/// The pattern of positive infinity; every finite magnitude is below it.
pub const INFINITY_BITS: u32 = 0x7F80_0000;

/// The sign bit.
pub const SIGN_BIT: u32 = 0x8000_0000;

/// The pattern with its sign bit cleared.
pub open spec fn magnitude(bits: u32) -> int {
    if bits < SIGN_BIT {
        bits as int
    } else {
        bits - SIGN_BIT
    }
}

/// Whether the pattern is not a number.
pub open spec fn is_nan(bits: u32) -> bool {
    magnitude(bits) > INFINITY_BITS
}

/// Where a number stands in the order of the reals; both zeros stand at 0.
pub open spec fn order_key(bits: u32) -> int {
    if bits < SIGN_BIT {
        magnitude(bits)
    } else {
        -magnitude(bits)
    }
}

/// `a >= b`; false when either is not a number.
pub open spec fn at_least_spec(a: u32, b: u32) -> bool {
    !is_nan(a) && !is_nan(b) && order_key(a) >= order_key(b)
}

/// `a < b`; false when either is not a number.
pub open spec fn below_spec(a: u32, b: u32) -> bool {
    !is_nan(a) && !is_nan(b) && order_key(a) < order_key(b)
}

/// The number of a finite magnitude, counted in units of 2^-149, the smallest
/// positive number of the format: an eight bit exponent field above a
/// twenty-three bit fraction, with a leading one where the field is not zero.
pub open spec fn scaled(mag: int) -> int {
    let exponent = mag / 0x80_0000;
    let fraction = mag % 0x80_0000;
    if exponent == 0 {
        fraction
    } else {
        (0x80_0000 + fraction) * pow2((exponent - 1) as nat)
    }
}

/// The number of a finite pattern with its sign, in units of 2^-149.
pub open spec fn scaled_value(bits: u32) -> int {
    if bits < SIGN_BIT {
        scaled(magnitude(bits))
    } else {
        -scaled(magnitude(bits))
    }
}

/// The distance from magnitude `mag` to `num / den`, counted in units of
/// 2^-149 and multiplied by `den`.
pub open spec fn distance(num: int, den: int, mag: int) -> int {
    let gap = scaled(mag) * den - num;
    if gap < 0 {
        -gap
    } else {
        gap
    }
}

/// Whether `mag` is the finite magnitude nearest to `num / den` units of
/// 2^-149, the one with the even fraction where two are equally near.
pub open spec fn is_nearest(num: int, den: int, mag: int) -> bool {
    &&& 0 <= mag < INFINITY_BITS
    &&& forall|other: int|
        0 <= other < INFINITY_BITS && other != mag ==> {
            ||| distance(num, den, mag) < #[trigger] distance(num, den, other)
            ||| distance(num, den, mag) == distance(num, den, other) && mag % 2 == 0
        }
}

/// The pattern of the number nearest to `num / den` units of 2^-149, with the
/// sign of `num`; ties go to the even fraction.
pub open spec fn rounded(num: int, den: int) -> u32 {
    if num < 0 {
        (SIGN_BIT + nearest(-num, den)) as u32
    } else {
        nearest(num, den) as u32
    }
}

/// The magnitude nearest to `num / den` units of 2^-149.
pub open spec fn nearest(num: int, den: int) -> int {
    choose|mag: int| is_nearest(num, den, mag)
}

/// One step up in magnitude adds the spacing of the binade.
pub proof fn lemma_scaled_step(mag: int)
    requires
        0 <= mag,
    ensures
        mag < 0x80_0000 ==> scaled(mag + 1) == scaled(mag) + 1,
        mag >= 0x80_0000 ==> scaled(mag + 1) == scaled(mag) + pow2((mag / 0x80_0000 - 1) as nat),
        scaled(mag) < scaled(mag + 1),
{
    let exponent = mag / 0x80_0000;
    let fraction = mag % 0x80_0000;
    let unit = pow2((exponent - 1) as nat) as int;
    lemma2_to64();
    if exponent == 0 {
        if fraction + 1 == 0x80_0000 {
            assert((mag + 1) / 0x80_0000 == 1 && (mag + 1) % 0x80_0000 == 0);
            assert(scaled(mag + 1) == 0x80_0000 * pow2(0));
        } else {
            assert((mag + 1) / 0x80_0000 == 0 && (mag + 1) % 0x80_0000 == fraction + 1);
        }
    } else {
        lemma_pow2_pos((exponent - 1) as nat);
        if fraction + 1 == 0x80_0000 {
            assert((mag + 1) / 0x80_0000 == exponent + 1 && (mag + 1) % 0x80_0000 == 0);
            lemma_pow2_unfold(exponent as nat);
            assert(0x80_0000 * (2 * unit) == (0x80_0000 + fraction) * unit + unit)
                by (nonlinear_arith)
                requires
                    fraction == 0x7F_FFFF,
            ;
        } else {
            assert((mag + 1) / 0x80_0000 == exponent && (mag + 1) % 0x80_0000 == fraction + 1);
            assert((0x80_0000 + (fraction + 1)) * unit == (0x80_0000 + fraction) * unit + unit)
                by (nonlinear_arith);
        }
    }
}

/// A larger magnitude is a larger number.
pub proof fn lemma_scaled_increasing(a: int, b: int)
    requires
        0 <= a < b,
    ensures
        scaled(a) < scaled(b),
    decreases b - a,
{
    lemma_scaled_step(b - 1);
    if a < b - 1 {
        lemma_scaled_increasing(a, b - 1);
    }
}

/// Comparing patterns by `order_key` compares the numbers they stand for.
pub proof fn lemma_order_is_value_order(a: u32, b: u32)
    requires
        magnitude(a) < INFINITY_BITS,
        magnitude(b) < INFINITY_BITS,
    ensures
        at_least_spec(a, b) == (scaled_value(a) >= scaled_value(b)),
        below_spec(a, b) == (scaled_value(a) < scaled_value(b)),
{
    let (x, y) = (magnitude(a), magnitude(b));
    assert(scaled(0) == 0);
    if 0 < x {
        lemma_scaled_increasing(0, x);
    }
    if 0 < y {
        lemma_scaled_increasing(0, y);
    }
    if x < y {
        lemma_scaled_increasing(x, y);
    } else if y < x {
        lemma_scaled_increasing(y, x);
    }
}

/// Of two neighbouring magnitudes around `num / den`, the closer one is the
/// nearest of all; halfway between, the even one is.
pub proof fn lemma_nearest_of_neighbours(num: int, den: int, low: int, mag: int)
    requires
        den > 0,
        0 <= low,
        low + 1 < INFINITY_BITS,
        scaled(low) * den <= num < scaled(low + 1) * den,
        mag == low || mag == low + 1,
        mag == low ==> {
            ||| num - scaled(low) * den < scaled(low + 1) * den - num
            ||| num - scaled(low) * den == scaled(low + 1) * den - num && low % 2 == 0
        },
        mag == low + 1 ==> {
            ||| scaled(low + 1) * den - num < num - scaled(low) * den
            ||| scaled(low + 1) * den - num == num - scaled(low) * den && low % 2 == 1
        },
    ensures
        is_nearest(num, den, mag),
{
    assert forall|other: int| 0 <= other < INFINITY_BITS && other != mag implies {
        ||| distance(num, den, mag) < #[trigger] distance(num, den, other)
        ||| distance(num, den, mag) == distance(num, den, other) && mag % 2 == 0
    } by {
        if other < low {
            lemma_scaled_increasing(other, low);
            lemma_mul_strict_inequality(scaled(other), scaled(low), den);
        } else if other > low + 1 {
            lemma_scaled_increasing(low + 1, other);
            lemma_mul_strict_inequality(scaled(low + 1), scaled(other), den);
        }
    }
}

/// At most one magnitude is nearest.
pub proof fn lemma_nearest_unique(num: int, den: int, a: int, b: int)
    requires
        den > 0,
        is_nearest(num, den, a),
        is_nearest(num, den, b),
    ensures
        a == b,
{
    if a != b {
        let low = if a < b { a } else { b };
        let high = if a < b { b } else { a };
        assert(distance(num, den, a) == distance(num, den, b));
        assert(low % 2 == 0 && high % 2 == 0);
        lemma_scaled_increasing(low, low + 1);
        lemma_scaled_increasing(low + 1, high);
        lemma_mul_strict_inequality(scaled(low), scaled(low + 1), den);
        lemma_mul_strict_inequality(scaled(low + 1), scaled(high), den);
        assert(distance(num, den, low + 1) < distance(num, den, low));
    }
}

/// Some magnitude below `high` is the last one at or below `num / den`.
proof fn lemma_floor_exists(num: int, den: int, high: int) -> (low: int)
    requires
        den > 0,
        0 <= num < scaled(high) * den,
        0 <= high,
    ensures
        0 <= low < high,
        scaled(low) * den <= num < scaled(low + 1) * den,
    decreases high,
{
    assert(scaled(0) == 0);
    assert(0 * den == 0);
    if num < scaled(high - 1) * den {
        lemma_floor_exists(num, den, high - 1)
    } else {
        high - 1
    }
}

/// Every quotient in the range of the finite numbers has a nearest magnitude.
pub proof fn lemma_nearest_exists(num: int, den: int)
    requires
        den > 0,
        0 <= num < scaled(INFINITY_BITS - 1) * den,
    ensures
        is_nearest(num, den, nearest(num, den)),
{
    let low = lemma_floor_exists(num, den, INFINITY_BITS - 1);
    let under = num - scaled(low) * den;
    let over = scaled(low + 1) * den - num;
    let mag = if under < over || (under == over && low % 2 == 0) {
        low
    } else {
        low + 1
    };
    lemma_nearest_of_neighbours(num, den, low, mag);
}

/// A common factor of numerator and denominator does not change the rounding.
pub proof fn lemma_nearest_cancel(num: int, den: int, factor: int, mag: int)
    requires
        factor > 0,
        is_nearest(num * factor, den * factor, mag),
    ensures
        is_nearest(num, den, mag),
{
    assert forall|other: int| 0 <= other < INFINITY_BITS && other != mag implies {
        ||| distance(num, den, mag) < #[trigger] distance(num, den, other)
        ||| distance(num, den, mag) == distance(num, den, other) && mag % 2 == 0
    } by {
        lemma_distance_scales(num, den, factor, mag);
        lemma_distance_scales(num, den, factor, other);
        let (x, y) = (distance(num, den, mag), distance(num, den, other));
        assert(x * factor < y * factor ==> x < y) by (nonlinear_arith)
            requires
                factor > 0,
        ;
        assert(x * factor == y * factor ==> x == y) by (nonlinear_arith)
            requires
                factor > 0,
        ;
    }
}

proof fn lemma_distance_scales(num: int, den: int, factor: int, mag: int)
    requires
        factor > 0,
    ensures
        distance(num * factor, den * factor, mag) == distance(num, den, mag) * factor,
{
    let gap = scaled(mag) * den - num;
    assert(scaled(mag) * (den * factor) == (scaled(mag) * den) * factor) by (nonlinear_arith);
    assert((scaled(mag) * den) * factor - num * factor == gap * factor) by (nonlinear_arith)
        requires
            gap == scaled(mag) * den - num,
    ;
    assert(gap < 0 ==> gap * factor < 0) by (nonlinear_arith)
        requires
            factor > 0,
    ;
    assert(gap >= 0 ==> gap * factor >= 0) by (nonlinear_arith)
        requires
            factor > 0,
    ;
    assert((-gap) * factor == -(gap * factor)) by (nonlinear_arith);
}

/// Rounding keeps the order.
pub proof fn lemma_nearest_monotone(a: int, b: int, den: int)
    requires
        den > 0,
        0 <= a <= b < scaled(INFINITY_BITS - 1) * den,
    ensures
        nearest(a, den) <= nearest(b, den),
{
    lemma_nearest_exists(a, den);
    lemma_nearest_exists(b, den);
    let (x, y) = (nearest(a, den), nearest(b, den));
    if x > y {
        lemma_scaled_increasing(y, x);
        lemma_mul_strict_inequality(scaled(y), scaled(x), den);
        assert(distance(a, den, x) <= distance(a, den, y));
        assert(distance(b, den, y) <= distance(b, den, x));
        assert(a == b);
    }
}

/// A representable number rounds to itself.
pub proof fn lemma_exact_is_nearest(mag: int, den: int)
    requires
        den > 0,
        0 <= mag < INFINITY_BITS,
    ensures
        is_nearest(scaled(mag) * den, den, mag),
        nearest(scaled(mag) * den, den) == mag,
{
    assert forall|other: int| 0 <= other < INFINITY_BITS && other != mag implies distance(
        scaled(mag) * den,
        den,
        mag,
    ) < #[trigger] distance(scaled(mag) * den, den, other) by {
        if other < mag {
            lemma_scaled_increasing(other, mag);
            lemma_mul_strict_inequality(scaled(other), scaled(mag), den);
        } else {
            lemma_scaled_increasing(mag, other);
            lemma_mul_strict_inequality(scaled(mag), scaled(other), den);
        }
    }
    lemma_nearest_is(scaled(mag) * den, den, mag);
}

/// A magnitude known to be nearest is the one that `nearest` names.
pub proof fn lemma_nearest_is(num: int, den: int, mag: int)
    requires
        den > 0,
        is_nearest(num, den, mag),
    ensures
        nearest(num, den) == mag,
{
    lemma_nearest_unique(num, den, nearest(num, den), mag);
}

/// Compares two numbers: `a >= b`.
pub fn at_least(a: u32, b: u32) -> (result: bool)
    ensures
        result == at_least_spec(a, b),
{
    !is_not_a_number(a) && !is_not_a_number(b) && key(a) >= key(b)
}

/// Compares two numbers: `a < b`.
pub fn below(a: u32, b: u32) -> (result: bool)
    ensures
        result == below_spec(a, b),
{
    !is_not_a_number(a) && !is_not_a_number(b) && key(a) < key(b)
}

fn is_not_a_number(bits: u32) -> (result: bool)
    ensures
        result == is_nan(bits),
{
    let mag: u32 = if bits < SIGN_BIT { bits } else { bits - SIGN_BIT };
    mag > INFINITY_BITS
}

fn key(bits: u32) -> (result: i64)
    ensures
        result == order_key(bits),
{
    if bits < SIGN_BIT {
        bits as i64
    } else {
        -((bits - SIGN_BIT) as i64)
    }
}

/// The largest numerator or denominator that `nearest_quotient` takes: 2^50.
pub const QUOTIENT_LIMIT: u64 = 0x4_0000_0000_0000;

/// A power of two below another has the smaller exponent.
proof fn lemma_pow2_exponent_below(e: nat, limit: nat)
    requires
        pow2(e) < pow2(limit),
    ensures
        e < limit,
{
    if e > limit {
        lemma_pow2_strictly_increases(limit, e);
    }
}

/// The magnitude with exponent field `150 + e` and significand `q` stands for
/// `q * 2^e`.
proof fn lemma_scaled_of_significand(q: int, e: int)
    requires
        0x80_0000 <= q < 0x100_0000,
        -149 <= e,
    ensures
        scaled((150 + e) * 0x80_0000 + (q - 0x80_0000)) == q * pow2((149 + e) as nat),
{
    let mag = (150 + e) * 0x80_0000 + (q - 0x80_0000);
    assert(mag / 0x80_0000 == 150 + e && mag % 0x80_0000 == q - 0x80_0000);
}

/// Relates a division step to the numbers that it stands for.
proof fn lemma_quotient_bracket(n: int, d: int, q: int, rest: int, up: nat, down: nat)
    requires
        down <= 149,
        n * pow2(down) == q * (d * pow2(up)) + rest,
    ensures
        n * pow2(149) == (q * pow2((149 + up - down) as nat)) * d + rest * pow2(
            (149 - down) as nat,
        ),
        pow2((149 + up - down) as nat) * d == (d * pow2(up)) * pow2((149 - down) as nat),
{
    let p = pow2((149 - down) as nat) as int;
    let u = pow2(up) as int;
    let w = pow2(down) as int;
    lemma_pow2_adds(down, (149 - down) as nat);
    lemma_pow2_adds(up, (149 - down) as nat);
    assert((149 - down) as nat + up == (149 + up - down) as nat);
    let x = q * (d * u);
    assert(n * (w * p) == (n * w) * p) by (nonlinear_arith);
    assert((x + rest) * p == x * p + rest * p) by (nonlinear_arith);
    assert((q * (d * u)) * p == (q * (u * p)) * d) by (nonlinear_arith);
    assert((u * p) * d == (d * u) * p) by (nonlinear_arith);
}

/// Rounds the positive quotient `n / d` to the nearest magnitude.
pub fn nearest_quotient(n: u64, d: u64) -> (mag: u32)
    requires
        0 < n <= QUOTIENT_LIMIT,
        0 < d <= QUOTIENT_LIMIT,
    ensures
        is_nearest(n * pow2(149), d as int, mag as int),
{
    let mut num: u128 = n as u128;
    let mut den: u128 = d as u128;
    let mut up: u32 = 0;
    let mut down: u32 = 0;
    proof {
        lemma2_to64();
    }
    // Bring the quotient below 2^24.
    while num >= den * 0x100_0000
        invariant
            num == n,
            0 < n <= QUOTIENT_LIMIT,
            0 < d <= QUOTIENT_LIMIT,
            den == d * pow2(up as nat),
            pow2(up as nat) <= den <= QUOTIENT_LIMIT,
            0 < den,
            up <= 27,
        decreases 28 - up,
    {
        proof {
            let unit = pow2(up as nat) as int;
            lemma2_to64();
            lemma_pow2_unfold((up + 1) as nat);
            lemma_pow2_exponent_below(up as nat, 27);
            assert(d * (2 * unit) == (d * unit) * 2) by (nonlinear_arith);
        }
        den = den * 2;
        up = up + 1;
    }
    // Bring it up to at least 2^23.
    while num < den * 0x80_0000
        invariant
            0 < n <= QUOTIENT_LIMIT,
            num == n * pow2(down as nat),
            pow2(down as nat) <= num,
            0 < num < den * 0x100_0000,
            0 < den <= QUOTIENT_LIMIT,
            down <= 75,
        decreases 76 - down,
    {
        proof {
            let unit = pow2(down as nat) as int;
            lemma2_to64();
            lemma_pow2_unfold((down + 1) as nat);
            lemma_pow2_adds(64, 10);
            lemma_pow2_exponent_below(down as nat, 74);
            assert(n * (2 * unit) == (n * unit) * 2) by (nonlinear_arith);
        }
        num = num * 2;
        down = down + 1;
    }
    let quotient: u128 = num / den;
    let rest: u128 = num % den;
    proof {
        let (a, b, q) = (num as int, den as int, quotient as int);
        lemma_fundamental_div_mod(a, b);
        assert(0x80_0000 <= q) by (nonlinear_arith)
            requires
                a == b * q + rest,
                0 <= rest < b,
                b * 0x80_0000 <= a,
        ;
        assert(q < 0x100_0000) by (nonlinear_arith)
            requires
                a == b * q + rest,
                0 <= rest < b,
                a < b * 0x100_0000,
        ;
    }
    let low: u32 = (150 + up - down) * 0x80_0000 + (quotient as u32 - 0x80_0000);
    let mag: u32 = if rest * 2 > den || (rest * 2 == den && low % 2 == 1) {
        low + 1
    } else {
        low
    };
    proof {
        let (q, r, e) = (quotient as int, rest as int, up - down);
        let part = pow2((149 - down) as nat) as int;
        let unit = pow2((149 + up - down) as nat) as int;
        lemma_pow2_pos((149 - down) as nat);
        lemma_mul_is_commutative(q, den as int);
        lemma_quotient_bracket(n as int, d as int, q, r, up as nat, down as nat);
        lemma_scaled_of_significand(q, e);
        lemma_scaled_step(low as int);
        assert(low as int / 0x80_0000 == 150 + e);
        let target = n * pow2(149);
        let floor = scaled(low as int) * d;
        assert(floor == (q * unit) * d);
        assert(scaled(low + 1) * d == floor + unit * d) by (nonlinear_arith)
            requires
                scaled(low + 1) == q * unit + unit,
                floor == (q * unit) * d,
        ;
        assert(target == floor + r * part);
        assert(scaled(low + 1) * d == floor + den * part);
        assert(0 <= r * part < den * part) by (nonlinear_arith)
            requires
                0 <= r < den,
                part > 0,
        ;
        assert(r * 2 > den ==> (r * part) * 2 > den * part) by (nonlinear_arith)
            requires
                part > 0,
        ;
        assert(r * 2 == den ==> (r * part) * 2 == den * part) by (nonlinear_arith);
        assert(r * 2 < den ==> (r * part) * 2 < den * part) by (nonlinear_arith)
            requires
                part > 0,
        ;
        lemma_nearest_of_neighbours(target, d as int, low as int, mag as int);
    }
    mag
}

} // verus!
