//! Double-precision numbers as bit patterns: rounding to such a number, and the
//! whole number nearest to a part of a whole.
use vstd::arithmetic::div_mod::{
    lemma_div_denominator, lemma_div_is_ordered, lemma_div_multiples_vanish,
    lemma_fundamental_div_mod, lemma_fundamental_div_mod_converse,
};
use vstd::arithmetic::power2::{
    lemma2_to64, lemma2_to64_rest, lemma_pow2_adds, lemma_pow2_pos, lemma_pow2_strictly_increases,
    lemma_pow2_unfold, pow2,
};
use vstd::prelude::*;

verus! {

/// The pattern of `1.0`.
pub const ONE_BITS: u64 = 0x3FF0_0000_0000_0000;

/// The pattern of positive infinity. The patterns below it are those of the
/// finite numbers without a sign; those above it belong to negative numbers and
/// to what is not a number.
pub const INFINITY_BITS: u64 = 0x7FF0_0000_0000_0000;

/// The sign bit.
pub const SIGN_BIT: u64 = 0x8000_0000_0000_0000;

/// From here on whole numbers need more than the fifty-three bits of a
/// fraction.
pub const EXACT_LIMIT: u64 = 0x20_0000_0000_0000;

/// How far apart the representable numbers around a whole number are: those
/// below `EXACT_LIMIT` units are all representable, and twice as far up every
/// second one is.
pub open spec fn spacing(x: nat) -> nat
    decreases x,
{
    if x < EXACT_LIMIT {
        1
    } else {
        2 * spacing(x / 2)
    }
}

/// The multiple of `unit` nearest to `x`, the even multiple of two.
pub open spec fn nearest_multiple(x: nat, unit: nat) -> nat {
    let below = x / unit;
    let rest = x % unit;
    if 2 * rest < unit || (2 * rest == unit && below % 2 == 0) {
        below * unit
    } else {
        (below + 1) * unit
    }
}

/// A whole number of units, rounded to a representable one: the nearest, the
/// one with the even fraction where two are equally near. The range of the
/// exponent is not limited above.
pub open spec fn representable(x: nat) -> nat {
    nearest_multiple(x, spacing(x))
}

/// The number of a finite pattern without its sign, counted in units of
/// 2^-1074, the smallest positive number of the format: an eleven bit exponent
/// field above a fifty-two bit fraction, with a leading one where the field is
/// not zero.
pub open spec fn scaled(mag: int) -> nat {
    let exponent = mag / 0x10_0000_0000_0000;
    let fraction = mag % 0x10_0000_0000_0000;
    if exponent == 0 {
        fraction as nat
    } else {
        ((0x10_0000_0000_0000 + fraction) * pow2((exponent - 1) as nat)) as nat
    }
}

/// Whether a pattern is that of a finite number.
pub open spec fn is_finite(bits: u64) -> bool {
    bits < INFINITY_BITS || SIGN_BIT <= bits < SIGN_BIT + INFINITY_BITS
}

/// The number of a finite pattern with its sign, in units of 2^-1074.
pub open spec fn scaled_value(bits: u64) -> int {
    if bits < SIGN_BIT {
        scaled(bits as int) as int
    } else {
        -scaled(bits - SIGN_BIT)
    }
}

/// A count of units of 2^-1074 in whole numbers, halves rounded up.
pub open spec fn whole(units: nat) -> nat {
    (units + pow2(1073)) / pow2(1074)
}

/// The whole number nearest to a fraction of `last`, but at most `last`. Both
/// `last` and the product are rounded to a double-precision number on the way.
/// What is negative, and what is not a number, gives zero; a product past every
/// finite number gives `last`.
pub open spec fn part_of(last: nat, fraction: u64) -> nat {
    if fraction > INFINITY_BITS {
        0
    } else if fraction == INFINITY_BITS {
        last
    } else {
        let nearest = whole(representable(representable(last) * scaled(fraction as int)));
        if nearest < last {
            nearest
        } else {
            last
        }
    }
}

/// The spacing is a power of two that leaves fifty-three bits.
pub proof fn lemma_spacing(x: nat)
    ensures
        1 <= spacing(x),
        x < EXACT_LIMIT * spacing(x),
        spacing(x) > 1 ==> 0x10_0000_0000_0000 * spacing(x) <= x,
    decreases x,
{
    if x >= EXACT_LIMIT {
        lemma_spacing(x / 2);
    }
}

/// Further up the spacing is the same or at least twice as large.
proof fn lemma_spacing_grows(x: nat, y: nat)
    requires
        x <= y,
    ensures
        spacing(x) == spacing(y) || 2 * spacing(x) <= spacing(y),
    decreases y,
{
    lemma_spacing(y);
    if x >= EXACT_LIMIT {
        lemma_spacing_grows(x / 2, y / 2);
    } else if y >= EXACT_LIMIT {
        lemma_spacing(y / 2);
    }
}

/// Twice the number is rounded to twice the result.
proof fn lemma_representable_double(x: nat)
    ensures
        representable(2 * x) == 2 * representable(x),
{
    let unit = spacing(x);
    lemma_spacing(x);
    if 2 * x >= EXACT_LIMIT {
        assert((2 * x) / 2 == x);
        assert(spacing(2 * x) == 2 * unit);
        let (q, r) = (x / unit, x % unit);
        lemma_fundamental_div_mod(x as int, unit as int);
        assert(2 * x == q * (2 * unit) + 2 * r) by (nonlinear_arith)
            requires
                x == unit * q + r,
        ;
        lemma_fundamental_div_mod_converse(
            (2 * x) as int,
            (2 * unit) as int,
            q as int,
            (2 * r) as int,
        );
        assert(q * (2 * unit) == 2 * (q * unit)) by (nonlinear_arith);
        assert((q + 1) * (2 * unit) == 2 * ((q + 1) * unit)) by (nonlinear_arith);
    }
}

/// A power of two can be taken out before rounding.
pub proof fn lemma_representable_shift(x: nat, s: nat)
    ensures
        representable((x * pow2(s)) as nat) == representable(x) * pow2(s),
    decreases s,
{
    lemma_pow2_pos(s);
    if s == 0 {
        lemma2_to64();
    } else {
        let t = (s - 1) as nat;
        lemma_pow2_unfold(s);
        lemma_representable_shift(x, t);
        lemma_representable_double((x * pow2(t)) as nat);
        let (p, r) = (pow2(t) as int, representable(x));
        assert(x * (2 * p) == 2 * (x * p)) by (nonlinear_arith);
        assert(r * (2 * p) == 2 * (r * p)) by (nonlinear_arith);
    }
}

/// Rounding at most doubles, and keeps what is small.
pub proof fn lemma_representable_bound(x: nat)
    ensures
        representable(x) <= 2 * x,
        x <= EXACT_LIMIT ==> representable(x) == x,
{
    lemma_spacing(x);
    let unit = spacing(x);
    let (q, r) = (x / unit, x % unit);
    lemma_fundamental_div_mod(x as int, unit as int);
    if unit == 1 {
        assert(x == q && r == 0);
    } else {
        assert(q >= 1) by (nonlinear_arith)
            requires
                x == unit * q + r,
                r < unit <= x,
        ;
        assert((q + 1) * unit <= 2 * x && q * unit <= x) by (nonlinear_arith)
            requires
                x == unit * q + r,
                q >= 1,
                r >= 0,
                unit >= 1,
        ;
        if x == EXACT_LIMIT {
            assert(spacing(x / 2) == 1);
            assert(x % 2 == 0);
        }
    }
}

/// A larger number is rounded to no smaller one.
pub proof fn lemma_representable_monotone(x: nat, y: nat)
    requires
        x <= y,
    ensures
        representable(x) <= representable(y),
{
    lemma_spacing(x);
    lemma_spacing(y);
    lemma_spacing_grows(x, y);
    let (u, v) = (spacing(x), spacing(y));
    let (q, r) = (x / u, x % u);
    let (p, s) = (y / v, y % v);
    lemma_fundamental_div_mod(x as int, u as int);
    lemma_fundamental_div_mod(y as int, v as int);
    if u == v {
        lemma_div_is_ordered(x as int, y as int, u as int);
        if q < p {
            assert((q + 1) * u <= p * u <= (p + 1) * u && q * u <= (q + 1) * u) by (nonlinear_arith)
                requires
                    q < p,
            ;
        } else {
            assert(r <= s);
            assert(q * u <= (q + 1) * u) by (nonlinear_arith);
        }
    } else {
        let half = 0x10_0000_0000_0000nat;
        assert(q < EXACT_LIMIT) by (nonlinear_arith)
            requires
                x == u * q + r,
                x < EXACT_LIMIT * u,
                r >= 0,
                u >= 1,
        ;
        assert(p >= half) by (nonlinear_arith)
            requires
                y == v * p + s,
                half * v <= y,
                s < v,
        ;
        assert((q + 1) * u <= EXACT_LIMIT * u && q * u <= (q + 1) * u) by (nonlinear_arith)
            requires
                q < EXACT_LIMIT,
        ;
        assert(EXACT_LIMIT * u <= half * v);
        assert(half * v <= p * v <= (p + 1) * v) by (nonlinear_arith)
            requires
                p >= half,
        ;
    }
}

/// What is representable is kept by rounding.
pub proof fn lemma_representable_kept(x: nat)
    ensures
        representable(representable(x)) == representable(x),
{
    lemma_spacing(x);
    let unit = spacing(x);
    let (q, r) = (x / unit, x % unit);
    lemma_fundamental_div_mod(x as int, unit as int);
    assert(q < EXACT_LIMIT) by (nonlinear_arith)
        requires
            x == unit * q + r,
            x < EXACT_LIMIT * unit,
            r >= 0,
            unit >= 1,
    ;
    let k = if 2 * r < unit || (2 * r == unit && q % 2 == 0) {
        q
    } else {
        q + 1
    };
    let e = lemma_spacing_power(x);
    lemma_representable_shift(k, e);
    lemma_representable_bound(k);
}

/// The spacing is a power of two.
pub proof fn lemma_spacing_power(x: nat) -> (e: nat)
    ensures
        spacing(x) == pow2(e),
    decreases x,
{
    if x < EXACT_LIMIT {
        lemma2_to64();
        0
    } else {
        let e = lemma_spacing_power(x / 2);
        lemma_pow2_unfold(e + 1);
        e + 1
    }
}

/// Rounds a whole number of units to a representable one.
fn round(x: u128) -> (rounded: u128)
    requires
        x < 0x4000_0000_0000_0000_0000_0000_0000_0000,
    ensures
        rounded == representable(x as nat),
{
    let mut unit: u128 = 1;
    let mut top: u128 = x;
    while top >= EXACT_LIMIT as u128
        invariant
            x < 0x4000_0000_0000_0000_0000_0000_0000_0000,
            1 <= unit,
            unit == 1 || unit <= x,
            unit * top <= x,
            spacing(x as nat) == unit * spacing(top as nat),
        decreases top,
    {
        let half: u128 = top / 2;
        proof {
            let (u, t, h) = (unit as int, top as int, half as int);
            let s = spacing(half as nat);
            assert(2 * u <= x) by (nonlinear_arith)
                requires
                    u * t <= x,
                    2 <= t,
                    1 <= u,
            ;
            assert((2 * u) * h <= u * t) by (nonlinear_arith)
                requires
                    2 * h <= t,
                    1 <= u,
            ;
            assert(u * (2 * s) == (2 * u) * s) by (nonlinear_arith);
        }
        unit = unit * 2;
        top = half;
    }
    assert(spacing(top as nat) == 1);
    let below: u128 = x / unit;
    let rest: u128 = x % unit;
    proof {
        let (q, u, r) = (below as int, unit as int, rest as int);
        lemma_fundamental_div_mod(x as int, u);
        assert(q * u <= x && (q + 1) * u <= 2 * x + 1) by (nonlinear_arith)
            requires
                x == u * q + r,
                0 <= r < u,
                u <= x || u == 1,
                0 <= q,
        ;
    }
    if rest < unit - rest || (rest == unit - rest && below % 2 == 0) {
        below * unit
    } else {
        (below + 1) * unit
    }
}

/// Counts of units in whole numbers grow with the count.
proof fn lemma_whole_monotone(x: nat, y: nat)
    requires
        x <= y,
    ensures
        whole(x) <= whole(y),
{
    lemma_pow2_pos(1074);
    lemma_div_is_ordered((x + pow2(1073)) as int, (y + pow2(1073)) as int, pow2(1074) as int);
}

/// A count of units that is a multiple of one is that whole number.
proof fn lemma_whole_of(x: nat)
    ensures
        whole((x * pow2(1074)) as nat) == x,
{
    lemma_pow2_pos(1073);
    lemma_pow2_unfold(1074);
    let one = pow2(1074) as int;
    lemma_fundamental_div_mod_converse(
        x * one + pow2(1073),
        one,
        x as int,
        pow2(1073) as int,
    );
}

/// A count of units above a power of two, in whole numbers.
proof fn lemma_whole_shifted(r: nat, s: nat)
    requires
        s < 1074,
    ensures
        whole((r * pow2(s)) as nat) == (r + pow2((1073 - s) as nat)) / pow2((1074 - s) as nat),
{
    let t = (1074 - s) as nat;
    let h = (1073 - s) as nat;
    lemma_pow2_adds(s, t);
    lemma_pow2_adds(s, h);
    lemma_pow2_pos(s);
    lemma_pow2_pos(t);
    let (p, a, b) = (pow2(s) as int, pow2(h) as int, pow2(t) as int);
    assert(r * p + p * a == p * (r + a)) by (nonlinear_arith);
    lemma_div_denominator(p * (r + a), p, b);
    lemma_div_multiples_vanish(r + a, p);
}

/// The power of two with a small exponent.
fn power(exponent: u64) -> (value: u128)
    requires
        exponent <= 120,
    ensures
        value == pow2(exponent as nat),
        1 <= value,
{
    let mut value: u128 = 1;
    let mut i: u64 = 0;
    proof {
        lemma2_to64();
        lemma_power_limit();
        lemma_pow2_strictly_increases(0, 120);
        lemma_pow2_pos(exponent as nat);
    }
    while i < exponent
        invariant
            i <= exponent <= 120,
            value == pow2(i as nat),
            value <= pow2(120) == 0x0100_0000_0000_0000_0000_0000_0000_0000,
        decreases exponent - i,
    {
        proof {
            lemma_pow2_unfold((i + 1) as nat);
            if i + 1 < 120 {
                lemma_pow2_strictly_increases((i + 1) as nat, 120);
            }
        }
        value = value * 2;
        i = i + 1;
    }
    value
}

/// The largest of these powers.
proof fn lemma_power_limit()
    ensures
        pow2(120) == 0x0100_0000_0000_0000_0000_0000_0000_0000,
{
    lemma2_to64_rest();
    lemma_pow2_adds(60, 60);
    assert(0x1000_0000_0000_0000 * 0x1000_0000_0000_0000
        == 0x0100_0000_0000_0000_0000_0000_0000_0000) by (nonlinear_arith);
}

/// Divides by a power of two and rounds to a whole number, halves up.
fn scale_down(product: u128, places: u64) -> (value: u128)
    requires
        product < 0x0100_0000_0000_0000_0000_0000_0000_0000,
        1 <= places <= 1074,
    ensures
        value == (product as nat + pow2((places - 1) as nat)) / pow2(places as nat),
{
    proof {
        lemma_power_limit();
        lemma_pow2_unfold(places as nat);
    }
    if places > 120 {
        proof {
            let half = (places - 1) as nat;
            if half > 120 {
                lemma_pow2_strictly_increases(120, half);
            }
            lemma_fundamental_div_mod_converse(
                product + pow2(half),
                pow2(places as nat) as int,
                0,
                product + pow2(half),
            );
        }
        return 0;
    }
    let half: u128 = power(places - 1);
    proof {
        lemma_pow2_strictly_increases((places - 1) as nat, 120);
    }
    (product + half) / (2 * half)
}

/// Multiplies by a power of two, but stops at a limit.
fn scale_up(product: u128, places: u64, limit: u64) -> (value: u128)
    ensures
        value < limit ==> value == product * pow2(places as nat),
        value >= limit ==> product * pow2(places as nat) >= limit,
{
    let mut value: u128 = product;
    let mut i: u64 = 0;
    proof {
        lemma2_to64();
    }
    while i < places && value < limit as u128
        invariant
            i <= places,
            value == product * pow2(i as nat),
        decreases places - i,
    {
        proof {
            let (p, x) = (pow2(i as nat) as int, product as int);
            lemma_pow2_unfold((i + 1) as nat);
            assert(x * (2 * p) == 2 * (x * p)) by (nonlinear_arith);
        }
        value = value * 2;
        i = i + 1;
    }
    proof {
        if i < places {
            lemma_pow2_strictly_increases(i as nat, places as nat);
        }
        let (p, q, x) = (pow2(i as nat) as int, pow2(places as nat) as int, product as int);
        assert(x * p <= x * q) by (nonlinear_arith)
            requires
                p <= q,
                0 <= x,
        ;
    }
    value
}

/// The whole number nearest to a fraction of `last`, but at most `last`.
pub fn take_part(last: u64, fraction: u64) -> (part: u64)
    ensures
        part == part_of(last as nat, fraction),
        part <= last,
{
    if fraction > INFINITY_BITS {
        return 0;
    }
    if fraction == INFINITY_BITS {
        return last;
    }
    let exponent: u64 = fraction / 0x10_0000_0000_0000;
    let low: u64 = fraction % 0x10_0000_0000_0000;
    let (significand, shift): (u64, u64) = if exponent == 0 {
        (low, 0)
    } else {
        (low + 0x10_0000_0000_0000, exponent - 1)
    };
    let base: u128 = round(last as u128);
    proof {
        lemma_representable_bound(last as nat);
        let (b, m) = (base as int, significand as int);
        assert(0 <= b * m <= 0x2_0000_0000_0000_0000 * 0x20_0000_0000_0000) by (nonlinear_arith)
            requires
                0 <= b <= 0x2_0000_0000_0000_0000,
                0 <= m <= 0x20_0000_0000_0000,
        ;
        lemma_representable_bound((b * m) as nat);
    }
    let product: u128 = round(base * significand as u128);
    let ghost nearest = whole(representable((base * scaled(fraction as int)) as nat));
    proof {
        let (b, m, p) = (base as int, significand as int, pow2(shift as nat) as int);
        lemma2_to64();
        assert(0 <= m * p && (p == 1 ==> m * p == m)) by (nonlinear_arith)
            requires
                0 <= m,
                0 <= p,
        ;
        assert(scaled(fraction as int) == m * p);
        assert(b * (m * p) == (b * m) * p) by (nonlinear_arith);
        lemma_representable_shift((b * m) as nat, shift as nat);
        assert(nearest == whole((product * p) as nat));
        if shift >= 1074 {
            let up = (shift - 1074) as nat;
            let (u, one, x) = (pow2(up) as int, pow2(1074) as int, product as int);
            lemma_pow2_adds(up, 1074);
            assert(x * (u * one) == (x * u) * one) by (nonlinear_arith);
            assert(0 <= x * u) by (nonlinear_arith)
                requires
                    0 <= x,
                    0 <= u,
            ;
            lemma_whole_of((x * u) as nat);
        } else {
            lemma_whole_shifted(product as nat, shift as nat);
        }
    }
    let whole_part: u128 = if shift >= 1074 {
        scale_up(product, shift - 1074, last)
    } else {
        scale_down(product, 1074 - shift)
    };
    if whole_part < last as u128 {
        whole_part as u64
    } else {
        last
    }
}

/// A larger finite fraction is no smaller part.
pub proof fn lemma_part_monotone(last: nat, low: u64, high: u64)
    requires
        is_finite(low),
        is_finite(high),
        scaled_value(low) <= scaled_value(high),
    ensures
        part_of(last, low) <= part_of(last, high) <= last,
{
    let base = representable(last);
    if low < SIGN_BIT {
        let a = scaled(low as int);
        if high < SIGN_BIT {
            let b = scaled(high as int);
            assert(base * a <= base * b) by (nonlinear_arith)
                requires
                    a <= b,
            ;
            lemma_representable_monotone(base * a, base * b);
            lemma_whole_monotone(representable(base * a), representable(base * b));
        } else {
            assert(a == 0);
            assert(base * a == 0) by (nonlinear_arith)
                requires
                    a == 0,
            ;
            lemma_representable_bound(0);
            lemma_whole_of(0);
        }
    }
}

/// The fraction zero gives the first position. The fraction one gives the last
/// position, unless that is so large that it is rounded down on the way.
pub proof fn lemma_part_ends(last: nat)
    ensures
        part_of(last, 0) == 0,
        representable(last) >= last ==> part_of(last, ONE_BITS) == last,
        last <= EXACT_LIMIT ==> representable(last) == last,
{
    let base = representable(last);
    lemma_representable_bound(0);
    lemma_representable_bound(last);
    lemma_whole_of(0);
    assert(base * scaled(0) == 0) by (nonlinear_arith)
        requires
            scaled(0) == 0,
    ;
    lemma2_to64_rest();
    lemma_pow2_adds(52, 1022);
    assert(scaled(ONE_BITS as int) == pow2(1074));
    lemma_representable_shift(base, 1074);
    lemma_representable_kept(last);
    lemma_whole_of(base);
}

} // verus!
