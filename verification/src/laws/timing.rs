//! What is told of times: their order, percentiles, and the largest.
use crate::bench::times::{order_key, percentile, summarize, total_order, ChunkTimes};
use crate::double::{
    lemma_representable_bound, lemma_representable_monotone, lemma_representable_shift,
    lemma_spacing, lemma_spacing_power, part_of, representable, scaled, scaled_value, spacing,
    take_part, whole,
};
use crate::laws::numbers::size;
use vstd::arithmetic::div_mod::lemma_fundamental_div_mod;
use vstd::arithmetic::power2::{
    lemma2_to64_rest, lemma_pow2_adds, lemma_pow2_pos, lemma_pow2_strictly_increases,
    lemma_pow2_unfold, pow2,
};
use vstd::prelude::*;

verus! {

/// Whether a double-precision pattern is that of a finite number: its exponent
/// field is not all ones.
pub open spec fn finite64(bits: u64) -> bool {
    (bits as int / 0x10_0000_0000_0000) % 2048 != 2047
}

/// A double-precision pattern is a sign bit, eleven bits of exponent and
/// fifty-two of fraction, and stands for that many units of 2^-1074.
pub proof fn lemma_double_format(bits: u64, exponent: int, fraction: int)
    requires
        0 <= exponent < 2047,
        0 <= fraction < 0x10_0000_0000_0000,
    ensures
        bits == exponent * 0x10_0000_0000_0000 + fraction ==> finite64(bits) && scaled_value(bits)
            == if exponent == 0 {
            fraction
        } else {
            (0x10_0000_0000_0000 + fraction) * pow2((exponent - 1) as nat)
        },
        bits == 0x8000_0000_0000_0000 + exponent * 0x10_0000_0000_0000 + fraction ==> finite64(bits)
            && scaled_value(bits) == -(if exponent == 0 {
            fraction
        } else {
            (0x10_0000_0000_0000 + fraction) * pow2((exponent - 1) as nat)
        }),
{
    let mag = exponent * 0x10_0000_0000_0000 + fraction;
    assert(mag / 0x10_0000_0000_0000 == exponent && mag % 0x10_0000_0000_0000 == fraction);
    assert(0 <= (0x10_0000_0000_0000 + fraction) * pow2((exponent - 1) as nat)) by (nonlinear_arith)
        requires
            0 <= fraction,
            0 <= pow2((exponent - 1) as nat),
    ;
}

/// A number is rounded to one of at most fifty-three bits, and none of those is
/// nearer; where another is as near, the result is an even multiple of twice
/// the distance.
pub proof fn lemma_representable_nearest(x: nat, k: nat, e: nat)
    requires
        k <= 0x20_0000_0000_0000,
    ensures
        exists|d: nat|
            representable(x) <= 0x20_0000_0000_0000 * #[trigger] pow2(d) && representable(x)
                % pow2(d) == 0,
        size(representable(x) - x) <= size(k * pow2(e) - x),
        size(representable(x) - x) == size(k * pow2(e) - x) && k * pow2(e) != representable(x)
            ==> exists|d: nat|
            2 * size(representable(x) - x) == #[trigger] pow2(d) && representable(x) % (2 * pow2(d))
                == 0,
{
    let y = k * pow2(e);
    let r = representable(x) as int;
    let d = lemma_spacing_power(x);
    let u = spacing(x) as int;
    lemma_spacing(x);
    lemma_fundamental_div_mod(x as int, u);
    let (q, s) = (x as int / u, x as int % u);
    let j = if 2 * s < u || (2 * s == u && q % 2 == 0) {
        q
    } else {
        q + 1
    };
    assert(r == j * u);
    assert(q < 0x20_0000_0000_0000) by (nonlinear_arith)
        requires
            x == u * q + s,
            x < 0x20_0000_0000_0000 * u,
            s >= 0,
            u >= 1,
    ;
    assert(q >= 0) by (nonlinear_arith)
        requires
            x == u * q + s,
            x >= 0,
            s < u,
            u >= 1,
    ;
    vstd::arithmetic::div_mod::lemma_mod_multiples_basic(j, u);
    assert(representable(x) % pow2(d) == 0);
    assert(r <= 0x20_0000_0000_0000 * u) by (nonlinear_arith)
        requires
            r == j * u,
            j <= 0x20_0000_0000_0000,
            u >= 1,
    ;
    assert(q * u == u * q && (q + 1) * u == u * q + u) by (nonlinear_arith);
    assert(j == q ==> x - r == s && 2 * s <= u);
    assert(j == q + 1 ==> r - x == u - s && u <= 2 * s);
    if e >= d {
        // The other number is a multiple of the spacing.
        lemma_pow2_adds(d, (e - d) as nat);
        let m = k * pow2((e - d) as nat);
        let (a, b, c) = (k as int, pow2((e - d) as nat) as int, u);
        assert(a * (c * b) == (a * b) * c) by (nonlinear_arith);
        assert(y == m * u);
        lemma_multiple_nearest(x as int, u, q, s, m as int);
        if size(r - x) == size(y - x) && y != r {
            assert(2 * s == u);
            assert(2 * size(r - x) == pow2(d));
            assert(j % 2 == 0);
            let h = j / 2;
            assert(r == h * (2 * u)) by (nonlinear_arith)
                requires
                    r == j * u,
                    j == 2 * h,
            ;
            vstd::arithmetic::div_mod::lemma_mod_multiples_basic(h, 2 * u);
            assert(representable(x) % (2 * pow2(d)) == 0);
        }
    } else {
        // The other number is no larger than fifty-three bits below this
        // spacing allow, and so below a multiple of the spacing.
        assert(u > 1) by {
            if d == 0 {
                assert(false);
            }
            lemma_pow2_unfold(d);
            lemma_pow2_pos((d - 1) as nat);
        }
        if e + 1 < d {
            lemma_pow2_strictly_increases(e + 1, d);
        }
        lemma_pow2_unfold(e + 1);
        let p = pow2(e) as int;
        assert(y <= 0x10_0000_0000_0000 * u) by (nonlinear_arith)
            requires
                y == k * p,
                0 <= k <= 0x20_0000_0000_0000,
                0 <= p,
                2 * p <= u,
        ;
        lemma_multiple_nearest(x as int, u, q, s, 0x10_0000_0000_0000);
        assert(0x10_0000_0000_0000 * u <= x);
        if size(r - x) == size(y - x) && y != r {
            let f = 0x10_0000_0000_0000 * u;
            // Then the other number is that multiple itself.
            assert(size(f - x) == size(y - x));
            assert(y == f);
            assert(2 * s == u);
            assert(2 * size(r - x) == pow2(d));
            assert(j % 2 == 0);
            let h = j / 2;
            assert(r == h * (2 * u)) by (nonlinear_arith)
                requires
                    r == j * u,
                    j == 2 * h,
            ;
            vstd::arithmetic::div_mod::lemma_mod_multiples_basic(h, 2 * u);
            assert(representable(x) % (2 * pow2(d)) == 0);
        }
    }
}

/// No multiple is nearer than the one below or the one above.
proof fn lemma_multiple_nearest(x: int, u: int, q: int, s: int, m: int)
    requires
        u > 0,
        x == u * q + s,
        0 <= s < u,
    ensures
        m <= q ==> x - m * u >= s,
        m > q ==> m * u - x >= u - s,
        m <= q && x - m * u == s ==> m == q,
        m > q && m * u - x == u - s ==> m == q + 1,
{
    if m <= q {
        assert(x - m * u == (q - m) * u + s) by (nonlinear_arith)
            requires
                x == u * q + s,
        ;
        assert((q - m) * u >= 0 && (q - m > 0 ==> (q - m) * u > 0)) by (nonlinear_arith)
            requires
                q - m >= 0,
                u > 0,
        ;
    } else {
        assert(m * u - x == (m - q - 1) * u + u - s) by (nonlinear_arith)
            requires
                x == u * q + s,
        ;
        assert((m - q - 1) * u >= 0 && (m - q - 1 > 0 ==> (m - q - 1) * u > 0)) by (nonlinear_arith)
            requires
                m - q - 1 >= 0,
                u > 0,
        ;
    }
}

/// Rounding moves a number by at most one part in 2^53.
proof fn lemma_representable_error(x: nat)
    ensures
        size(representable(x) - x) * 0x20_0000_0000_0000 <= x,
{
    lemma_spacing(x);
    let u = spacing(x) as int;
    lemma_fundamental_div_mod(x as int, u);
    let (q, s) = (x as int / u, x as int % u);
    assert(q * u == u * q && (q + 1) * u == u * q + u) by (nonlinear_arith);
    assert(2 * size(representable(x) - x) <= u);
    if u == 1 {
        assert(s == 0);
    }
}

/// The position that a fraction picks: at most the last; zero where the
/// fraction is negative or not a number; the last where it is infinite; and else
/// the whole number nearest to the product of the last position and the
/// fraction, both taken as double-precision numbers, halves up.
pub proof fn lemma_part_nearest(last: nat, fraction: u64)
    ensures
        part_of(last, fraction) <= last,
        fraction > 0x7FF0_0000_0000_0000 ==> part_of(last, fraction) == 0,
        fraction == 0x7FF0_0000_0000_0000 ==> part_of(last, fraction) == last,
        fraction < 0x7FF0_0000_0000_0000 ==> ({
            let (part, one) = (part_of(last, fraction), pow2(1074));
            let product = representable(
                (representable(last) * scaled_value(fraction)) as nat,
            );
            &&& 2 * (part * one) <= 2 * product + one
            &&& part < last ==> 2 * product < 2 * (part * one) + one
        }),
{
    if fraction < 0x7FF0_0000_0000_0000 {
        let product = representable((representable(last) * scaled_value(fraction)) as nat);
        let one = pow2(1074) as int;
        lemma_pow2_unfold(1074);
        lemma_pow2_pos(1074);
        let nearest = whole(product) as int;
        lemma_fundamental_div_mod((product + pow2(1073)) as int, one);
        let part = part_of(last, fraction) as int;
        assert(nearest * one == one * nearest) by (nonlinear_arith);
        assert(part * one <= nearest * one) by (nonlinear_arith)
            requires
                part <= nearest,
                one > 0,
        ;
    }
}

/// The position that a fraction up to one picks is at most one half, and what
/// rounding adds, from the fraction of the last position. A fraction of one or
/// more picks the last position, up to 2^53.
pub proof fn lemma_part_close(last: nat, fraction: u64)
    requires
        fraction < 0x7FF0_0000_0000_0000,
    ensures
        ({
            let (part, one) = (part_of(last, fraction) as int, pow2(1074) as int);
            let exact = last * scaled_value(fraction);
            &&& exact <= last * one ==> 0x20_0000_0000_0000 * size(2 * (part * one) - 2 * exact)
                <= 0x20_0000_0000_0000 * one + 6 * exact
            &&& scaled_value(fraction) >= one && last <= 0x20_0000_0000_0000 ==> part == last
        }),
{
    let f = scaled_value(fraction);
    let base = representable(last) as int;
    let one = pow2(1074) as int;
    let exact = last * f;
    let near = base * f;
    let product = representable(near as nat) as int;
    let part = part_of(last, fraction) as int;
    let grain = 0x20_0000_0000_0000int;
    lemma_pow2_pos(1074);
    lemma_representable_error(last);
    assert(0 <= near && 0 <= exact) by (nonlinear_arith)
        requires
            near == base * f,
            exact == last * f,
            0 <= base,
            0 <= f,
    ;
    lemma_representable_error(near as nat);
    lemma_part_nearest(last, fraction);
    let off = base - last;
    assert(near - exact == off * f) by (nonlinear_arith)
        requires
            near == base * f,
            exact == last * f,
            off == base - last,
    ;
    assert(size(off * f) * grain <= exact) by (nonlinear_arith)
        requires
            size(off) * grain <= last,
            exact == last * f,
            0 <= f,
            grain == 0x20_0000_0000_0000int,
    ;
    assert(part * one <= last * one) by (nonlinear_arith)
        requires
            part <= last,
            one > 0,
    ;
    assert(grain * size(product - exact) <= 3 * exact);
    if exact <= last * one {
        assert(part * one == last * one || part < last);
    }
    if f >= one && last <= grain {
        lemma_representable_bound(last);
        assert(exact >= last * one) by (nonlinear_arith)
            requires
                exact == last * f,
                f >= one,
        ;
        if part < last {
            lemma_at_least_one(last, f, one);
            assert(product >= last * one);
            assert((part + 1) * one <= last * one) by (nonlinear_arith)
                requires
                    part < last,
                    one > 0,
            ;
            assert((part + 1) * one == part * one + one) by (nonlinear_arith);
        }
    }
}

/// A product with a number of at least one is rounded to no less than the other
/// factor.
proof fn lemma_at_least_one(last: nat, f: int, one: int)
    requires
        last <= 0x20_0000_0000_0000,
        one == pow2(1074),
        f >= one,
    ensures
        representable((last * f) as nat) >= last * one,
{
    assert(last * one <= last * f && 0 <= last * one) by (nonlinear_arith)
        requires
            f >= one,
            one >= 0,
    ;
    lemma_representable_monotone((last * one) as nat, (last * f) as nat);
    lemma_representable_shift(last, 1074);
    lemma_representable_bound(last);
}

/// What `take_part` gives.
pub proof fn lemma_part_taken(last: u64, fraction: u64, part: u64)
    requires
        call_ensures(take_part, (last, fraction), part),
    ensures
        part == part_of(last as nat, fraction),
        part <= last,
        fraction < 0x7FF0_0000_0000_0000 && last * scaled_value(fraction) <= last * pow2(1074)
            ==> 0x20_0000_0000_0000 * size(
            2 * (part * pow2(1074)) - 2 * (last * scaled_value(fraction)),
        ) <= 0x20_0000_0000_0000 * pow2(1074) + 6 * (last * scaled_value(fraction)),
        call_requires(take_part, (last, fraction)),
{
    lemma_part_nearest(last as nat, fraction);
    if fraction < 0x7FF0_0000_0000_0000 {
        lemma_part_close(last as nat, fraction);
    }
}

/// Patterns are told apart, and ordered as their numbers: of two finite numbers
/// the smaller comes first, negative zero before zero, and what is not a number
/// outside the infinities, on the side of its sign.
pub proof fn lemma_total_order(a: u64, b: u64)
    ensures
        total_order(a) == total_order(b) ==> a == b,
        a < 0x8000_0000_0000_0000 && b < 0x8000_0000_0000_0000 ==> (total_order(a) < total_order(b)
            <==> a < b),
        a >= 0x8000_0000_0000_0000 && b >= 0x8000_0000_0000_0000 ==> (total_order(a) < total_order(
            b,
        ) <==> a > b),
        a >= 0x8000_0000_0000_0000 && b < 0x8000_0000_0000_0000 ==> total_order(a) < total_order(b),
        finite64(a) && finite64(b) && scaled_value(a) < scaled_value(b) ==> total_order(a)
            < total_order(b),
{
    if finite64(a) && finite64(b) && scaled_value(a) < scaled_value(b) {
        let (x, y) = (
            if a < 0x8000_0000_0000_0000 {
                a as int
            } else {
                a - 0x8000_0000_0000_0000
            },
            if b < 0x8000_0000_0000_0000 {
                b as int
            } else {
                b - 0x8000_0000_0000_0000
            },
        );
        if x <= y {
            lemma_scaled_ordered(x, y);
        } else {
            lemma_scaled_ordered(y, x);
        }
    }
}

/// A larger magnitude is no smaller number.
proof fn lemma_scaled_ordered(a: int, b: int)
    requires
        0 <= a <= b,
    ensures
        scaled(a) <= scaled(b),
{
    let unit = 0x10_0000_0000_0000int;
    let (ea, fa) = (a / unit, a % unit);
    let (eb, fb) = (b / unit, b % unit);
    if ea == eb {
        if ea > 0 {
            let p = pow2((ea - 1) as nat) as int;
            assert(0 <= (unit + fa) * p <= (unit + fb) * p) by (nonlinear_arith)
                requires
                    0 <= fa <= fb,
                    0 <= p,
                    0 <= unit,
            ;
        }
    } else {
        let q = pow2((eb - 1) as nat) as int;
        lemma_pow2_pos((eb - 1) as nat);
        assert(unit * q <= (unit + fb) * q) by (nonlinear_arith)
            requires
                0 <= fb,
                0 <= q,
        ;
        if ea > 0 {
            let p = pow2((ea - 1) as nat) as int;
            lemma_pow2_unfold(ea as nat);
            if ea < eb - 1 {
                lemma_pow2_strictly_increases(ea as nat, (eb - 1) as nat);
            }
            assert(0 <= (unit + fa) * p <= unit * q) by (nonlinear_arith)
                requires
                    0 <= fa < unit,
                    0 <= p,
                    2 * p <= q,
            ;
        } else {
            assert(unit <= unit * q) by (nonlinear_arith)
                requires
                    1 <= q,
                    0 <= unit,
            ;
        }
    }
}

/// What `order_key` gives.
pub proof fn lemma_order_key(bits: u64, key: i64)
    requires
        call_ensures(order_key, (bits,), key),
    ensures
        key == total_order(bits),
        call_requires(order_key, (bits,)),
{
}

/// What `percentile` picks: the value at the position that the fraction of the
/// last position is nearest to, and zero where there are no values.
pub proof fn lemma_percentile_picked(values: &[u64], fraction: u64, value: u64)
    requires
        call_ensures(percentile, (values, fraction), value),
    ensures
        call_requires(percentile, (values, fraction)),
        values@.len() == 0 ==> value == 0,
        values@.len() > 0 ==> exists|i: int|
            {
                let (last, one) = (values@.len() - 1, pow2(1074) as int);
                &&& 0 <= i <= last
                &&& value == #[trigger] values@[i]
                &&& i == part_of(last as nat, fraction)
                &&& fraction > 0x7FF0_0000_0000_0000 ==> i == 0
                &&& fraction == 0x7FF0_0000_0000_0000 ==> i == last
                &&& fraction < 0x7FF0_0000_0000_0000 && last * scaled_value(fraction) <= last * one
                    ==> 0x20_0000_0000_0000 * size(
                    2 * (i * one) - 2 * (last * scaled_value(fraction)),
                ) <= 0x20_0000_0000_0000 * one + 6 * (last * scaled_value(fraction))
                &&& fraction < 0x7FF0_0000_0000_0000 && scaled_value(fraction) >= one && last
                    <= 0x20_0000_0000_0000 ==> i == last
            },
{
    if values@.len() > 0 {
        let last = (values@.len() - 1) as nat;
        lemma_part_nearest(last, fraction);
        if fraction < 0x7FF0_0000_0000_0000 {
            lemma_part_close(last, fraction);
        }
        assert(value == values@[part_of(last, fraction) as int]);
    }
}

/// What `summarize` tells of times: all of them in order; as ninety-fifth
/// percentile the one at the position nearest to 95 hundredths of the last; and
/// one of them that none is larger than.
pub proof fn lemma_times_summarized(times: Vec<u64>, summary: ChunkTimes)
    requires
        call_ensures(summarize, (times,), summary),
    ensures
        call_requires(summarize, (times,)),
        summary.sorted@.to_multiset() == times@.to_multiset(),
        forall|i: int, j: int|
            0 <= i < j < summary.sorted@.len() ==> total_order(#[trigger] summary.sorted@[i])
                <= total_order(#[trigger] summary.sorted@[j]),
        times@.len() == 0 ==> summary.p95 == 0 && summary.max == 0,
        0 < times@.len() <= 0x100_0000_0000 ==> exists|i: int|
            {
                &&& 0 <= i < summary.sorted@.len()
                &&& summary.p95 == #[trigger] summary.sorted@[i]
                &&& size(200 * i - 190 * (times@.len() - 1)) <= 101
            },
        times@.len() > 0 ==> times@.contains(summary.max),
        forall|i: int|
            0 <= i < times@.len() ==> total_order(#[trigger] times@[i]) <= total_order(summary.max),
{
    broadcast use vstd::seq_lib::group_to_multiset_ensures;

    let sorted = summary.sorted@;
    assert(sorted.len() == sorted.to_multiset().len());
    assert(times@.len() == times@.to_multiset().len());
    if times@.len() > 0 {
        let last = (times@.len() - 1) as nat;
        let fraction = 0x3FEE_6666_6666_6666u64;
        if times@.len() <= 0x100_0000_0000 {
            let i = part_of(last, fraction) as int;
            lemma_part_nearest(last, fraction);
            lemma_ninety_five(last);
            assert(summary.p95 == sorted[i]);
        }
        assert(sorted.contains(sorted.last()));
        assert(times@.to_multiset().count(sorted.last()) > 0);
        assert forall|i: int| 0 <= i < times@.len() implies total_order(#[trigger] times@[i])
            <= total_order(summary.max) by {
            assert(times@.contains(times@[i]));
            assert(sorted.to_multiset().count(times@[i]) > 0);
            assert(sorted.contains(times@[i]));
            let k = choose|k: int| 0 <= k < sorted.len() && sorted[k] == times@[i];
            if k < sorted.len() - 1 {
                assert(total_order(sorted[k]) <= total_order(sorted[sorted.len() - 1]));
            }
        }
    }
}

/// The position of the ninety-fifth percentile.
proof fn lemma_ninety_five(last: nat)
    requires
        last < 0x100_0000_0000,
    ensures
        size(200 * (part_of(last, 0x3FEE_6666_6666_6666) as int) - 190 * last) <= 101,
{
    let fraction = 0x3FEE_6666_6666_6666u64;
    let part = part_of(last, fraction) as int;
    lemma_part_close(last, fraction);
    lemma2_to64_rest();
    lemma_double_format(fraction, 1022, 0xE_6666_6666_6666);
    let p = pow2(1021) as int;
    lemma_pow2_pos(1021);
    lemma_pow2_adds(1021, 53);
    let one = pow2(1074) as int;
    let grain = 0x20_0000_0000_0000int;
    let m = 0x1E_6666_6666_6666int;
    let f = scaled_value(fraction);
    assert(f == m * p);
    assert(one == grain * p);
    let exact = last * f;
    // In units of 2^-53 of a position.
    assert(exact == (last * m) * p) by (nonlinear_arith)
        requires
            exact == last * f,
            f == m * p,
    ;
    assert(part * one == (part * grain) * p) by (nonlinear_arith)
        requires
            one == grain * p,
    ;
    assert(last * one == (last * grain) * p) by (nonlinear_arith)
        requires
            one == grain * p,
    ;
    assert(last * m <= last * grain) by (nonlinear_arith)
        requires
            m <= grain,
            last >= 0,
    ;
    assert((last * m) * p <= (last * grain) * p) by (nonlinear_arith)
        requires
            last * m <= last * grain,
            p > 0,
    ;
    let gap = 2 * (part * grain) - 2 * (last * m);
    assert(2 * (part * one) - 2 * exact == gap * p) by (nonlinear_arith)
        requires
            part * one == (part * grain) * p,
            exact == (last * m) * p,
            gap == 2 * (part * grain) - 2 * (last * m),
    ;
    assert(size(gap * p) == size(gap) * p) by (nonlinear_arith)
        requires
            p > 0,
    ;
    assert(grain * size(gap) <= grain * grain + 6 * (last * m)) by (nonlinear_arith)
        requires
            grain * (size(gap) * p) <= grain * (grain * p) + 6 * ((last * m) * p),
            p > 0,
    ;
}

} // verus!
