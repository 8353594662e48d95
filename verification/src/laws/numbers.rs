//! Numbers held as bit patterns, samples, and whole numbers in decimal.
use crate::pcm::{
    decode_sample, encode, lemma_sample_scale, lemma_silence_is_zero, normalize_sample, normalized,
    push_sample, FULL_SCALE,
};
use crate::single::{
    at_least, at_least_spec, below, below_spec, distance, is_nearest, lemma_exact_is_nearest,
    lemma_nearest_exists, lemma_order_is_value_order, lemma_scaled_increasing, magnitude, nearest,
    nearest_quotient, rounded, scaled, scaled_value,
};
use crate::text::{
    all_digits, decimal, digit_char, digits_value, is_digit, lemma_decimal_spells,
    lemma_digits_value_grows, parse_integer, push_decimal, push_signed_decimal, read_integer,
    runs_over, signed_decimal, IntegerError,
};
use crate::threshold::{is_valid_threshold, release, release_threshold, valid_threshold};
use vstd::arithmetic::power2::{lemma2_to64, lemma_pow2_pos, pow2};
use vstd::prelude::*;

verus! {

/// Whether a single-precision pattern is that of a finite number: its exponent
/// field is not all ones.
pub open spec fn finite32(bits: u32) -> bool {
    (bits as int / 0x80_0000) % 256 != 255
}

/// Whether a single-precision pattern is not that of a number: its exponent
/// field is all ones and its fraction is not zero.
pub open spec fn nan32(bits: u32) -> bool {
    (bits as int / 0x80_0000) % 256 == 255 && bits as int % 0x80_0000 != 0
}

/// The size of a whole number.
pub open spec fn size(x: int) -> int {
    if x < 0 {
        -x
    } else {
        x
    }
}

/// A single-precision pattern is a sign bit, eight bits of exponent and
/// twenty-three of fraction, and stands for that many units of 2^-149.
pub proof fn lemma_single_format(bits: u32, exponent: int, fraction: int)
    requires
        0 <= exponent < 255,
        0 <= fraction < 0x80_0000,
    ensures
        bits == exponent * 0x80_0000 + fraction ==> finite32(bits) && scaled_value(bits) == if exponent
            == 0 {
            fraction
        } else {
            (0x80_0000 + fraction) * pow2((exponent - 1) as nat)
        },
        bits == 0x8000_0000 + exponent * 0x80_0000 + fraction ==> finite32(bits) && scaled_value(
            bits,
        ) == -(if exponent == 0 {
            fraction
        } else {
            (0x80_0000 + fraction) * pow2((exponent - 1) as nat)
        }),
{
    let mag = exponent * 0x80_0000 + fraction;
    assert(mag / 0x80_0000 == exponent && mag % 0x80_0000 == fraction);
}

/// A finite pattern has a finite magnitude.
proof fn lemma_finite32(bits: u32)
    ensures
        finite32(bits) <==> magnitude(bits) < 0x7F80_0000,
        nan32(bits) <==> magnitude(bits) > 0x7F80_0000,
{
}

/// Finite numbers are compared as the numbers that they stand for; infinity is
/// above all of them and its negative below; what is not a number is neither at
/// least anything nor below it.
pub proof fn lemma_comparison(a: u32, b: u32)
    ensures
        nan32(a) || nan32(b) ==> !at_least_spec(a, b) && !below_spec(a, b),
        !nan32(a) && !nan32(b) ==> below_spec(a, b) == !at_least_spec(a, b),
        finite32(a) && finite32(b) ==> at_least_spec(a, b) == (scaled_value(a) >= scaled_value(b)),
        !nan32(b) ==> at_least_spec(0x7F80_0000, b),
        !nan32(a) ==> at_least_spec(a, 0xFF80_0000),
        finite32(b) ==> !at_least_spec(0xFF80_0000, b),
        finite32(a) ==> !at_least_spec(a, 0x7F80_0000),
        !at_least_spec(0xFF80_0000, 0x7F80_0000),
{
    lemma_finite32(a);
    lemma_finite32(b);
    if finite32(a) && finite32(b) {
        lemma_order_is_value_order(a, b);
    }
}

/// What `at_least` and `below` answer.
pub proof fn lemma_comparisons_answer(a: u32, b: u32, high: bool, low: bool)
    requires
        call_ensures(at_least, (a, b), high),
        call_ensures(below, (a, b), low),
    ensures
        nan32(a) || nan32(b) ==> !high && !low,
        !nan32(a) && !nan32(b) ==> low == !high,
        finite32(a) && finite32(b) ==> high == (scaled_value(a) >= scaled_value(b)),
        high == at_least_spec(a, b),
        low == below_spec(a, b),
        call_requires(at_least, (a, b)),
        call_requires(below, (a, b)),
{
    lemma_comparison(a, b);
}

/// What `nearest_quotient` gives is finite, and no finite number is nearer to
/// the quotient; of two that are equally near it is the one with the even
/// fraction.
pub proof fn lemma_quotient_nearest(n: u64, d: u64, mag: u32, other: u32)
    requires
        0 < n <= 0x4_0000_0000_0000,
        0 < d <= 0x4_0000_0000_0000,
        call_ensures(nearest_quotient, (n, d), mag),
        finite32(other),
    ensures
        mag < 0x7F80_0000,
        size(scaled_value(mag) * d - n * pow2(149)) <= size(
            scaled_value(other) * d - n * pow2(149),
        ),
        size(scaled_value(mag) * d - n * pow2(149)) == size(
            scaled_value(other) * d - n * pow2(149),
        ) && other != mag ==> mag % 2 == 0,
        call_requires(nearest_quotient, (n, d)),
{
    lemma_finite32(other);
    let num = n * pow2(149);
    lemma_pow2_pos(149);
    assert(num > 0) by (nonlinear_arith)
        requires
            num == n * pow2(149),
            n > 0,
            pow2(149) > 0,
    ;
    lemma_nearer(num, d as int, mag as int, other);
}

/// A magnitude that is nearest among magnitudes is nearest among numbers of
/// either sign.
proof fn lemma_nearer(num: int, den: int, mag: int, other: u32)
    requires
        num >= 0,
        den > 0,
        is_nearest(num, den, mag),
        finite32(other),
    ensures
        size(scaled(mag) * den - num) <= size(scaled_value(other) * den - num),
        size(scaled(mag) * den - num) == size(scaled_value(other) * den - num) && other != mag
            ==> mag % 2 == 0,
{
    lemma_finite32(other);
    let x = magnitude(other);
    assert(distance(num, den, mag) == size(scaled(mag) * den - num));
    if x != mag {
        assert(distance(num, den, x) >= distance(num, den, mag));
        assert(distance(num, den, x) == distance(num, den, mag) ==> mag % 2 == 0);
    }
    assert(scaled(0) == 0);
    if x > 0 {
        lemma_scaled_increasing(0, x);
    }
    if other >= 0x8000_0000 {
        let (v, w) = (scaled(x), scaled_value(other));
        assert(w == -v);
        assert(w * den == -(v * den)) by (nonlinear_arith)
            requires
                w == -v,
        ;
        assert(v * den >= 0) by (nonlinear_arith)
            requires
                v >= 0,
                den > 0,
        ;
        // The number of the other sign is at least as far as zero.
        if mag != 0 {
            assert(distance(num, den, 0) >= distance(num, den, mag));
            assert(distance(num, den, 0) == distance(num, den, mag) ==> mag % 2 == 0);
        }
    }
}

/// A number rounded from a quotient of either sign: no finite number is nearer,
/// its sign is that of the quotient, and of two that are equally near it is the
/// one with the even fraction.
proof fn lemma_rounded_nearest(num: int, den: int, other: u32)
    requires
        den > 0,
        size(num) < scaled(0x7F7F_FFFF) * den,
        finite32(other),
    ensures
        finite32(rounded(num, den)),
        size(scaled_value(rounded(num, den)) * den - num) <= size(scaled_value(other) * den - num),
        size(scaled_value(rounded(num, den)) * den - num) == size(scaled_value(other) * den - num)
            && other != rounded(num, den) ==> rounded(num, den) % 2 == 0,
        num < 0 <==> rounded(num, den) >= 0x8000_0000,
{
    let bits = rounded(num, den);
    if num >= 0 {
        lemma_nearest_exists(num, den);
        lemma_finite32(bits);
        lemma_nearer(num, den, bits as int, other);
    } else {
        lemma_nearest_exists(-num, den);
        let mag = nearest(-num, den);
        assert(bits == 0x8000_0000 + mag);
        lemma_finite32(bits);
        lemma_finite32(other);
        let mirror: u32 = if other < 0x8000_0000 {
            (other + 0x8000_0000) as u32
        } else {
            (other - 0x8000_0000) as u32
        };
        lemma_finite32(mirror);
        lemma_nearer(-num, den, mag, mirror);
        let (v, w, m) = (scaled_value(other), scaled_value(mirror), scaled(mag));
        assert(w == -v && scaled_value(bits) == -m);
        assert(w * den == -(v * den)) by (nonlinear_arith)
            requires
                w == -v,
        ;
        assert((-m) * den == -(m * den)) by (nonlinear_arith);
        assert(other != bits ==> mirror != mag);
    }
}

/// The number for a sample is its pattern over 32767: no finite number is
/// nearer, and its sign is that of the sample.
pub proof fn lemma_normalized_nearest(sample: int, other: u32)
    requires
        -32768 <= sample <= 32767,
        finite32(other),
    ensures
        finite32(normalized(sample)),
        size(scaled_value(normalized(sample)) * 32767 - sample * pow2(149)) <= size(
            scaled_value(other) * 32767 - sample * pow2(149),
        ),
        sample < 0 <==> normalized(sample) >= 0x8000_0000,
        sample == 0 ==> normalized(sample) == 0,
{
    let unit = pow2(149) as int;
    lemma_pow2_pos(149);
    lemma_silence_is_zero();
    assert(sample * unit < 0 <==> sample < 0) by (nonlinear_arith)
        requires
            unit > 0,
    ;
    assert(size(sample * unit) == size(sample) * unit) by (nonlinear_arith)
        requires
            unit > 0,
    ;
    if sample != 0 {
        lemma_sample_scale(size(sample));
    } else {
        lemma_scaled_increasing(0, 0x7F7F_FFFF);
        assert(scaled(0) == 0);
    }
    lemma_rounded_nearest(sample * unit, FULL_SCALE as int, other);
}

/// What `normalize_sample` gives for a sample.
pub proof fn lemma_sample_normalized(sample: i16, bits: u32, other: u32)
    requires
        call_ensures(normalize_sample, (sample,), bits),
        finite32(other),
    ensures
        finite32(bits),
        bits == normalized(sample as int),
        size(scaled_value(bits) * 32767 - sample * pow2(149)) <= size(
            scaled_value(other) * 32767 - sample * pow2(149),
        ),
        sample < 0 <==> bits >= 0x8000_0000,
        call_requires(normalize_sample, (sample,)),
{
    lemma_normalized_nearest(sample as int, other);
}

/// A sample is the two's complement number that two bytes spell, low byte
/// first.
pub proof fn lemma_sample_of_bytes(low: u8, high: u8, sample: i16)
    requires
        call_ensures(decode_sample, (low, high), sample),
    ensures
        (sample - low - 256 * high) % 0x1_0000 == 0,
        call_requires(decode_sample, (low, high)),
{
}

/// The threshold below which speech may end is 0.15 less: no finite number is
/// nearer to the difference.
pub proof fn lemma_release_nearest(threshold: u32, other: u32)
    requires
        finite32(threshold),
        0 <= scaled_value(threshold) <= pow2(149),
        finite32(other),
    ensures
        finite32(release(threshold)),
        ({
            let exact = scaled_value(threshold) - scaled_value(0x3E19_999A);
            &&& size(scaled_value(release(threshold)) - exact) <= size(scaled_value(other) - exact)
            &&& size(scaled_value(release(threshold)) - exact) == size(scaled_value(other) - exact)
                && other != release(threshold) ==> release(threshold) % 2 == 0
            &&& exact < 0 <==> release(threshold) >= 0x8000_0000
            &&& exact == 0 ==> release(threshold) == 0
        }),
{
    lemma_finite32(threshold);
    let margin = scaled(0x3E19_999A);
    let exact = scaled_value(threshold) - margin;
    lemma_one32();
    lemma_scaled_increasing(0x3E19_999A, 0x3F80_0000);
    lemma_scaled_increasing(0, 0x3E19_999A);
    lemma_scaled_increasing(0x3F80_0000, 0x7F7F_FFFF);
    assert(scaled(0) == 0);
    lemma_rounded_nearest(exact, 1, other);
    if exact == 0 {
        lemma_exact_is_nearest(0, 1);
    }
}

/// One is 2^149 units.
proof fn lemma_one32()
    ensures
        scaled(0x3F80_0000) == pow2(149),
{
    lemma2_to64();
    vstd::arithmetic::power2::lemma_pow2_adds(23, 126);
}

/// A threshold is acceptable exactly if it is a number from zero to one.
pub proof fn lemma_threshold_range(threshold: u32)
    ensures
        valid_threshold(threshold) <==> finite32(threshold) && 0 <= scaled_value(threshold)
            <= pow2(149),
{
    lemma_comparison(threshold, 0);
    lemma_comparison(0x3F80_0000, threshold);
    lemma_finite32(threshold);
    lemma_one32();
    assert(scaled(0) == 0);
}

/// What `is_valid_threshold` and `release_threshold` answer.
pub proof fn lemma_thresholds_answer(threshold: u32, valid: bool, bits: u32)
    requires
        call_ensures(is_valid_threshold, (threshold,), valid),
        call_ensures(release_threshold, (threshold,), bits),
    ensures
        valid <==> finite32(threshold) && 0 <= scaled_value(threshold) <= pow2(149),
        bits == release(threshold),
        valid ==> call_requires(release_threshold, (threshold,)),
        call_requires(is_valid_threshold, (threshold,)),
{
    lemma_threshold_range(threshold);
}

/// Whether a text is a row of decimal digits, at least one.
pub open spec fn digits(text: Seq<char>) -> bool {
    text.len() > 0 && forall|i: int| 0 <= i < text.len() ==> '0' <= #[trigger] text[i] <= '9'
}

/// A digit more is ten times the number and the digit.
pub proof fn lemma_digits_spell(text: Seq<char>, c: char)
    ensures
        digits_value(Seq::<char>::empty()) == 0,
        digits_value(text.push(c)) == 10 * digits_value(text) + (c as int - '0' as int),
{
    assert(text.push(c).drop_last() =~= text);
}

/// A number in decimal is digits that spell it, without a leading zero.
pub proof fn lemma_decimal_digits(n: nat)
    ensures
        digits(decimal(n)),
        digits_value(decimal(n)) == n,
        n > 0 ==> decimal(n)[0] != '0',
        n == 0 ==> decimal(n).len() == 1,
    decreases n,
{
    lemma_decimal_spells(n);
    assert forall|i: int| 0 <= i < decimal(n).len() implies '0' <= #[trigger] decimal(n)[i]
        <= '9' by {
        assert(is_digit(decimal(n)[i]));
    }
    if n >= 10 {
        lemma_decimal_digits(n / 10);
        assert(decimal(n)[0] == decimal(n / 10)[0]);
    } else if n > 0 {
        assert(decimal(n)[0] == digit_char(n));
    }
}

/// A negative number in decimal is a minus sign and the digits of its size.
pub proof fn lemma_signed_decimal(n: int)
    ensures
        n >= 0 ==> signed_decimal(n) == decimal(n as nat),
        n < 0 ==> signed_decimal(n) == seq!['-'] + decimal((-n) as nat),
{
    reveal_strlit("-");
    assert("-"@ =~= seq!['-']);
}

/// Digits, alone or behind a plus sign, are read as the number that they spell
/// where that is in range, and are else too large. Behind a minus sign, where
/// the range has negative numbers, they are read as the negative number or are
/// too small.
pub proof fn lemma_digits_read(text: Seq<char>, row: Seq<char>, low: int, high: int)
    requires
        low <= 0 <= high,
        digits(row),
    ensures
        text == row || text == seq!['+'] + row ==> read_integer(text, low, high) == if digits_value(
            row,
        ) <= high {
            Ok::<int, IntegerError>(digits_value(row))
        } else {
            Err::<int, IntegerError>(IntegerError::TooLarge)
        },
        low < 0 && text == seq!['-'] + row ==> read_integer(text, low, high) == if digits_value(row)
            <= -low {
            Ok::<int, IntegerError>(-digits_value(row))
        } else {
            Err::<int, IntegerError>(IntegerError::TooSmall)
        },
{
    assert forall|i: int| 0 <= i < row.len() implies is_digit(#[trigger] row[i]) by {}
    assert(row.take(row.len() as int) =~= row);
    assert forall|k: int| 0 <= k <= row.len() implies digits_value(#[trigger] row.take(k))
        <= digits_value(row) by {
        lemma_digits_value_grows(row, k);
    }
    if text != row && text.len() > 0 {
        if text == seq!['+'] + row || text == seq!['-'] + row {
            assert(text.skip(1) =~= row);
        }
    }
}

/// What is read as a number is digits, with or without a sign; nothing is empty
/// but the empty text; and what is too large or too small begins with digits
/// that spell a number out of range.
pub proof fn lemma_only_digits_read(text: Seq<char>, low: int, high: int)
    requires
        low <= 0 <= high,
    ensures
        read_integer(text, low, high) is Ok ==> digits(text) || (text.len() > 0 && (text[0] == '+'
            || text[0] == '-') && digits(text.skip(1))),
        read_integer(text, low, high) is Ok && text[0] == '-' ==> low < 0,
        read_integer(text, low, high) == Err::<int, IntegerError>(IntegerError::Empty)
            <==> text.len() == 0,
        read_integer(text, low, high) == Err::<int, IntegerError>(IntegerError::TooLarge)
            ==> exists|row: Seq<char>|
            #![trigger digits_value(row)]
            digits_value(row) > high && (row.is_prefix_of(text) || (seq!['+'] + row).is_prefix_of(
                text,
            )),
        read_integer(text, low, high) == Err::<int, IntegerError>(IntegerError::TooSmall)
            ==> exists|row: Seq<char>|
            #![trigger digits_value(row)]
            digits_value(row) > -low && (seq!['-'] + row).is_prefix_of(text),
{
    let rest = text.skip(1);
    if text.len() > 0 {
        if all_digits(rest) {
            assert forall|i: int| 0 <= i < rest.len() implies '0' <= #[trigger] rest[i] <= '9' by {
                assert(is_digit(rest[i]));
            }
        }
        if all_digits(text) {
            assert forall|i: int| 0 <= i < text.len() implies '0' <= #[trigger] text[i] <= '9' by {
                assert(is_digit(text[i]));
            }
        }
        if text[0] == '+' || (text[0] == '-' && low < 0) {
            let limit = if text[0] == '+' {
                high
            } else {
                -low
            };
            if runs_over(rest, limit) {
                let n = choose|n: int|
                    0 <= n <= rest.len() && all_digits(#[trigger] rest.take(n))
                        && digits_value(rest.take(n)) > limit;
                let row = rest.take(n);
                assert(digits_value(row) > limit);
                assert(seq![text[0]] + row =~= text.take(n + 1));
            }
        } else if runs_over(text, high) {
            let n = choose|n: int|
                0 <= n <= text.len() && all_digits(#[trigger] text.take(n))
                    && digits_value(text.take(n)) > high;
            assert(digits_value(text.take(n)) > high);
        }
    }
}

/// What `parse_integer` answers.
pub proof fn lemma_integer_parsed(
    text: &str,
    low: i128,
    high: i128,
    result: Result<i128, IntegerError>,
)
    requires
        i64::MIN <= low <= 0 <= high <= u64::MAX,
        call_ensures(parse_integer, (text, low, high), result),
    ensures
        call_requires(parse_integer, (text, low, high)),
        match result {
            Ok(n) => read_integer(text@, low as int, high as int) == Ok::<int, IntegerError>(
                n as int,
            ),
            Err(error) => read_integer(text@, low as int, high as int) == Err::<int, IntegerError>(
                error,
            ),
        },
{
}

/// What `push_decimal` and `push_signed_decimal` append.
pub proof fn lemma_decimals_pushed()
    ensures
        forall|text: &mut String, n: u64|
            #![trigger call_ensures(push_decimal, (text, n), ())]
            call_ensures(push_decimal, (text, n), ()) ==> (*final(text))@ == (*text)@ + decimal(
                n as nat,
            ),
        forall|text: &mut String, n: i64|
            #![trigger call_ensures(push_signed_decimal, (text, n), ())]
            call_ensures(push_signed_decimal, (text, n), ()) ==> (*final(text))@ == (*text)@
                + signed_decimal(n as int),
{
}

/// What `push_sample` appends: two bytes that spell the sample, low byte first.
pub proof fn lemma_sample_pushed()
    ensures
        forall|bytes: &mut Vec<u8>, sample: i16|
            #![trigger call_ensures(push_sample, (bytes, sample), ())]
            call_ensures(push_sample, (bytes, sample), ()) ==> {
                let (before, after) = ((*bytes)@, (*final(bytes))@);
                &&& after.len() == before.len() + 2
                &&& after.take(before.len() as int) == before
                &&& (sample - after[before.len() as int] - 256 * after[before.len() as int + 1])
                    % 0x1_0000 == 0
            },
{
    assert forall|bytes: &mut Vec<u8>, sample: i16|
        #![trigger call_ensures(push_sample, (bytes, sample), ())]
        call_ensures(push_sample, (bytes, sample), ()) implies {
        let (before, after) = ((*bytes)@, (*final(bytes))@);
        &&& after.len() == before.len() + 2
        &&& after.take(before.len() as int) == before
        &&& (sample - after[before.len() as int] - 256 * after[before.len() as int + 1]) % 0x1_0000 == 0
    } by {
        let (before, after) = ((*bytes)@, (*final(bytes))@);
        assert(after.take(before.len() as int) =~= before);
        let two = encode(seq![sample]);
        assert(after[before.len() as int] == two[0] && after[before.len() as int + 1] == two[1]);
    }
}

} // verus!
