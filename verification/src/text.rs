//! Reading and writing whole numbers in decimal.
use vstd::prelude::*;

verus! {

/// Why a text is not a whole number of the wanted range.
#[derive(Clone, Copy, Debug, PartialEq, Eq, Structural)]
pub enum IntegerError {
    Empty,
    InvalidDigit,
    TooLarge,
    TooSmall,
}

/// Whether a character is a decimal digit.
pub open spec fn is_digit(c: char) -> bool {
    '0' <= c <= '9'
}

/// Whether every character is a decimal digit.
pub open spec fn all_digits(text: Seq<char>) -> bool {
    forall|i: int| 0 <= i < text.len() ==> is_digit(#[trigger] text[i])
}

/// The number that a row of digits spells.
pub open spec fn digits_value(text: Seq<char>) -> int
    decreases text.len(),
{
    if text.len() == 0 {
        0
    } else {
        digits_value(text.drop_last()) * 10 + (text.last() as int - '0' as int)
    }
}

/// Whether some leading digits alone spell a number beyond `limit`.
pub open spec fn runs_over(text: Seq<char>, limit: int) -> bool {
    exists|n: int|
        0 <= n <= text.len() && all_digits(#[trigger] text.take(n)) && digits_value(text.take(n))
            > limit
}

/// The number that digits spell, if it is at most `limit`. A text that runs
/// over the limit is refused for that, whatever follows.
pub open spec fn read_digits(text: Seq<char>, limit: int, over: IntegerError) -> Result<
    int,
    IntegerError,
> {
    if runs_over(text, limit) {
        Err(over)
    } else if text.len() == 0 || !all_digits(text) {
        Err(IntegerError::InvalidDigit)
    } else {
        Ok(digits_value(text))
    }
}

/// The whole number that a text spells: digits after an optional plus sign,
/// or after a minus sign where the range has negative numbers.
pub open spec fn read_integer(text: Seq<char>, low: int, high: int) -> Result<int, IntegerError> {
    if text.len() == 0 {
        Err(IntegerError::Empty)
    } else if text[0] == '+' {
        read_digits(text.skip(1), high, IntegerError::TooLarge)
    } else if text[0] == '-' && low < 0 {
        match read_digits(text.skip(1), -low, IntegerError::TooSmall) {
            Ok(value) => Ok(-value),
            Err(error) => Err(error),
        }
    } else {
        read_digits(text, high, IntegerError::TooLarge)
    }
}

/// A whole number that is read is in the range that it is read for.
pub proof fn lemma_integer_range(text: Seq<char>, low: int, high: int)
    requires
        low <= 0 <= high,
    ensures
        read_integer(text, low, high) matches Ok(n) ==> low <= n <= high,
{
    lemma_digits_range(text, high, IntegerError::TooLarge);
    if text.len() > 0 {
        lemma_digits_range(text.skip(1), high, IntegerError::TooLarge);
        lemma_digits_range(text.skip(1), -low, IntegerError::TooSmall);
    }
}

/// Digits that are read spell a number up to the limit.
proof fn lemma_digits_range(text: Seq<char>, limit: int, over: IntegerError)
    ensures
        read_digits(text, limit, over) matches Ok(n) ==> 0 <= n <= limit,
{
    let all = text.len() as int;
    assert(text.take(all) =~= text);
    if all_digits(text) {
        lemma_digits_value_grows(text, all);
    }
}

/// The decimal digit for a number below ten.
pub open spec fn digit_char(n: nat) -> char {
    ('0' as int + n) as char
}

/// The decimal digits of a number, without leading zeros.
pub open spec fn decimal(n: nat) -> Seq<char>
    decreases n,
{
    if n < 10 {
        seq![digit_char(n)]
    } else {
        decimal(n / 10).push(digit_char(n % 10))
    }
}

/// A number in decimal, with a minus sign where it is negative.
pub open spec fn signed_decimal(n: int) -> Seq<char> {
    if n < 0 {
        "-"@ + decimal((-n) as nat)
    } else {
        decimal(n as nat)
    }
}

/// More leading digits spell no smaller number.
pub proof fn lemma_digits_value_grows(text: Seq<char>, n: int)
    requires
        0 <= n <= text.len(),
        all_digits(text),
    ensures
        0 <= digits_value(text.take(n)) <= digits_value(text),
    decreases text.len(),
{
    if n == text.len() {
        assert(text.take(n) =~= text);
        if n > 0 {
            assert(is_digit(text[n - 1]));
            assert(all_digits(text.drop_last())) by {
                assert forall|i: int| 0 <= i < n - 1 implies is_digit(
                    #[trigger] text.drop_last()[i],
                ) by {
                    assert(is_digit(text[i]));
                }
            }
            lemma_digits_value_grows(text.drop_last(), n - 1);
            assert(text.drop_last().take(n - 1) =~= text.drop_last());
        }
    } else {
        let rest = text.drop_last();
        assert forall|i: int| 0 <= i < rest.len() implies is_digit(#[trigger] rest[i]) by {
            assert(is_digit(text[i]));
        }
        assert(is_digit(text.last()));
        lemma_digits_value_grows(rest, n);
        assert(rest.take(n) =~= text.take(n));
    }
}

/// Reads the digits of `text` from character `start` on.
fn parse_digits(text: &str, start: usize, limit: i128, over: IntegerError) -> (result: Result<
    i128,
    IntegerError,
>)
    requires
        start <= text@.len(),
        0 <= limit <= u64::MAX,
    ensures
        match result {
            Ok(value) => read_digits(text@.skip(start as int), limit as int, over) == Ok::<
                int,
                IntegerError,
            >(value as int) && 0 <= value <= limit,
            Err(error) => read_digits(text@.skip(start as int), limit as int, over) == Err::<
                int,
                IntegerError,
            >(error),
        },
{
    let ghost digits = text@.skip(start as int);
    let length: usize = text.unicode_len();
    if start == length {
        proof {
            assert(digits.take(0) =~= digits);
            assert forall|n: int| 0 <= n <= digits.len() implies !(all_digits(
                #[trigger] digits.take(n),
            ) && digits_value(digits.take(n)) > limit) by {
                assert(digits.take(n).len() == 0);
            }
        }
        return Err(IntegerError::InvalidDigit);
    }
    let mut value: i128 = 0;
    let mut i: usize = start;
    assert(digits.take(0) =~= Seq::<char>::empty());
    while i < length
        invariant
            start <= i <= length,
            length == text@.len(),
            digits == text@.skip(start as int),
            0 <= limit <= u64::MAX,
            all_digits(digits.take(i - start)),
            value == digits_value(digits.take(i - start)),
            0 <= value <= limit,
        decreases length - i,
    {
        let c: char = text.get_char(i);
        let ghost before = digits.take(i - start);
        let ghost through = digits.take(i - start + 1);
        proof {
            assert(c == digits[i - start]);
            assert(through.drop_last() =~= before);
            assert(through.last() == c);
        }
        if c < '0' || c > '9' {
            proof {
                assert(!is_digit(digits[i - start]));
                assert forall|n: int| 0 <= n <= digits.len() implies !(all_digits(
                    #[trigger] digits.take(n),
                ) && digits_value(digits.take(n)) > limit) by {
                    if n > i - start {
                        assert(digits.take(n)[i - start] == c);
                    } else {
                        lemma_digits_value_grows(before, n);
                        assert(before.take(n) =~= digits.take(n));
                    }
                }
            }
            return Err(IntegerError::InvalidDigit);
        }
        value = value * 10 + (c as u32 - '0' as u32) as i128;
        proof {
            assert forall|k: int| 0 <= k < through.len() implies is_digit(#[trigger] through[k]) by {
                if k < before.len() {
                    assert(through[k] == before[k]);
                }
            }
            assert(all_digits(through));
            assert(value == digits_value(through));
        }
        if value > limit {
            assert(runs_over(digits, limit as int));
            return Err(over);
        }
        i = i + 1;
    }
    proof {
        assert(digits.take(digits.len() as int) =~= digits);
        assert forall|n: int| 0 <= n <= digits.len() implies !(all_digits(
            #[trigger] digits.take(n),
        ) && digits_value(digits.take(n)) > limit) by {
            lemma_digits_value_grows(digits, n);
        }
    }
    Ok(value)
}

/// Reads a whole number of the range from `low` to `high`.
pub fn parse_integer(text: &str, low: i128, high: i128) -> (result: Result<i128, IntegerError>)
    requires
        i64::MIN <= low <= 0,
        0 <= high <= u64::MAX,
    ensures
        match result {
            Ok(value) => read_integer(text@, low as int, high as int) == Ok::<int, IntegerError>(
                value as int,
            ) && low <= value <= high,
            Err(error) => read_integer(text@, low as int, high as int) == Err::<int, IntegerError>(
                error,
            ),
        },
{
    if text.unicode_len() == 0 {
        return Err(IntegerError::Empty);
    }
    let first: char = text.get_char(0);
    if first == '+' {
        return parse_digits(text, 1, high, IntegerError::TooLarge);
    }
    if first == '-' && low < 0 {
        return match parse_digits(text, 1, -low, IntegerError::TooSmall) {
            Ok(value) => Ok(-value),
            Err(error) => Err(error),
        };
    }
    assert(text@.skip(0) =~= text@);
    parse_digits(text, 0, high, IntegerError::TooLarge)
}

/// Appends one decimal digit.
fn push_digit(text: &mut String, n: u64)
    requires
        n < 10,
    ensures
        final(text)@ == old(text)@.push(digit_char(n as nat)),
{
    proof {
        reveal_strlit("0");
        reveal_strlit("1");
        reveal_strlit("2");
        reveal_strlit("3");
        reveal_strlit("4");
        reveal_strlit("5");
        reveal_strlit("6");
        reveal_strlit("7");
        reveal_strlit("8");
        reveal_strlit("9");
    }
    let digit: &str = if n == 0 {
        "0"
    } else if n == 1 {
        "1"
    } else if n == 2 {
        "2"
    } else if n == 3 {
        "3"
    } else if n == 4 {
        "4"
    } else if n == 5 {
        "5"
    } else if n == 6 {
        "6"
    } else if n == 7 {
        "7"
    } else if n == 8 {
        "8"
    } else {
        "9"
    };
    assert(digit@ =~= seq![digit_char(n as nat)]);
    text.append(digit);
    assert(text@ =~= old(text)@.push(digit_char(n as nat)));
}

/// Appends a number in decimal.
pub fn push_decimal(text: &mut String, n: u64)
    ensures
        final(text)@ == old(text)@ + decimal(n as nat),
    decreases n,
{
    if n >= 10 {
        push_decimal(text, n / 10);
        push_digit(text, n % 10);
        assert(text@ =~= old(text)@ + decimal(n as nat));
    } else {
        push_digit(text, n);
        assert(text@ =~= old(text)@ + decimal(n as nat));
    }
}

/// Appends a number in decimal, with a minus sign where it is negative.
pub fn push_signed_decimal(text: &mut String, n: i64)
    ensures
        final(text)@ == old(text)@ + signed_decimal(n as int),
{
    if n < 0 {
        text.append("-");
        push_decimal(text, (-(n as i128)) as u64);
        assert(text@ =~= old(text)@ + signed_decimal(n as int));
    } else {
        push_decimal(text, n as u64);
    }
}

/// Tests that a text reads as given.
pub fn text_is(text: &String, expected: &str) -> (result: bool)
    ensures
        result == (text@ == expected@),
{
    *text == expected.to_owned()
}

/// The decimal digits of a number spell that number.
pub proof fn lemma_decimal_spells(n: nat)
    ensures
        decimal(n).len() > 0,
        all_digits(decimal(n)),
        digits_value(decimal(n)) == n,
    decreases n,
{
    if n < 10 {
        assert(decimal(n).drop_last() =~= Seq::<char>::empty());
        assert(digits_value(Seq::<char>::empty()) == 0);
    } else {
        lemma_decimal_spells(n / 10);
        assert(decimal(n).drop_last() =~= decimal(n / 10));
        assert forall|i: int| 0 <= i < decimal(n).len() implies is_digit(
            #[trigger] decimal(n)[i],
        ) by {
            if i < decimal(n / 10).len() {
                assert(decimal(n)[i] == decimal(n / 10)[i]);
            }
        }
    }
}

/// Reading a number that was written in decimal gives it back.
pub proof fn lemma_read_decimal(n: nat, low: int, high: int)
    requires
        n <= high,
    ensures
        read_integer(decimal(n), low, high) == Ok::<int, IntegerError>(n as int),
{
    let text = decimal(n);
    lemma_decimal_spells(n);
    assert(is_digit(text[0]));
    assert forall|k: int| 0 <= k <= text.len() implies !(all_digits(#[trigger] text.take(k))
        && digits_value(text.take(k)) > high) by {
        lemma_digits_value_grows(text, k);
    }
}

} // verus!
