//! Command line arguments and why they are refused.
use crate::text::{parse_integer, read_integer, IntegerError};
use vstd::prelude::*;

verus! {

/// One argument: its text, and the bit pattern of the single-precision number
/// that it spells, if it spells one.
#[derive(Debug)]
pub struct Argument {
    pub text: String,
    pub number: Option<u32>,
}

/// An argument as contracts see it.
pub struct ArgumentView {
    pub text: Seq<char>,
    pub number: Option<u32>,
}

impl View for Argument {
    type V = ArgumentView;

    open spec fn view(&self) -> ArgumentView {
        ArgumentView { text: self.text@, number: self.number }
    }
}

/// The arguments as contracts see them.
pub open spec fn views(args: Seq<Argument>) -> Seq<ArgumentView> {
    args.map_values(|arg: Argument| arg@)
}

/// The arguments that pairs of a flag and its value make.
pub open spec fn joined(pairs: Seq<(ArgumentView, ArgumentView)>) -> Seq<ArgumentView> {
    Seq::new(
        2 * pairs.len(),
        |i: int|
            if i % 2 == 0 {
                pairs[i / 2].0
            } else {
                pairs[i / 2].1
            },
    )
}

/// Whether no two pairs begin alike.
pub open spec fn distinct(pairs: Seq<(ArgumentView, ArgumentView)>) -> bool {
    forall|i: int, j: int|
        0 <= i < j < pairs.len() ==> (#[trigger] pairs[i]).0.text != (#[trigger] pairs[j]).0.text
}

/// The first pair makes the first two arguments, the others the rest.
pub proof fn lemma_joined(pairs: Seq<(ArgumentView, ArgumentView)>)
    requires
        pairs.len() > 0,
    ensures
        joined(pairs)[0] == pairs[0].0,
        joined(pairs)[1] == pairs[0].1,
        joined(pairs).skip(2) == joined(pairs.skip(1)),
{
    assert(joined(pairs).skip(2) =~= joined(pairs.skip(1)));
}

/// What stands in one row of pairs stands in every rearrangement of it.
pub proof fn lemma_rearranged(
    a: Seq<(ArgumentView, ArgumentView)>,
    b: Seq<(ArgumentView, ArgumentView)>,
    i: int,
) -> (j: int)
    requires
        a.to_multiset() == b.to_multiset(),
        0 <= i < a.len(),
    ensures
        0 <= j < b.len(),
        b[j] == a[i],
{
    broadcast use vstd::seq_lib::group_to_multiset_ensures;

    assert(a.contains(a[i]));
    assert(b.to_multiset().count(a[i]) > 0);
    assert(b.contains(a[i]));
    choose|j: int| 0 <= j < b.len() && b[j] == a[i]
}

/// A rearrangement of pairs that begin differently keeps that.
pub proof fn lemma_rearranged_distinct(
    a: Seq<(ArgumentView, ArgumentView)>,
    b: Seq<(ArgumentView, ArgumentView)>,
)
    requires
        a.to_multiset() == b.to_multiset(),
        distinct(a),
    ensures
        distinct(b),
{
    assert(a.no_duplicates()) by {
        assert forall|i: int, j: int| 0 <= i < a.len() && 0 <= j < a.len() && i != j implies a[i]
            != a[j] by {
            if i < j {
                assert(a[i].0.text != a[j].0.text);
            } else {
                assert(a[j].0.text != a[i].0.text);
            }
        }
    }
    a.lemma_multiset_has_no_duplicates();
    b.lemma_multiset_has_no_duplicates_conv();
    assert forall|i: int, j: int| 0 <= i < j < b.len() implies (#[trigger] b[i]).0.text != (
    #[trigger] b[j]).0.text by {
        let k = lemma_rearranged(b, a, i);
        let l = lemma_rearranged(b, a, j);
        assert(b[i] != b[j]);
        if k < l {
            assert(a[k].0.text != a[l].0.text);
        } else {
            assert(a[l].0.text != a[k].0.text);
        }
    }
}

/// Why a command line is refused.
#[derive(Debug, PartialEq)]
pub enum ArgumentError {
    /// A flag is the last argument but needs a value.
    MissingValue { flag: &'static str },
    /// A value is not a whole number of the wanted range.
    Integer { error: IntegerError },
    /// A value is not a number; whether it is the empty text.
    Number { empty: bool },
    /// An argument is no flag.
    Unknown { text: String },
    /// A flag or its value breaks the rule that the words state.
    Rule { words: &'static str },
}

/// A refusal as contracts see it.
pub enum Refusal {
    MissingValue { flag: Seq<char> },
    Integer { error: IntegerError },
    Number { empty: bool },
    Unknown { text: Seq<char> },
    Rule { words: Seq<char> },
}

impl View for ArgumentError {
    type V = Refusal;

    open spec fn view(&self) -> Refusal {
        match *self {
            ArgumentError::MissingValue { flag } => Refusal::MissingValue { flag: flag@ },
            ArgumentError::Integer { error } => Refusal::Integer { error },
            ArgumentError::Number { empty } => Refusal::Number { empty },
            ArgumentError::Unknown { text } => Refusal::Unknown { text: text@ },
            ArgumentError::Rule { words } => Refusal::Rule { words: words@ },
        }
    }
}

/// The words for a text that is no whole number.
pub open spec fn integer_error_text(error: IntegerError) -> Seq<char> {
    match error {
        IntegerError::Empty => "cannot parse integer from empty string"@,
        IntegerError::InvalidDigit => "invalid digit found in string"@,
        IntegerError::TooLarge => "number too large to fit in target type"@,
        IntegerError::TooSmall => "number too small to fit in target type"@,
    }
}

impl Refusal {
    /// The refusal in words.
    pub open spec fn text(self) -> Seq<char> {
        match self {
            Refusal::MissingValue { flag } => flag + " requires a value"@,
            Refusal::Integer { error } => integer_error_text(error),
            Refusal::Number { empty } => if empty {
                "cannot parse float from empty string"@
            } else {
                "invalid float literal"@
            },
            Refusal::Unknown { text } => "unknown argument: "@ + text,
            Refusal::Rule { words } => words,
        }
    }
}

impl ArgumentError {
    /// The refusal in words.
    pub fn message(&self) -> (words: String)
        ensures
            words@ == self@.text(),
    {
        match self {
            ArgumentError::MissingValue { flag } => {
                let mut words: String = (*flag).to_owned();
                words.append(" requires a value");
                words
            },
            ArgumentError::Integer { error } => match error {
                IntegerError::Empty => "cannot parse integer from empty string".to_owned(),
                IntegerError::InvalidDigit => "invalid digit found in string".to_owned(),
                IntegerError::TooLarge => "number too large to fit in target type".to_owned(),
                IntegerError::TooSmall => "number too small to fit in target type".to_owned(),
            },
            ArgumentError::Number { empty } => {
                if *empty {
                    "cannot parse float from empty string".to_owned()
                } else {
                    "invalid float literal".to_owned()
                }
            },
            ArgumentError::Unknown { text } => {
                let mut words: String = "unknown argument: ".to_owned();
                words.append(text.as_str());
                words
            },
            ArgumentError::Rule { words } => (*words).to_owned(),
        }
    }
}

/// The whole number that a value spells, or the refusal.
pub open spec fn integer_value(value: ArgumentView, low: int, high: int) -> Result<int, Refusal> {
    match read_integer(value.text, low, high) {
        Ok(n) => Ok(n),
        Err(error) => Err(Refusal::Integer { error }),
    }
}

/// The number that a value spells, or the refusal.
pub open spec fn number_value(value: ArgumentView) -> Result<u32, Refusal> {
    match value.number {
        Some(bits) => Ok(bits),
        None => Err(Refusal::Number { empty: value.text.len() == 0 }),
    }
}

/// Reads a value as a whole number.
pub fn take_integer(value: &Argument, low: i128, high: i128) -> (result: Result<
    i128,
    ArgumentError,
>)
    requires
        i64::MIN <= low <= 0,
        0 <= high <= u64::MAX,
    ensures
        match result {
            Ok(n) => integer_value(value@, low as int, high as int) == Ok::<int, Refusal>(n as int)
                && low <= n <= high,
            Err(error) => integer_value(value@, low as int, high as int) == Err::<int, Refusal>(
                error@,
            ),
        },
{
    match parse_integer(value.text.as_str(), low, high) {
        Ok(n) => Ok(n),
        Err(error) => Err(ArgumentError::Integer { error }),
    }
}

/// Reads a value as a number.
pub fn take_number(value: &Argument) -> (result: Result<u32, ArgumentError>)
    ensures
        match result {
            Ok(bits) => number_value(value@) == Ok::<u32, Refusal>(bits),
            Err(error) => number_value(value@) == Err::<u32, Refusal>(error@),
        },
{
    match value.number {
        Some(bits) => Ok(bits),
        None => Err(ArgumentError::Number { empty: value.text.as_str().unicode_len() == 0 }),
    }
}

} // verus!
