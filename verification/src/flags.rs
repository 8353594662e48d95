//! Command lines of flags and values, for any set of flags.
use crate::args::{
    distinct, joined, lemma_joined, lemma_rearranged, lemma_rearranged_distinct, ArgumentView,
    Refusal,
};
use vstd::prelude::*;

verus! {

/// A set of flags, with the settings that they set.
pub trait FlagSet: Sized {
    /// The settings as contracts see them.
    type Settings;

    /// A value as a flag takes it.
    type Value;

    /// The flag that asks for help.
    spec fn help() -> Self;

    /// How the flag is written.
    spec fn written(self) -> Seq<char>;

    /// Whether a text is the flag; help can also be written short.
    spec fn is_named(self, text: Seq<char>) -> bool;

    /// What the flag reads from its value.
    spec fn reads(self, value: ArgumentView) -> Result<Self::Value, Refusal>;

    /// The settings with what the flag sets changed.
    spec fn with_value(self, settings: Self::Settings, value: Self::Value) -> Self::Settings;

    /// What the flag sets, as it stands in the settings.
    spec fn field(self, settings: Self::Settings) -> Self::Value;

    /// The words for the first rule that the settings break, if they break one.
    spec fn broken_rule(settings: Self::Settings) -> Option<Seq<char>>;

    /// A flag other than help is named as it is written.
    proof fn named_as_written(self, text: Seq<char>)
        requires
            self != Self::help(),
        ensures
            self.is_named(text) <==> text == self.written(),
    ;

    /// No text is two flags.
    proof fn flags_differ(text: Seq<char>, a: Self, b: Self)
        requires
            a.is_named(text),
            b.is_named(text),
        ensures
            a == b,
    ;

    /// A flag sets its own field to what it read, and no other.
    proof fn fields_apart(settings: Self::Settings, flag: Self, value: ArgumentView, other: Self)
        requires
            flag != Self::help(),
            other != Self::help(),
            flag.reads(value) is Ok,
        ensures
            flag.field(flag.with_value(settings, flag.reads(value)->Ok_0)) == flag.reads(
                value,
            )->Ok_0,
            other != flag ==> other.field(flag.with_value(settings, flag.reads(value)->Ok_0))
                == other.field(settings),
    ;

    /// Settings are equal where all their fields are.
    proof fn fields_tell(a: Self::Settings, b: Self::Settings)
        requires
            forall|flag: Self| flag != Self::help() ==> #[trigger] flag.field(a) == flag.field(b),
        ensures
            a == b,
    ;
}

/// What a command line asks for, as contracts see it.
pub enum CommandView<C> {
    Run(C),
    Help,
}

/// The settings with the value of one flag set.
pub open spec fn with_flag<F: FlagSet>(settings: F::Settings, flag: F, value: ArgumentView) -> Result<
    F::Settings,
    Refusal,
> {
    match flag.reads(value) {
        Ok(taken) => Ok(flag.with_value(settings, taken)),
        Err(refusal) => Err(refusal),
    }
}

/// The settings, or the first rule that they break.
pub open spec fn checked<F: FlagSet>(settings: F::Settings) -> Result<
    CommandView<F::Settings>,
    Refusal,
> {
    match F::broken_rule(settings) {
        Some(words) => Err(Refusal::Rule { words }),
        None => Ok(CommandView::Run(settings)),
    }
}

/// What a command line asks for when it starts from `settings`: flags and
/// values in turn, up to a request for help or the first fault.
pub open spec fn interpret<F: FlagSet>(settings: F::Settings, args: Seq<ArgumentView>) -> Result<
    CommandView<F::Settings>,
    Refusal,
>
    decreases args.len(),
{
    if args.len() == 0 {
        checked::<F>(settings)
    } else if F::help().is_named(args[0].text) {
        Ok(CommandView::Help)
    } else if exists|flag: F| flag.is_named(args[0].text) {
        let flag = choose|flag: F| flag.is_named(args[0].text);
        if args.len() == 1 {
            Err(Refusal::MissingValue { flag: flag.written() })
        } else {
            match with_flag(settings, flag, args[1]) {
                Ok(next) => interpret::<F>(next, args.skip(2)),
                Err(refusal) => Err(refusal),
            }
        }
    } else {
        Err(Refusal::Unknown { text: args[0].text })
    }
}

/// A flag with a value sets it, and the rest is read on.
pub proof fn lemma_interpret_flag<F: FlagSet>(
    settings: F::Settings,
    args: Seq<ArgumentView>,
    flag: F,
)
    requires
        args.len() > 0,
        flag.is_named(args[0].text),
        flag != F::help(),
    ensures
        args.len() == 1 ==> interpret::<F>(settings, args) == Err::<
            CommandView<F::Settings>,
            Refusal,
        >(Refusal::MissingValue { flag: flag.written() }),
        args.len() > 1 ==> interpret::<F>(settings, args) == match with_flag(
            settings,
            flag,
            args[1],
        ) {
            Ok(next) => interpret::<F>(next, args.skip(2)),
            Err(refusal) => Err(refusal),
        },
{
    let chosen = choose|other: F| other.is_named(args[0].text);
    F::flags_differ(args[0].text, chosen, flag);
    if F::help().is_named(args[0].text) {
        F::flags_differ(args[0].text, F::help(), flag);
    }
}

/// Whatever follows a request for help, help is given.
pub proof fn lemma_help_wins<F: FlagSet>(settings: F::Settings, args: Seq<ArgumentView>)
    requires
        args.len() > 0,
        F::help().is_named(args[0].text),
    ensures
        interpret::<F>(settings, args) == Ok::<CommandView<F::Settings>, Refusal>(
            CommandView::Help,
        ),
{
}

/// Settings that a command line is accepted with keep their rules.
pub proof fn lemma_accepted_keeps_rules<F: FlagSet>(
    settings: F::Settings,
    args: Seq<ArgumentView>,
)
    ensures
        interpret::<F>(settings, args) matches Ok(CommandView::Run(accepted)) ==> F::broken_rule(
            accepted,
        ) is None,
    decreases args.len(),
{
    if args.len() > 0 && !F::help().is_named(args[0].text) && exists|flag: F|
        flag.is_named(args[0].text) {
        let flag = choose|flag: F| flag.is_named(args[0].text);
        if args.len() > 1 {
            if let Ok(next) = with_flag(settings, flag, args[1]) {
                lemma_accepted_keeps_rules::<F>(next, args.skip(2));
            }
        }
    }
}

/// Of two acceptable values for one flag, given one after the other, the
/// second counts.
pub proof fn lemma_later_value_wins<F: FlagSet>(
    settings: F::Settings,
    flag: F,
    first: ArgumentView,
    second: ArgumentView,
    name: ArgumentView,
    rest: Seq<ArgumentView>,
)
    requires
        flag.is_named(name.text),
        flag != F::help(),
        flag.reads(first) is Ok,
    ensures
        interpret::<F>(settings, seq![name, first, name, second] + rest) == interpret::<F>(
            settings,
            seq![name, second] + rest,
        ),
{
    let long = seq![name, first, name, second] + rest;
    let short = seq![name, second] + rest;
    lemma_interpret_flag(settings, long, flag);
    lemma_interpret_flag(settings, short, flag);
    let next = with_flag(settings, flag, first)->Ok_0;
    assert(long.skip(2) =~= short);
    lemma_interpret_flag(next, short, flag);
    assert(short.skip(2) =~= rest);
    if flag.reads(second) is Ok {
        let (one, two) = (
            flag.with_value(next, flag.reads(second)->Ok_0),
            flag.with_value(settings, flag.reads(second)->Ok_0),
        );
        assert forall|other: F| other != F::help() implies #[trigger] other.field(one)
            == other.field(two) by {
            F::fields_apart(next, flag, second, other);
            F::fields_apart(settings, flag, second, other);
            F::fields_apart(settings, flag, first, other);
        }
        F::fields_tell(one, two);
    }
}

/// Whether a pair is a flag other than help with a value that it takes.
pub open spec fn acceptable<F: FlagSet>(pair: (ArgumentView, ArgumentView)) -> bool {
    exists|flag: F| #[trigger]
        flag.is_named(pair.0.text) && flag != F::help() && flag.reads(pair.1) is Ok
}

/// Whether none of the pairs asks for help.
pub open spec fn no_help<F: FlagSet>(pairs: Seq<(ArgumentView, ArgumentView)>) -> bool {
    forall|i: int| 0 <= i < pairs.len() ==> !F::help().is_named((#[trigger] pairs[i]).0.text)
}

/// Whether settings come from others by the pairs: what a pair names is what its
/// value gives, and what none names is as it was.
pub open spec fn set_by<F: FlagSet>(
    before: F::Settings,
    pairs: Seq<(ArgumentView, ArgumentView)>,
    after: F::Settings,
) -> bool {
    &&& forall|i: int, flag: F|
        0 <= i < pairs.len() && flag != F::help() && #[trigger] flag.is_named(pairs[i].0.text)
            ==> flag.reads(pairs[i].1) == Ok::<F::Value, Refusal>(flag.field(after))
    &&& forall|flag: F|
        flag != F::help() && (forall|i: int|
            0 <= i < pairs.len() ==> !flag.is_named((#[trigger] pairs[i]).0.text))
            ==> #[trigger] flag.field(after) == flag.field(before)
}

/// A row of pairs is accepted exactly if every pair is and the settings that
/// they make keep the rules.
proof fn lemma_pairs_interpreted<F: FlagSet>(
    settings: F::Settings,
    pairs: Seq<(ArgumentView, ArgumentView)>,
) -> (next: F::Settings)
    requires
        distinct(pairs),
        no_help::<F>(pairs),
    ensures
        (forall|i: int| 0 <= i < pairs.len() ==> acceptable::<F>(#[trigger] pairs[i]))
            ==> interpret::<F>(settings, joined(pairs)) == checked::<F>(next) && set_by::<F>(
            settings,
            pairs,
            next,
        ),
        (exists|i: int| 0 <= i < pairs.len() && !acceptable::<F>(#[trigger] pairs[i]))
            ==> interpret::<F>(settings, joined(pairs)) is Err,
    decreases pairs.len(),
{
    if pairs.len() == 0 {
        settings
    } else {
        lemma_joined(pairs);
        let (name, value) = pairs[0];
        if acceptable::<F>(pairs[0]) {
            let flag = choose|flag: F| #[trigger]
                flag.is_named(name.text) && flag != F::help() && flag.reads(value) is Ok;
            let after = flag.with_value(settings, flag.reads(value)->Ok_0);
            lemma_interpret_flag(settings, joined(pairs), flag);
            let rest = pairs.skip(1);
            assert forall|i: int| 0 <= i < rest.len() implies #[trigger] rest[i] == pairs[i
                + 1] by {}
            let next = lemma_pairs_interpreted::<F>(after, rest);
            if forall|i: int| 0 <= i < pairs.len() ==> acceptable::<F>(#[trigger] pairs[i]) {
                assert forall|i: int| 0 <= i < rest.len() implies acceptable::<F>(
                    #[trigger] rest[i],
                ) by {
                    assert(acceptable::<F>(pairs[i + 1]));
                }
                lemma_set_by_extended(settings, pairs, flag, after, next);
            } else {
                let i = choose|i: int|
                    0 <= i < pairs.len() && !acceptable::<F>(#[trigger] pairs[i]);
                assert(!acceptable::<F>(rest[i - 1]));
            }
            next
        } else {
            if exists|flag: F| flag.is_named(name.text) {
                let flag = choose|flag: F| flag.is_named(name.text);
                lemma_interpret_flag(settings, joined(pairs), flag);
            }
            settings
        }
    }
}

/// What the first pair sets stays set, because no later pair names its flag.
proof fn lemma_set_by_extended<F: FlagSet>(
    settings: F::Settings,
    pairs: Seq<(ArgumentView, ArgumentView)>,
    flag: F,
    after: F::Settings,
    next: F::Settings,
)
    requires
        distinct(pairs),
        pairs.len() > 0,
        flag != F::help(),
        flag.is_named(pairs[0].0.text),
        flag.reads(pairs[0].1) is Ok,
        after == flag.with_value(settings, flag.reads(pairs[0].1)->Ok_0),
        set_by::<F>(after, pairs.skip(1), next),
    ensures
        set_by::<F>(settings, pairs, next),
{
    let rest = pairs.skip(1);
    assert forall|i: int| 0 <= i < rest.len() implies !flag.is_named(
        (#[trigger] rest[i]).0.text,
    ) by {
        assert(rest[i] == pairs[i + 1]);
        assert(pairs[0].0.text != pairs[i + 1].0.text);
        flag.named_as_written(pairs[0].0.text);
        flag.named_as_written(rest[i].0.text);
    }
    assert(flag.field(next) == flag.field(after));
    F::fields_apart(settings, flag, pairs[0].1, flag);
    assert forall|i: int, other: F|
        0 <= i < pairs.len() && other != F::help() && #[trigger] other.is_named(
            pairs[i].0.text,
        ) implies other.reads(pairs[i].1) == Ok::<F::Value, Refusal>(other.field(next)) by {
        if i == 0 {
            F::flags_differ(pairs[0].0.text, flag, other);
        } else {
            assert(rest[i - 1] == pairs[i]);
            assert(other.is_named(rest[i - 1].0.text));
        }
    }
    assert forall|other: F|
        other != F::help() && (forall|i: int|
            0 <= i < pairs.len() ==> !other.is_named((#[trigger] pairs[i]).0.text))
        implies #[trigger] other.field(next) == other.field(settings) by {
        assert(!other.is_named(pairs[0].0.text));
        assert forall|i: int| 0 <= i < rest.len() implies !other.is_named(
            (#[trigger] rest[i]).0.text,
        ) by {
            assert(rest[i] == pairs[i + 1]);
        }
        F::fields_apart(settings, flag, pairs[0].1, other);
    }
}

/// What a flag names is set to what its value gives, and what no flag names is
/// left as it was, where no flag is given twice.
pub proof fn lemma_settings_given<F: FlagSet>(
    settings: F::Settings,
    pairs: Seq<(ArgumentView, ArgumentView)>,
    accepted: F::Settings,
)
    requires
        distinct(pairs),
        no_help::<F>(pairs),
        interpret::<F>(settings, joined(pairs)) == Ok::<CommandView<F::Settings>, Refusal>(
            CommandView::Run(accepted),
        ),
    ensures
        set_by::<F>(settings, pairs, accepted),
{
    let next = lemma_pairs_interpreted::<F>(settings, pairs);
}

/// Flags may be given in any order: a rearrangement of pairs of different flags
/// and their values is refused as well, or gives the same outcome.
pub proof fn lemma_order_is_free<F: FlagSet>(
    settings: F::Settings,
    a: Seq<(ArgumentView, ArgumentView)>,
    b: Seq<(ArgumentView, ArgumentView)>,
)
    requires
        distinct(a),
        no_help::<F>(a),
        a.to_multiset() == b.to_multiset(),
    ensures
        interpret::<F>(settings, joined(a)) is Ok <==> interpret::<F>(settings, joined(b)) is Ok,
        interpret::<F>(settings, joined(a)) is Ok ==> interpret::<F>(settings, joined(a))
            == interpret::<F>(settings, joined(b)),
{
    assert forall|j: int| 0 <= j < b.len() implies !F::help().is_named(
        (#[trigger] b[j]).0.text,
    ) by {
        let i = lemma_rearranged(b, a, j);
        assert(!F::help().is_named(a[i].0.text));
    }
    lemma_rearranged_distinct(a, b);
    let one = lemma_pairs_interpreted::<F>(settings, a);
    let two = lemma_pairs_interpreted::<F>(settings, b);
    if forall|i: int| 0 <= i < a.len() ==> acceptable::<F>(#[trigger] a[i]) {
        assert forall|j: int| 0 <= j < b.len() implies acceptable::<F>(#[trigger] b[j]) by {
            let i = lemma_rearranged(b, a, j);
            assert(acceptable::<F>(a[i]));
        }
        assert forall|flag: F| flag != F::help() implies #[trigger] flag.field(one) == flag.field(
            two,
        ) by {
            if exists|i: int| 0 <= i < a.len() && flag.is_named((#[trigger] a[i]).0.text) {
                let i = choose|i: int| 0 <= i < a.len() && flag.is_named((#[trigger] a[i]).0.text);
                let j = lemma_rearranged(a, b, i);
                assert(flag.is_named(b[j].0.text));
            } else {
                assert forall|j: int| 0 <= j < b.len() implies !flag.is_named(
                    (#[trigger] b[j]).0.text,
                ) by {
                    let i = lemma_rearranged(b, a, j);
                    assert(!flag.is_named(a[i].0.text));
                }
            }
        }
        F::fields_tell(one, two);
    } else {
        let i = choose|i: int| 0 <= i < a.len() && !acceptable::<F>(#[trigger] a[i]);
        let j = lemma_rearranged(a, b, i);
        assert(!acceptable::<F>(b[j]));
    }
}

} // verus!
