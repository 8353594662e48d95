//! The command line of the service, flag by flag.
use crate::args::{views, Argument, ArgumentError, ArgumentView, Refusal};
use crate::config::{parse_args, Command, Config, ConfigView, Flag};
use crate::flags::{interpret, lemma_interpret_flag, CommandView, FlagSet};
use crate::laws::numbers::{
    finite32, lemma_decimal_digits, lemma_digits_read, lemma_signed_decimal, lemma_threshold_range,
};
use crate::single::scaled_value;
use crate::text::{decimal, read_integer, signed_decimal, IntegerError};
use vstd::arithmetic::power2::pow2;
use vstd::prelude::*;

verus! {

/// What each flag does with the value behind it, before the rest of the command
/// line is read.
pub proof fn lemma_flags_set(
    config: ConfigView,
    name: ArgumentView,
    value: ArgumentView,
    rest: Seq<ArgumentView>,
)
    ensures
        name.text == "--host"@ ==> interpret::<Flag>(config, seq![name, value] + rest) == interpret::<
            Flag,
        >(ConfigView { host: value.text, ..config }, rest),
        name.text == "--model"@ ==> interpret::<Flag>(config, seq![name, value] + rest) == interpret::<
            Flag,
        >(ConfigView { model: value.text, ..config }, rest),
        name.text == "--ort-lib"@ ==> interpret::<Flag>(config, seq![name, value] + rest) == interpret::<
            Flag,
        >(ConfigView { ort_lib: value.text, ..config }, rest),
        name.text == "--port"@ ==> interpret::<Flag>(config, seq![name, value] + rest)
            == match read_integer(value.text, 0, 65535) {
            Ok(n) => interpret::<Flag>(ConfigView { port: n as u16, ..config }, rest),
            Err(error) => Err(Refusal::Integer { error }),
        },
        name.text == "--sample-rate"@ ==> interpret::<Flag>(config, seq![name, value] + rest)
            == match read_integer(value.text, i64::MIN as int, i64::MAX as int) {
            Ok(n) => interpret::<Flag>(ConfigView { sample_rate: n as i64, ..config }, rest),
            Err(error) => Err(Refusal::Integer { error }),
        },
        name.text == "--min-silence-ms"@ ==> interpret::<Flag>(config, seq![name, value] + rest)
            == match read_integer(value.text, i64::MIN as int, i64::MAX as int) {
            Ok(n) => interpret::<Flag>(ConfigView { min_silence_ms: n as i64, ..config }, rest),
            Err(error) => Err(Refusal::Integer { error }),
        },
        name.text == "--speech-pad-ms"@ ==> interpret::<Flag>(config, seq![name, value] + rest)
            == match read_integer(value.text, i64::MIN as int, i64::MAX as int) {
            Ok(n) => interpret::<Flag>(ConfigView { speech_pad_ms: n as i64, ..config }, rest),
            Err(error) => Err(Refusal::Integer { error }),
        },
        name.text == "--threads"@ ==> interpret::<Flag>(config, seq![name, value] + rest)
            == match read_integer(value.text, 0, usize::MAX as int) {
            Ok(n) => interpret::<Flag>(ConfigView { threads: n as usize, ..config }, rest),
            Err(error) => Err(Refusal::Integer { error }),
        },
        name.text == "--max-connections"@ ==> interpret::<Flag>(config, seq![name, value] + rest)
            == match read_integer(value.text, 0, usize::MAX as int) {
            Ok(n) => interpret::<Flag>(ConfigView { max_connections: n as usize, ..config }, rest),
            Err(error) => Err(Refusal::Integer { error }),
        },
        name.text == "--idle-timeout-secs"@ ==> interpret::<Flag>(config, seq![name, value] + rest)
            == match read_integer(value.text, 0, u64::MAX as int) {
            Ok(n) => interpret::<Flag>(ConfigView { idle_timeout_secs: n as u64, ..config }, rest),
            Err(error) => Err(Refusal::Integer { error }),
        },
        name.text == "--threshold"@ ==> interpret::<Flag>(config, seq![name, value] + rest)
            == match value.number {
            Some(bits) => interpret::<Flag>(ConfigView { threshold: bits, ..config }, rest),
            None => Err(Refusal::Number { empty: value.text.len() == 0 }),
        },
{
    let args = seq![name, value] + rest;
    assert(args.skip(2) =~= rest);
    assert(args[0] == name && args[1] == value);
    if name.text == "--host"@ {
        lemma_interpret_flag(config, args, Flag::Host);
    }
    if name.text == "--model"@ {
        lemma_interpret_flag(config, args, Flag::Model);
    }
    if name.text == "--ort-lib"@ {
        lemma_interpret_flag(config, args, Flag::OrtLib);
    }
    if name.text == "--port"@ {
        lemma_interpret_flag(config, args, Flag::Port);
    }
    if name.text == "--sample-rate"@ {
        lemma_interpret_flag(config, args, Flag::SampleRate);
    }
    if name.text == "--min-silence-ms"@ {
        lemma_interpret_flag(config, args, Flag::MinSilenceMs);
    }
    if name.text == "--speech-pad-ms"@ {
        lemma_interpret_flag(config, args, Flag::SpeechPadMs);
    }
    if name.text == "--threads"@ {
        lemma_interpret_flag(config, args, Flag::Threads);
    }
    if name.text == "--max-connections"@ {
        lemma_interpret_flag(config, args, Flag::MaxConnections);
    }
    if name.text == "--idle-timeout-secs"@ {
        lemma_interpret_flag(config, args, Flag::IdleTimeoutSecs);
    }
    if name.text == "--threshold"@ {
        lemma_interpret_flag(config, args, Flag::Threshold);
    }
}

/// A number that is written in decimal is read as that number.
pub proof fn lemma_written_read(text: Seq<char>, n: int, low: int, high: int)
    requires
        text == signed_decimal(n),
        low <= 0 <= high,
        low <= n <= high,
    ensures
        read_integer(text, low, high) == Ok::<int, IntegerError>(n),
{
    lemma_signed_decimal(n);
    if n >= 0 {
        lemma_decimal_digits(n as nat);
        lemma_digits_read(text, decimal(n as nat), low, high);
    } else {
        lemma_decimal_digits((-n) as nat);
        lemma_digits_read(text, decimal((-n) as nat), low, high);
    }
}

/// A flag for a whole number sets it to the number that is written behind it, for
/// every number of its range.
pub proof fn lemma_numbers_set(
    config: ConfigView,
    name: ArgumentView,
    value: ArgumentView,
    n: int,
    rest: Seq<ArgumentView>,
)
    requires
        value.text == signed_decimal(n),
    ensures
        name.text == "--port"@ && 0 <= n <= 65535 ==> interpret::<Flag>(
            config,
            seq![name, value] + rest,
        ) == interpret::<Flag>(ConfigView { port: n as u16, ..config }, rest),
        name.text == "--sample-rate"@ && i64::MIN <= n <= i64::MAX ==> interpret::<Flag>(
            config,
            seq![name, value] + rest,
        ) == interpret::<Flag>(ConfigView { sample_rate: n as i64, ..config }, rest),
        name.text == "--min-silence-ms"@ && i64::MIN <= n <= i64::MAX ==> interpret::<Flag>(
            config,
            seq![name, value] + rest,
        ) == interpret::<Flag>(ConfigView { min_silence_ms: n as i64, ..config }, rest),
        name.text == "--speech-pad-ms"@ && i64::MIN <= n <= i64::MAX ==> interpret::<Flag>(
            config,
            seq![name, value] + rest,
        ) == interpret::<Flag>(ConfigView { speech_pad_ms: n as i64, ..config }, rest),
        name.text == "--threads"@ && 0 <= n <= usize::MAX ==> interpret::<Flag>(
            config,
            seq![name, value] + rest,
        ) == interpret::<Flag>(ConfigView { threads: n as usize, ..config }, rest),
        name.text == "--max-connections"@ && 0 <= n <= usize::MAX ==> interpret::<Flag>(
            config,
            seq![name, value] + rest,
        ) == interpret::<Flag>(ConfigView { max_connections: n as usize, ..config }, rest),
        name.text == "--idle-timeout-secs"@ && 0 <= n <= u64::MAX ==> interpret::<Flag>(
            config,
            seq![name, value] + rest,
        ) == interpret::<Flag>(ConfigView { idle_timeout_secs: n as u64, ..config }, rest),
{
    lemma_flags_set(config, name, value, rest);
    if 0 <= n <= 65535 {
        lemma_written_read(value.text, n, 0, 65535);
    }
    if 0 <= n <= u64::MAX {
        lemma_written_read(value.text, n, 0, u64::MAX as int);
    }
    if 0 <= n <= usize::MAX {
        lemma_written_read(value.text, n, 0, usize::MAX as int);
    }
    if i64::MIN <= n <= i64::MAX {
        lemma_written_read(value.text, n, i64::MIN as int, i64::MAX as int);
    }
}

/// Whether a text is one of the flags that take a value.
pub open spec fn takes_value(text: Seq<char>) -> bool {
    text == "--host"@ || text == "--model"@ || text == "--ort-lib"@ || text == "--port"@ || text == "--sample-rate"@ || text == "--min-silence-ms"@ || text == "--speech-pad-ms"@ || text == "--threads"@ || text == "--max-connections"@ || text == "--idle-timeout-secs"@ || text == "--threshold"@
}

/// How a command line ends: with nothing left, where the settings are taken or
/// the first rule that they break is named; with a request for help; with a flag
/// that lacks its value; or with what is no flag.
pub proof fn lemma_line_ends(config: ConfigView, args: Seq<ArgumentView>)
    ensures
        args.len() == 0 ==> interpret::<Flag>(config, args) == if config.sample_rate != 8000 && config.sample_rate != 16000 {
            Err(Refusal::Rule { words: "--sample-rate must be 8000 or 16000"@ })
        } else if !(finite32(config.threshold) && 0 <= scaled_value(config.threshold) <= pow2(149)) {
            Err(Refusal::Rule { words: "--threshold must be between 0 and 1"@ })
        } else if config.threads == 0 {
            Err(Refusal::Rule { words: "--threads must be at least 1"@ })
        } else if config.max_connections == 0 {
            Err(Refusal::Rule { words: "--max-connections must be at least 1"@ })
        } else {
            Ok(CommandView::Run(config))
        },
        args.len() > 0 && (args[0].text == "--help"@ || args[0].text == "-h"@) ==> interpret::<Flag>(
            config,
            args,
        ) == Ok::<CommandView<ConfigView>, Refusal>(CommandView::Help),
        args.len() == 1 && takes_value(args[0].text) ==> interpret::<Flag>(config, args) == Err::<
            CommandView<ConfigView>,
            Refusal,
        >(Refusal::MissingValue { flag: args[0].text }),
        args.len() > 0 && !takes_value(args[0].text) && args[0].text != "--help"@ && args[0].text
            != "-h"@ ==> interpret::<Flag>(config, args) == Err::<CommandView<ConfigView>, Refusal>(
            Refusal::Unknown { text: args[0].text },
        ),
{
    lemma_threshold_range(config.threshold);
    if args.len() > 0 {
        let text = args[0].text;
        assert(Flag::Help.is_named(text) <==> text == "--help"@ || text == "-h"@);
        if text == "--host"@ {
            lemma_interpret_flag(config, args, Flag::Host);
        }
        if text == "--model"@ {
            lemma_interpret_flag(config, args, Flag::Model);
        }
        if text == "--ort-lib"@ {
            lemma_interpret_flag(config, args, Flag::OrtLib);
        }
        if text == "--port"@ {
            lemma_interpret_flag(config, args, Flag::Port);
        }
        if text == "--sample-rate"@ {
            lemma_interpret_flag(config, args, Flag::SampleRate);
        }
        if text == "--min-silence-ms"@ {
            lemma_interpret_flag(config, args, Flag::MinSilenceMs);
        }
        if text == "--speech-pad-ms"@ {
            lemma_interpret_flag(config, args, Flag::SpeechPadMs);
        }
        if text == "--threads"@ {
            lemma_interpret_flag(config, args, Flag::Threads);
        }
        if text == "--max-connections"@ {
            lemma_interpret_flag(config, args, Flag::MaxConnections);
        }
        if text == "--idle-timeout-secs"@ {
            lemma_interpret_flag(config, args, Flag::IdleTimeoutSecs);
        }
        if text == "--threshold"@ {
            lemma_interpret_flag(config, args, Flag::Threshold);
        }
    }
}

/// What `parse_args` answers: what the arguments ask for when they start from the
/// defaults.
pub proof fn lemma_line_parsed(args: &Vec<Argument>, result: Result<Command, ArgumentError>)
    requires
        call_ensures(parse_args, (args,), result),
    ensures
        call_requires(parse_args, (args,)),
        match result {
            Ok(Command::Run(config)) => interpret::<Flag>(ConfigView::defaults(), views(args@)) == Ok::<
                CommandView<ConfigView>,
                Refusal,
            >(CommandView::Run(config@)),
            Ok(Command::Help) => interpret::<Flag>(ConfigView::defaults(), views(args@)) == Ok::<
                CommandView<ConfigView>,
                Refusal,
            >(CommandView::Help),
            Err(error) => interpret::<Flag>(ConfigView::defaults(), views(args@)) == Err::<
                CommandView<ConfigView>,
                Refusal,
            >(error@),
        },
        views(args@).len() == args@.len(),
        forall|i: int|
            0 <= i < args@.len() ==> (#[trigger] views(args@)[i]).text == args@[i].text@ && views(
                args@,
            )[i].number == args@[i].number,
{
}

/// The settings as contracts see them are the settings.
pub proof fn lemma_views(config: Config)
    ensures
        config@.host == config.host@,
        config@.port == config.port,
        config@.model == config.model@,
        config@.ort_lib == config.ort_lib@,
        config@.sample_rate == config.sample_rate,
        config@.threshold == config.threshold,
        config@.min_silence_ms == config.min_silence_ms,
        config@.speech_pad_ms == config.speech_pad_ms,
        config@.threads == config.threads,
        config@.max_connections == config.max_connections,
        config@.idle_timeout_secs == config.idle_timeout_secs,
{
}

/// The defaults.
pub proof fn lemma_defaults(config: Config)
    requires
        call_ensures(Config::defaults, (), config),
    ensures
        config@ == ConfigView::defaults(),
        config.host@ == "0.0.0.0"@,
        config.port == 8080,
        config.model@ == "models/silero_vad.onnx"@,
        config.ort_lib@ == "/opt/onnxruntime/lib/libonnxruntime.so.1.26.0"@,
        config.sample_rate == 16000,
        config.threshold == 0x3F00_0000,
        config.min_silence_ms == 100,
        config.speech_pad_ms == 30,
        config.threads == 1,
        config.max_connections == 8,
        config.idle_timeout_secs == 60,
{
}

} // verus!
