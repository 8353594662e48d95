//! The command line of the benchmark, flag by flag.
use crate::args::{views, Argument, ArgumentError, ArgumentView, Refusal};
use crate::bench::config::{parse_args, Command, Config, ConfigView, Flag, OptLevel};
use crate::bench::state::Mode;
use crate::flags::{interpret, lemma_interpret_flag, CommandView, FlagSet};
use crate::laws::service_flags::lemma_written_read;
use crate::text::{read_integer, signed_decimal};
use vstd::prelude::*;

verus! {

/// What each flag does with the value behind it, before the rest of the command
/// line is read.
pub proof fn lemma_flags_set(
    config: ConfigView,
    name: ArgumentView,
    value: ArgumentView,
    rest: Seq<ArgumentView>,
)
    ensures
        name.text == "--model"@ ==> interpret::<Flag>(config, seq![name, value] + rest) == interpret::<
            Flag,
        >(ConfigView { model: value.text, ..config }, rest),
        name.text == "--ort-lib"@ ==> interpret::<Flag>(config, seq![name, value] + rest) == interpret::<
            Flag,
        >(ConfigView { ort_lib: value.text, ..config }, rest),
        name.text == "--sample-rate"@ ==> interpret::<Flag>(config, seq![name, value] + rest)
            == match read_integer(value.text, i64::MIN as int, i64::MAX as int) {
            Ok(n) => interpret::<Flag>(ConfigView { sample_rate: n as i64, ..config }, rest),
            Err(error) => Err(Refusal::Integer { error }),
        },
        name.text == "--chunks"@ ==> interpret::<Flag>(config, seq![name, value] + rest)
            == match read_integer(value.text, 0, usize::MAX as int) {
            Ok(n) => interpret::<Flag>(ConfigView { chunks: n as usize, ..config }, rest),
            Err(error) => Err(Refusal::Integer { error }),
        },
        name.text == "--threads"@ ==> interpret::<Flag>(config, seq![name, value] + rest)
            == match read_integer(value.text, 0, usize::MAX as int) {
            Ok(n) => interpret::<Flag>(ConfigView { threads: n as usize, ..config }, rest),
            Err(error) => Err(Refusal::Integer { error }),
        },
        name.text == "--opt-level"@ ==> interpret::<Flag>(config, seq![name, value] + rest)
            == if value.text == "disable"@ || value.text == "0"@ {
            interpret::<Flag>(ConfigView { opt_level: OptLevel::Disable, ..config }, rest)
        } else if value.text == "level1"@ || value.text == "1"@ {
            interpret::<Flag>(ConfigView { opt_level: OptLevel::Level1, ..config }, rest)
        } else if value.text == "level2"@ || value.text == "2"@ {
            interpret::<Flag>(ConfigView { opt_level: OptLevel::Level2, ..config }, rest)
        } else {
            Err(Refusal::Rule { words: "--opt-level must be disable, level1, or level2"@ })
        },
        name.text == "--mode"@ ==> interpret::<Flag>(config, seq![name, value] + rest)
            == if value.text == "allocating"@ {
            interpret::<Flag>(ConfigView { mode: Mode::Allocating, ..config }, rest)
        } else if value.text == "reused"@ || value.text == "reused_buffers"@ {
            interpret::<Flag>(ConfigView { mode: Mode::ReusedBuffers, ..config }, rest)
        } else {
            Err(Refusal::Rule { words: "--mode must be allocating or reused"@ })
        },
{
    let args = seq![name, value] + rest;
    assert(args.skip(2) =~= rest);
    assert(args[0] == name && args[1] == value);
    if name.text == "--model"@ {
        lemma_interpret_flag(config, args, Flag::Model);
    }
    if name.text == "--ort-lib"@ {
        lemma_interpret_flag(config, args, Flag::OrtLib);
    }
    if name.text == "--sample-rate"@ {
        lemma_interpret_flag(config, args, Flag::SampleRate);
    }
    if name.text == "--chunks"@ {
        lemma_interpret_flag(config, args, Flag::Chunks);
    }
    if name.text == "--threads"@ {
        lemma_interpret_flag(config, args, Flag::Threads);
    }
    if name.text == "--opt-level"@ {
        lemma_interpret_flag(config, args, Flag::OptLevel);
    }
    if name.text == "--mode"@ {
        lemma_interpret_flag(config, args, Flag::Mode);
    }
}

/// A flag for a whole number sets it to the number that is written behind it, for
/// every number of its range.
pub proof fn lemma_numbers_set(
    config: ConfigView,
    name: ArgumentView,
    value: ArgumentView,
    n: int,
    rest: Seq<ArgumentView>,
)
    requires
        value.text == signed_decimal(n),
    ensures
        name.text == "--sample-rate"@ && i64::MIN <= n <= i64::MAX ==> interpret::<Flag>(
            config,
            seq![name, value] + rest,
        ) == interpret::<Flag>(ConfigView { sample_rate: n as i64, ..config }, rest),
        name.text == "--chunks"@ && 0 <= n <= usize::MAX ==> interpret::<Flag>(
            config,
            seq![name, value] + rest,
        ) == interpret::<Flag>(ConfigView { chunks: n as usize, ..config }, rest),
        name.text == "--threads"@ && 0 <= n <= usize::MAX ==> interpret::<Flag>(
            config,
            seq![name, value] + rest,
        ) == interpret::<Flag>(ConfigView { threads: n as usize, ..config }, rest),
{
    lemma_flags_set(config, name, value, rest);
    if 0 <= n <= usize::MAX {
        lemma_written_read(value.text, n, 0, usize::MAX as int);
    }
    if i64::MIN <= n <= i64::MAX {
        lemma_written_read(value.text, n, i64::MIN as int, i64::MAX as int);
    }
}

/// Whether a text is one of the flags that take a value.
pub open spec fn takes_value(text: Seq<char>) -> bool {
    text == "--model"@ || text == "--ort-lib"@ || text == "--sample-rate"@ || text == "--chunks"@ || text == "--threads"@ || text == "--opt-level"@ || text == "--mode"@
}

/// How a command line ends: with nothing left, where the settings are taken or
/// the first rule that they break is named; with a request for help; with a flag
/// that lacks its value; or with what is no flag.
pub proof fn lemma_line_ends(config: ConfigView, args: Seq<ArgumentView>)
    ensures
        args.len() == 0 ==> interpret::<Flag>(config, args) == if config.sample_rate != 8000 && config.sample_rate != 16000 {
            Err(Refusal::Rule { words: "--sample-rate must be 8000 or 16000"@ })
        } else if config.chunks == 0 {
            Err(Refusal::Rule { words: "--chunks must be at least 1"@ })
        } else if config.threads == 0 {
            Err(Refusal::Rule { words: "--threads must be at least 1"@ })
        } else {
            Ok(CommandView::Run(config))
        },
        args.len() > 0 && (args[0].text == "--help"@ || args[0].text == "-h"@) ==> interpret::<Flag>(
            config,
            args,
        ) == Ok::<CommandView<ConfigView>, Refusal>(CommandView::Help),
        args.len() == 1 && takes_value(args[0].text) ==> interpret::<Flag>(config, args) == Err::<
            CommandView<ConfigView>,
            Refusal,
        >(Refusal::MissingValue { flag: args[0].text }),
        args.len() > 0 && !takes_value(args[0].text) && args[0].text != "--help"@ && args[0].text
            != "-h"@ ==> interpret::<Flag>(config, args) == Err::<CommandView<ConfigView>, Refusal>(
            Refusal::Unknown { text: args[0].text },
        ),
{
    if args.len() > 0 {
        let text = args[0].text;
        assert(Flag::Help.is_named(text) <==> text == "--help"@ || text == "-h"@);
        if text == "--model"@ {
            lemma_interpret_flag(config, args, Flag::Model);
        }
        if text == "--ort-lib"@ {
            lemma_interpret_flag(config, args, Flag::OrtLib);
        }
        if text == "--sample-rate"@ {
            lemma_interpret_flag(config, args, Flag::SampleRate);
        }
        if text == "--chunks"@ {
            lemma_interpret_flag(config, args, Flag::Chunks);
        }
        if text == "--threads"@ {
            lemma_interpret_flag(config, args, Flag::Threads);
        }
        if text == "--opt-level"@ {
            lemma_interpret_flag(config, args, Flag::OptLevel);
        }
        if text == "--mode"@ {
            lemma_interpret_flag(config, args, Flag::Mode);
        }
    }
}

/// What `parse_args` answers: what the arguments ask for when they start from the
/// defaults.
pub proof fn lemma_line_parsed(args: &Vec<Argument>, result: Result<Command, ArgumentError>)
    requires
        call_ensures(parse_args, (args,), result),
    ensures
        call_requires(parse_args, (args,)),
        match result {
            Ok(Command::Run(config)) => interpret::<Flag>(ConfigView::defaults(), views(args@)) == Ok::<
                CommandView<ConfigView>,
                Refusal,
            >(CommandView::Run(config@)),
            Ok(Command::Help) => interpret::<Flag>(ConfigView::defaults(), views(args@)) == Ok::<
                CommandView<ConfigView>,
                Refusal,
            >(CommandView::Help),
            Err(error) => interpret::<Flag>(ConfigView::defaults(), views(args@)) == Err::<
                CommandView<ConfigView>,
                Refusal,
            >(error@),
        },
        views(args@).len() == args@.len(),
        forall|i: int|
            0 <= i < args@.len() ==> (#[trigger] views(args@)[i]).text == args@[i].text@ && views(
                args@,
            )[i].number == args@[i].number,
{
}

/// The settings as contracts see them are the settings.
pub proof fn lemma_views(config: Config)
    ensures
        config@.model == config.model@,
        config@.ort_lib == config.ort_lib@,
        config@.sample_rate == config.sample_rate,
        config@.chunks == config.chunks,
        config@.threads == config.threads,
        config@.mode == config.mode,
        config@.opt_level == config.opt_level,
{
}

/// The defaults.
pub proof fn lemma_defaults(config: Config)
    requires
        call_ensures(Config::defaults, (), config),
    ensures
        config@ == ConfigView::defaults(),
        config.model@ == "models/silero_vad.onnx"@,
        config.ort_lib@ == "/opt/onnxruntime/lib/libonnxruntime.so.1.26.0"@,
        config.sample_rate == 16000,
        config.chunks == 20_000,
        config.threads == 1,
        config.mode == Mode::Allocating,
        config.opt_level == OptLevel::Level2,
{
}

} // verus!
