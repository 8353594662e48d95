//! The settings of the benchmark and the command line that gives them.
use crate::args::{
    integer_value, take_integer, views, Argument, ArgumentError, ArgumentView, Refusal,
};
use crate::bench::state::Mode;
use crate::detector::valid_rate;
use crate::flags::{
    checked, interpret, lemma_accepted_keeps_rules, lemma_interpret_flag, with_flag, CommandView,
    FlagSet,
};
use crate::text::{lemma_integer_range, text_is};
use vstd::prelude::*;

verus! {

/// How far the model runtime optimizes the model.
#[derive(Clone, Copy, Debug, PartialEq, Eq, Structural)]
pub enum OptLevel {
    Disable,
    Level1,
    Level2,
}

/// The settings of the benchmark.
#[derive(Debug, PartialEq)]
pub struct Config {
    pub model: String,
    pub ort_lib: String,
    pub sample_rate: i64,
    pub chunks: usize,
    pub threads: usize,
    pub mode: Mode,
    pub opt_level: OptLevel,
}

/// The settings as contracts see them.
pub struct ConfigView {
    pub model: Seq<char>,
    pub ort_lib: Seq<char>,
    pub sample_rate: i64,
    pub chunks: usize,
    pub threads: usize,
    pub mode: Mode,
    pub opt_level: OptLevel,
}

impl View for Config {
    type V = ConfigView;

    open spec fn view(&self) -> ConfigView {
        ConfigView {
            model: self.model@,
            ort_lib: self.ort_lib@,
            sample_rate: self.sample_rate,
            chunks: self.chunks,
            threads: self.threads,
            mode: self.mode,
            opt_level: self.opt_level,
        }
    }
}

impl ConfigView {
    /// What the benchmark runs with when no flag says otherwise.
    pub open spec fn defaults() -> ConfigView {
        ConfigView {
            model: "models/silero_vad.onnx"@,
            ort_lib: "/opt/onnxruntime/lib/libonnxruntime.so.1.26.0"@,
            sample_rate: 16000,
            chunks: 20_000,
            threads: 1,
            mode: Mode::Allocating,
            opt_level: OptLevel::Level2,
        }
    }

    /// The rules that settings have to keep.
    pub open spec fn valid(self) -> bool {
        &&& valid_rate(self.sample_rate as int)
        &&& 1 <= self.chunks
        &&& 1 <= self.threads
    }
}

/// What a command line asks for.
#[derive(Debug, PartialEq)]
pub enum Command {
    Run(Config),
    Help,
}

impl View for Command {
    type V = CommandView<ConfigView>;

    open spec fn view(&self) -> CommandView<ConfigView> {
        match *self {
            Command::Run(config) => CommandView::Run(config@),
            Command::Help => CommandView::Help,
        }
    }
}

/// The flags of the benchmark.
#[derive(Clone, Copy, Debug, PartialEq, Eq, Structural)]
pub enum Flag {
    Model,
    OrtLib,
    SampleRate,
    Chunks,
    Threads,
    OptLevel,
    Mode,
    Help,
}

/// How a flag is written.
pub open spec fn flag_text(flag: Flag) -> Seq<char> {
    match flag {
        Flag::Model => "--model"@,
        Flag::OrtLib => "--ort-lib"@,
        Flag::SampleRate => "--sample-rate"@,
        Flag::Chunks => "--chunks"@,
        Flag::Threads => "--threads"@,
        Flag::OptLevel => "--opt-level"@,
        Flag::Mode => "--mode"@,
        Flag::Help => "--help"@,
    }
}

/// The optimization level that a text names.
pub open spec fn opt_level_named(text: Seq<char>) -> Option<OptLevel> {
    if text == "disable"@ || text == "0"@ {
        Some(OptLevel::Disable)
    } else if text == "level1"@ || text == "1"@ {
        Some(OptLevel::Level1)
    } else if text == "level2"@ || text == "2"@ {
        Some(OptLevel::Level2)
    } else {
        None
    }
}

/// The mode that a text names.
pub open spec fn mode_named(text: Seq<char>) -> Option<Mode> {
    if text == "allocating"@ {
        Some(Mode::Allocating)
    } else if text == "reused"@ || text == "reused_buffers"@ {
        Some(Mode::ReusedBuffers)
    } else {
        None
    }
}

/// A value as a flag takes it.
pub enum Setting {
    Text(Seq<char>),
    Integer(int),
    Level(OptLevel),
    Mode(Mode),
}

/// A value read as a whole number of a range.
pub open spec fn integer_setting(value: ArgumentView, low: int, high: int) -> Result<
    Setting,
    Refusal,
> {
    match integer_value(value, low, high) {
        Ok(n) => Ok(Setting::Integer(n)),
        Err(refusal) => Err(refusal),
    }
}

impl FlagSet for Flag {
    type Settings = ConfigView;

    type Value = Setting;

    open spec fn help() -> Flag {
        Flag::Help
    }

    open spec fn written(self) -> Seq<char> {
        flag_text(self)
    }

    open spec fn is_named(self, text: Seq<char>) -> bool {
        text == flag_text(self) || (self == Flag::Help && text == "-h"@)
    }

    open spec fn reads(self, value: ArgumentView) -> Result<Setting, Refusal> {
        match self {
            Flag::Model | Flag::OrtLib | Flag::Help => Ok(Setting::Text(value.text)),
            Flag::SampleRate => integer_setting(value, i64::MIN as int, i64::MAX as int),
            Flag::Chunks | Flag::Threads => integer_setting(value, 0, usize::MAX as int),
            Flag::OptLevel => match opt_level_named(value.text) {
                Some(opt_level) => Ok(Setting::Level(opt_level)),
                None => Err(
                    Refusal::Rule { words: "--opt-level must be disable, level1, or level2"@ },
                ),
            },
            Flag::Mode => match mode_named(value.text) {
                Some(mode) => Ok(Setting::Mode(mode)),
                None => Err(Refusal::Rule { words: "--mode must be allocating or reused"@ }),
            },
        }
    }

    open spec fn with_value(self, config: ConfigView, value: Setting) -> ConfigView {
        match (self, value) {
            (Flag::Model, Setting::Text(text)) => ConfigView { model: text, ..config },
            (Flag::OrtLib, Setting::Text(text)) => ConfigView { ort_lib: text, ..config },
            (Flag::SampleRate, Setting::Integer(n)) => ConfigView {
                sample_rate: n as i64,
                ..config
            },
            (Flag::Chunks, Setting::Integer(n)) => ConfigView { chunks: n as usize, ..config },
            (Flag::Threads, Setting::Integer(n)) => ConfigView { threads: n as usize, ..config },
            (Flag::OptLevel, Setting::Level(opt_level)) => ConfigView { opt_level, ..config },
            (Flag::Mode, Setting::Mode(mode)) => ConfigView { mode, ..config },
            _ => config,
        }
    }

    open spec fn field(self, config: ConfigView) -> Setting {
        match self {
            Flag::Model | Flag::Help => Setting::Text(config.model),
            Flag::OrtLib => Setting::Text(config.ort_lib),
            Flag::SampleRate => Setting::Integer(config.sample_rate as int),
            Flag::Chunks => Setting::Integer(config.chunks as int),
            Flag::Threads => Setting::Integer(config.threads as int),
            Flag::OptLevel => Setting::Level(config.opt_level),
            Flag::Mode => Setting::Mode(config.mode),
        }
    }

    open spec fn broken_rule(config: ConfigView) -> Option<Seq<char>> {
        if !valid_rate(config.sample_rate as int) {
            Some("--sample-rate must be 8000 or 16000"@)
        } else if config.chunks == 0 {
            Some("--chunks must be at least 1"@)
        } else if config.threads == 0 {
            Some("--threads must be at least 1"@)
        } else {
            None
        }
    }

    proof fn named_as_written(self, text: Seq<char>) {
    }

    proof fn flags_differ(text: Seq<char>, a: Flag, b: Flag) {
        reveal_strlit("--model");
        reveal_strlit("--ort-lib");
        reveal_strlit("--sample-rate");
        reveal_strlit("--chunks");
        reveal_strlit("--threads");
        reveal_strlit("--opt-level");
        reveal_strlit("--mode");
        reveal_strlit("--help");
        reveal_strlit("-h");
        if text.len() > 5 {
            // These characters tell flags of one length apart.
            let _ = (text[2], text[3], text[4], text[5]);
        }
    }

    proof fn fields_apart(config: ConfigView, flag: Flag, value: ArgumentView, other: Flag) {
        lemma_integer_range(value.text, i64::MIN as int, i64::MAX as int);
        lemma_integer_range(value.text, 0, usize::MAX as int);
    }

    proof fn fields_tell(a: ConfigView, b: ConfigView) {
        assert(Flag::Model.field(a) == Flag::Model.field(b));
        assert(Flag::OrtLib.field(a) == Flag::OrtLib.field(b));
        assert(Flag::SampleRate.field(a) == Flag::SampleRate.field(b));
        assert(Flag::Chunks.field(a) == Flag::Chunks.field(b));
        assert(Flag::OptLevel.field(a) == Flag::OptLevel.field(b));
        assert(Flag::Mode.field(a) == Flag::Mode.field(b));
        assert(Flag::Threads.field(a) == Flag::Threads.field(b));
    }
}

impl Flag {
    /// How the flag is written.
    pub fn text(self) -> (text: &'static str)
        ensures
            text@ == flag_text(self),
    {
        match self {
            Flag::Model => "--model",
            Flag::OrtLib => "--ort-lib",
            Flag::SampleRate => "--sample-rate",
            Flag::Chunks => "--chunks",
            Flag::Threads => "--threads",
            Flag::OptLevel => "--opt-level",
            Flag::Mode => "--mode",
            Flag::Help => "--help",
        }
    }

    /// The flag that an argument is, if it is one.
    pub fn find(text: &String) -> (flag: Option<Flag>)
        ensures
            match flag {
                Some(found) => found.is_named(text@),
                None => forall|other: Flag| !other.is_named(text@),
            },
    {
        if text_is(text, "--model") {
            Some(Flag::Model)
        } else if text_is(text, "--ort-lib") {
            Some(Flag::OrtLib)
        } else if text_is(text, "--sample-rate") {
            Some(Flag::SampleRate)
        } else if text_is(text, "--chunks") {
            Some(Flag::Chunks)
        } else if text_is(text, "--threads") {
            Some(Flag::Threads)
        } else if text_is(text, "--opt-level") {
            Some(Flag::OptLevel)
        } else if text_is(text, "--mode") {
            Some(Flag::Mode)
        } else if text_is(text, "--help") || text_is(text, "-h") {
            Some(Flag::Help)
        } else {
            None
        }
    }
}

/// Reads the name of an optimization level.
fn take_opt_level(text: &String) -> (level: Option<OptLevel>)
    ensures
        level == opt_level_named(text@),
{
    if text_is(text, "disable") || text_is(text, "0") {
        Some(OptLevel::Disable)
    } else if text_is(text, "level1") || text_is(text, "1") {
        Some(OptLevel::Level1)
    } else if text_is(text, "level2") || text_is(text, "2") {
        Some(OptLevel::Level2)
    } else {
        None
    }
}

/// Reads the name of a mode.
fn take_mode(text: &String) -> (mode: Option<Mode>)
    ensures
        mode == mode_named(text@),
{
    if text_is(text, "allocating") {
        Some(Mode::Allocating)
    } else if text_is(text, "reused") || text_is(text, "reused_buffers") {
        Some(Mode::ReusedBuffers)
    } else {
        None
    }
}

impl Config {
    /// What the benchmark runs with when no flag says otherwise.
    pub fn defaults() -> (config: Config)
        ensures
            config@ == ConfigView::defaults(),
    {
        Config {
            model: "models/silero_vad.onnx".to_owned(),
            ort_lib: "/opt/onnxruntime/lib/libonnxruntime.so.1.26.0".to_owned(),
            sample_rate: 16000,
            chunks: 20_000,
            threads: 1,
            mode: Mode::Allocating,
            opt_level: OptLevel::Level2,
        }
    }

    /// Sets the value of one flag.
    fn set(&mut self, flag: Flag, value: &Argument) -> (result: Result<(), ArgumentError>)
        ensures
            match result {
                Ok(_) => with_flag(old(self)@, flag, value@) == Ok::<ConfigView, Refusal>(
                    final(self)@,
                ),
                Err(error) => with_flag(old(self)@, flag, value@) == Err::<ConfigView, Refusal>(
                    error@,
                ),
            },
    {
        match flag {
            Flag::Model => {
                self.model = value.text.clone();
            },
            Flag::OrtLib => {
                self.ort_lib = value.text.clone();
            },
            Flag::SampleRate => {
                self.sample_rate = take_integer(value, i64::MIN as i128, i64::MAX as i128)? as i64;
            },
            Flag::Chunks => {
                self.chunks = take_integer(value, 0, usize::MAX as i128)? as usize;
            },
            Flag::Threads => {
                self.threads = take_integer(value, 0, usize::MAX as i128)? as usize;
            },
            Flag::OptLevel => {
                self.opt_level =
                match take_opt_level(&value.text) {
                    Some(opt_level) => opt_level,
                    None => {
                        return Err(
                            ArgumentError::Rule {
                                words: "--opt-level must be disable, level1, or level2",
                            },
                        );
                    },
                };
            },
            Flag::Mode => {
                self.mode =
                match take_mode(&value.text) {
                    Some(mode) => mode,
                    None => {
                        return Err(
                            ArgumentError::Rule { words: "--mode must be allocating or reused" },
                        );
                    },
                };
            },
            Flag::Help => {},
        }
        Ok(())
    }

    /// Holds the settings to their rules.
    fn check(self) -> (result: Result<Command, ArgumentError>)
        ensures
            match result {
                Ok(command) => checked::<Flag>(self@) == Ok::<CommandView<ConfigView>, Refusal>(
                    command@,
                ),
                Err(error) => checked::<Flag>(self@) == Err::<CommandView<ConfigView>, Refusal>(
                    error@,
                ),
            },
    {
        if self.sample_rate != 8000 && self.sample_rate != 16000 {
            return Err(ArgumentError::Rule { words: "--sample-rate must be 8000 or 16000" });
        }
        if self.chunks == 0 {
            return Err(ArgumentError::Rule { words: "--chunks must be at least 1" });
        }
        if self.threads == 0 {
            return Err(ArgumentError::Rule { words: "--threads must be at least 1" });
        }
        Ok(Command::Run(self))
    }
}

/// Reads the command line of the benchmark, without the name of the program.
pub fn parse_args(args: &Vec<Argument>) -> (result: Result<Command, ArgumentError>)
    ensures
        match result {
            Ok(command) => interpret::<Flag>(ConfigView::defaults(), views(args@)) == Ok::<
                CommandView<ConfigView>,
                Refusal,
            >(command@),
            Err(error) => interpret::<Flag>(ConfigView::defaults(), views(args@)) == Err::<
                CommandView<ConfigView>,
                Refusal,
            >(error@),
        },
        result matches Ok(Command::Run(config)) ==> config@.valid(),
{
    let mut config: Config = Config::defaults();
    let mut i: usize = 0;
    let ghost all = views(args@);
    assert(all.skip(0) =~= all);
    while i < args.len()
        invariant
            i <= args.len(),
            all == views(args@),
            interpret::<Flag>(config@, all.skip(i as int)) == interpret::<Flag>(
                ConfigView::defaults(),
                all,
            ),
        decreases args.len() - i,
    {
        let ghost rest = all.skip(i as int);
        assert(rest[0] == args@[i as int]@);
        let flag: Flag = match Flag::find(&args[i].text) {
            Some(flag) => flag,
            None => {
                return Err(ArgumentError::Unknown { text: args[i].text.clone() });
            },
        };
        if flag == Flag::Help {
            return Ok(Command::Help);
        }
        proof {
            lemma_interpret_flag(config@, rest, flag);
        }
        if i + 1 == args.len() {
            return Err(ArgumentError::MissingValue { flag: flag.text() });
        }
        assert(rest[1] == args@[i + 1]@);
        assert(rest.skip(2) =~= all.skip(i + 2));
        config.set(flag, &args[i + 1])?;
        i = i + 2;
    }
    assert(all.skip(i as int).len() == 0);
    proof {
        lemma_accepted_keeps_rules::<Flag>(ConfigView::defaults(), all);
    }
    config.check()
}

/// Without arguments the benchmark runs with its defaults.
pub proof fn lemma_no_arguments()
    ensures
        interpret::<Flag>(ConfigView::defaults(), Seq::<ArgumentView>::empty()) == Ok::<
            CommandView<ConfigView>,
            Refusal,
        >(CommandView::Run(ConfigView::defaults())),
{
}

} // verus!
