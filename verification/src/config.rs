//! The settings of the service and the command line that gives them.
use crate::args::{
    integer_value, number_value, take_integer, take_number, views, Argument, ArgumentError,
    ArgumentView, Refusal,
};
use crate::detector::valid_rate;
use crate::flags::{
    checked, interpret, lemma_accepted_keeps_rules, lemma_help_wins, lemma_interpret_flag,
    with_flag, CommandView, FlagSet,
};
use crate::text::{decimal, lemma_integer_range, push_decimal, text_is};
use crate::threshold::{is_valid_threshold, valid_threshold};
use vstd::prelude::*;

verus! {

/// The settings of the service. The threshold is the bit pattern of a
/// single-precision number.
#[derive(Debug, PartialEq)]
pub struct Config {
    pub host: String,
    pub port: u16,
    pub model: String,
    pub ort_lib: String,
    pub sample_rate: i64,
    pub threshold: u32,
    pub min_silence_ms: i64,
    pub speech_pad_ms: i64,
    pub threads: usize,
    pub max_connections: usize,
    pub idle_timeout_secs: u64,
}

/// The settings as contracts see them.
pub struct ConfigView {
    pub host: Seq<char>,
    pub port: u16,
    pub model: Seq<char>,
    pub ort_lib: Seq<char>,
    pub sample_rate: i64,
    pub threshold: u32,
    pub min_silence_ms: i64,
    pub speech_pad_ms: i64,
    pub threads: usize,
    pub max_connections: usize,
    pub idle_timeout_secs: u64,
}

impl View for Config {
    type V = ConfigView;

    open spec fn view(&self) -> ConfigView {
        ConfigView {
            host: self.host@,
            port: self.port,
            model: self.model@,
            ort_lib: self.ort_lib@,
            sample_rate: self.sample_rate,
            threshold: self.threshold,
            min_silence_ms: self.min_silence_ms,
            speech_pad_ms: self.speech_pad_ms,
            threads: self.threads,
            max_connections: self.max_connections,
            idle_timeout_secs: self.idle_timeout_secs,
        }
    }
}

impl ConfigView {
    /// What the service runs with when no flag says otherwise. The threshold
    /// is one half.
    pub open spec fn defaults() -> ConfigView {
        ConfigView {
            host: "0.0.0.0"@,
            port: 8080,
            model: "models/silero_vad.onnx"@,
            ort_lib: "/opt/onnxruntime/lib/libonnxruntime.so.1.26.0"@,
            sample_rate: 16000,
            threshold: 0x3F00_0000,
            min_silence_ms: 100,
            speech_pad_ms: 30,
            threads: 1,
            max_connections: 8,
            idle_timeout_secs: 60,
        }
    }

    /// The rules that settings have to keep.
    pub open spec fn valid(self) -> bool {
        &&& valid_rate(self.sample_rate as int)
        &&& valid_threshold(self.threshold)
        &&& 1 <= self.threads
        &&& 1 <= self.max_connections
    }
}

/// What a command line asks for.
#[derive(Debug, PartialEq)]
pub enum Command {
    Run(Config),
    Help,
}

impl View for Command {
    type V = CommandView<ConfigView>;

    open spec fn view(&self) -> CommandView<ConfigView> {
        match *self {
            Command::Run(config) => CommandView::Run(config@),
            Command::Help => CommandView::Help,
        }
    }
}

/// The flags of the service.
#[derive(Clone, Copy, Debug, PartialEq, Eq, Structural)]
pub enum Flag {
    Host,
    Port,
    Model,
    OrtLib,
    SampleRate,
    Threshold,
    MinSilenceMs,
    SpeechPadMs,
    Threads,
    MaxConnections,
    IdleTimeoutSecs,
    Help,
}

/// How a flag is written.
pub open spec fn flag_text(flag: Flag) -> Seq<char> {
    match flag {
        Flag::Host => "--host"@,
        Flag::Port => "--port"@,
        Flag::Model => "--model"@,
        Flag::OrtLib => "--ort-lib"@,
        Flag::SampleRate => "--sample-rate"@,
        Flag::Threshold => "--threshold"@,
        Flag::MinSilenceMs => "--min-silence-ms"@,
        Flag::SpeechPadMs => "--speech-pad-ms"@,
        Flag::Threads => "--threads"@,
        Flag::MaxConnections => "--max-connections"@,
        Flag::IdleTimeoutSecs => "--idle-timeout-secs"@,
        Flag::Help => "--help"@,
    }
}

/// A value as a flag takes it.
pub enum Setting {
    Text(Seq<char>),
    Integer(int),
    Number(u32),
}

/// A value read as a whole number of a range.
pub open spec fn integer_setting(value: ArgumentView, low: int, high: int) -> Result<
    Setting,
    Refusal,
> {
    match integer_value(value, low, high) {
        Ok(n) => Ok(Setting::Integer(n)),
        Err(refusal) => Err(refusal),
    }
}

impl FlagSet for Flag {
    type Settings = ConfigView;

    type Value = Setting;

    open spec fn help() -> Flag {
        Flag::Help
    }

    open spec fn written(self) -> Seq<char> {
        flag_text(self)
    }

    open spec fn is_named(self, text: Seq<char>) -> bool {
        text == flag_text(self) || (self == Flag::Help && text == "-h"@)
    }

    open spec fn reads(self, value: ArgumentView) -> Result<Setting, Refusal> {
        match self {
            Flag::Host | Flag::Model | Flag::OrtLib | Flag::Help => Ok(Setting::Text(value.text)),
            Flag::Port => integer_setting(value, 0, u16::MAX as int),
            Flag::SampleRate | Flag::MinSilenceMs | Flag::SpeechPadMs => integer_setting(
                value,
                i64::MIN as int,
                i64::MAX as int,
            ),
            Flag::Threads | Flag::MaxConnections => integer_setting(value, 0, usize::MAX as int),
            Flag::IdleTimeoutSecs => integer_setting(value, 0, u64::MAX as int),
            Flag::Threshold => match number_value(value) {
                Ok(bits) => Ok(Setting::Number(bits)),
                Err(refusal) => Err(refusal),
            },
        }
    }

    open spec fn with_value(self, config: ConfigView, value: Setting) -> ConfigView {
        match (self, value) {
            (Flag::Host, Setting::Text(text)) => ConfigView { host: text, ..config },
            (Flag::Port, Setting::Integer(n)) => ConfigView { port: n as u16, ..config },
            (Flag::Model, Setting::Text(text)) => ConfigView { model: text, ..config },
            (Flag::OrtLib, Setting::Text(text)) => ConfigView { ort_lib: text, ..config },
            (Flag::SampleRate, Setting::Integer(n)) => ConfigView {
                sample_rate: n as i64,
                ..config
            },
            (Flag::Threshold, Setting::Number(bits)) => ConfigView { threshold: bits, ..config },
            (Flag::MinSilenceMs, Setting::Integer(n)) => ConfigView {
                min_silence_ms: n as i64,
                ..config
            },
            (Flag::SpeechPadMs, Setting::Integer(n)) => ConfigView {
                speech_pad_ms: n as i64,
                ..config
            },
            (Flag::Threads, Setting::Integer(n)) => ConfigView { threads: n as usize, ..config },
            (Flag::MaxConnections, Setting::Integer(n)) => ConfigView {
                max_connections: n as usize,
                ..config
            },
            (Flag::IdleTimeoutSecs, Setting::Integer(n)) => ConfigView {
                idle_timeout_secs: n as u64,
                ..config
            },
            _ => config,
        }
    }

    open spec fn field(self, config: ConfigView) -> Setting {
        match self {
            Flag::Host | Flag::Help => Setting::Text(config.host),
            Flag::Port => Setting::Integer(config.port as int),
            Flag::Model => Setting::Text(config.model),
            Flag::OrtLib => Setting::Text(config.ort_lib),
            Flag::SampleRate => Setting::Integer(config.sample_rate as int),
            Flag::Threshold => Setting::Number(config.threshold),
            Flag::MinSilenceMs => Setting::Integer(config.min_silence_ms as int),
            Flag::SpeechPadMs => Setting::Integer(config.speech_pad_ms as int),
            Flag::Threads => Setting::Integer(config.threads as int),
            Flag::MaxConnections => Setting::Integer(config.max_connections as int),
            Flag::IdleTimeoutSecs => Setting::Integer(config.idle_timeout_secs as int),
        }
    }

    open spec fn broken_rule(config: ConfigView) -> Option<Seq<char>> {
        if !valid_rate(config.sample_rate as int) {
            Some("--sample-rate must be 8000 or 16000"@)
        } else if !valid_threshold(config.threshold) {
            Some("--threshold must be between 0 and 1"@)
        } else if config.threads == 0 {
            Some("--threads must be at least 1"@)
        } else if config.max_connections == 0 {
            Some("--max-connections must be at least 1"@)
        } else {
            None
        }
    }

    proof fn named_as_written(self, text: Seq<char>) {
    }

    proof fn flags_differ(text: Seq<char>, a: Flag, b: Flag) {
        reveal_strlit("--host");
        reveal_strlit("--port");
        reveal_strlit("--model");
        reveal_strlit("--ort-lib");
        reveal_strlit("--sample-rate");
        reveal_strlit("--threshold");
        reveal_strlit("--min-silence-ms");
        reveal_strlit("--speech-pad-ms");
        reveal_strlit("--threads");
        reveal_strlit("--max-connections");
        reveal_strlit("--idle-timeout-secs");
        reveal_strlit("--help");
        reveal_strlit("-h");
        if text.len() > 5 {
            // These characters tell flags of one length apart.
            let _ = (text[2], text[3], text[4], text[5]);
        }
    }

    proof fn fields_apart(config: ConfigView, flag: Flag, value: ArgumentView, other: Flag) {
        lemma_integer_range(value.text, 0, u16::MAX as int);
        lemma_integer_range(value.text, i64::MIN as int, i64::MAX as int);
        lemma_integer_range(value.text, 0, usize::MAX as int);
        lemma_integer_range(value.text, 0, u64::MAX as int);
    }

    proof fn fields_tell(a: ConfigView, b: ConfigView) {
        assert(Flag::Host.field(a) == Flag::Host.field(b));
        assert(Flag::Port.field(a) == Flag::Port.field(b));
        assert(Flag::Model.field(a) == Flag::Model.field(b));
        assert(Flag::OrtLib.field(a) == Flag::OrtLib.field(b));
        assert(Flag::SampleRate.field(a) == Flag::SampleRate.field(b));
        assert(Flag::Threshold.field(a) == Flag::Threshold.field(b));
        assert(Flag::MinSilenceMs.field(a) == Flag::MinSilenceMs.field(b));
        assert(Flag::SpeechPadMs.field(a) == Flag::SpeechPadMs.field(b));
        assert(Flag::Threads.field(a) == Flag::Threads.field(b));
        assert(Flag::MaxConnections.field(a) == Flag::MaxConnections.field(b));
        assert(Flag::IdleTimeoutSecs.field(a) == Flag::IdleTimeoutSecs.field(b));
    }
}

impl Flag {
    /// How the flag is written.
    pub fn text(self) -> (text: &'static str)
        ensures
            text@ == flag_text(self),
    {
        match self {
            Flag::Host => "--host",
            Flag::Port => "--port",
            Flag::Model => "--model",
            Flag::OrtLib => "--ort-lib",
            Flag::SampleRate => "--sample-rate",
            Flag::Threshold => "--threshold",
            Flag::MinSilenceMs => "--min-silence-ms",
            Flag::SpeechPadMs => "--speech-pad-ms",
            Flag::Threads => "--threads",
            Flag::MaxConnections => "--max-connections",
            Flag::IdleTimeoutSecs => "--idle-timeout-secs",
            Flag::Help => "--help",
        }
    }

    /// The flag that an argument is, if it is one.
    pub fn find(text: &String) -> (flag: Option<Flag>)
        ensures
            match flag {
                Some(found) => found.is_named(text@),
                None => forall|other: Flag| !other.is_named(text@),
            },
    {
        if text_is(text, "--host") {
            Some(Flag::Host)
        } else if text_is(text, "--port") {
            Some(Flag::Port)
        } else if text_is(text, "--model") {
            Some(Flag::Model)
        } else if text_is(text, "--ort-lib") {
            Some(Flag::OrtLib)
        } else if text_is(text, "--sample-rate") {
            Some(Flag::SampleRate)
        } else if text_is(text, "--threshold") {
            Some(Flag::Threshold)
        } else if text_is(text, "--min-silence-ms") {
            Some(Flag::MinSilenceMs)
        } else if text_is(text, "--speech-pad-ms") {
            Some(Flag::SpeechPadMs)
        } else if text_is(text, "--threads") {
            Some(Flag::Threads)
        } else if text_is(text, "--max-connections") {
            Some(Flag::MaxConnections)
        } else if text_is(text, "--idle-timeout-secs") {
            Some(Flag::IdleTimeoutSecs)
        } else if text_is(text, "--help") || text_is(text, "-h") {
            Some(Flag::Help)
        } else {
            None
        }
    }
}

impl Config {
    /// What the service runs with when no flag says otherwise.
    pub fn defaults() -> (config: Config)
        ensures
            config@ == ConfigView::defaults(),
    {
        Config {
            host: "0.0.0.0".to_owned(),
            port: 8080,
            model: "models/silero_vad.onnx".to_owned(),
            ort_lib: "/opt/onnxruntime/lib/libonnxruntime.so.1.26.0".to_owned(),
            sample_rate: 16000,
            threshold: 0x3F00_0000,
            min_silence_ms: 100,
            speech_pad_ms: 30,
            threads: 1,
            max_connections: 8,
            idle_timeout_secs: 60,
        }
    }

    /// The address to listen on: host and port with a colon between.
    pub fn address(&self) -> (address: String)
        ensures
            address@ == self.host@ + ":"@ + decimal(self.port as nat),
    {
        let mut address: String = self.host.clone();
        address.append(":");
        push_decimal(&mut address, self.port as u64);
        address
    }

    /// Sets the value of one flag.
    fn set(&mut self, flag: Flag, value: &Argument) -> (result: Result<(), ArgumentError>)
        ensures
            match result {
                Ok(_) => with_flag(old(self)@, flag, value@) == Ok::<ConfigView, Refusal>(
                    final(self)@,
                ),
                Err(error) => with_flag(old(self)@, flag, value@) == Err::<ConfigView, Refusal>(
                    error@,
                ),
            },
    {
        match flag {
            Flag::Host => {
                self.host = value.text.clone();
            },
            Flag::Model => {
                self.model = value.text.clone();
            },
            Flag::OrtLib => {
                self.ort_lib = value.text.clone();
            },
            Flag::Port => {
                self.port = take_integer(value, 0, u16::MAX as i128)? as u16;
            },
            Flag::SampleRate => {
                self.sample_rate = take_integer(value, i64::MIN as i128, i64::MAX as i128)? as i64;
            },
            Flag::Threshold => {
                self.threshold = take_number(value)?;
            },
            Flag::MinSilenceMs => {
                self.min_silence_ms =
                take_integer(value, i64::MIN as i128, i64::MAX as i128)? as i64;
            },
            Flag::SpeechPadMs => {
                self.speech_pad_ms =
                take_integer(value, i64::MIN as i128, i64::MAX as i128)? as i64;
            },
            Flag::Threads => {
                self.threads = take_integer(value, 0, usize::MAX as i128)? as usize;
            },
            Flag::MaxConnections => {
                self.max_connections = take_integer(value, 0, usize::MAX as i128)? as usize;
            },
            Flag::IdleTimeoutSecs => {
                self.idle_timeout_secs = take_integer(value, 0, u64::MAX as i128)? as u64;
            },
            Flag::Help => {},
        }
        Ok(())
    }

    /// Holds the settings to their rules.
    fn check(self) -> (result: Result<Command, ArgumentError>)
        ensures
            match result {
                Ok(command) => checked::<Flag>(self@) == Ok::<CommandView<ConfigView>, Refusal>(
                    command@,
                ),
                Err(error) => checked::<Flag>(self@) == Err::<CommandView<ConfigView>, Refusal>(
                    error@,
                ),
            },
    {
        if self.sample_rate != 8000 && self.sample_rate != 16000 {
            return Err(ArgumentError::Rule { words: "--sample-rate must be 8000 or 16000" });
        }
        if !is_valid_threshold(self.threshold) {
            return Err(ArgumentError::Rule { words: "--threshold must be between 0 and 1" });
        }
        if self.threads == 0 {
            return Err(ArgumentError::Rule { words: "--threads must be at least 1" });
        }
        if self.max_connections == 0 {
            return Err(ArgumentError::Rule { words: "--max-connections must be at least 1" });
        }
        Ok(Command::Run(self))
    }
}

/// Reads the command line of the service, without the name of the program.
pub fn parse_args(args: &Vec<Argument>) -> (result: Result<Command, ArgumentError>)
    ensures
        match result {
            Ok(command) => interpret::<Flag>(ConfigView::defaults(), views(args@)) == Ok::<
                CommandView<ConfigView>,
                Refusal,
            >(command@),
            Err(error) => interpret::<Flag>(ConfigView::defaults(), views(args@)) == Err::<
                CommandView<ConfigView>,
                Refusal,
            >(error@),
        },
        result matches Ok(Command::Run(config)) ==> config@.valid(),
{
    let mut config: Config = Config::defaults();
    let mut i: usize = 0;
    let ghost all = views(args@);
    assert(all.skip(0) =~= all);
    while i < args.len()
        invariant
            i <= args.len(),
            all == views(args@),
            interpret::<Flag>(config@, all.skip(i as int)) == interpret::<Flag>(
                ConfigView::defaults(),
                all,
            ),
        decreases args.len() - i,
    {
        let ghost rest = all.skip(i as int);
        assert(rest[0] == args@[i as int]@);
        let flag: Flag = match Flag::find(&args[i].text) {
            Some(flag) => flag,
            None => {
                return Err(ArgumentError::Unknown { text: args[i].text.clone() });
            },
        };
        if flag == Flag::Help {
            proof {
                lemma_help_wins::<Flag>(config@, rest);
            }
            return Ok(Command::Help);
        }
        proof {
            lemma_interpret_flag(config@, rest, flag);
        }
        if i + 1 == args.len() {
            return Err(ArgumentError::MissingValue { flag: flag.text() });
        }
        assert(rest[1] == args@[i + 1]@);
        assert(rest.skip(2) =~= all.skip(i + 2));
        config.set(flag, &args[i + 1])?;
        i = i + 2;
    }
    assert(all.skip(i as int).len() == 0);
    proof {
        lemma_accepted_keeps_rules::<Flag>(ConfigView::defaults(), all);
    }
    config.check()
}

/// Without arguments the service runs with its defaults.
pub proof fn lemma_no_arguments()
    ensures
        interpret::<Flag>(ConfigView::defaults(), Seq::<ArgumentView>::empty()) == Ok::<
            CommandView<ConfigView>,
            Refusal,
        >(CommandView::Run(ConfigView::defaults())),
{
}

} // verus!
