use rust_ort_vad::args::{Argument, ArgumentError};
use rust_ort_vad::bench::config as bench;
use rust_ort_vad::bench::config::OptLevel;
use rust_ort_vad::bench::state::Mode;
use rust_ort_vad::config::{parse_args, Command, Config};
use rust_ort_vad::text::{parse_integer, push_decimal, push_signed_decimal, IntegerError};

fn arguments(texts: &[&str]) -> Vec<Argument> {
    texts
        .iter()
        .map(|text| Argument {
            text: text.to_string(),
            number: text.parse::<f32>().ok().map(f32::to_bits),
        })
        .collect()
}

fn service(texts: &[&str]) -> Config {
    match parse_args(&arguments(texts)) {
        Ok(Command::Run(config)) => config,
        other => panic!("{other:?}"),
    }
}

fn refusal(texts: &[&str]) -> String {
    match parse_args(&arguments(texts)) {
        Err(error) => error.message(),
        other => panic!("{other:?}"),
    }
}

fn benchmark(texts: &[&str]) -> bench::Config {
    match bench::parse_args(&arguments(texts)) {
        Ok(bench::Command::Run(config)) => config,
        other => panic!("{other:?}"),
    }
}

fn benchmark_refusal(texts: &[&str]) -> String {
    match bench::parse_args(&arguments(texts)) {
        Err(error) => error.message(),
        other => panic!("{other:?}"),
    }
}

#[test]
fn service_defaults() {
    let config = service(&[]);
    assert_eq!(config.host, "0.0.0.0");
    assert_eq!(config.port, 8080);
    assert_eq!(config.model, "models/silero_vad.onnx");
    assert_eq!(config.ort_lib, "/opt/onnxruntime/lib/libonnxruntime.so.1.26.0");
    assert_eq!(config.sample_rate, 16000);
    assert_eq!(config.threshold, 0.5f32.to_bits());
    assert_eq!(config.min_silence_ms, 100);
    assert_eq!(config.speech_pad_ms, 30);
    assert_eq!(config.threads, 1);
    assert_eq!(config.max_connections, 8);
    assert_eq!(config.idle_timeout_secs, 60);
}

#[test]
fn service_example_command_line() {
    let config = service(&[
        "--host", "0.0.0.0", "--port", "8080", "--ort-lib",
        "/opt/onnxruntime/lib/libonnxruntime.so.1.26.0", "--model", "models/silero_vad.onnx",
        "--threads", "1", "--max-connections", "8",
    ]);
    assert_eq!(config, Config::defaults());
}

#[test]
fn service_takes_every_flag() {
    let config = service(&[
        "--host", "127.0.0.1", "--port", "+9", "--model", "m", "--ort-lib", "l", "--sample-rate",
        "8000", "--threshold", "0.25", "--min-silence-ms", "-5", "--speech-pad-ms", "7",
        "--threads", "3", "--max-connections", "4", "--idle-timeout-secs", "18446744073709551615",
    ]);
    assert_eq!(config.host, "127.0.0.1");
    assert_eq!(config.port, 9);
    assert_eq!(config.model, "m");
    assert_eq!(config.ort_lib, "l");
    assert_eq!(config.sample_rate, 8000);
    assert_eq!(config.threshold, 0.25f32.to_bits());
    assert_eq!(config.min_silence_ms, -5);
    assert_eq!(config.speech_pad_ms, 7);
    assert_eq!(config.threads, 3);
    assert_eq!(config.max_connections, 4);
    assert_eq!(config.idle_timeout_secs, u64::MAX);
}

#[test]
fn the_address_joins_host_and_port() {
    assert_eq!(service(&[]).address(), "0.0.0.0:8080");
    assert_eq!(service(&["--host", "[::1]", "--port", "0"]).address(), "[::1]:0");
}

#[test]
fn later_values_win_and_order_does_not_matter() {
    assert_eq!(service(&["--port", "1", "--port", "2"]).port, 2);
    assert_eq!(
        service(&["--port", "1", "--threads", "2"]),
        service(&["--threads", "2", "--port", "1"])
    );
}

#[test]
fn flags_may_stand_in_any_order() {
    let pairs = [["--port", "1"], ["--threads", "2"], ["--threshold", "0.25"], ["--host", "::"]];
    let forward: Vec<&str> = pairs.concat();
    let backward: Vec<&str> = pairs.iter().rev().flatten().copied().collect();
    assert_eq!(service(&forward), service(&backward));
    assert_eq!(service(&backward).speech_pad_ms, 30);
    let mut bad = pairs.to_vec();
    bad.push(["--max-connections", "none"]);
    refusal(&bad.concat());
    bad.rotate_left(3);
    refusal(&bad.concat());

    let pairs = [["--chunks", "3"], ["--mode", "reused"], ["--opt-level", "0"]];
    let forward: Vec<&str> = pairs.concat();
    let backward: Vec<&str> = pairs.iter().rev().flatten().copied().collect();
    assert_eq!(benchmark(&forward), benchmark(&backward));
    assert_eq!(benchmark(&forward).threads, 1);
}

#[test]
fn a_flag_may_be_a_value() {
    assert_eq!(service(&["--host", "--port"]).host, "--port");
}

#[test]
fn help_is_given_before_later_faults() {
    for short in ["--help", "-h"] {
        let parsed = parse_args(&arguments(&["--port", "1", short, "--bogus"]));
        assert_eq!(parsed, Ok(Command::Help));
        let parsed = bench::parse_args(&arguments(&["--chunks", "1", short, "--bogus"]));
        assert_eq!(parsed, Ok(bench::Command::Help));
    }
}

#[test]
fn service_refusals() {
    assert_eq!(refusal(&["--bogus"]), "unknown argument: --bogus");
    assert_eq!(refusal(&["--help-me"]), "unknown argument: --help-me");
    assert_eq!(refusal(&[""]), "unknown argument: ");
    assert_eq!(refusal(&["--host"]), "--host requires a value");
    for flag in [
        "--port", "--model", "--ort-lib", "--sample-rate", "--threshold", "--min-silence-ms",
        "--speech-pad-ms", "--threads", "--max-connections", "--idle-timeout-secs",
    ] {
        assert_eq!(refusal(&[flag]), format!("{flag} requires a value"));
    }
    assert_eq!(refusal(&["--port", ""]), "cannot parse integer from empty string");
    assert_eq!(refusal(&["--port", "x"]), "invalid digit found in string");
    assert_eq!(refusal(&["--port", "-1"]), "invalid digit found in string");
    assert_eq!(refusal(&["--port", "65536"]), "number too large to fit in target type");
    assert_eq!(
        refusal(&["--min-silence-ms", "-9223372036854775809"]),
        "number too small to fit in target type"
    );
    assert_eq!(refusal(&["--threshold", ""]), "cannot parse float from empty string");
    assert_eq!(refusal(&["--threshold", "high"]), "invalid float literal");
    assert_eq!(refusal(&["--sample-rate", "44100"]), "--sample-rate must be 8000 or 16000");
    assert_eq!(refusal(&["--threshold", "1.5"]), "--threshold must be between 0 and 1");
    assert_eq!(refusal(&["--threshold", "NaN"]), "--threshold must be between 0 and 1");
    assert_eq!(refusal(&["--threads", "0"]), "--threads must be at least 1");
    assert_eq!(refusal(&["--max-connections", "0"]), "--max-connections must be at least 1");
    assert_eq!(
        refusal(&["--threads", "0", "--sample-rate", "1"]),
        "--sample-rate must be 8000 or 16000"
    );
}

#[test]
fn float_refusals_use_the_words_of_the_parser() {
    for text in ["", "high", "1.0x"] {
        let words = text.parse::<f32>().unwrap_err().to_string();
        assert_eq!(refusal(&["--threshold", text]), words);
    }
}

#[test]
fn the_first_fault_is_reported() {
    let parsed = parse_args(&arguments(&["--threshold", "x", "--bogus"]));
    assert_eq!(parsed, Err(ArgumentError::Number { empty: false }));
}

#[test]
fn integers_read_as_the_standard_parser_reads_them() {
    let texts = [
        "", "+", "-", "0", "-0", "+0", "007", "65535", "65536", "99999x", "x99999", "6553x",
        "+-1", "--1", "1 ", " 1", "1_0", "9223372036854775807", "9223372036854775808",
        "-9223372036854775808", "-9223372036854775809", "18446744073709551615",
        "18446744073709551616", "-18446744073709551616x", "é", "١",
    ];
    for text in texts {
        let small = parse_integer(text, 0, u16::MAX as i128);
        match text.parse::<u16>() {
            Ok(n) => assert_eq!(small, Ok(n as i128), "{text:?}"),
            Err(error) => assert_eq!(words(small), error.to_string(), "{text:?}"),
        }
        let signed = parse_integer(text, i64::MIN as i128, i64::MAX as i128);
        match text.parse::<i64>() {
            Ok(n) => assert_eq!(signed, Ok(n as i128), "{text:?}"),
            Err(error) => assert_eq!(words(signed), error.to_string(), "{text:?}"),
        }
        let large = parse_integer(text, 0, u64::MAX as i128);
        match text.parse::<u64>() {
            Ok(n) => assert_eq!(large, Ok(n as i128), "{text:?}"),
            Err(error) => assert_eq!(words(large), error.to_string(), "{text:?}"),
        }
    }
}

fn words(result: Result<i128, IntegerError>) -> String {
    ArgumentError::Integer { error: result.unwrap_err() }.message()
}

#[test]
fn benchmark_defaults_and_flags() {
    let config = benchmark(&[]);
    assert_eq!(config, bench::Config::defaults());
    assert_eq!(config.model, "models/silero_vad.onnx");
    assert_eq!(config.ort_lib, "/opt/onnxruntime/lib/libonnxruntime.so.1.26.0");
    assert_eq!(config.sample_rate, 16000);
    assert_eq!(config.chunks, 20_000);
    assert_eq!(config.threads, 1);
    assert_eq!(config.mode, Mode::Allocating);
    assert_eq!(config.opt_level, OptLevel::Level2);
    let config = benchmark(&[
        "--model", "m", "--ort-lib", "l", "--sample-rate", "8000", "--chunks", "5", "--threads",
        "2", "--opt-level", "disable", "--mode", "reused",
    ]);
    assert_eq!(config.model, "m");
    assert_eq!(config.ort_lib, "l");
    assert_eq!(config.sample_rate, 8000);
    assert_eq!(config.chunks, 5);
    assert_eq!(config.threads, 2);
    assert_eq!(config.opt_level, OptLevel::Disable);
    assert_eq!(config.mode, Mode::ReusedBuffers);
    assert_eq!(benchmark(&["--chunks", "1", "--chunks", "2"]).chunks, 2);
    for (text, level) in [
        ("0", OptLevel::Disable),
        ("1", OptLevel::Level1),
        ("level1", OptLevel::Level1),
        ("2", OptLevel::Level2),
        ("level2", OptLevel::Level2),
    ] {
        assert_eq!(benchmark(&["--opt-level", text]).opt_level, level);
    }
    assert_eq!(benchmark(&["--mode", "reused_buffers"]).mode, Mode::ReusedBuffers);
    assert_eq!(benchmark(&["--mode", "allocating"]).mode, Mode::Allocating);
}

#[test]
fn benchmark_refusals() {
    assert_eq!(benchmark_refusal(&["--host"]), "unknown argument: --host");
    for flag in
        ["--model", "--ort-lib", "--sample-rate", "--chunks", "--threads", "--opt-level", "--mode"]
    {
        assert_eq!(benchmark_refusal(&[flag]), format!("{flag} requires a value"));
    }
    assert_eq!(
        benchmark_refusal(&["--opt-level", "3"]),
        "--opt-level must be disable, level1, or level2"
    );
    assert_eq!(benchmark_refusal(&["--mode", "fast"]), "--mode must be allocating or reused");
    assert_eq!(benchmark_refusal(&["--chunks", "many"]), "invalid digit found in string");
    assert_eq!(benchmark_refusal(&["--chunks", "0"]), "--chunks must be at least 1");
    assert_eq!(benchmark_refusal(&["--threads", "0"]), "--threads must be at least 1");
    assert_eq!(
        benchmark_refusal(&["--sample-rate", "1"]),
        "--sample-rate must be 8000 or 16000"
    );
}

#[test]
fn written_numbers_are_read_back() {
    for n in [0u64, 7, 10, 99, 100, 65535, 1_000_000_007, u64::MAX] {
        let mut text = "n".to_string();
        push_decimal(&mut text, n);
        assert_eq!(text, format!("n{n}"));
        assert_eq!(parse_integer(&text[1..], 0, u64::MAX as i128), Ok(n as i128));
    }
    for n in [0i64, -1, 42, i64::MAX, i64::MIN] {
        let mut text = String::new();
        push_signed_decimal(&mut text, n);
        assert_eq!(text, n.to_string());
    }
}
