use rust_ort_vad::args::Argument;
use rust_ort_vad::config::{parse_args, Command, Config};
use rust_ort_vad::error::{ort_err, ServiceError};
use rust_ort_vad::event::VadEvent;
use rust_ort_vad::pcm::normalize_sample;
use rust_ort_vad::gate::{judge_connection, Admission, ConnectionGate};
use rust_ort_vad::session::{health, Action, Incoming, SocketSession};
use rust_ort_vad::stream::{lengths_fit, ModelReply, VadStream, STATE_LEN};
use rust_ort_vad::tensor::{InputRow, RateTensor, StateTensor};

fn config(texts: &[&str]) -> Config {
    let args: Vec<Argument> = texts
        .iter()
        .map(|text| Argument {
            text: text.to_string(),
            number: text.parse::<f32>().ok().map(f32::to_bits),
        })
        .collect();
    match parse_args(&args) {
        Ok(Command::Run(config)) => config,
        other => panic!("{other:?}"),
    }
}

fn reply(probability: f32, fill: u32) -> Result<ModelReply, String> {
    Ok(ModelReply { output: vec![probability.to_bits()], state: Some(vec![fill; STATE_LEN]) })
}

fn feed(vad: &mut VadStream, probability: f32) -> Option<VadEvent> {
    let payload = vec![0u8; vad.block_size * 2];
    vad.handle_pcm_chunk(|_, _, _| reply(probability, 1), &payload).unwrap()
}

fn silence(audio_time_ms: i64, probability: f32) -> Option<VadEvent> {
    Some(VadEvent::Silence { audio_time_ms, probability: probability.to_bits() })
}

fn start(audio_time_ms: i64, probability: f32) -> Option<VadEvent> {
    Some(VadEvent::SpeechStart { audio_time_ms, probability: probability.to_bits() })
}

fn end(audio_time_ms: i64, probability: f32) -> Option<VadEvent> {
    Some(VadEvent::SpeechEnd { audio_time_ms, probability: probability.to_bits() })
}

#[test]
fn a_stream_starts_silent() {
    let vad = VadStream::new(&config(&[]));
    assert_eq!(vad.block_size, 512);
    assert_eq!(vad.context_size, 64);
    assert_eq!(vad.min_silence_samples, 1600);
    assert_eq!(vad.speech_pad_samples, 480);
    assert_eq!(vad.input.items(), &vec![0u32; 576][..]);
    assert_eq!(vad.state.items(), &vec![0u32; 256][..]);
    assert_eq!(vad.sr.items(), &[16000i64]);
    assert_eq!((vad.current_sample, vad.temp_end, vad.triggered), (0, 0, false));

    let vad = VadStream::new(&config(&["--sample-rate", "8000", "--speech-pad-ms", "-1"]));
    assert_eq!((vad.block_size, vad.context_size), (256, 32));
    assert_eq!(vad.min_silence_samples, 800);
    assert_eq!(vad.speech_pad_samples, -8);
    assert_eq!(vad.input.items().len(), 288);
    assert_eq!(vad.sr.items(), &[8000i64]);
}

#[test]
fn lengths_round_toward_zero() {
    let vad = VadStream::new(&config(&["--sample-rate", "8000", "--min-silence-ms", "-3"]));
    assert_eq!(vad.min_silence_samples, -24);
    assert!(lengths_fit(&config(&[])));
    assert!(!lengths_fit(&config(&["--min-silence-ms", "9223372036854775807"])));
    assert!(!lengths_fit(&config(&["--speech-pad-ms", "-9223372036854775808"])));
}

#[test]
fn speech_starts_and_ends() {
    let mut vad = VadStream::new(&config(&[]));
    assert_eq!(feed(&mut vad, 0.1), silence(32, 0.1));
    assert_eq!(feed(&mut vad, 0.9), start(2, 0.9));
    assert_eq!(feed(&mut vad, 0.9), None);
    assert_eq!(feed(&mut vad, 0.4), None);
    assert_eq!(vad.temp_end, 0);
    assert_eq!(feed(&mut vad, 0.1), None);
    assert_eq!(vad.temp_end, 2560);
    assert_eq!(feed(&mut vad, 0.1), None);
    assert_eq!(feed(&mut vad, 0.1), None);
    assert_eq!(feed(&mut vad, 0.1), None);
    assert!(vad.triggered);
    assert_eq!(feed(&mut vad, 0.1), end(158, 0.1));
    assert!(!vad.triggered);
    assert_eq!(vad.temp_end, 0);
    assert_eq!(feed(&mut vad, 0.1), silence(320, 0.1));
    assert_eq!(feed(&mut vad, 0.5), start(290, 0.5));
}

#[test]
fn speech_resumed_in_time_does_not_end() {
    let mut vad = VadStream::new(&config(&[]));
    assert_eq!(feed(&mut vad, 0.9), start(0, 0.9));
    for _ in 0..4 {
        assert_eq!(feed(&mut vad, 0.1), None);
    }
    assert_eq!(feed(&mut vad, 0.5), None);
    assert_eq!(vad.temp_end, 0);
    for _ in 0..4 {
        assert_eq!(feed(&mut vad, 0.1), None);
    }
    assert_eq!(feed(&mut vad, 0.1), end(222, 0.1));
}

#[test]
fn an_undecided_chunk_does_not_end_speech() {
    let mut vad = VadStream::new(&config(&["--min-silence-ms", "32"]));
    feed(&mut vad, 0.9);
    assert_eq!(feed(&mut vad, 0.1), None);
    for _ in 0..5 {
        assert_eq!(feed(&mut vad, 0.4), None);
    }
    assert_eq!(feed(&mut vad, 0.1), end(62, 0.1));
}

#[test]
fn boundaries_alternate() {
    let mut vad = VadStream::new(&config(&["--min-silence-ms", "0"]));
    let mut state: u32 = 7;
    let mut open = false;
    let mut started: i64 = 0;
    for n in 1..2000i64 {
        state = state.wrapping_mul(1_664_525).wrapping_add(1_013_904_223);
        let probability = (state >> 8) as f32 / (1u32 << 24) as f32;
        match feed(&mut vad, probability) {
            Some(VadEvent::SpeechStart { audio_time_ms, .. }) => {
                assert!(!open);
                open = true;
                started = audio_time_ms;
            }
            Some(VadEvent::SpeechEnd { audio_time_ms, .. }) => {
                assert!(open);
                assert!(audio_time_ms >= started);
                open = false;
            }
            Some(VadEvent::Silence { audio_time_ms, .. }) => {
                assert!(!open);
                assert_eq!(audio_time_ms, 32 * n);
            }
            None => assert!(open),
            other => panic!("{other:?}"),
        }
        assert_eq!(vad.triggered, open);
    }
}

#[test]
fn what_is_not_a_number_decides_nothing() {
    let mut vad = VadStream::new(&config(&["--min-silence-ms", "0"]));
    assert!(matches!(feed(&mut vad, f32::NAN), Some(VadEvent::Silence { .. })));
    feed(&mut vad, 1.0);
    assert_eq!(feed(&mut vad, f32::NAN), None);
    assert!(vad.triggered);
}

#[test]
fn a_negative_end_rounds_toward_zero() {
    let mut vad =
        VadStream::new(&config(&["--min-silence-ms", "0", "--speech-pad-ms", "-100"]));
    assert_eq!(feed(&mut vad, 0.9), start(100, 0.9));
    assert_eq!(feed(&mut vad, 0.0), end(-68, 0.0));
}

#[test]
fn the_model_is_handed_window_state_and_rate() {
    let mut vad = VadStream::new(&config(&["--sample-rate", "8000"]));
    let first: Vec<u8> = (0..256i16).flat_map(|n| (n - 100).to_le_bytes()).collect();
    let check = |samples: &InputRow, state: &StateTensor, sr: &RateTensor| {
        assert_eq!(&samples.items()[..32], &vec![0u32; 32][..]);
        assert_eq!(samples.items()[32], normalize_sample(-100));
        assert_eq!(samples.items()[287], normalize_sample(155));
        assert_eq!(state.items(), &vec![0u32; 256][..]);
        assert_eq!(sr.items(), &[8000i64]);
        reply(0.0, 42)
    };
    vad.handle_pcm_chunk(check, &first).unwrap();
    assert_eq!(vad.state.items(), &vec![42u32; 256][..]);
    assert_eq!(vad.current_sample, 256);
    let second = vec![0u8; 512];
    let check = |samples: &InputRow, state: &StateTensor, _: &RateTensor| {
        let context: Vec<u32> = (124..156).map(normalize_sample).collect();
        assert_eq!(&samples.items()[..32], &context[..]);
        assert_eq!(samples.items()[32..], vec![0u32; 256][..]);
        assert_eq!(state.items(), &vec![42u32; 256][..]);
        reply(0.0, 43)
    };
    vad.handle_pcm_chunk(check, &second).unwrap();
}

#[test]
fn failed_chunks_change_nothing() {
    let mut vad = VadStream::new(&config(&[]));
    feed(&mut vad, 0.9);
    let window = vad.input.items().to_vec();
    let good = vec![1u8; 1024];
    let result = vad.handle_pcm_chunk(|_, _, _| panic!("not called"), &good[1..]);
    let error = result.unwrap_err();
    assert_eq!(error, ServiceError::ChunkSize { got: 1023, expected: 1024 });
    assert_eq!(error.message(), "invalid chunk size: got 1023 bytes, expected 1024 bytes");

    let result = vad.handle_pcm_chunk(|_, _, _| Err("no such tensor".to_string()), &good);
    let error = result.unwrap_err();
    assert_eq!(error, ort_err("no such tensor".to_string()));
    assert_eq!(error.message(), "no such tensor");

    let no_state = ModelReply { output: vec![], state: None };
    let error = vad.handle_pcm_chunk(|_, _, _| Ok(no_state), &good).unwrap_err();
    assert_eq!(error, ServiceError::StateNotContiguous);
    assert_eq!(error.message(), "state output buffer is not contiguous");

    let short = ModelReply { output: vec![], state: Some(vec![0; 255]) };
    let error = vad.handle_pcm_chunk(|_, _, _| Ok(short), &good).unwrap_err();
    assert_eq!(error.message(), "ShapeError/OutOfBounds: out of bounds indexing");

    let long = ModelReply { output: vec![], state: Some(vec![0; 257]) };
    let error = vad.handle_pcm_chunk(|_, _, _| Ok(long), &good).unwrap_err();
    assert_eq!(error.message(), "ShapeError/IncompatibleShape: incompatible shapes");

    assert_eq!(vad.input.items(), &window[..]);
    assert_eq!(vad.state.items(), &vec![1u32; 256][..]);
    assert_eq!((vad.current_sample, vad.temp_end, vad.triggered), (512, 0, true));
}

#[test]
fn no_output_counts_as_zero() {
    let mut vad = VadStream::new(&config(&[]));
    let empty = ModelReply { output: vec![], state: Some(vec![0; 256]) };
    let event = vad.handle_pcm_chunk(|_, _, _| Ok(empty), &vec![0; 1024]).unwrap();
    assert_eq!(event, silence(32, 0.0));
    let two = ModelReply {
        output: vec![0.75f32.to_bits(), 0.0f32.to_bits()],
        state: Some(vec![0; 256]),
    };
    let event = vad.handle_pcm_chunk(|_, _, _| Ok(two), &vec![0; 1024]).unwrap();
    assert_eq!(event, start(2, 0.75));
}

#[test]
fn a_stream_tells_when_positions_run_out() {
    let mut vad = VadStream::new(&config(&[]));
    let (loud, low, between) = (reply(0.9, 0), reply(0.1, 0), reply(0.4, 0));
    assert!(vad.room().fits(&loud) && vad.room().fits(&low));
    vad.current_sample = i64::MAX / 1000 - 512;
    assert!(vad.room().fits(&low));
    vad.current_sample += 1;
    assert!(!vad.room().fits(&low));
    assert!(vad.room().fits(&loud));
    vad.current_sample += 1000;
    assert!(!vad.room().fits(&loud));
    vad.triggered = true;
    assert!(vad.room().fits(&loud) && vad.room().fits(&low) && vad.room().fits(&between));
    vad.temp_end = vad.current_sample - 1600;
    assert!(vad.room().fits(&low));
    vad.temp_end = i64::MAX / 1000 + 33;
    vad.current_sample = vad.temp_end + 1600;
    assert!(!vad.room().fits(&low));
    assert!(vad.room().fits(&between));
    vad.temp_end -= 1;
    assert!(vad.room().fits(&low));
    vad.current_sample = i64::MAX - 511;
    assert!(!vad.room().fits(&between));
    assert!(vad.room().fits(&Err("down".to_string())));
    assert!(vad.room().fits(&Ok(ModelReply { output: vec![], state: None })));
    assert!(vad.room().fits(&Ok(ModelReply { output: vec![], state: Some(vec![0; 2]) })));
}

#[test]
fn a_session_greets_first() {
    let (session, ready) = SocketSession::start(&config(&[]));
    assert!(session.open);
    assert_eq!(
        ready,
        VadEvent::Ready { sample_rate: 16000, chunk_samples: 512, format: "pcm_s16le_mono" }
    );
    let (_, ready) = SocketSession::start(&config(&["--sample-rate", "8000"]));
    assert_eq!(
        ready,
        VadEvent::Ready { sample_rate: 8000, chunk_samples: 256, format: "pcm_s16le_mono" }
    );
}

fn idle(_: &InputRow, _: &StateTensor, _: &RateTensor) -> Result<ModelReply, String> {
    panic!("not called")
}

#[test]
fn a_session_answers_what_comes() {
    let (mut session, _) = SocketSession::start(&config(&[]));
    let action = session.step(Incoming::Ping(vec![1, 2, 3]), idle);
    assert_eq!(action, Action::SendPong(vec![1, 2, 3]));
    assert_eq!(session.step(Incoming::Pong, idle), Action::Wait);
    let action = session.step(Incoming::Text, idle);
    let message = "send binary pcm_s16le audio chunks, not text".to_string();
    assert_eq!(action, Action::Send(VadEvent::Error { message }));
    assert_eq!(session.vad.current_sample, 0);
    let chunk = || Incoming::Binary(vec![0; 1024]);
    let action = session.step(chunk(), |_, _, _| reply(0.0, 0));
    assert_eq!(action, Action::Send(silence(32, 0.0).unwrap()));
    let action = session.step(chunk(), |_, _, _| reply(0.62, 0));
    assert_eq!(action, Action::Send(start(2, 0.62).unwrap()));
    assert_eq!(session.step(chunk(), |_, _, _| reply(0.62, 0)), Action::Wait);
    assert!(session.open);
    assert_eq!(session.step(Incoming::Close, idle), Action::Finish);
    assert!(!session.open);
}

#[test]
fn a_session_ends() {
    let settings = config(&["--idle-timeout-secs", "5"]);
    let (mut session, _) = SocketSession::start(&settings);
    assert_eq!(session.step(Incoming::Ended, idle), Action::Finish);
    assert!(!session.open);

    let (mut session, _) = SocketSession::start(&settings);
    match session.step(Incoming::Idle, idle) {
        Action::Fail(error) => assert_eq!(error.message(), "idle timeout after 5 seconds"),
        other => panic!("{other:?}"),
    }
    assert!(!session.open);

    let (mut session, _) = SocketSession::start(&settings);
    match session.step(Incoming::Failed("reset".to_string()), idle) {
        Action::Fail(error) => assert_eq!(error.message(), "websocket receive failed: reset"),
        other => panic!("{other:?}"),
    }
    assert!(!session.open);

    let (mut session, _) = SocketSession::start(&settings);
    match session.step(Incoming::Binary(vec![0; 10]), idle) {
        Action::Fail(error) => {
            assert_eq!(error.message(), "invalid chunk size: got 10 bytes, expected 1024 bytes")
        }
        other => panic!("{other:?}"),
    }
    assert!(!session.open);
}

#[test]
fn connections_are_capped() {
    assert_eq!(judge_connection(7, 8), Admission::Accept);
    let refused = Admission::Refuse { status: 503, message: "too many active VAD sessions" };
    assert_eq!(judge_connection(8, 8), refused);
    assert_eq!(judge_connection(9, 8), refused);
}

#[test]
fn a_gate_counts_who_comes_and_goes() {
    let mut gate = ConnectionGate::new(2);
    assert_eq!(gate.active_connections(), 0);
    assert_eq!(gate.enter(), Admission::Accept);
    assert_eq!(gate.enter(), Admission::Accept);
    let refused = Admission::Refuse { status: 503, message: "too many active VAD sessions" };
    assert_eq!(gate.enter(), refused);
    assert_eq!(gate.active_connections(), 2);
    gate.leave();
    assert_eq!(gate.active_connections(), 1);
    assert_eq!(gate.enter(), Admission::Accept);
    assert_eq!(gate.enter(), refused);
    let mut shut = ConnectionGate::new(0);
    assert_eq!(shut.enter(), refused);
}

/// A model whose answer depends on what it is handed alone.
fn echo(
    samples: &InputRow,
    state: &StateTensor,
    _: &RateTensor,
) -> Result<ModelReply, String> {
    let louder = samples.items().last().copied().unwrap_or(0) ^ state.items()[0];
    let next = state.items().iter().map(|x| x ^ 1).collect();
    Ok(ModelReply { output: vec![louder & 0x3FFF_FFFF], state: Some(next) })
}

#[test]
fn sessions_with_the_same_audio_agree() {
    let settings = config(&["--min-silence-ms", "0"]);
    let (mut quiet, _) = SocketSession::start(&settings);
    let (mut chatty, _) = SocketSession::start(&settings);
    let mut told: Vec<VadEvent> = Vec::new();
    let mut also: Vec<VadEvent> = Vec::new();
    for n in 0..40u8 {
        let level = if n % 5 < 2 { 120 } else { n };
        let chunk = || Incoming::Binary(vec![level; 1024]);
        if let Action::Send(event) = quiet.step(chunk(), echo) {
            told.push(event);
        }
        assert_eq!(chatty.step(Incoming::Ping(vec![n]), idle), Action::SendPong(vec![n]));
        chatty.step(Incoming::Text, idle);
        if let Action::Send(event) = chatty.step(chunk(), echo) {
            also.push(event);
        }
    }
    assert_eq!(told, also);
    assert!(told.iter().any(|event| matches!(event, VadEvent::SpeechStart { .. })));
    assert!(told.iter().any(|event| matches!(event, VadEvent::SpeechEnd { .. })));
}

#[test]
fn segments_do_not_overlap() {
    let mut vad = VadStream::new(&config(&[]));
    let mut state: u32 = 99;
    let mut last: Option<(bool, i64)> = None;
    let mut seen = 0;
    for n in 0..4000 {
        state = state.wrapping_mul(1_664_525).wrapping_add(1_013_904_223);
        let loud = n / 10 % 2 == 0;
        let probability = (state >> 8) as f32 / (1u32 << 24) as f32 * if loud { 1.0 } else { 0.3 };
        match feed(&mut vad, probability) {
            Some(VadEvent::SpeechStart { audio_time_ms, .. }) => {
                if let Some((started, time)) = last {
                    assert!(!started);
                    assert!(audio_time_ms >= time);
                }
                last = Some((true, audio_time_ms));
                seen += 1;
            }
            Some(VadEvent::SpeechEnd { audio_time_ms, .. }) => {
                let (started, time) = last.unwrap();
                assert!(started);
                assert!(audio_time_ms >= time + 32);
                last = Some((false, audio_time_ms));
            }
            _ => {}
        }
    }
    assert!(seen > 10);
}

#[test]
fn refused_chunks_leave_no_gap_in_the_windows() {
    let mut vad = VadStream::new(&config(&[]));
    let first: Vec<u8> = (0..512i16).flat_map(|n| n.to_le_bytes()).collect();
    vad.handle_pcm_chunk(|_, _, _| reply(0.0, 0), &first).unwrap();
    vad.handle_pcm_chunk(|_, _, _| panic!("not called"), &first[2..]).unwrap_err();
    vad.handle_pcm_chunk(|_, _, _| Err("down".to_string()), &vec![9; 1024]).unwrap_err();
    let check = |samples: &InputRow, _: &StateTensor, _: &RateTensor| {
        let context: Vec<u32> = (448..512).map(normalize_sample).collect();
        assert_eq!(&samples.items()[..64], &context[..]);
        reply(0.0, 0)
    };
    let event = vad.handle_pcm_chunk(check, &vec![0; 1024]).unwrap();
    assert_eq!(event, silence(64, 0.0));
    assert_eq!(vad.current_sample, 1024);
}

#[test]
fn health_tells_the_settings() {
    let response = health(&config(&["--max-connections", "3"]), 2);
    assert_eq!(response.status, "ok");
    assert_eq!(response.runtime, "rust+official-onnxruntime");
    assert_eq!(response.active_connections, 2);
    assert_eq!(response.max_connections, 3);
    assert_eq!(response.sample_rate, 16000);
    assert_eq!(response.chunk_samples, 512);
}
