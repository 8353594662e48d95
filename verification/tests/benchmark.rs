use rust_ort_vad::bench::chunk::benchmark_chunk;
use rust_ort_vad::bench::config::Config;
use rust_ort_vad::bench::run::run_benchmark;
use rust_ort_vad::bench::state::{Mode, VadState};
use rust_ort_vad::bench::times::{order_key, percentile, summarize, P95_BITS};
use rust_ort_vad::double::take_part;
use rust_ort_vad::error::ServiceError;
use rust_ort_vad::pcm::normalize_sample;
use rust_ort_vad::stream::{ModelReply, STATE_LEN};
use rust_ort_vad::tensor::{InputRow, RateTensor, StateTensor};

fn count_up(
    samples: &InputRow,
    state: &StateTensor,
    _: &RateTensor,
) -> Result<ModelReply, String> {
    let next: Vec<u32> = state.items().iter().map(|x| x + 1).collect();
    Ok(ModelReply { output: samples.items().to_vec(), state: Some(next) })
}

/// Counts the calls of the model in its session.
fn counted(
    calls: u32,
    samples: &InputRow,
    state: &StateTensor,
    sr: &RateTensor,
) -> (u32, Result<ModelReply, String>) {
    (calls + 1, count_up(samples, state, sr))
}

fn mix(index: usize, noise: i32) -> i16 {
    let noise = noise as f32 / 32768.0;
    let wave = (index as f32 * 0.061_359_23).sin();
    ((wave * 0.18 + noise * 0.02) * i16::MAX as f32) as i16
}

#[test]
fn noise_follows_the_generator() {
    let chunk = benchmark_chunk(4, |_, noise| noise as i16);
    let samples: Vec<i16> =
        chunk.chunks_exact(2).map(|b| i16::from_le_bytes([b[0], b[1]])).collect();
    assert_eq!(samples, [-2749, 19760, -23077, -13476]);
    let chunk = benchmark_chunk(3, |index, _| index as i16 - 1);
    assert_eq!(chunk, [255, 255, 0, 0, 1, 0]);
    assert!(benchmark_chunk(0, mix).is_empty());
}

#[test]
fn a_shorter_chunk_begins_a_longer_one() {
    let long = benchmark_chunk(512, mix);
    assert_eq!(long.len(), 1024);
    assert_eq!(benchmark_chunk(512, mix), long);
    assert_eq!(benchmark_chunk(256, mix)[..], long[..512]);
    assert_eq!(benchmark_chunk(1, mix)[..], long[..2]);
}

#[test]
fn the_chunk_is_the_whole_synthetic_wave() {
    let mut expected: Vec<u8> = Vec::new();
    let mut state = 0x1234_5678_u32;
    for index in 0..512usize {
        state = state.wrapping_mul(1_664_525).wrapping_add(1_013_904_223);
        let noise = ((state >> 16) as i32 - 32768) as f32 / 32768.0;
        let wave = ((index as f32) * 0.061_359_23).sin();
        let sample = ((wave * 0.18 + noise * 0.02) * i16::MAX as f32) as i16;
        expected.extend_from_slice(&sample.to_le_bytes());
    }
    assert_eq!(benchmark_chunk(512, mix), expected);
}

#[test]
fn both_modes_agree() {
    for rate in [8000i64, 16000] {
        let mut allocating = VadState::new(rate);
        let mut reused = VadState::new(rate);
        let chunk = benchmark_chunk(allocating.block_size, mix);
        for _ in 0..3 {
            assert_eq!(allocating.process_allocating(5, counted, &chunk), (6, Ok(())));
            assert_eq!(reused.process_reused_buffers(7, counted, &chunk), (8, Ok(())));
            assert_eq!(allocating.input.items(), reused.input.items());
            assert_eq!(allocating.state.items(), reused.state.items());
        }
        assert_eq!(reused.state.items(), &vec![3u32; STATE_LEN][..]);
        assert_ne!(reused.input.items(), VadState::new(rate).input.items());
    }
}

#[test]
fn wrong_sizes_are_refused() {
    let mut vad = VadState::new(8000);
    let error = vad.validate(&[0; 3]).unwrap_err();
    assert_eq!(
        error.message(),
        "invalid chunk size for 8000 Hz: got 3 bytes, expected 512 bytes"
    );
    let expected =
        ServiceError::BenchmarkChunkSize { sample_rate: 8000, got: 3, expected: 512 };
    assert_eq!(vad.process_allocating(3, counted, &[0; 3]), (3, Err(expected)));
    let (calls, result) = vad.process_reused_buffers(4, counted, &[0; 3]);
    assert!(calls == 4 && result.is_err());
    let (calls, result) = vad.process(Mode::ReusedBuffers, 5, counted, &[0; 513]);
    assert!(calls == 5 && result.is_err());
    assert_eq!(vad.validate(&[0; 512]), Ok(()));
    let odd = VadState::new(-7);
    assert_eq!(
        odd.validate(&[]).unwrap_err().message(),
        "invalid chunk size for -7 Hz: got 0 bytes, expected 512 bytes"
    );
    let least = VadState::new(i64::MIN);
    assert_eq!(
        least.validate(&[]).unwrap_err().message(),
        "invalid chunk size for -9223372036854775808 Hz: got 0 bytes, expected 512 bytes"
    );
}

#[test]
fn a_failed_model_keeps_the_window_only_when_arrays_are_new() {
    let chunk = vec![1u8; 1024];
    let mut allocating = VadState::new(16000);
    let mut reused = VadState::new(16000);
    let fail = |_: (), _: &InputRow, _: &StateTensor, _: &RateTensor| ((), Err("down".to_string()));
    let (_, result) = allocating.process_allocating((), fail, &chunk);
    assert_eq!(result.unwrap_err().message(), "down");
    let (_, result) = reused.process_reused_buffers((), fail, &chunk);
    assert_eq!(result.unwrap_err().message(), "down");
    assert_eq!(allocating.input.items(), &vec![0u32; 576][..]);
    assert_ne!(reused.input.items(), &vec![0u32; 576][..]);
    assert_eq!(reused.state.items(), &vec![0u32; 256][..]);

    let bare = |_: (), _: &InputRow, _: &StateTensor, _: &RateTensor| {
        ((), Ok(ModelReply { output: vec![], state: None }))
    };
    assert_eq!(
        allocating.process_allocating((), bare, &chunk).1,
        Err(ServiceError::StateNotContiguous)
    );
    assert_eq!(
        reused.process_reused_buffers((), bare, &chunk).1,
        Err(ServiceError::StateNotContiguous)
    );
    let short = |_: (), _: &InputRow, _: &StateTensor, _: &RateTensor| {
        ((), Ok(ModelReply { output: vec![], state: Some(vec![0; 2]) }))
    };
    assert_eq!(
        allocating.process_allocating((), short, &chunk).1.unwrap_err().message(),
        "ShapeError/OutOfBounds: out of bounds indexing"
    );
}

/// The machine's answer.
fn by_machine(values: &[u64], fraction: f64) -> u64 {
    if values.is_empty() {
        return 0;
    }
    let index = ((values.len() - 1) as f64 * fraction).round() as usize;
    values[index.min(values.len() - 1)]
}

#[test]
fn percentiles_agree_with_the_machine() {
    assert_eq!(P95_BITS, 0.95f64.to_bits());
    for len in 0..3000usize {
        let values: Vec<u64> = (0..len as u64).map(|n| 10 * n).collect();
        assert_eq!(percentile(&values, P95_BITS), by_machine(&values, 0.95), "{len}");
    }
    for len in [1usize, 2, 3, 51, 101, 1000] {
        let values: Vec<u64> = (0..len as u64).collect();
        for n in -50..1300 {
            let fraction = n as f64 / 1000.0;
            let value = percentile(&values, fraction.to_bits());
            assert_eq!(value, by_machine(&values, fraction), "{len} {fraction}");
        }
    }
    let values: Vec<u64> = (0..51).collect();
    assert_eq!(percentile(&values, 0.29f64.to_bits()), 14);
    for fraction in [
        f64::NAN,
        -f64::NAN,
        f64::INFINITY,
        f64::NEG_INFINITY,
        -0.0,
        f64::MIN_POSITIVE,
        5e-324,
        f64::MAX,
        f64::MIN,
        1e18,
        4.0e15,
        9.1e15,
        1.0 - f64::EPSILON,
    ] {
        let value = percentile(&values, fraction.to_bits());
        assert_eq!(value, by_machine(&values, fraction), "{fraction}");
        assert_eq!(percentile(&[7], fraction.to_bits()), 7);
    }
    assert_eq!(percentile(&[3, 5, 9], 0.0f64.to_bits()), 3);
    assert_eq!(percentile(&[3, 5, 9], 0.5f64.to_bits()), 5);
    assert_eq!(percentile(&[3, 5, 9], 1.0f64.to_bits()), 9);
    assert_eq!(percentile(&[], 1.0f64.to_bits()), 0);
}

#[test]
fn parts_agree_with_the_machine() {
    let mut state: u64 = 1;
    let mut next = || {
        state = state.wrapping_mul(6_364_136_223_846_793_005).wrapping_add(1_442_695_040_888_963_407);
        state
    };
    for _ in 0..200_000 {
        let last = next() >> (next() >> 58);
        let fraction = match next() >> 62 {
            0 => f64::from_bits(next()),
            1 => (next() >> 11) as f64 / (1u64 << 53) as f64,
            2 => ((next() >> 40) as f64 + 0.5) / last as f64,
            _ => (next() >> 54) as f64 / 1024.0,
        };
        let index = (last as f64 * fraction).round() as u64;
        let part = take_part(last, fraction.to_bits());
        assert_eq!(part, index.min(last), "{last} {fraction:e}");
    }
    let odd = (1u64 << 53) + 1;
    assert_eq!(take_part(odd, 1.0f64.to_bits()), odd - 1);
    assert_eq!(take_part(u64::MAX, 1.0f64.to_bits()), u64::MAX);
}

#[test]
fn times_are_sorted_in_total_order() {
    let mut times: Vec<f64> =
        vec![2.5, -1.0, 0.0, -0.0, f64::NAN, 1e-300, f64::INFINITY, f64::NEG_INFINITY, 2.5];
    let summary = summarize(times.iter().map(|time| time.to_bits()).collect());
    times.sort_by(|left, right| left.total_cmp(right));
    let expected: Vec<u64> = times.iter().map(|time| time.to_bits()).collect();
    assert_eq!(summary.sorted, expected);
    assert_eq!(summary.max, expected[8]);
    assert_eq!(summary.p95, expected[8]);
    for left in &times {
        for right in &times {
            assert_eq!(
                order_key(left.to_bits()).cmp(&order_key(right.to_bits())),
                left.total_cmp(right)
            );
        }
    }
    let empty = summarize(vec![]);
    assert_eq!((empty.sorted.len(), empty.p95, empty.max), (0, 0, 0));
}

#[derive(Debug, PartialEq)]
enum Event {
    Mark(u64),
    Model,
    Read(u64),
}

type Log = Vec<Event>;

fn begin(mut log: Log) -> (Log, u64) {
    let mark = log.len() as u64;
    log.push(Event::Mark(mark));
    (log, mark)
}

fn elapsed(mut log: Log, mark: u64) -> (Log, u64) {
    log.push(Event::Read(mark));
    let time = 1000 - mark;
    (log, time)
}

fn logged(
    mut log: Log,
    samples: &InputRow,
    state: &StateTensor,
    sr: &RateTensor,
) -> (Log, Result<ModelReply, String>) {
    log.push(Event::Model);
    (log, count_up(samples, state, sr))
}

#[test]
fn a_run_times_every_chunk() {
    for mode in [Mode::Allocating, Mode::ReusedBuffers] {
        let mut config = Config::defaults();
        config.chunks = 20;
        config.mode = mode;
        let (log, taken) = run_benchmark(&config, Log::new(), mix, logged, begin, elapsed);
        let mut expected: Log = vec![Event::Mark(0)];
        for chunk in 0..20 {
            let mark = 1 + 3 * chunk;
            expected.extend([Event::Mark(mark), Event::Model, Event::Read(mark)]);
        }
        expected.push(Event::Read(0));
        assert_eq!(log, expected);
        let taken = taken.unwrap();
        assert_eq!(taken.elapsed, 1000);
        let times: Vec<u64> = (0..20).rev().map(|chunk| 999 - 3 * chunk).collect();
        assert_eq!(taken.chunks.sorted, times);
        assert_eq!(taken.chunks.max, 999);
        assert_eq!(taken.chunks.p95, 996);
    }
}

#[test]
fn a_run_stops_at_the_first_error() {
    let infer = |log: Log, samples: &InputRow, state: &StateTensor, sr: &RateTensor| {
        let (log, reply) = logged(log, samples, state, sr);
        let models = log.iter().filter(|event| **event == Event::Model).count();
        (log, if models == 3 { Err("gone".to_string()) } else { reply })
    };
    let mut config = Config::defaults();
    config.sample_rate = 8000;
    config.chunks = 9;
    let (log, result) = run_benchmark(&config, Log::new(), mix, infer, begin, elapsed);
    assert_eq!(result.unwrap_err().message(), "gone");
    assert_eq!(log[7..], [Event::Mark(7), Event::Model]);
}

#[test]
fn a_run_feeds_the_same_chunk_again_and_again() {
    let infer = |seen: u32, samples: &InputRow, state: &StateTensor, sr: &RateTensor| {
        let chunk = benchmark_chunk(256, mix);
        let last = i16::from_le_bytes([chunk[510], chunk[511]]);
        assert_eq!(samples.items()[287], normalize_sample(last));
        assert_eq!(state.items()[0], seen);
        assert_eq!(sr.items(), &[8000i64]);
        counted(seen, samples, state, sr)
    };
    let mut config = Config::defaults();
    config.sample_rate = 8000;
    config.chunks = 4;
    let (seen, result) =
        run_benchmark(&config, 0, mix, infer, |seen| (seen, ()), |seen, _| (seen, 0));
    assert_eq!(seen, 4);
    assert_eq!(result.unwrap().elapsed, 0);
}

#[test]
fn modes_are_named() {
    assert_eq!(Mode::Allocating.name(), "allocating");
    assert_eq!(Mode::ReusedBuffers.name(), "reused_buffers");
}
