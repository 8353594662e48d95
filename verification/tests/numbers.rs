use rust_ort_vad::pcm::{
    block_size, build_window, context_size, decode_sample, normalize_sample, push_sample,
    shift_window, PCM_I16_BYTES_PER_SAMPLE,
};
use rust_ort_vad::single::{at_least, below, nearest_quotient};
use rust_ort_vad::threshold::{is_valid_threshold, release_threshold};

fn sample_patterns() -> Vec<u32> {
    let mut patterns: Vec<u32> = vec![
        0x0000_0000, 0x8000_0000, 0x0000_0001, 0x8000_0001, 0x007F_FFFF, 0x0080_0000, 0x3F80_0000,
        0xBF80_0000, 0x3F00_0000, 0x3EB3_3333, 0x7F7F_FFFF, 0xFF7F_FFFF, 0x7F80_0000, 0xFF80_0000,
        0x7F80_0001, 0x7FC0_0000, 0xFFC0_0000,
    ];
    let mut state: u32 = 12345;
    for _ in 0..200 {
        state = state.wrapping_mul(1_103_515_245).wrapping_add(12345);
        patterns.push(state);
    }
    patterns
}

#[test]
fn comparisons_agree_with_the_machine() {
    let patterns = sample_patterns();
    for &a in &patterns {
        for &b in &patterns {
            let (x, y) = (f32::from_bits(a), f32::from_bits(b));
            assert_eq!(at_least(a, b), x >= y, "{a:#x} >= {b:#x}");
            assert_eq!(below(a, b), x < y, "{a:#x} < {b:#x}");
        }
    }
}

#[test]
fn every_sample_is_normalized_as_the_machine_divides() {
    for sample in i16::MIN..=i16::MAX {
        let expected = (sample as f32 / i16::MAX as f32).to_bits();
        assert_eq!(normalize_sample(sample), expected, "{sample}");
    }
}

#[test]
fn normalized_samples_have_known_patterns() {
    assert_eq!(normalize_sample(0), 0);
    assert_eq!(normalize_sample(32767), 0x3F80_0000);
    assert_eq!(normalize_sample(-32767), 0xBF80_0000);
    assert_eq!(normalize_sample(-32768), 0xBF80_0100);
    assert_eq!(normalize_sample(1), 0x3800_0100);
}

#[test]
fn normalized_samples_keep_their_order() {
    let mut before = f32::from_bits(normalize_sample(i16::MIN));
    for sample in (i16::MIN + 1)..=i16::MAX {
        let next = f32::from_bits(normalize_sample(sample));
        assert!(before <= next);
        before = next;
    }
}

#[test]
fn quotients_round_as_the_machine_divides() {
    for n in 1u64..300 {
        for d in 1u64..300 {
            assert_eq!(nearest_quotient(n, d), (n as f32 / d as f32).to_bits());
        }
    }
    assert_eq!(nearest_quotient(1, 1), 0x3F80_0000);
    assert_eq!(nearest_quotient(1, 3), 0x3EAA_AAAB);
    assert_eq!(nearest_quotient(16_777_217, 1), 16_777_216f32.to_bits());
    assert_eq!(nearest_quotient(16_777_219, 1), 16_777_220f32.to_bits());
    assert_eq!(nearest_quotient(1 << 50, 1), (2f32.powi(50)).to_bits());
    assert_eq!(nearest_quotient(1, 1 << 50), (2f32.powi(-50)).to_bits());
}

#[test]
fn release_threshold_is_the_threshold_less_the_margin() {
    let mut bits: u32 = 0;
    while bits <= 0x3F80_0000 {
        let threshold = f32::from_bits(bits);
        assert_eq!(release_threshold(bits), (threshold - 0.15).to_bits(), "{bits:#x}");
        bits += 40_009;
    }
    for bits in [
        0x8000_0000u32, 0x31FF_FFFF, 0x3200_0000, 0x3200_0001, 0x3E19_9999, 0x3E19_999A,
        0x3E19_999B, 0x3F00_0000, 0x3F7F_FFFF, 0x3F80_0000,
    ] {
        let threshold = f32::from_bits(bits);
        assert_eq!(release_threshold(bits), (threshold - 0.15).to_bits(), "{bits:#x}");
    }
    assert_eq!(release_threshold(0x3F00_0000), 0x3EB3_3333);
}

#[test]
fn release_threshold_is_below_the_threshold() {
    for bits in [0u32, 1, 0x3200_0000, 0x3E19_999A, 0x3F00_0000, 0x3F80_0000] {
        assert!(below(release_threshold(bits), bits));
    }
}

#[test]
fn thresholds_lie_between_zero_and_one() {
    for (value, valid) in [
        (0.0f32, true),
        (-0.0, true),
        (0.5, true),
        (1.0, true),
        (1.0000001, false),
        (-0.1, false),
        (f32::NAN, false),
        (f32::INFINITY, false),
    ] {
        assert_eq!(is_valid_threshold(value.to_bits()), valid, "{value}");
        assert_eq!(valid, (0.0..=1.0).contains(&value));
    }
}

#[test]
fn sizes_for_each_sample_rate() {
    assert_eq!(block_size(16000), 512);
    assert_eq!(block_size(8000), 256);
    assert_eq!(block_size(44100), 256);
    assert_eq!(context_size(16000), 64);
    assert_eq!(context_size(8000), 32);
    assert_eq!(context_size(-1), 32);
    assert_eq!(block_size(16000) * PCM_I16_BYTES_PER_SAMPLE, 1024);
    for rate in [8000i64, 16000] {
        assert_eq!(block_size(rate) as i64 * 1000 / rate, 32);
        assert_eq!(context_size(rate) as i64 * 1000 / rate, 4);
    }
}

#[test]
fn samples_decode_little_endian() {
    for low in 0..=255u8 {
        for high in 0..=255u8 {
            assert_eq!(decode_sample(low, high), i16::from_le_bytes([low, high]));
        }
    }
}

#[test]
fn samples_survive_encoding_and_decoding() {
    let mut bytes: Vec<u8> = Vec::new();
    let samples: Vec<i16> = vec![0, 1, -1, 255, 256, -256, i16::MAX, i16::MIN, 12345];
    for &sample in &samples {
        push_sample(&mut bytes, sample);
    }
    let expected: Vec<u8> = samples.iter().flat_map(|sample| sample.to_le_bytes()).collect();
    assert_eq!(bytes, expected);
    let decoded: Vec<i16> =
        bytes.chunks_exact(2).map(|pair| decode_sample(pair[0], pair[1])).collect();
    assert_eq!(decoded, samples);
}

#[test]
fn windows_overlap_by_the_context() {
    let before: Vec<u32> = (0..6).collect();
    let first: Vec<u8> = vec![1, 0, 2, 0, 3, 0, 4, 0];
    let window = build_window(&before, 4, 2, &first);
    let chunk: Vec<u32> = [1i16, 2, 3, 4].iter().map(|&s| normalize_sample(s)).collect();
    assert_eq!(&window[..2], &[4, 5]);
    assert_eq!(&window[2..], &chunk[..]);
    let second: Vec<u8> = vec![255, 255, 0, 128, 0, 0, 255, 127];
    let next = build_window(&window, 4, 2, &second);
    assert_eq!(&next[..2], &chunk[2..]);
    assert_eq!(next[2], normalize_sample(-1));
    assert_eq!(next[3], normalize_sample(i16::MIN));

    let mut buffer = before.clone();
    shift_window(&mut buffer, 4, 2, &first);
    assert_eq!(buffer, window);
    shift_window(&mut buffer, 4, 2, &second);
    assert_eq!(buffer, next);
}
