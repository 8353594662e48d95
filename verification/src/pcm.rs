//! Chunks of signed sixteen bit little-endian mono samples, and the window of
//! samples that the model reads.
use crate::single::{
    lemma_exact_is_nearest, lemma_nearest_exists, lemma_nearest_is, lemma_nearest_monotone,
    lemma_scaled_increasing, nearest, nearest_quotient, rounded, scaled, scaled_value, INFINITY_BITS,
    ONE_BITS, SIGN_BIT, ZERO_BITS,
};
use vstd::arithmetic::power2::{
    lemma2_to64, lemma_pow2_adds, lemma_pow2_pos, lemma_pow2_unfold, pow2,
};
use vstd::prelude::*;

verus! {

/// How many bytes one sample takes.
pub const PCM_I16_BYTES_PER_SAMPLE: usize = 2;

/// The sample that stands for full scale.
pub const FULL_SCALE: u64 = 32767;

/// Samples per chunk.
pub open spec fn block_size_spec(sample_rate: int) -> int {
    if sample_rate == 16000 {
        512
    } else {
        256
    }
}

/// Samples of the previous chunk that the model reads again.
pub open spec fn context_size_spec(sample_rate: int) -> int {
    if sample_rate == 16000 {
        64
    } else {
        32
    }
}

/// How many samples a chunk holds at a sample rate.
pub fn block_size(sample_rate: i64) -> (samples: usize)
    ensures
        samples == block_size_spec(sample_rate as int),
{
    if sample_rate == 16000 {
        512
    } else {
        256
    }
}

/// How many samples of the previous chunk precede a chunk in the window.
pub fn context_size(sample_rate: i64) -> (samples: usize)
    ensures
        samples == context_size_spec(sample_rate as int),
{
    if sample_rate == 16000 {
        64
    } else {
        32
    }
}

/// The sample that two bytes spell, low byte first, in two's complement.
pub open spec fn sample_of_bytes(low: u8, high: u8) -> int {
    let unsigned = low + 256 * high;
    if unsigned < 0x8000 {
        unsigned
    } else {
        unsigned - 0x1_0000
    }
}

/// The samples of a payload.
pub open spec fn decode(payload: Seq<u8>) -> Seq<int> {
    Seq::new(payload.len() / 2, |i: int| sample_of_bytes(payload[2 * i], payload[2 * i + 1]))
}

/// Byte `i` of the encoding of `samples`.
pub open spec fn encoded_byte(samples: Seq<i16>, i: int) -> u8 {
    let sample = samples[i / 2] as int;
    let unsigned = if sample < 0 {
        sample + 0x1_0000
    } else {
        sample
    };
    if i % 2 == 0 {
        (unsigned % 256) as u8
    } else {
        (unsigned / 256) as u8
    }
}

/// The payload that holds `samples`.
pub open spec fn encode(samples: Seq<i16>) -> Seq<u8> {
    Seq::new(2 * samples.len(), |i: int| encoded_byte(samples, i))
}

/// The number that the model reads for a sample: the sample over full scale,
/// rounded once.
pub open spec fn normalized(sample: int) -> u32 {
    rounded(sample * pow2(149), FULL_SCALE as int)
}

/// The numbers that the model reads for the samples of a payload.
pub open spec fn model_samples(payload: Seq<u8>) -> Seq<u32> {
    decode(payload).map_values(|sample: int| normalized(sample))
}

/// What the model reads for a chunk: the last `context` samples of the window
/// before it, then the samples of the payload.
pub open spec fn window(before: Seq<u32>, block: int, context: int, payload: Seq<u8>) -> Seq<u32> {
    before.subrange(block, block + context) + model_samples(payload)
}

/// Reads one sample.
pub fn decode_sample(low: u8, high: u8) -> (sample: i16)
    ensures
        sample == sample_of_bytes(low, high),
{
    let unsigned: u16 = (high as u16) * 256 + (low as u16);
    if unsigned < 0x8000 {
        unsigned as i16
    } else {
        (unsigned as i32 - 0x1_0000) as i16
    }
}

/// Appends the two bytes of one sample.
pub fn push_sample(bytes: &mut Vec<u8>, sample: i16)
    ensures
        final(bytes)@ == old(bytes)@ + encode(seq![sample]),
{
    let unsigned: i32 = if sample < 0 {
        sample as i32 + 0x1_0000
    } else {
        sample as i32
    };
    bytes.push((unsigned % 256) as u8);
    bytes.push((unsigned / 256) as u8);
    assert(bytes@ =~= old(bytes)@ + encode(seq![sample]));
}

/// The number that the model reads for a sample.
pub fn normalize_sample(sample: i16) -> (bits: u32)
    ensures
        bits == normalized(sample as int),
{
    if sample == 0 {
        proof {
            lemma_silence_is_zero();
        }
        return ZERO_BITS;
    }
    let size: u64 = if sample < 0 {
        -(sample as i64) as u64
    } else {
        sample as u64
    };
    let mag: u32 = nearest_quotient(size, FULL_SCALE);
    proof {
        lemma_nearest_is(size * pow2(149), FULL_SCALE as int, mag as int);
        assert(-(sample * pow2(149)) == (-sample) * pow2(149)) by (nonlinear_arith);
        lemma_pow2_pos(149);
        assert(sample < 0 ==> sample * pow2(149) < 0) by (nonlinear_arith)
            requires
                pow2(149) > 0,
        ;
        assert(sample > 0 ==> sample * pow2(149) > 0) by (nonlinear_arith)
            requires
                pow2(149) > 0,
        ;
    }
    if sample < 0 {
        SIGN_BIT + mag
    } else {
        mag
    }
}

/// Builds the window of a chunk from the window before it.
pub fn build_window(before: &[u32], block: usize, context: usize, payload: &[u8]) -> (samples: Vec<
    u32,
>)
    requires
        before@.len() == context + block,
        payload@.len() == block * PCM_I16_BYTES_PER_SAMPLE,
    ensures
        samples@ == window(before@, block as int, context as int, payload@),
        samples@.len() == context + block,
{
    let length: usize = before.len();
    let bytes: usize = payload.len();
    let mut samples: Vec<u32> = Vec::with_capacity(length);
    let mut i: usize = 0;
    while i < context
        invariant
            i <= context,
            before@.len() == context + block == length,
            samples@ == before@.subrange(block as int, block + i),
        decreases context - i,
    {
        samples.push(before[block + i]);
        i = i + 1;
        assert(samples@ =~= before@.subrange(block as int, block + i));
    }
    let ghost chunk = model_samples(payload@);
    let ghost kept = samples@;
    let mut k: usize = 0;
    while k < block
        invariant
            k <= block,
            payload@.len() == block * PCM_I16_BYTES_PER_SAMPLE == bytes,
            chunk == model_samples(payload@),
            samples@ == kept + chunk.take(k as int),
        decreases block - k,
    {
        let sample: i16 = decode_sample(payload[2 * k], payload[2 * k + 1]);
        samples.push(normalize_sample(sample));
        k = k + 1;
        assert(decode(payload@)[k - 1] == sample);
        assert(chunk[k - 1] == normalized(sample as int));
        assert(samples@ =~= kept + chunk.take(k as int));
    }
    assert(chunk.take(block as int) =~= chunk);
    samples
}

/// Turns the window of one chunk into the window of the next, in place.
pub fn shift_window(buffer: &mut [u32], block: usize, context: usize, payload: &[u8])
    requires
        old(buffer)@.len() == context + block,
        payload@.len() == block * PCM_I16_BYTES_PER_SAMPLE,
    ensures
        final(buffer)@ == window(old(buffer)@, block as int, context as int, payload@),
        final(buffer)@.len() == old(buffer)@.len(),
{
    let ghost before = buffer@;
    let length: usize = buffer.len();
    let bytes: usize = payload.len();
    let mut i: usize = 0;
    while i < context
        invariant
            i <= context,
            before.len() == context + block == length,
            buffer@.len() == before.len(),
            forall|j: int| 0 <= j < i ==> buffer@[j] == before[block + j],
            forall|j: int| i <= j < buffer@.len() ==> buffer@[j] == before[j],
        decreases context - i,
    {
        let moved: u32 = buffer[block + i];
        buffer[i] = moved;
        i = i + 1;
    }
    let ghost chunk = model_samples(payload@);
    let mut k: usize = 0;
    while k < block
        invariant
            k <= block,
            before.len() == context + block == length,
            buffer@.len() == before.len(),
            payload@.len() == block * PCM_I16_BYTES_PER_SAMPLE == bytes,
            chunk == model_samples(payload@),
            forall|j: int| 0 <= j < context ==> buffer@[j] == before[block + j],
            forall|j: int| 0 <= j < k ==> buffer@[context + j] == #[trigger] chunk[j],
        decreases block - k,
    {
        let sample: i16 = decode_sample(payload[2 * k], payload[2 * k + 1]);
        buffer[context + k] = normalize_sample(sample);
        assert(decode(payload@)[k as int] == sample);
        assert(chunk[k as int] == normalized(sample as int));
        k = k + 1;
    }
    assert forall|j: int| context <= j < buffer@.len() implies buffer@[j] == chunk[j - context] by {
        assert(buffer@[context + (j - context)] == chunk[j - context]);
    }
    assert(buffer@ =~= window(before, block as int, context as int, payload@));
}

/// Neighbouring windows overlap: the context of a chunk is the end of the
/// chunk before it, in the model's numbers.
pub proof fn lemma_windows_overlap(
    before: Seq<u32>,
    block: int,
    context: int,
    first: Seq<u8>,
    second: Seq<u8>,
)
    requires
        0 <= context <= block,
        before.len() == context + block,
        first.len() == 2 * block,
    ensures
        window(window(before, block, context, first), block, context, second).take(context)
            == model_samples(first).skip(block - context),
{
    let middle = window(before, block, context, first);
    assert(window(middle, block, context, second).take(context) =~= model_samples(first).skip(
        block - context,
    ));
}

/// The first chunk follows silence.
pub proof fn lemma_first_window(block: int, context: int, payload: Seq<u8>)
    requires
        0 <= context,
        0 <= block,
    ensures
        window(
            Seq::new((context + block) as nat, |i: int| ZERO_BITS),
            block,
            context,
            payload,
        ).take(context) == Seq::new(context as nat, |i: int| normalized(0)),
{
    lemma_silence_is_zero();
    assert(window(
        Seq::new((context + block) as nat, |i: int| ZERO_BITS),
        block,
        context,
        payload,
    ).take(context) =~= Seq::new(context as nat, |i: int| normalized(0)));
}

/// Silence is the number zero.
pub proof fn lemma_silence_is_zero()
    ensures
        normalized(0) == ZERO_BITS,
{
    lemma_exact_is_nearest(0, FULL_SCALE as int);
}

/// A full scale sample is the number one.
pub proof fn lemma_full_scale_is_one()
    ensures
        normalized(FULL_SCALE as int) == ONE_BITS,
{
    lemma2_to64();
    lemma_pow2_adds(23, 126);
    lemma_exact_is_nearest(ONE_BITS as int, FULL_SCALE as int);
    assert(scaled(ONE_BITS as int) == pow2(149));
}

/// A chunk lasts thirty-two milliseconds and its context four, at either of the
/// model's sample rates.
pub proof fn lemma_chunk_duration(sample_rate: int)
    requires
        sample_rate == 8000 || sample_rate == 16000,
    ensures
        block_size_spec(sample_rate) * 1000 == 32 * sample_rate,
        context_size_spec(sample_rate) * 1000 == 4 * sample_rate,
{
}

/// A sample and its negative differ in the sign alone.
pub proof fn lemma_normalized_mirror(sample: int)
    requires
        0 < sample <= 32768,
    ensures
        normalized(-sample) == SIGN_BIT + normalized(sample),
        normalized(sample) < INFINITY_BITS,
{
    lemma_sample_scale(sample);
    lemma_nearest_exists(sample * pow2(149), FULL_SCALE as int);
    assert((-sample) * pow2(149) == -(sample * pow2(149))) by (nonlinear_arith);
}

/// A larger sample is no smaller number.
pub proof fn lemma_normalized_order(a: int, b: int)
    requires
        -32768 <= a <= b <= 32767,
    ensures
        scaled_value(normalized(a)) <= scaled_value(normalized(b)),
{
    let unit = pow2(149) as int;
    lemma_silence_is_zero();
    assert(scaled(0) == 0);
    if a > 0 {
        lemma_sample_scale(a);
        lemma_sample_scale(b);
        lemma_nearest_exists(a * unit, FULL_SCALE as int);
        lemma_nearest_exists(b * unit, FULL_SCALE as int);
        assert(a * unit <= b * unit) by (nonlinear_arith)
            requires
                a <= b,
                unit >= 0,
        ;
        lemma_nearest_monotone(a * unit, b * unit, FULL_SCALE as int);
        lemma_scaled_ordered(nearest(a * unit, FULL_SCALE as int), nearest(b * unit, FULL_SCALE as int));
    } else if b < 0 {
        lemma_sample_scale(-a);
        lemma_sample_scale(-b);
        lemma_normalized_mirror(-a);
        lemma_normalized_mirror(-b);
        lemma_nearest_exists((-a) * unit, FULL_SCALE as int);
        lemma_nearest_exists((-b) * unit, FULL_SCALE as int);
        assert((-b) * unit <= (-a) * unit) by (nonlinear_arith)
            requires
                a <= b,
                unit >= 0,
        ;
        lemma_nearest_monotone((-b) * unit, (-a) * unit, FULL_SCALE as int);
        lemma_scaled_ordered(
            nearest((-b) * unit, FULL_SCALE as int),
            nearest((-a) * unit, FULL_SCALE as int),
        );
    } else {
        if a < 0 {
            lemma_normalized_mirror(-a);
            lemma_scaled_ordered(0, normalized(-a) as int);
        }
        if b > 0 {
            lemma_normalized_mirror(b);
            lemma_scaled_ordered(0, normalized(b) as int);
        }
    }
}

/// A larger magnitude is no smaller number.
proof fn lemma_scaled_ordered(a: int, b: int)
    requires
        0 <= a <= b,
    ensures
        scaled(a) <= scaled(b),
{
    if a < b {
        lemma_scaled_increasing(a, b);
    }
}

/// A sample over full scale is in the range of the finite numbers.
pub proof fn lemma_sample_scale(sample: int)
    requires
        0 < sample <= 32768,
    ensures
        0 < sample * pow2(149) < scaled(INFINITY_BITS - 1) * FULL_SCALE,
        pow2(149) > 0,
{
    lemma2_to64();
    lemma_pow2_pos(149);
    lemma_pow2_adds(23, 126);
    lemma_pow2_adds(23, 127);
    lemma_pow2_unfold(127);
    let unit = pow2(149) as int;
    let two = ONE_BITS + 0x80_0000;
    assert(two / 0x80_0000 == 128 && two % 0x80_0000 == 0);
    assert(scaled(two) == 2 * unit);
    lemma_scaled_increasing(two, INFINITY_BITS - 1);
    assert(0 < sample * unit <= 32768 * unit) by (nonlinear_arith)
        requires
            0 < sample <= 32768,
            unit > 0,
    ;
}

/// What `decode` reads from an encoding is what was encoded.
pub proof fn lemma_decode_encode(samples: Seq<i16>)
    ensures
        decode(encode(samples)) == samples.map_values(|sample: i16| sample as int),
{
    let payload = encode(samples);
    assert forall|i: int| 0 <= i < samples.len() implies decode(payload)[i] == samples[i] by {
        assert(payload[2 * i] == encoded_byte(samples, 2 * i));
        assert(payload[2 * i + 1] == encoded_byte(samples, 2 * i + 1));
    }
    assert(decode(payload) =~= samples.map_values(|sample: i16| sample as int));
}

/// Encoding what was decoded gives back a payload of whole samples.
pub proof fn lemma_encode_decode(payload: Seq<u8>)
    requires
        payload.len() % 2 == 0,
    ensures
        encode(decode(payload).map_values(|sample: int| sample as i16)) == payload,
{
    let samples = decode(payload).map_values(|sample: int| sample as i16);
    assert forall|i: int| 0 <= i < payload.len() implies encode(samples)[i] == payload[i] by {
        let k = i / 2;
        assert(samples[k] == sample_of_bytes(payload[2 * k], payload[2 * k + 1]));
        assert(i == 2 * k || i == 2 * k + 1);
    }
    assert(encode(samples) =~= payload);
}

} // verus!
