//! Chunks of audio, and the window that the model reads.
use crate::pcm::{
    block_size, block_size_spec, build_window, context_size, context_size_spec, decode, encode,
    encoded_byte, model_samples, normalized, sample_of_bytes, shift_window, window,
};
use vstd::prelude::*;

verus! {

/// Whether a number is the sample that stands at a place of a payload: sixteen
/// bits in two's complement, low byte first.
pub open spec fn is_sample(payload: Seq<u8>, i: int, sample: int) -> bool {
    &&& -32768 <= sample <= 32767
    &&& (sample - payload[2 * i] - 256 * payload[2 * i + 1]) % 0x1_0000 == 0
}

/// A chunk is 512 samples at 16 kHz and 256 otherwise, and is preceded by an
/// eighth as many.
pub proof fn lemma_sizes(sample_rate: i64, block: usize, context: usize)
    requires
        call_ensures(block_size, (sample_rate,), block),
        call_ensures(context_size, (sample_rate,), context),
    ensures
        block == block_size_spec(sample_rate as int),
        context == context_size_spec(sample_rate as int),
        block == if sample_rate == 16000 {
            512int
        } else {
            256
        },
        8 * context == block,
        sample_rate == 8000 || sample_rate == 16000 ==> block * 1000 == 32 * sample_rate,
        call_requires(block_size, (sample_rate,)),
        call_requires(context_size, (sample_rate,)),
{
}

/// Every sample of a payload is decoded, each from its own two bytes, and the
/// model reads the number for it.
pub proof fn lemma_every_sample_read(payload: Seq<u8>, i: int)
    requires
        0 <= i < payload.len() / 2,
    ensures
        decode(payload).len() == payload.len() / 2,
        is_sample(payload, i, decode(payload)[i]),
        model_samples(payload).len() == payload.len() / 2,
        forall|sample: int|
            is_sample(payload, i, sample) ==> model_samples(payload)[i] == normalized(sample),
{
    let read = decode(payload)[i];
    assert(read == sample_of_bytes(payload[2 * i], payload[2 * i + 1]));
    assert forall|sample: int| is_sample(payload, i, sample) implies sample == read by {}
    assert(model_samples(payload)[i] == normalized(read));
}

/// An encoding has two bytes for each sample, which spell it, and the model
/// reads from it the number for each sample.
pub proof fn lemma_every_sample_encoded(samples: Seq<i16>, i: int)
    requires
        0 <= i < samples.len(),
    ensures
        encode(samples).len() == 2 * samples.len(),
        is_sample(encode(samples), i, samples[i] as int),
        decode(encode(samples))[i] == samples[i],
        model_samples(encode(samples))[i] == normalized(samples[i] as int),
{
    let payload = encode(samples);
    assert(payload[2 * i] == encoded_byte(samples, 2 * i));
    assert(payload[2 * i + 1] == encoded_byte(samples, 2 * i + 1));
    assert((2 * i) / 2 == i && (2 * i + 1) / 2 == i);
    assert((2 * i) % 2 == 0 && (2 * i + 1) % 2 == 1);
    assert(is_sample(payload, i, samples[i] as int));
    lemma_every_sample_read(payload, i);
    assert forall|sample: int| is_sample(payload, i, sample) implies sample == samples[i] by {}
}

/// Whether a window follows another with a payload: first the end of the window
/// before, then for every sample of the payload, in order, its number.
pub open spec fn follows(
    before: Seq<u32>,
    block: int,
    context: int,
    payload: Seq<u8>,
    after: Seq<u32>,
) -> bool {
    &&& after.len() == context + block
    &&& forall|i: int| 0 <= i < context ==> #[trigger] after[i] == before[block + i]
    &&& forall|i: int, sample: int|
        0 <= i < block && #[trigger] is_sample(payload, i, sample) ==> after[context + i]
            == normalized(sample)
}

/// A window follows the one before it.
pub proof fn lemma_window_follows(before: Seq<u32>, block: int, context: int, payload: Seq<u8>)
    requires
        0 <= block,
        0 <= context,
        before.len() == context + block,
        payload.len() == 2 * block,
    ensures
        follows(before, block, context, payload, window(before, block, context, payload)),
{
    let after = window(before, block, context, payload);
    assert forall|i: int, sample: int|
        0 <= i < block && #[trigger] is_sample(payload, i, sample) implies after[context + i]
        == normalized(sample) by {
        lemma_every_sample_read(payload, i);
        assert(after[context + i] == model_samples(payload)[i]);
    }
}

/// What `build_window` builds.
pub proof fn lemma_window_built(
    before: &[u32],
    block: usize,
    context: usize,
    payload: &[u8],
    samples: Vec<u32>,
)
    requires
        before@.len() == context + block,
        payload@.len() == 2 * block,
        call_ensures(build_window, (before, block, context, payload), samples),
    ensures
        follows(before@, block as int, context as int, payload@, samples@),
        samples@ == window(before@, block as int, context as int, payload@),
        call_requires(build_window, (before, block, context, payload)),
{
    lemma_window_follows(before@, block as int, context as int, payload@);
}

/// What `shift_window` leaves in the buffer.
pub proof fn lemma_window_shifted()
    ensures
        forall|buffer: &mut [u32], block: usize, context: usize, payload: &[u8]|
            #![trigger call_ensures(shift_window, (buffer, block, context, payload), ())]
            (*buffer)@.len() == context + block && payload@.len() == 2 * block && call_ensures(
                shift_window,
                (buffer, block, context, payload),
                (),
            ) ==> follows(
                (*buffer)@,
                block as int,
                context as int,
                payload@,
                (*final(buffer))@,
            ),
        forall|buffer: &mut [u32], block: usize, context: usize, payload: &[u8]|
            #![trigger call_requires(shift_window, (buffer, block, context, payload))]
            (*buffer)@.len() == context + block && payload@.len() == 2 * block ==> call_requires(
                shift_window,
                (buffer, block, context, payload),
            ),
{
    assert forall|buffer: &mut [u32], block: usize, context: usize, payload: &[u8]|
        #![trigger call_ensures(shift_window, (buffer, block, context, payload), ())]
        (*buffer)@.len() == context + block && payload@.len() == 2 * block && call_ensures(
            shift_window,
            (buffer, block, context, payload),
            (),
        ) implies follows(
        (*buffer)@,
        block as int,
        context as int,
        payload@,
        (*final(buffer))@,
    ) by {
        lemma_window_follows((*buffer)@, block as int, context as int, payload@);
    }
}

} // verus!
