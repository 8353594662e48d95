//! The audio that the benchmark feeds.
use crate::pcm::{encode, push_sample, PCM_I16_BYTES_PER_SAMPLE};
use vstd::prelude::*;

verus! {

/// The pseudo-random number after `n` steps.
pub open spec fn noise_state(n: int) -> int
    decreases n,
{
    if n <= 0 {
        0x1234_5678
    } else {
        (noise_state(n - 1) * 1_664_525 + 1_013_904_223) % 0x1_0000_0000
    }
}

/// The noise of sample `index`: the upper half of its number, centred on zero.
pub open spec fn noise(index: int) -> int {
    noise_state(index + 1) / 0x1_0000 - 32768
}

/// Noise is in the range of a sample.
pub proof fn lemma_noise_range(index: int)
    requires
        0 <= index,
    ensures
        -32768 <= noise(index) <= 32767,
{
}

/// Whether samples are what `mix` makes of their index and their noise.
pub open spec fn mixed<F>(mix: F, samples: Seq<i16>) -> bool where
    F: Fn(usize, i32) -> i16,
 {
    forall|i: int|
        0 <= i < samples.len() ==> mix.ensures((i as usize, noise(i) as i32), #[trigger] samples[i])
}

/// Whether a chunk holds `block_size` samples that `mix` made.
pub open spec fn is_chunk<F>(mix: F, block_size: int, chunk: Seq<u8>) -> bool where
    F: Fn(usize, i32) -> i16,
 {
    exists|samples: Seq<i16>|
        samples.len() == block_size && #[trigger] mixed(mix, samples) && chunk == encode(samples)
}

/// Makes the chunk that the benchmark feeds: for each sample, what `mix` makes
/// of its index and its noise.
pub fn benchmark_chunk<F>(block_size: usize, mix: F) -> (chunk: Vec<u8>) where
    F: Fn(usize, i32) -> i16,

    requires
        block_size * PCM_I16_BYTES_PER_SAMPLE <= isize::MAX,
        forall|i: usize|
            i < block_size ==> #[trigger] mix.requires((i, noise(i as int) as i32)),
    ensures
        is_chunk(mix, block_size as int, chunk@),
{
    let mut chunk: Vec<u8> = Vec::with_capacity(block_size * PCM_I16_BYTES_PER_SAMPLE);
    let mut state: u32 = 0x1234_5678;
    let mut index: usize = 0;
    let ghost mut samples: Seq<i16> = Seq::empty();
    assert(chunk@ =~= encode(samples));
    while index < block_size
        invariant
            index <= block_size,
            state == noise_state(index as int),
            forall|i: usize|
                i < block_size ==> #[trigger] mix.requires((i, noise(i as int) as i32)),
            samples.len() == index,
            mixed(mix, samples),
            chunk@ == encode(samples),
        decreases block_size - index,
    {
        let ghost before = state as int;
        state = state.wrapping_mul(1_664_525).wrapping_add(1_013_904_223);
        proof {
            let product = before * 1_664_525;
            assert((product % 0x1_0000_0000 + 1_013_904_223) % 0x1_0000_0000 == (product
                + 1_013_904_223) % 0x1_0000_0000);
            assert(state == noise_state(index + 1));
        }
        let upper: i32 = (state / 0x1_0000) as i32 - 32768;
        assert(upper == noise(index as int));
        assert(mix.requires((index, noise(index as int) as i32)));
        let sample: i16 = mix(index, upper);
        push_sample(&mut chunk, sample);
        proof {
            let longer = samples.push(sample);
            lemma_encode_push(samples, sample);
            assert forall|i: int| 0 <= i < longer.len() implies mix.ensures(
                (i as usize, noise(i) as i32),
                #[trigger] longer[i],
            ) by {
                if i < samples.len() {
                    assert(longer[i] == samples[i]);
                }
            }
            samples = longer;
        }
        index = index + 1;
    }
    chunk
}

/// Whether `mix` always makes the same of the same.
pub open spec fn is_function<F>(mix: F) -> bool where F: Fn(usize, i32) -> i16 {
    forall|index: usize, noise: i32, one: i16, other: i16| #[trigger]
        mix.ensures((index, noise), one) && #[trigger] mix.ensures((index, noise), other) ==> one
            == other
}

/// A chunk has two bytes for each sample. Where `mix` is a function, a shorter
/// chunk is the start of a longer one, and chunks of one length are equal.
pub proof fn lemma_chunk_prefix<F>(mix: F, m: int, short: Seq<u8>, n: int, long: Seq<u8>) where
    F: Fn(usize, i32) -> i16,

    requires
        0 <= m <= n,
        is_function(mix),
        is_chunk(mix, m, short),
        is_chunk(mix, n, long),
    ensures
        short.len() == 2 * m,
        long.len() == 2 * n,
        short == long.take(2 * m),
        m == n ==> short == long,
{
    let a = choose|a: Seq<i16>| a.len() == m && #[trigger] mixed(mix, a) && short == encode(a);
    let b = choose|b: Seq<i16>| b.len() == n && #[trigger] mixed(mix, b) && long == encode(b);
    assert forall|i: int| 0 <= i < m implies a[i] == b[i] by {
        assert(mix.ensures((i as usize, noise(i) as i32), a[i]));
        assert(mix.ensures((i as usize, noise(i) as i32), b[i]));
    }
    assert(short =~= long.take(2 * m));
    assert(long.take(2 * n) =~= long);
}

/// One more sample is two more bytes.
proof fn lemma_encode_push(samples: Seq<i16>, sample: i16)
    ensures
        encode(samples.push(sample)) == encode(samples) + encode(seq![sample]),
{
    let longer = samples.push(sample);
    assert forall|i: int| 0 <= i < encode(longer).len() implies encode(longer)[i] == (encode(
        samples,
    ) + encode(seq![sample]))[i] by {
        if i < 2 * samples.len() {
            assert(longer[i / 2] == samples[i / 2]);
        } else {
            let k = i - 2 * samples.len();
            assert(longer[i / 2] == sample);
            assert(seq![sample][k / 2] == sample);
        }
    }
    assert(encode(longer) =~= encode(samples) + encode(seq![sample]));
}

} // verus!
