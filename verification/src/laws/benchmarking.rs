//! The benchmark: the audio that it feeds, what a chunk does in either mode, and
//! what a run is made of.
use crate::bench::chunk::{benchmark_chunk, is_chunk, mixed, noise, noise_state};
use crate::bench::config::Config;
use crate::bench::run::{are_laps, is_lap, is_run, lap_times, run_benchmark, Lap, RunTimes};
use crate::bench::state::{bench_step, mode_outcome, Mode, VadState};
use crate::bench::times::is_summary;
use crate::error::ServiceError;
use crate::laws::audio::{follows, is_sample, lemma_every_sample_encoded, lemma_window_follows};
use crate::pcm::{block_size_spec, encode};
use crate::stream::ModelReply;
use crate::tensor::{
    rate_items, row_items, row_shape, state_items, state_shape, InputRow, RateTensor, StateTensor,
};
use vstd::arithmetic::div_mod::{lemma_fundamental_div_mod, lemma_mod_multiples_basic};
use vstd::prelude::*;

verus! {

/// Noise is a row of pseudo-random numbers of thirty-two bits, each made from
/// the one before, of which the upper half is taken, centred on zero.
pub proof fn lemma_noise(n: int)
    requires
        0 <= n,
    ensures
        noise_state(0) == 0x1234_5678,
        0 <= noise_state(n) < 0x1_0000_0000,
        (noise_state(n + 1) - 1_664_525 * noise_state(n) - 1_013_904_223) % 0x1_0000_0000 == 0,
        0x1_0000 * (noise(n) + 32768) <= noise_state(n + 1) < 0x1_0000 * (noise(n) + 32769),
    decreases n,
{
    if n > 0 {
        lemma_noise(n - 1);
    }
    let (x, m) = (noise_state(n) * 1_664_525 + 1_013_904_223, 0x1_0000_0000int);
    lemma_fundamental_div_mod(x, m);
    lemma_mod_multiples_basic(-(x / m), m);
}

/// Whether a chunk holds at a place a sample that `mix` can make of the index and
/// the noise of that place.
pub open spec fn holds_at<F>(mix: F, chunk: Seq<u8>, i: int) -> bool where
    F: Fn(usize, i32) -> i16,
 {
    exists|sample: i16|
        mix.ensures((i as usize, noise(i) as i32), sample) && #[trigger] is_sample(
            chunk,
            i,
            sample as int,
        )
}

/// Whether a chunk holds for every sample, in order, what `mix` can make of its
/// index and its noise.
pub open spec fn holds_mix<F>(mix: F, block_size: int, chunk: Seq<u8>) -> bool where
    F: Fn(usize, i32) -> i16,
 {
    &&& chunk.len() == 2 * block_size
    &&& forall|i: int| 0 <= i < block_size ==> #[trigger] holds_at(mix, chunk, i)
}

/// A chunk that is made holds what `mix` made.
proof fn lemma_chunk_holds<F>(mix: F, samples: Seq<i16>) where F: Fn(usize, i32) -> i16
    requires
        mixed(mix, samples),
    ensures
        holds_mix(mix, samples.len() as int, encode(samples)),
{
    let chunk = encode(samples);
    assert forall|i: int| 0 <= i < samples.len() implies #[trigger] holds_at(mix, chunk, i) by {
        lemma_every_sample_encoded(samples, i);
        assert(mix.ensures((i as usize, noise(i) as i32), samples[i]));
        assert(is_sample(chunk, i, samples[i] as int));
    }
}

/// What `benchmark_chunk` makes.
pub proof fn lemma_chunk_made<F>(block_size: usize, mix: F, chunk: Vec<u8>) where
    F: Fn(usize, i32) -> i16,

    requires
        call_ensures(benchmark_chunk::<F>, (block_size, mix), chunk),
    ensures
        is_chunk(mix, block_size as int, chunk@),
        holds_mix(mix, block_size as int, chunk@),
        2 * block_size <= isize::MAX && (forall|i: usize|
            i < block_size ==> #[trigger] mix.requires((i, noise(i as int) as i32)))
            ==> call_requires(benchmark_chunk::<F>, (block_size, mix)),
{
    let samples = choose|samples: Seq<i16>|
        samples.len() == block_size && #[trigger] mixed(mix, samples) && chunk@ == encode(samples);
    lemma_chunk_holds(mix, samples);
}

/// What `VadState::new` makes: silence and a zero state, in the sizes for the
/// sample rate.
pub proof fn lemma_state_made(sample_rate: i64, vad: VadState)
    requires
        call_ensures(VadState::new, (sample_rate,), vad),
    ensures
        call_requires(VadState::new, (sample_rate,)),
        vad.valid(),
        at_rest(vad, sample_rate),
{
}

/// Whether this holds silence and a zero state, in the sizes for the sample rate.
pub open spec fn at_rest(vad: VadState, sample_rate: i64) -> bool {
    &&& vad.sample_rate == sample_rate
    &&& vad.block_size == if sample_rate == 16000 {
        512int
    } else {
        256
    }
    &&& 8 * vad.context_size == vad.block_size
    &&& row_shape(vad.input) == (1nat, (vad.context_size + vad.block_size) as nat)
    &&& row_items(vad.input).len() == vad.context_size + vad.block_size
    &&& forall|i: int|
        0 <= i < row_items(vad.input).len() ==> #[trigger] row_items(vad.input)[i] == 0
    &&& state_shape(vad.state) == seq![2usize, 1usize, 128usize]
    &&& state_items(vad.state).len() == 256
    &&& forall|i: int| 0 <= i < 256 ==> #[trigger] state_items(vad.state)[i] == 0
    &&& rate_items(vad.sr) == seq![sample_rate]
}

/// Whether a result is the refusal of a payload by its size.
pub open spec fn refused_size(
    vad: VadState,
    payload: Seq<u8>,
    result: Result<(), ServiceError>,
) -> bool {
    result matches Err(ServiceError::BenchmarkChunkSize { sample_rate, got, expected })
        && sample_rate == vad.sample_rate && got == payload.len() && expected == 2 * vad.block_size
}

/// What `VadState::validate` answers.
pub proof fn lemma_validated(vad: &VadState, payload: &[u8], result: Result<(), ServiceError>)
    requires
        vad.valid(),
        call_ensures(VadState::validate, (vad, payload), result),
    ensures
        call_requires(VadState::validate, (vad, payload)),
        result is Ok <==> payload@.len() == 2 * vad.block_size,
        result is Err ==> refused_size(*vad, payload@, result),
{
    assert(payload@.len() == payload.len());
}

/// Whether a state took up a reply in a mode. Into new arrays, a reply that
/// failed, that has no state or a state of the wrong size changes nothing; in
/// place, the window is new whatever the reply is, and the state stays where
/// there is none to take.
pub open spec fn taken_up(
    mode: Mode,
    before: VadState,
    samples: Seq<u32>,
    reply: Result<ModelReply, String>,
    after: VadState,
    result: Result<(), ServiceError>,
) -> bool {
    &&& after.valid()
    &&& after.sample_rate == before.sample_rate
    &&& match reply {
        Err(words) => {
            &&& result matches Err(ServiceError::Runtime { message }) && message == words
            &&& after.state == before.state
            &&& mode == Mode::Allocating ==> after == before
            &&& mode == Mode::ReusedBuffers ==> row_items(after.input) == samples
        },
        Ok(ModelReply { state: None, .. }) => {
            &&& result matches Err(ServiceError::StateNotContiguous)
            &&& after.state == before.state
            &&& mode == Mode::Allocating ==> after == before
            &&& mode == Mode::ReusedBuffers ==> row_items(after.input) == samples
        },
        Ok(ModelReply { state: Some(state), .. }) => {
            &&& state@.len() < 256 ==> after == before && (result matches Err(
                ServiceError::Shape { message },
            ) && message@ == "ShapeError/OutOfBounds: out of bounds indexing"@)
            &&& state@.len() > 256 ==> after == before && (result matches Err(
                ServiceError::Shape { message },
            ) && message@ == "ShapeError/IncompatibleShape: incompatible shapes"@)
            &&& state@.len() == 256 ==> {
                &&& result is Ok
                &&& row_items(after.input) == samples
                &&& state_items(after.state) == state@
            }
        },
    }
}

/// What processing a payload does: one of the wrong size is refused and changes
/// neither session nor state; else the session goes to the model with the window
/// that follows with the payload, the state and the sample rate, and what comes
/// back is taken up.
pub open spec fn processed<S, F>(
    infer: F,
    mode: Mode,
    payload: Seq<u8>,
    before: (S, VadState),
    after: (S, VadState),
    result: Result<(), ServiceError>,
) -> bool where
    F: FnOnce(S, &InputRow, &StateTensor, &RateTensor) -> (S, Result<ModelReply, String>),
 {
    let vad = before.1;
    &&& rate_items(vad.sr) == seq![vad.sample_rate]
    &&& payload.len() != 2 * vad.block_size ==> after == before && refused_size(
        vad,
        payload,
        result,
    )
    &&& payload.len() == 2 * vad.block_size ==> exists|
        samples: InputRow,
        back: (S, Result<ModelReply, String>),
    |
        {
            &&& #[trigger] infer.ensures((before.0, &samples, &vad.state, &vad.sr), back)
            &&& row_shape(samples) == (1nat, (vad.context_size + vad.block_size) as nat)
            &&& follows(
                row_items(vad.input),
                vad.block_size as int,
                vad.context_size as int,
                payload,
                row_items(samples),
            )
            &&& after.0 == back.0
            &&& taken_up(mode, vad, row_items(samples), back.1, after.1, result)
        }
}

/// A step is processing a payload.
pub proof fn lemma_step_processed<S, F>(
    infer: F,
    mode: Mode,
    payload: Seq<u8>,
    before: (S, VadState),
    after: (S, VadState),
    result: Result<(), ServiceError>,
) where F: FnOnce(S, &InputRow, &StateTensor, &RateTensor) -> (S, Result<ModelReply, String>)
    requires
        before.1.valid(),
        after.1.valid(),
        payload.len() <= usize::MAX,
        bench_step(infer, mode, payload, before, after, result),
    ensures
        processed(infer, mode, payload, before, after, result),
{
    let vad = before.1;
    if payload.len() == 2 * vad.block_size {
        lemma_window_follows(
            row_items(vad.input),
            vad.block_size as int,
            vad.context_size as int,
            payload,
        );
        let (samples, back) = choose|samples: InputRow, back: (S, Result<ModelReply, String>)|
            {
                &&& vad.is_input_for(samples, payload)
                &&& #[trigger] infer.ensures((before.0, &samples, &vad.state, &vad.sr), back)
                &&& after.0 == back.0
                &&& mode_outcome(mode, vad, vad.window_for(payload), back.1, after.1, result)
            };
        assert(infer.ensures((before.0, &samples, &vad.state, &vad.sr), back));
        assert(taken_up(mode, vad, row_items(samples), back.1, after.1, result));
    }
}

/// Whether `infer` can be called on anything.
pub open spec fn callable<S, F>(infer: F) -> bool where
    F: FnOnce(S, &InputRow, &StateTensor, &RateTensor) -> (S, Result<ModelReply, String>),
 {
    forall|session: S, samples: InputRow, state: StateTensor, sr: RateTensor| #[trigger]
        infer.requires((session, &samples, &state, &sr))
}

/// Whether every state that `infer` can reply is of the size of a state.
pub open spec fn whole_states<S, F>(infer: F) -> bool where
    F: FnOnce(S, &InputRow, &StateTensor, &RateTensor) -> (S, Result<ModelReply, String>),
 {
    forall|
        session: S,
        samples: InputRow,
        state: StateTensor,
        sr: RateTensor,
        back: (S, Result<ModelReply, String>),
    | #[trigger]
        infer.ensures((session, &samples, &state, &sr), back) ==> (back.1 matches Ok(
            ModelReply { state: Some(next), .. },
        ) ==> next@.len() == 256)
}

/// What `process_allocating`, `process_reused_buffers` and `process` do. They can
/// be called on any payload, and ask of the model only what a whole chunk needs.
pub proof fn lemma_processed<S, F>(infer: F, session: S) where
    F: FnOnce(S, &InputRow, &StateTensor, &RateTensor) -> (S, Result<ModelReply, String>),

    ensures
        forall|vad: &mut VadState, payload: &[u8], outcome: (S, Result<(), ServiceError>)|
            (*vad).valid() && #[trigger] call_ensures(
                VadState::process_allocating::<S, F>,
                (vad, session, infer, payload),
                outcome,
            ) ==> processed(
                infer,
                Mode::Allocating,
                payload@,
                (session, *vad),
                (outcome.0, *final(vad)),
                outcome.1,
            ),
        forall|vad: &mut VadState, payload: &[u8], outcome: (S, Result<(), ServiceError>)|
            (*vad).valid() && #[trigger] call_ensures(
                VadState::process_reused_buffers::<S, F>,
                (vad, session, infer, payload),
                outcome,
            ) ==> processed(
                infer,
                Mode::ReusedBuffers,
                payload@,
                (session, *vad),
                (outcome.0, *final(vad)),
                outcome.1,
            ),
        forall|
            vad: &mut VadState,
            mode: Mode,
            payload: &[u8],
            outcome: (S, Result<(), ServiceError>),
        |
            (*vad).valid() && #[trigger] call_ensures(
                VadState::process::<S, F>,
                (vad, mode, session, infer, payload),
                outcome,
            ) ==> processed(
                infer,
                mode,
                payload@,
                (session, *vad),
                (outcome.0, *final(vad)),
                outcome.1,
            ),
        forall|vad: &mut VadState, payload: &[u8]|
            (*vad).valid() && (payload@.len() != 2 * (*vad).block_size || callable(infer))
                ==> #[trigger] call_requires(
                VadState::process_allocating::<S, F>,
                (vad, session, infer, payload),
            ),
        forall|vad: &mut VadState, payload: &[u8]|
            (*vad).valid() && (payload@.len() != 2 * (*vad).block_size || (callable(infer)
                && whole_states(infer))) ==> #[trigger] call_requires(
                VadState::process_reused_buffers::<S, F>,
                (vad, session, infer, payload),
            ),
        forall|vad: &mut VadState, mode: Mode, payload: &[u8]|
            (*vad).valid() && (payload@.len() != 2 * (*vad).block_size || (callable(infer) && (mode
                == Mode::ReusedBuffers ==> whole_states(infer)))) ==> #[trigger] call_requires(
                VadState::process::<S, F>,
                (vad, mode, session, infer, payload),
            ),
{
    assert forall|vad: &mut VadState, payload: &[u8], outcome: (S, Result<(), ServiceError>)|
        (*vad).valid() && #[trigger] call_ensures(
            VadState::process_allocating::<S, F>,
            (vad, session, infer, payload),
            outcome,
        ) implies processed(
        infer,
        Mode::Allocating,
        payload@,
        (session, *vad),
        (outcome.0, *final(vad)),
        outcome.1,
    ) by {
        assert(payload@.len() == payload.len());
        lemma_step_processed(
            infer,
            Mode::Allocating,
            payload@,
            (session, *vad),
            (outcome.0, *final(vad)),
            outcome.1,
        );
    }
    assert forall|vad: &mut VadState, payload: &[u8], outcome: (S, Result<(), ServiceError>)|
        (*vad).valid() && #[trigger] call_ensures(
            VadState::process_reused_buffers::<S, F>,
            (vad, session, infer, payload),
            outcome,
        ) implies processed(
        infer,
        Mode::ReusedBuffers,
        payload@,
        (session, *vad),
        (outcome.0, *final(vad)),
        outcome.1,
    ) by {
        assert(payload@.len() == payload.len());
        lemma_step_processed(
            infer,
            Mode::ReusedBuffers,
            payload@,
            (session, *vad),
            (outcome.0, *final(vad)),
            outcome.1,
        );
    }
    assert forall|
        vad: &mut VadState,
        mode: Mode,
        payload: &[u8],
        outcome: (S, Result<(), ServiceError>),
    |
        (*vad).valid() && #[trigger] call_ensures(
            VadState::process::<S, F>,
            (vad, mode, session, infer, payload),
            outcome,
        ) implies processed(
        infer,
        mode,
        payload@,
        (session, *vad),
        (outcome.0, *final(vad)),
        outcome.1,
    ) by {
        assert(payload@.len() == payload.len());
        lemma_step_processed(
            infer,
            mode,
            payload@,
            (session, *vad),
            (outcome.0, *final(vad)),
            outcome.1,
        );
    }
}

/// What `apply_allocating` and `apply_reused` do with the model's reply.
pub proof fn lemma_replies_applied()
    ensures
        forall|
            vad: &mut VadState,
            samples: InputRow,
            reply: Result<ModelReply, String>,
            result: Result<(), ServiceError>,
        |
            (*vad).valid() && #[trigger] call_ensures(
                VadState::apply_allocating,
                (vad, samples, reply),
                result,
            ) ==> taken_up(
                Mode::Allocating,
                *vad,
                row_items(samples),
                reply,
                *final(vad),
                result,
            ),
        forall|
            vad: &mut VadState,
            reply: Result<ModelReply, String>,
            result: Result<(), ServiceError>,
        |
            (*vad).valid() && #[trigger] call_ensures(VadState::apply_reused, (vad, reply), result)
                ==> taken_up(
                Mode::ReusedBuffers,
                *vad,
                row_items((*vad).input),
                reply,
                *final(vad),
                result,
            ),
{
}

/// Whether a run is made of these laps over one chunk: first a mark is set for all
/// of it; then in each lap, from where the last one ended, a mark is set, the
/// chunk is processed and, where that went well, the clock is read of that mark;
/// and at last the clock is read of the first mark. A run goes well exactly if
/// all of its laps do, as many as the settings say, and else ends with the lap
/// that did not.
pub open spec fn ran<S, T, F, B, E>(
    infer: F,
    begin: B,
    elapsed: E,
    config: Config,
    chunk: Seq<u8>,
    session: S,
    started: (S, T),
    laps: Seq<Lap<S, T>>,
    outcome: (S, Result<RunTimes, ServiceError>),
) -> bool where
    F: Fn(S, &InputRow, &StateTensor, &RateTensor) -> (S, Result<ModelReply, String>),
    B: Fn(S) -> (S, T),
    E: Fn(S, T) -> (S, u64),
 {
    &&& begin.ensures((session,), started)
    &&& forall|i: int|
        0 <= i < laps.len() ==> {
            let lap = #[trigger] laps[i];
            &&& lap.before.1.valid()
            &&& begin.ensures((lap.before.0,), lap.marked)
            &&& processed(
                infer,
                config.mode,
                chunk,
                (lap.marked.0, lap.before.1),
                lap.processed,
                lap.result,
            )
            &&& lap.result is Ok ==> elapsed.ensures((lap.processed.0, lap.marked.1), lap.read)
            &&& i == 0 ==> lap.before.0 == started.0 && at_rest(lap.before.1, config.sample_rate)
            &&& i > 0 ==> lap.before.0 == laps[i - 1].read.0 && lap.before.1 == laps[i
                - 1].processed.1
            &&& i < laps.len() - 1 ==> lap.result is Ok
        }
    &&& match outcome.1 {
        Ok(taken) => {
            &&& laps.len() == config.chunks
            &&& laps.len() > 0 ==> laps.last().result is Ok
            &&& elapsed.ensures(
                (
                    if laps.len() == 0 {
                        started.0
                    } else {
                        laps.last().read.0
                    },
                    started.1,
                ),
                (outcome.0, taken.elapsed),
            )
            &&& exists|times: Seq<u64>|
                {
                    &&& #[trigger] is_summary(times, taken.chunks)
                    &&& times.len() == laps.len()
                    &&& forall|i: int| 0 <= i < laps.len() ==> #[trigger] times[i] == laps[i].read.1
                }
        },
        Err(error) => {
            &&& 0 < laps.len() <= config.chunks
            &&& laps.last().result == Err::<(), ServiceError>(error)
            &&& outcome.0 == laps.last().processed.0
        },
    }
}

/// What `run_benchmark` does: it makes a chunk of the size for the sample rate
/// with `mix`, and runs laps over it.
pub proof fn lemma_ran<S, T, M, F, B, E>(
    config: &Config,
    session: S,
    mix: M,
    infer: F,
    begin: B,
    elapsed: E,
    outcome: (S, Result<RunTimes, ServiceError>),
) where
    M: Fn(usize, i32) -> i16,
    F: Fn(S, &InputRow, &StateTensor, &RateTensor) -> (S, Result<ModelReply, String>),
    B: Fn(S) -> (S, T),
    E: Fn(S, T) -> (S, u64),

    requires
        call_ensures(
            run_benchmark::<S, T, M, F, B, E>,
            (config, session, mix, infer, begin, elapsed),
            outcome,
        ),
    ensures
        exists|chunk: Seq<u8>, started: (S, T), laps: Seq<Lap<S, T>>|
            {
                &&& holds_mix(
                    mix,
                    if config.sample_rate == 16000 {
                        512
                    } else {
                        256
                    },
                    chunk,
                )
                &&& #[trigger] ran(
                    infer,
                    begin,
                    elapsed,
                    *config,
                    chunk,
                    session,
                    started,
                    laps,
                    outcome,
                )
            },
{
    let (samples, fresh, started, laps) = choose|
        samples: Seq<i16>,
        fresh: VadState,
        started: (S, T),
        laps: Seq<Lap<S, T>>,
    |
        {
            &&& samples.len() == block_size_spec(config.sample_rate as int)
            &&& mixed(mix, samples)
            &&& #[trigger] is_run(
                infer,
                begin,
                elapsed,
                *config,
                encode(samples),
                session,
                fresh,
                started,
                laps,
                outcome,
            )
        };
    let chunk = encode(samples);
    lemma_chunk_holds(mix, samples);
    assert forall|i: int| 0 <= i < laps.len() implies {
        let lap = #[trigger] laps[i];
        &&& lap.before.1.valid()
        &&& begin.ensures((lap.before.0,), lap.marked)
        &&& processed(
            infer,
            config.mode,
            chunk,
            (lap.marked.0, lap.before.1),
            lap.processed,
            lap.result,
        )
        &&& lap.result is Ok ==> elapsed.ensures((lap.processed.0, lap.marked.1), lap.read)
        &&& i == 0 ==> lap.before.0 == started.0 && at_rest(lap.before.1, config.sample_rate)
        &&& i > 0 ==> lap.before.0 == laps[i - 1].read.0 && lap.before.1 == laps[i - 1].processed.1
        &&& i < laps.len() - 1 ==> lap.result is Ok
    } by {
        lemma_lap_valid(infer, begin, elapsed, config.mode, chunk, (started.0, fresh), laps, i);
        assert(is_lap(infer, begin, elapsed, config.mode, chunk, laps[i]));
        if i > 0 {
            assert(laps[i].before == (laps[i - 1].read.0, laps[i - 1].processed.1));
        }
        if i < laps.len() - 1 {
            let next = laps[i + 1];
            assert(laps[i].result == Ok::<(), ServiceError>(()));
        }
        lemma_step_processed(
            infer,
            config.mode,
            chunk,
            (laps[i].marked.0, laps[i].before.1),
            laps[i].processed,
            laps[i].result,
        );
    }
    let times = lap_times(laps);
    assert forall|i: int| 0 <= i < laps.len() implies #[trigger] times[i] == laps[i].read.1 by {}
    assert(ran(infer, begin, elapsed, *config, chunk, session, started, laps, outcome));
}

/// `run_benchmark` can be called with a model, a mix and a clock that can be
/// called on anything, for as many chunks as times can be held.
pub proof fn lemma_can_run<S, T, M, F, B, E>(
    config: &Config,
    session: S,
    mix: M,
    infer: F,
    begin: B,
    elapsed: E,
) where
    M: Fn(usize, i32) -> i16,
    F: Fn(S, &InputRow, &StateTensor, &RateTensor) -> (S, Result<ModelReply, String>),
    B: Fn(S) -> (S, T),
    E: Fn(S, T) -> (S, u64),

    requires
        config.chunks * 8 <= isize::MAX,
        forall|i: usize, n: i32| #[trigger] mix.requires((i, n)),
        callable(infer),
        config.mode == Mode::ReusedBuffers ==> whole_states(infer),
        forall|s: S| #[trigger] begin.requires((s,)),
        forall|s: S, mark: T| #[trigger] elapsed.requires((s, mark)),
    ensures
        call_requires(
            run_benchmark::<S, T, M, F, B, E>,
            (config, session, mix, infer, begin, elapsed),
        ),
{
}

/// Every lap begins and ends with a valid state.
proof fn lemma_lap_valid<S, T, F, B, E>(
    infer: F,
    begin: B,
    elapsed: E,
    mode: Mode,
    payload: Seq<u8>,
    start: (S, VadState),
    laps: Seq<Lap<S, T>>,
    i: int,
) where
    F: Fn(S, &InputRow, &StateTensor, &RateTensor) -> (S, Result<ModelReply, String>),
    B: Fn(S) -> (S, T),
    E: Fn(S, T) -> (S, u64),

    requires
        are_laps(infer, begin, elapsed, mode, payload, start, laps),
        start.1.valid(),
        0 <= i < laps.len(),
    ensures
        laps[i].before.1.valid(),
        laps[i].processed.1.valid(),
    decreases i,
{
    assert(is_lap(infer, begin, elapsed, mode, payload, laps[i]));
    if i > 0 {
        lemma_lap_valid(infer, begin, elapsed, mode, payload, start, laps, i - 1);
        assert(laps[i].before == (laps[i - 1].read.0, laps[i - 1].processed.1));
    }
}

} // verus!
