//! Running the benchmark.
use crate::bench::chunk::{benchmark_chunk, mixed, noise};
use crate::bench::config::Config;
use crate::bench::state::{bench_step, is_fresh, state_fits, Mode, VadState};
use crate::bench::times::{is_summary, summarize, ChunkTimes};
use crate::error::ServiceError;
use crate::pcm::{block_size, block_size_spec, encode};
use crate::stream::ModelReply;
use crate::tensor::{InputRow, RateTensor, StateTensor};
use vstd::prelude::*;

verus! {

/// Whether `infer` can be called on anything, and whether its replies can be
/// taken up in the mode.
pub open spec fn usable<S, F>(infer: F, mode: Mode) -> bool where
    F: FnOnce(S, &InputRow, &StateTensor, &RateTensor) -> (S, Result<ModelReply, String>),
 {
    &&& forall|session: S, samples: InputRow, state: StateTensor, sr: RateTensor| #[trigger]
        infer.requires((session, &samples, &state, &sr))
    &&& mode == Mode::ReusedBuffers ==> forall|
        session: S,
        samples: InputRow,
        state: StateTensor,
        sr: RateTensor,
        back: (S, Result<ModelReply, String>),
    | #[trigger]
        infer.ensures((session, &samples, &state, &sr), back) ==> state_fits(back.1)
}

/// Whether the clock can be read of every mark that it sets.
pub open spec fn readable<S, T, B, E>(begin: B, elapsed: E) -> bool where
    B: Fn(S) -> (S, T),
    E: Fn(S, T) -> (S, u64),
 {
    &&& forall|session: S| #[trigger] begin.requires((session,))
    &&& forall|session: S, set: (S, T), later: S| #[trigger]
        begin.ensures((session,), set) ==> #[trigger] elapsed.requires((later, set.1))
}

/// What a run took: all of it, and its chunks.
#[derive(Debug, PartialEq)]
pub struct RunTimes {
    pub elapsed: u64,
    pub chunks: ChunkTimes,
}

/// What happened for one chunk. The session goes through all of it in turn: a
/// mark is set, the chunk is processed, and the clock is read of the mark.
pub struct Lap<S, T> {
    /// The session and the state before.
    pub before: (S, VadState),
    /// The session once the mark is set, and the mark.
    pub marked: (S, T),
    /// The session and the state once the chunk is processed.
    pub processed: (S, VadState),
    /// How processing it went.
    pub result: Result<(), ServiceError>,
    /// The session once the clock is read, and the time.
    pub read: (S, u64),
}

/// Whether a lap is one over this payload: mark, chunk, and reading, in this
/// order. Where the chunk fails the clock is not read.
pub open spec fn is_lap<S, T, F, B, E>(
    infer: F,
    begin: B,
    elapsed: E,
    mode: Mode,
    payload: Seq<u8>,
    lap: Lap<S, T>,
) -> bool where
    F: Fn(S, &InputRow, &StateTensor, &RateTensor) -> (S, Result<ModelReply, String>),
    B: Fn(S) -> (S, T),
    E: Fn(S, T) -> (S, u64),
 {
    &&& begin.ensures((lap.before.0,), lap.marked)
    &&& bench_step(
        infer,
        mode,
        payload,
        (lap.marked.0, lap.before.1),
        lap.processed,
        lap.result,
    )
    &&& lap.result is Ok ==> elapsed.ensures((lap.processed.0, lap.marked.1), lap.read)
}

/// Whether laps follow one another from a session and a state, each from where
/// the one before ended well.
pub open spec fn are_laps<S, T, F, B, E>(
    infer: F,
    begin: B,
    elapsed: E,
    mode: Mode,
    payload: Seq<u8>,
    start: (S, VadState),
    laps: Seq<Lap<S, T>>,
) -> bool where
    F: Fn(S, &InputRow, &StateTensor, &RateTensor) -> (S, Result<ModelReply, String>),
    B: Fn(S) -> (S, T),
    E: Fn(S, T) -> (S, u64),
 {
    &&& forall|i: int|
        0 <= i < laps.len() ==> is_lap(infer, begin, elapsed, mode, payload, #[trigger] laps[i])
    &&& laps.len() > 0 ==> laps[0].before == start
    &&& forall|i: int|
        0 < i < laps.len() ==> {
            &&& (#[trigger] laps[i]).before == (laps[i - 1].read.0, laps[i - 1].processed.1)
            &&& laps[i - 1].result == Ok::<(), ServiceError>(())
        }
}

/// The times of laps.
pub open spec fn lap_times<S, T>(laps: Seq<Lap<S, T>>) -> Seq<u64> {
    laps.map_values(|lap: Lap<S, T>| lap.read.1)
}

/// Whether a run over a payload is one that these laps make. First the mark of
/// the whole run is set. A run of `chunks` laps that went well ends with a
/// reading of that mark, and is summed up; a run with a lap that failed ends
/// there.
pub open spec fn is_run<S, T, F, B, E>(
    infer: F,
    begin: B,
    elapsed: E,
    config: Config,
    payload: Seq<u8>,
    session: S,
    fresh: VadState,
    started: (S, T),
    laps: Seq<Lap<S, T>>,
    outcome: (S, Result<RunTimes, ServiceError>),
) -> bool where
    F: Fn(S, &InputRow, &StateTensor, &RateTensor) -> (S, Result<ModelReply, String>),
    B: Fn(S) -> (S, T),
    E: Fn(S, T) -> (S, u64),
 {
    &&& is_fresh(fresh, config.sample_rate)
    &&& begin.ensures((session,), started)
    &&& are_laps(infer, begin, elapsed, config.mode, payload, (started.0, fresh), laps)
    &&& match outcome.1 {
        Ok(taken) => {
            let last = if laps.len() == 0 {
                started.0
            } else {
                laps.last().read.0
            };
            &&& laps.len() == config.chunks
            &&& laps.len() > 0 ==> laps.last().result == Ok::<(), ServiceError>(())
            &&& elapsed.ensures((last, started.1), (outcome.0, taken.elapsed))
            &&& is_summary(lap_times(laps), taken.chunks)
        },
        Err(error) => {
            &&& 0 < laps.len() <= config.chunks
            &&& laps.last().result == Err::<(), ServiceError>(error)
            &&& outcome.0 == laps.last().processed.0
        },
    }
}

/// Makes a chunk with `mix`, processes it as often as the settings say from a
/// fresh state, and sums up the times that it took. `begin` sets a mark and
/// `elapsed` tells the time since one: since just before each chunk, told just
/// after it, and since before the first, told after the last. Everything that
/// is done acts on the session in turn. Stops at the first error.
pub fn run_benchmark<S, T, M, F, B, E>(
    config: &Config,
    session: S,
    mix: M,
    infer: F,
    begin: B,
    elapsed: E,
) -> (outcome: (S, Result<RunTimes, ServiceError>)) where
    M: Fn(usize, i32) -> i16,
    F: Fn(S, &InputRow, &StateTensor, &RateTensor) -> (S, Result<ModelReply, String>),
    B: Fn(S) -> (S, T),
    E: Fn(S, T) -> (S, u64),

    requires
        config.chunks * 8 <= isize::MAX,
        forall|i: usize|
            i < block_size_spec(config.sample_rate as int) ==> #[trigger] mix.requires(
                (i, noise(i as int) as i32),
            ),
        usable(infer, config.mode),
        readable(begin, elapsed),
    ensures
        exists|samples: Seq<i16>, fresh: VadState, started: (S, T), laps: Seq<Lap<S, T>>|
            {
                &&& samples.len() == block_size_spec(config.sample_rate as int)
                &&& mixed(mix, samples)
                &&& #[trigger] is_run(
                    infer,
                    begin,
                    elapsed,
                    *config,
                    encode(samples),
                    session,
                    fresh,
                    started,
                    laps,
                    outcome,
                )
            },
{
    let (sample_rate, chunks, mode): (i64, usize, Mode) = (
        config.sample_rate,
        config.chunks,
        config.mode,
    );
    let payload: Vec<u8> = benchmark_chunk(block_size(sample_rate), mix);
    let ghost samples = choose|samples: Seq<i16>|
        samples.len() == block_size_spec(sample_rate as int) && #[trigger] mixed(mix, samples)
            && payload@ == encode(samples);
    let mut vad: VadState = VadState::new(sample_rate);
    let mut times: Vec<u64> = Vec::with_capacity(chunks);
    let ghost fresh = vad;
    let ghost mut laps: Seq<Lap<S, T>> = Seq::empty();
    let (mut current, run_started): (S, T) = begin(session);
    let ghost started = (current, run_started);
    let mut done: usize = 0;
    while done < chunks
        invariant
            done <= chunks,
            vad.valid(),
            usable(infer, mode),
            readable(begin, elapsed),
            (chunks, mode) == (config.chunks, config.mode),
            samples.len() == block_size_spec(config.sample_rate as int),
            mixed(mix, samples),
            payload@ == encode(samples),
            is_fresh(fresh, config.sample_rate),
            begin.ensures((session,), started),
            laps.len() == done,
            times@ == lap_times(laps),
            are_laps(infer, begin, elapsed, mode, payload@, (started.0, fresh), laps),
            done > 0 ==> laps.last().result == Ok::<(), ServiceError>(()),
            (current, vad) == if done == 0 {
                (started.0, fresh)
            } else {
                (laps.last().read.0, laps.last().processed.1)
            },
        decreases chunks - done,
    {
        let ghost before = (current, vad);
        let (marked, chunk_started): (S, T) = begin(current);
        let ghost set = (marked, chunk_started);
        let call = |session: S, samples: &InputRow, state: &StateTensor, sr: &RateTensor| -> (
        back: (S, Result<ModelReply, String>))
            requires
                infer.requires((session, samples, state, sr)),
            ensures
                infer.ensures((session, samples, state, sr), back),
            { infer(session, samples, state, sr) };
        let (used, result): (S, Result<(), ServiceError>) = vad.process(
            mode,
            marked,
            call,
            payload.as_slice(),
        );
        let ghost processed = (used, vad);
        if let Err(error) = result {
            let outcome: (S, Result<RunTimes, ServiceError>) = (used, Err(error));
            proof {
                let lap = Lap { before, marked: set, processed, result, read: (used, 0) };
                assert(is_lap(infer, begin, elapsed, mode, payload@, lap));
                lemma_one_more(
                    infer,
                    begin,
                    elapsed,
                    mode,
                    payload@,
                    (started.0, fresh),
                    laps,
                    lap,
                );
                laps = laps.push(lap);
                assert(is_run(
                    infer,
                    begin,
                    elapsed,
                    *config,
                    encode(samples),
                    session,
                    fresh,
                    started,
                    laps,
                    outcome,
                ));
            }
            return outcome;
        }
        let (next, time): (S, u64) = elapsed(used, chunk_started);
        current = next;
        times.push(time);
        proof {
            let lap = Lap { before, marked: set, processed, result, read: (current, time) };
            assert(is_lap(infer, begin, elapsed, mode, payload@, lap));
            lemma_one_more(
                infer,
                begin,
                elapsed,
                mode,
                payload@,
                (started.0, fresh),
                laps,
                lap,
            );
            assert(lap_times(laps.push(lap)) =~= lap_times(laps).push(time));
            laps = laps.push(lap);
        }
        done = done + 1;
    }
    let (last, total): (S, u64) = elapsed(current, run_started);
    let taken = RunTimes { elapsed: total, chunks: summarize(times) };
    let outcome: (S, Result<RunTimes, ServiceError>) = (last, Ok(taken));
    assert(is_run(
        infer,
        begin,
        elapsed,
        *config,
        encode(samples),
        session,
        fresh,
        started,
        laps,
        outcome,
    ));
    outcome
}

/// One more lap from where the last ended well.
proof fn lemma_one_more<S, T, F, B, E>(
    infer: F,
    begin: B,
    elapsed: E,
    mode: Mode,
    payload: Seq<u8>,
    start: (S, VadState),
    laps: Seq<Lap<S, T>>,
    lap: Lap<S, T>,
) where
    F: Fn(S, &InputRow, &StateTensor, &RateTensor) -> (S, Result<ModelReply, String>),
    B: Fn(S) -> (S, T),
    E: Fn(S, T) -> (S, u64),

    requires
        are_laps(infer, begin, elapsed, mode, payload, start, laps),
        is_lap(infer, begin, elapsed, mode, payload, lap),
        laps.len() == 0 ==> lap.before == start,
        laps.len() > 0 ==> laps.last().result == Ok::<(), ServiceError>(()) && lap.before == (
            laps.last().read.0,
            laps.last().processed.1,
        ),
    ensures
        are_laps(infer, begin, elapsed, mode, payload, start, laps.push(lap)),
{
    let more = laps.push(lap);
    assert forall|i: int| 0 <= i < more.len() implies is_lap(
        infer,
        begin,
        elapsed,
        mode,
        payload,
        #[trigger] more[i],
    ) by {
        if i < laps.len() {
            assert(more[i] == laps[i]);
        }
    }
    assert forall|i: int| 0 < i < more.len() implies {
        &&& (#[trigger] more[i]).before == (more[i - 1].read.0, more[i - 1].processed.1)
        &&& more[i - 1].result == Ok::<(), ServiceError>(())
    } by {
        if i < laps.len() {
            assert(laps[i].before == (laps[i - 1].read.0, laps[i - 1].processed.1));
        }
    }
}

} // verus!
