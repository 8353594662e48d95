//! Two ways to process a chunk without a detector.
use crate::error::{ort_err, ServiceError};
use crate::pcm::{
    block_size, block_size_spec, build_window, context_size, context_size_spec, decode, encode,
    lemma_decode_encode, shift_window, window, PCM_I16_BYTES_PER_SAMPLE,
};
use crate::replay::{content, Model};
use crate::single::ZERO_BITS;
use crate::stream::{lemma_state_volume, state_axes, ModelReply, STATE_LEN};
use crate::tensor::{
    rate_items, row_items, row_shape, shape_error_text, state_items, state_shape, InputRow,
    RateTensor, StateTensor,
};
use vstd::prelude::*;

verus! {

/// How a chunk is processed: into new arrays, or into the arrays at hand.
#[derive(Clone, Copy, Debug, PartialEq, Eq, Structural)]
pub enum Mode {
    Allocating,
    ReusedBuffers,
}

/// How a mode is named in the result.
pub open spec fn mode_name(mode: Mode) -> Seq<char> {
    match mode {
        Mode::Allocating => "allocating"@,
        Mode::ReusedBuffers => "reused_buffers"@,
    }
}

impl Mode {
    /// How the mode is named in the result.
    pub fn name(self) -> (name: &'static str)
        ensures
            name@ == mode_name(self),
    {
        match self {
            Mode::Allocating => "allocating",
            Mode::ReusedBuffers => "reused_buffers",
        }
    }
}

/// The window and the state of the model, without a detector.
pub struct VadState {
    pub sample_rate: i64,
    pub block_size: usize,
    pub context_size: usize,
    pub input: InputRow,
    pub state: StateTensor,
    pub sr: RateTensor,
}

impl VadState {
    /// The parts fit together.
    pub open spec fn valid(self) -> bool {
        &&& self.block_size == block_size_spec(self.sample_rate as int)
        &&& self.context_size == context_size_spec(self.sample_rate as int)
        &&& row_shape(self.input) == (1nat, (self.context_size + self.block_size) as nat)
        &&& row_items(self.input).len() == self.context_size + self.block_size
        &&& state_shape(self.state) == state_axes()
        &&& state_items(self.state).len() == STATE_LEN
        &&& rate_items(self.sr) == seq![self.sample_rate]
    }

    /// What the model reads for a payload.
    pub open spec fn window_for(self, payload: Seq<u8>) -> Seq<u32> {
        window(
            row_items(self.input),
            self.block_size as int,
            self.context_size as int,
            payload,
        )
    }

    /// Whether an array is what the model is handed for a payload.
    pub open spec fn is_input_for(self, samples: InputRow, payload: Seq<u8>) -> bool {
        &&& row_shape(samples) == (1nat, (self.context_size + self.block_size) as nat)
        &&& row_items(samples) == self.window_for(payload)
    }

    /// Whether a payload has the size of a chunk.
    pub open spec fn takes(self, payload: Seq<u8>) -> bool {
        payload.len() == self.block_size * PCM_I16_BYTES_PER_SAMPLE
    }

    /// The refusal of a payload of the wrong size.
    pub open spec fn size_error(self, payload: Seq<u8>) -> ServiceError {
        ServiceError::BenchmarkChunkSize {
            sample_rate: self.sample_rate,
            got: payload.len() as usize,
            expected: (self.block_size * PCM_I16_BYTES_PER_SAMPLE) as usize,
        }
    }

    /// Whether two hold the same samples and the same state.
    pub open spec fn same(self, other: VadState) -> bool {
        &&& self.sample_rate == other.sample_rate
        &&& self.block_size == other.block_size
        &&& self.context_size == other.context_size
        &&& row_shape(self.input) == row_shape(other.input)
        &&& row_items(self.input) == row_items(other.input)
        &&& state_shape(self.state) == state_shape(other.state)
        &&& state_items(self.state) == state_items(other.state)
        &&& rate_items(self.sr) == rate_items(other.sr)
    }
}

/// What processing into new arrays makes of a reply: an error that changes
/// nothing, or the new window and state.
pub open spec fn allocating_outcome(
    before: VadState,
    samples: Seq<u32>,
    reply: Result<ModelReply, String>,
    after: VadState,
    result: Result<(), ServiceError>,
) -> bool {
    match reply {
        Err(message) => {
            &&& result == Err::<(), ServiceError>(ServiceError::Runtime { message })
            &&& after == before
        },
        Ok(ModelReply { state: None, .. }) => {
            &&& result == Err::<(), ServiceError>(ServiceError::StateNotContiguous)
            &&& after == before
        },
        Ok(ModelReply { state: Some(state), .. }) => if state@.len() != STATE_LEN {
            &&& result matches Err(ServiceError::Shape { message })
            &&& message@ == shape_error_text(state@.len() as int, STATE_LEN as int)
            &&& after == before
        } else {
            &&& result == Ok::<(), ServiceError>(())
            &&& row_items(after.input) == samples
            &&& state_items(after.state) == state@
            &&& after.sample_rate == before.sample_rate
            &&& after.valid()
        },
    }
}

/// What processing in place makes of a reply: the window is new whatever the
/// reply is, the state where there is one.
pub open spec fn reused_outcome(
    before: VadState,
    samples: Seq<u32>,
    reply: Result<ModelReply, String>,
    after: VadState,
    result: Result<(), ServiceError>,
) -> bool {
    &&& after.valid()
    &&& after.sample_rate == before.sample_rate
    &&& row_items(after.input) == samples
    &&& match reply {
        Err(message) => {
            &&& result == Err::<(), ServiceError>(ServiceError::Runtime { message })
            &&& after.state == before.state
        },
        Ok(ModelReply { state: None, .. }) => {
            &&& result == Err::<(), ServiceError>(ServiceError::StateNotContiguous)
            &&& after.state == before.state
        },
        Ok(ModelReply { state: Some(state), .. }) => {
            &&& result == Ok::<(), ServiceError>(())
            &&& state_items(after.state) == state@
        },
    }
}

/// Whether a state in a reply can be copied over the state at hand.
pub open spec fn state_fits(reply: Result<ModelReply, String>) -> bool {
    reply matches Ok(ModelReply { state: Some(state), .. }) ==> state@.len() == STATE_LEN
}

/// What a mode makes of a reply.
pub open spec fn mode_outcome(
    mode: Mode,
    before: VadState,
    samples: Seq<u32>,
    reply: Result<ModelReply, String>,
    after: VadState,
    result: Result<(), ServiceError>,
) -> bool {
    match mode {
        Mode::Allocating => allocating_outcome(before, samples, reply, after, result),
        Mode::ReusedBuffers => reused_outcome(before, samples, reply, after, result),
    }
}

/// Whether `infer` can be called on the window of a payload.
pub open spec fn can_infer<S, F>(infer: F, session: S, before: VadState, payload: Seq<u8>) -> bool where
    F: FnOnce(S, &InputRow, &StateTensor, &RateTensor) -> (S, Result<ModelReply, String>),
 {
    forall|samples: InputRow|
        before.is_input_for(samples, payload) ==> #[trigger] infer.requires(
            (session, &samples, &before.state, &before.sr),
        )
}

/// Whether what `infer` can reply to the window of a payload can be copied over
/// the state at hand.
pub open spec fn replies_fit<S, F>(
    infer: F,
    session: S,
    before: VadState,
    payload: Seq<u8>,
) -> bool where
    F: FnOnce(S, &InputRow, &StateTensor, &RateTensor) -> (S, Result<ModelReply, String>),
 {
    forall|samples: InputRow, back: (S, Result<ModelReply, String>)|
        before.is_input_for(samples, payload) && #[trigger] infer.ensures(
            (session, &samples, &before.state, &before.sr),
            back,
        ) ==> state_fits(back.1)
}

/// What processing one payload does to the session and the state. A payload of
/// the wrong size is refused and changes neither; else the session goes to the
/// model with the window, comes back with some reply that `infer` can give, and
/// the reply is taken up.
pub open spec fn bench_step<S, F>(
    infer: F,
    mode: Mode,
    payload: Seq<u8>,
    before: (S, VadState),
    after: (S, VadState),
    result: Result<(), ServiceError>,
) -> bool where
    F: FnOnce(S, &InputRow, &StateTensor, &RateTensor) -> (S, Result<ModelReply, String>),
 {
    let (session, vad) = before;
    if vad.takes(payload) {
        exists|samples: InputRow, back: (S, Result<ModelReply, String>)|
            {
                &&& vad.is_input_for(samples, payload)
                &&& #[trigger] infer.ensures((session, &samples, &vad.state, &vad.sr), back)
                &&& after.0 == back.0
                &&& mode_outcome(mode, vad, vad.window_for(payload), back.1, after.1, result)
            }
    } else {
        &&& result == Err::<(), ServiceError>(vad.size_error(payload))
        &&& after == before
    }
}

/// Whether this holds silence and a zero state.
pub open spec fn is_fresh(vad: VadState, sample_rate: i64) -> bool {
    &&& vad.valid()
    &&& vad.sample_rate == sample_rate
    &&& row_items(vad.input) == Seq::new(
        (vad.context_size + vad.block_size) as nat,
        |i: int| ZERO_BITS,
    )
    &&& state_items(vad.state) == Seq::new(STATE_LEN as nat, |i: int| ZERO_BITS)
}

impl VadState {
    /// Silence and a zero state.
    pub fn new(sample_rate: i64) -> (vad: VadState)
        ensures
            is_fresh(vad, sample_rate),
    {
        let block: usize = block_size(sample_rate);
        let context: usize = context_size(sample_rate);
        let axes: [usize; 3] = [2, 1, 128];
        proof {
            lemma_state_volume();
            assert(axes@ =~= state_axes());
        }
        let vad = VadState {
            sample_rate,
            block_size: block,
            context_size: context,
            input: InputRow::zeros(1, context + block),
            state: StateTensor::zeros(axes.as_slice()),
            sr: RateTensor::from_vec(vec![sample_rate]),
        };
        assert(rate_items(vad.sr) =~= seq![vad.sample_rate]);
        vad
    }

    /// Holds a payload to the size of a chunk.
    pub fn validate(&self, payload: &[u8]) -> (result: Result<(), ServiceError>)
        requires
            self.valid(),
        ensures
            result == if self.takes(payload@) {
                Ok::<(), ServiceError>(())
            } else {
                Err::<(), ServiceError>(self.size_error(payload@))
            },
    {
        let expected_bytes: usize = self.block_size * PCM_I16_BYTES_PER_SAMPLE;
        if payload.len() != expected_bytes {
            return Err(
                ServiceError::BenchmarkChunkSize {
                    sample_rate: self.sample_rate,
                    got: payload.len(),
                    expected: expected_bytes,
                },
            );
        }
        Ok(())
    }

    /// Takes up the model's reply into new arrays.
    pub fn apply_allocating(&mut self, samples: InputRow, reply: Result<ModelReply, String>) -> (
    result: Result<(), ServiceError>)
        requires
            old(self).valid(),
            row_shape(samples) == row_shape(old(self).input),
            row_items(samples).len() == row_items(old(self).input).len(),
        ensures
            allocating_outcome(*old(self), row_items(samples), reply, *final(self), result),
    {
        let reply: ModelReply = match reply {
            Ok(reply) => reply,
            Err(message) => {
                return Err(ort_err(message));
            },
        };
        let elements: Vec<u32> = match reply.state {
            Some(elements) => elements,
            None => {
                return Err(ServiceError::StateNotContiguous);
            },
        };
        let axes: [usize; 3] = [2, 1, 128];
        proof {
            lemma_state_volume();
            assert(axes@ =~= state_axes());
        }
        let state: StateTensor = match StateTensor::from_shape_vec(axes.as_slice(), elements) {
            Ok(state) => state,
            Err(message) => {
                return Err(ServiceError::Shape { message });
            },
        };
        self.state = state;
        self.input = samples;
        Ok(())
    }

    /// Processes a chunk into new arrays. The session goes to the model and
    /// comes back from it; a payload of the wrong size does not reach the model.
    pub fn process_allocating<S, F>(&mut self, session: S, infer: F, payload: &[u8]) -> (outcome: (
        S,
        Result<(), ServiceError>,
    )) where
        F: FnOnce(S, &InputRow, &StateTensor, &RateTensor) -> (S, Result<ModelReply, String>),

        requires
            old(self).valid(),
            old(self).takes(payload@) ==> can_infer(infer, session, *old(self), payload@),
        ensures
            final(self).valid(),
            bench_step(
                infer,
                Mode::Allocating,
                payload@,
                (session, *old(self)),
                (outcome.0, *final(self)),
                outcome.1,
            ),
    {
        if let Err(error) = self.validate(payload) {
            return (session, Err(error));
        }
        let samples: Vec<u32> = build_window(
            self.input.items(),
            self.block_size,
            self.context_size,
            payload,
        );
        let input: InputRow = match InputRow::from_shape_vec(
            1,
            self.context_size + self.block_size,
            samples,
        ) {
            Ok(input) => input,
            Err(message) => {
                return (session, Err(ServiceError::Shape { message }));
            },
        };
        let (back, reply): (S, Result<ModelReply, String>) = infer(
            session,
            &input,
            &self.state,
            &self.sr,
        );
        let result: Result<(), ServiceError> = self.apply_allocating(input, reply);
        (back, result)
    }

    /// Takes up the model's reply into the state at hand.
    pub fn apply_reused(&mut self, reply: Result<ModelReply, String>) -> (result: Result<
        (),
        ServiceError,
    >)
        requires
            old(self).valid(),
            state_fits(reply),
        ensures
            reused_outcome(
                *old(self),
                row_items(old(self).input),
                reply,
                *final(self),
                result,
            ),
    {
        let reply: ModelReply = match reply {
            Ok(reply) => reply,
            Err(message) => {
                return Err(ort_err(message));
            },
        };
        let elements: Vec<u32> = match reply.state {
            Some(elements) => elements,
            None => {
                return Err(ServiceError::StateNotContiguous);
            },
        };
        let buffer: &mut [u32] = self.state.as_slice_mut().unwrap();
        let mut i: usize = 0;
        while i < elements.len()
            invariant
                i <= elements@.len(),
                elements@.len() == buffer@.len(),
                forall|j: int| 0 <= j < i ==> buffer@[j] == elements@[j],
            decreases elements.len() - i,
        {
            buffer[i] = elements[i];
            i = i + 1;
        }
        assert(buffer@ =~= elements@);
        Ok(())
    }

    /// Processes a chunk in the arrays at hand. The session goes to the model and
    /// comes back from it; a payload of the wrong size does not reach the model.
    pub fn process_reused_buffers<S, F>(&mut self, session: S, infer: F, payload: &[u8]) -> (
    outcome: (S, Result<(), ServiceError>)) where
        F: FnOnce(S, &InputRow, &StateTensor, &RateTensor) -> (S, Result<ModelReply, String>),

        requires
            old(self).valid(),
            old(self).takes(payload@) ==> can_infer(infer, session, *old(self), payload@)
                && replies_fit(infer, session, *old(self), payload@),
        ensures
            final(self).valid(),
            bench_step(
                infer,
                Mode::ReusedBuffers,
                payload@,
                (session, *old(self)),
                (outcome.0, *final(self)),
                outcome.1,
            ),
    {
        if let Err(error) = self.validate(payload) {
            return (session, Err(error));
        }
        let (block, context): (usize, usize) = (self.block_size, self.context_size);
        let buffer: &mut [u32] = self.input.as_slice_mut().unwrap();
        shift_window(buffer, block, context, payload);
        let ghost handed = self.input;
        assert(old(self).is_input_for(handed, payload@));
        let (back, reply): (S, Result<ModelReply, String>) = infer(
            session,
            &self.input,
            &self.state,
            &self.sr,
        );
        let result: Result<(), ServiceError> = self.apply_reused(reply);
        (back, result)
    }

    /// Processes a chunk in a mode.
    pub fn process<S, F>(&mut self, mode: Mode, session: S, infer: F, payload: &[u8]) -> (
    outcome: (S, Result<(), ServiceError>)) where
        F: FnOnce(S, &InputRow, &StateTensor, &RateTensor) -> (S, Result<ModelReply, String>),

        requires
            old(self).valid(),
            old(self).takes(payload@) ==> can_infer(infer, session, *old(self), payload@) && (mode
                == Mode::ReusedBuffers ==> replies_fit(infer, session, *old(self), payload@)),
        ensures
            final(self).valid(),
            bench_step(
                infer,
                mode,
                payload@,
                (session, *old(self)),
                (outcome.0, *final(self)),
                outcome.1,
            ),
    {
        match mode {
            Mode::Allocating => self.process_allocating(session, infer, payload),
            Mode::ReusedBuffers => self.process_reused_buffers(session, infer, payload),
        }
    }
}

/// Both ways to process a chunk agree: from the same samples and state, a
/// reply with a whole state leaves the same samples and state.
pub proof fn lemma_modes_agree(
    before: VadState,
    samples: Seq<u32>,
    reply: Result<ModelReply, String>,
    allocating: VadState,
    allocating_result: Result<(), ServiceError>,
    reused: VadState,
    reused_result: Result<(), ServiceError>,
)
    requires
        before.valid(),
        reply matches Ok(ModelReply { state: Some(state), .. }) && state@.len() == STATE_LEN,
        allocating_outcome(before, samples, reply, allocating, allocating_result),
        reused_outcome(before, samples, reply, reused, reused_result),
    ensures
        allocating_result == Ok::<(), ServiceError>(()),
        reused_result == Ok::<(), ServiceError>(()),
        allocating.same(reused),
{
}

/// Whether whatever `infer` can reply is what the model answers.
pub open spec fn replies_as<S, F>(infer: F, model: Model) -> bool where
    F: FnOnce(S, &InputRow, &StateTensor, &RateTensor) -> (S, Result<ModelReply, String>),
 {
    forall|
        session: S,
        samples: InputRow,
        state: StateTensor,
        sr: RateTensor,
        back: (S, Result<ModelReply, String>),
    | #[trigger]
        infer.ensures((session, &samples, &state, &sr), back) ==> content(back.1) == model(
            row_items(samples),
            state_items(state),
            rate_items(sr),
        )
}

/// Where the model's answer depends on what it is handed alone, a chunk that is
/// processed from the same samples and state, in either mode, goes equally well.
/// It leaves the same samples and state where it goes well, where its size is
/// refused, and where the modes are the same.
pub proof fn lemma_steps_agree<S, R, F, G>(
    model: Model,
    payload: Seq<u8>,
    infer: F,
    mode: Mode,
    before: (S, VadState),
    after: (S, VadState),
    result: Result<(), ServiceError>,
    other_infer: G,
    other_mode: Mode,
    other_before: (R, VadState),
    other_after: (R, VadState),
    other_result: Result<(), ServiceError>,
) where
    F: FnOnce(S, &InputRow, &StateTensor, &RateTensor) -> (S, Result<ModelReply, String>),
    G: FnOnce(R, &InputRow, &StateTensor, &RateTensor) -> (R, Result<ModelReply, String>),

    requires
        replies_as(infer, model),
        replies_as(other_infer, model),
        before.1.valid(),
        other_before.1.valid(),
        before.1.same(other_before.1),
        bench_step(infer, mode, payload, before, after, result),
        bench_step(other_infer, other_mode, payload, other_before, other_after, other_result),
    ensures
        result is Ok <==> other_result is Ok,
        result is Ok || !before.1.takes(payload) || mode == other_mode ==> after.1.same(
            other_after.1,
        ),
{
    let (a, b) = (before.1, other_before.1);
    if a.takes(payload) {
        let (samples, back) = choose|samples: InputRow, back: (S, Result<ModelReply, String>)|
            {
                &&& a.is_input_for(samples, payload)
                &&& #[trigger] infer.ensures((before.0, &samples, &a.state, &a.sr), back)
                &&& after.0 == back.0
                &&& mode_outcome(mode, a, a.window_for(payload), back.1, after.1, result)
            };
        let (others, reply) = choose|others: InputRow, reply: (R, Result<ModelReply, String>)|
            {
                &&& b.is_input_for(others, payload)
                &&& #[trigger] other_infer.ensures(
                    (other_before.0, &others, &b.state, &b.sr),
                    reply,
                )
                &&& other_after.0 == reply.0
                &&& mode_outcome(
                    other_mode,
                    b,
                    b.window_for(payload),
                    reply.1,
                    other_after.1,
                    other_result,
                )
            };
        assert(content(back.1) == model(row_items(samples), state_items(a.state), rate_items(a.sr)));
        assert(content(reply.1) == model(row_items(others), state_items(b.state), rate_items(b.sr)));
    }
}

/// Whether payloads are processed one after the other. The session may be used
/// otherwise in between: its pairs are what went into each step and what came
/// back.
pub open spec fn steps<S, F>(
    infer: F,
    mode: Mode,
    payloads: Seq<Seq<u8>>,
    sessions: Seq<(S, S)>,
    states: Seq<VadState>,
    results: Seq<Result<(), ServiceError>>,
) -> bool where
    F: FnOnce(S, &InputRow, &StateTensor, &RateTensor) -> (S, Result<ModelReply, String>),
 {
    &&& payloads.len() == sessions.len() == results.len()
    &&& states.len() == results.len() + 1
    &&& forall|i: int| 0 <= i < states.len() ==> (#[trigger] states[i]).valid()
    &&& forall|i: int|
        0 <= i < results.len() ==> bench_step(
            infer,
            mode,
            payloads[i],
            (sessions[i].0, states[i]),
            (sessions[i].1, states[i + 1]),
            #[trigger] results[i],
        )
}

/// The modes agree over any number of chunks: from the same samples and state,
/// as long as all goes well in one mode it does in the other, and both hold the
/// same samples and state after every chunk, where the model's answer depends on
/// what it is handed alone.
pub proof fn lemma_runs_agree<S, R, F, G>(
    model: Model,
    payloads: Seq<Seq<u8>>,
    infer: F,
    mode: Mode,
    sessions: Seq<(S, S)>,
    states: Seq<VadState>,
    results: Seq<Result<(), ServiceError>>,
    other_infer: G,
    other_mode: Mode,
    other_sessions: Seq<(R, R)>,
    other_states: Seq<VadState>,
    other_results: Seq<Result<(), ServiceError>>,
    n: int,
) where
    F: FnOnce(S, &InputRow, &StateTensor, &RateTensor) -> (S, Result<ModelReply, String>),
    G: FnOnce(R, &InputRow, &StateTensor, &RateTensor) -> (R, Result<ModelReply, String>),

    requires
        replies_as(infer, model),
        replies_as(other_infer, model),
        steps(infer, mode, payloads, sessions, states, results),
        steps(other_infer, other_mode, payloads, other_sessions, other_states, other_results),
        states[0].same(other_states[0]),
        0 <= n <= results.len(),
        forall|i: int| 0 <= i < n ==> #[trigger] results[i] is Ok,
    ensures
        states[n].same(other_states[n]),
        forall|i: int| 0 <= i < n ==> #[trigger] other_results[i] is Ok,
        n < results.len() ==> (results[n] is Ok <==> other_results[n] is Ok),
    decreases n,
{
    if n > 0 {
        lemma_runs_agree(
            model,
            payloads,
            infer,
            mode,
            sessions,
            states,
            results,
            other_infer,
            other_mode,
            other_sessions,
            other_states,
            other_results,
            n - 1,
        );
        let i = n - 1;
        assert(results[i] is Ok);
        lemma_steps_agree(
            model,
            payloads[i],
            infer,
            mode,
            (sessions[i].0, states[i]),
            (sessions[i].1, states[n]),
            results[i],
            other_infer,
            other_mode,
            (other_sessions[i].0, other_states[i]),
            (other_sessions[i].1, other_states[n]),
            other_results[i],
        );
    }
    if n < results.len() {
        let next = n + 1;
        lemma_steps_agree(
            model,
            payloads[n],
            infer,
            mode,
            (sessions[n].0, states[n]),
            (sessions[n].1, states[next]),
            results[n],
            other_infer,
            other_mode,
            (other_sessions[n].0, other_states[n]),
            (other_sessions[n].1, other_states[next]),
            other_results[n],
        );
    }
}

/// A chunk of the benchmark has the size that is asked for, and is read back as
/// the samples that were mixed.
pub proof fn lemma_benchmark_chunk_accepted(vad: VadState, samples: Seq<i16>)
    requires
        vad.valid(),
        samples.len() == vad.block_size,
    ensures
        vad.takes(encode(samples)),
        decode(encode(samples)) == samples.map_values(|sample: i16| sample as int),
{
    lemma_decode_encode(samples);
}

} // verus!
