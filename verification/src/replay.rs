//! Streams as functions: where the model's answer depends on what it is handed
//! alone, what a stream reports depends on its settings and its audio alone.
use crate::config::ConfigView;
use crate::detector::{advance, Progress, Settings};
use crate::error::ServiceError;
use crate::event::VadEvent;
use crate::history::chunk_call;
use crate::pcm::{context_size_spec, window, PCM_I16_BYTES_PER_SAMPLE};
use crate::stream::{
    probability_of, reply_outcome, starts_as, ModelReply, VadStream, STATE_LEN,
};
use crate::tensor::{
    rate_items, row_items, state_items, InputRow, RateTensor, StateTensor,
};
use vstd::prelude::*;

verus! {

/// A model: from window, state and sample rate to its output and, where it is
/// contiguous, its next state; or to no answer, where it fails.
pub type Model = spec_fn(Seq<u32>, Seq<u32>, Seq<i64>) -> Option<(Seq<u32>, Option<Seq<u32>>)>;

/// What a reply holds.
pub open spec fn content(reply: Result<ModelReply, String>) -> Option<
    (Seq<u32>, Option<Seq<u32>>),
> {
    match reply {
        Ok(ModelReply { output, state: Some(state) }) => Some((output@, Some(state@))),
        Ok(ModelReply { output, state: None }) => Some((output@, None)),
        Err(_) => None,
    }
}

/// Whether whatever `infer` can reply is what the model answers.
pub open spec fn answers_as<F>(infer: F, model: Model) -> bool where
    F: FnOnce(&InputRow, &StateTensor, &RateTensor) -> Result<ModelReply, String>,
 {
    forall|
        samples: InputRow,
        state: StateTensor,
        sr: RateTensor,
        reply: Result<ModelReply, String>,
    | #[trigger]
        infer.ensures((&samples, &state, &sr), reply) ==> content(reply) == model(
            row_items(samples),
            state_items(state),
            rate_items(sr),
        )
}

/// What a stream holds: what it was set up with, how far it has come, its
/// window and the state of the model.
pub struct Held {
    pub settings: Settings,
    pub progress: Progress,
    pub window: Seq<u32>,
    pub state: Seq<u32>,
}

/// What a stream holds.
pub open spec fn held(stream: VadStream) -> Held {
    Held {
        settings: stream.settings(),
        progress: stream.progress(),
        window: row_items(stream.input),
        state: state_items(stream.state),
    }
}

/// What a chunk makes of what a stream holds, and what is reported for it. A
/// chunk that fails changes nothing and is not reported.
pub open spec fn replay_chunk(model: Model, at: Held, payload: Seq<u8>) -> (
    Held,
    Option<VadEvent>,
) {
    let s = at.settings;
    let samples = window(at.window, s.block, context_size_spec(s.sample_rate), payload);
    if payload.len() != s.block * PCM_I16_BYTES_PER_SAMPLE {
        (at, None)
    } else {
        match model(samples, at.state, seq![s.sample_rate as i64]) {
            Some((output, Some(state))) => if state.len() != STATE_LEN {
                (at, None)
            } else {
                let (progress, event) = advance(s, at.progress, probability_of(output));
                (Held { progress, window: samples, state, ..at }, event)
            },
            _ => (at, None),
        }
    }
}

/// What a stream holds after a row of chunks.
pub open spec fn replay(model: Model, start: Held, payloads: Seq<Seq<u8>>) -> Held
    decreases payloads.len(),
{
    if payloads.len() == 0 {
        start
    } else {
        replay_chunk(model, replay(model, start, payloads.drop_last()), payloads.last()).0
    }
}

/// What is reported for a row of chunks.
pub open spec fn replayed(model: Model, start: Held, payloads: Seq<Seq<u8>>) -> Seq<VadEvent>
    decreases payloads.len(),
{
    if payloads.len() == 0 {
        Seq::empty()
    } else {
        let before = replay(model, start, payloads.drop_last());
        let earlier = replayed(model, start, payloads.drop_last());
        match replay_chunk(model, before, payloads.last()).1 {
            Some(event) => earlier.push(event),
            None => earlier,
        }
    }
}

/// Streams that start with the same settings hold the same.
pub proof fn lemma_start_held(a: VadStream, b: VadStream, config: ConfigView)
    requires
        starts_as(a, config),
        starts_as(b, config),
    ensures
        held(a) == held(b),
{
    assert(row_items(a.input) =~= row_items(b.input));
    assert(state_items(a.state) =~= state_items(b.state));
}

/// Where the model's answer depends on what it is handed alone, a call does
/// what `replay_chunk` says: what is held after and what is reported, and it
/// reports nothing where it fails.
pub proof fn lemma_call_replayed<F>(
    model: Model,
    infer: F,
    before: VadStream,
    payload: Seq<u8>,
    after: VadStream,
    result: Result<Option<VadEvent>, ServiceError>,
) where F: FnOnce(&InputRow, &StateTensor, &RateTensor) -> Result<ModelReply, String>
    requires
        chunk_call(infer, before, payload, after, result),
        answers_as(infer, model),
    ensures
        held(after) == replay_chunk(model, held(before), payload).0,
        match result {
            Ok(event) => replay_chunk(model, held(before), payload).1 == event,
            Err(_) => replay_chunk(model, held(before), payload).1 is None,
        },
{
    if before.takes(payload) {
        let (samples, reply) = choose|samples: InputRow, reply: Result<ModelReply, String>|
            {
                &&& before.is_input_for(samples, payload)
                &&& #[trigger] infer.ensures((&samples, &before.state, &before.sr), reply)
                &&& reply_outcome(before, before.window_for(payload), reply, after, result)
            };
        assert(content(reply) == model(
            row_items(samples),
            state_items(before.state),
            rate_items(before.sr),
        ));
    }
}

} // verus!
