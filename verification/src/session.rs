//! One connection: what it is told, and when it ends.
use crate::config::{Config, ConfigView};
use crate::detector::valid_rate;
use crate::error::ServiceError;
use crate::event::{HealthResponse, VadEvent, PCM_FORMAT};
use crate::pcm::{block_size, block_size_spec};
use crate::replay::{
    answers_as, held, lemma_call_replayed, lemma_start_held, replay, replayed, Model,
};
use crate::stream::{
    can_process, chunk_outcome, lengths_in_range, starts_as, ModelReply, VadStream,
};
use crate::tensor::{InputRow, RateTensor, StateTensor};
use crate::threshold::valid_threshold;
use vstd::prelude::*;

verus! {

/// What came from a connection.
#[derive(Debug, PartialEq)]
pub enum Incoming {
    /// A message of audio.
    Binary(Vec<u8>),
    Ping(Vec<u8>),
    Pong,
    Close,
    Text,
    /// Receiving failed, with these words.
    Failed(String),
    /// The client is gone.
    Ended,
    /// Nothing came for the idle timeout.
    Idle,
}

/// What is to be done next.
#[derive(Debug, PartialEq)]
pub enum Action {
    Send(VadEvent),
    SendPong(Vec<u8>),
    Wait,
    Finish,
    Fail(ServiceError),
}

/// One connection.
pub struct SocketSession {
    pub vad: VadStream,
    pub idle_timeout_secs: u64,
    pub open: bool,
}

/// What is done about the outcome of a chunk.
pub open spec fn action_for(result: Result<Option<VadEvent>, ServiceError>) -> Action {
    match result {
        Ok(Some(event)) => Action::Send(event),
        Ok(None) => Action::Wait,
        Err(error) => Action::Fail(error),
    }
}

/// What a connection does about what came, where that is not audio.
pub open spec fn plain_action(incoming: Incoming, idle_timeout_secs: u64, action: Action) -> bool {
    match incoming {
        Incoming::Binary(_) => true,
        Incoming::Ping(payload) => action == Action::SendPong(payload),
        Incoming::Pong => action == Action::Wait,
        Incoming::Close | Incoming::Ended => action == Action::Finish,
        Incoming::Text => action matches Action::Send(VadEvent::Error { message }) && message@
            == "send binary pcm_s16le audio chunks, not text"@,
        Incoming::Failed(message) => action == Action::Fail(ServiceError::Receive { message }),
        Incoming::Idle => action == Action::Fail(
            ServiceError::IdleTimeout { seconds: idle_timeout_secs },
        ),
    }
}

/// Whether an action ends the connection.
pub open spec fn ends_session(action: Action) -> bool {
    action is Finish || action is Fail
}

/// What a connection does about what came: audio goes through the stream, and
/// nothing else touches it.
pub open spec fn step_outcome<F>(
    infer: F,
    before: SocketSession,
    incoming: Incoming,
    after: SocketSession,
    action: Action,
) -> bool where F: FnOnce(&InputRow, &StateTensor, &RateTensor) -> Result<ModelReply, String> {
    &&& after.idle_timeout_secs == before.idle_timeout_secs
    &&& after.open == !ends_session(action)
    &&& plain_action(incoming, before.idle_timeout_secs, action)
    &&& match incoming {
        Incoming::Binary(payload) => exists|result: Result<Option<VadEvent>, ServiceError>|
            #[trigger] chunk_outcome(infer, before.vad, payload@, after.vad, result) && action
                == action_for(result),
        _ => after.vad == before.vad,
    }
}

/// Whether a connection can go on with what came. Only audio can need the
/// model.
pub open spec fn can_step<F>(infer: F, before: SocketSession, incoming: Incoming) -> bool where
    F: FnOnce(&InputRow, &StateTensor, &RateTensor) -> Result<ModelReply, String>,
 {
    &&& before.open
    &&& before.vad.valid()
    &&& incoming matches Incoming::Binary(payload) ==> can_process(infer, before.vad, payload@)
}

impl SocketSession {
    /// Opens a connection: a stream at its start, and the event that greets
    /// the client.
    pub fn start(config: &Config) -> (opened: (SocketSession, VadEvent))
        requires
            valid_rate(config.sample_rate as int),
            valid_threshold(config.threshold),
            lengths_in_range(config@),
        ensures
            opened.0.open,
            opened.0.idle_timeout_secs == config.idle_timeout_secs,
            starts_as(opened.0.vad, config@),
            opened.1 matches VadEvent::Ready { sample_rate, chunk_samples, format } && sample_rate
                == config.sample_rate && chunk_samples == block_size_spec(config.sample_rate as int)
                && format@ == "pcm_s16le_mono"@,
    {
        let vad: VadStream = VadStream::new(config);
        let ready = VadEvent::Ready {
            sample_rate: config.sample_rate,
            chunk_samples: vad.block_size,
            format: PCM_FORMAT,
        };
        (SocketSession { vad, idle_timeout_secs: config.idle_timeout_secs, open: true }, ready)
    }

    /// Decides what to do about what came. Only audio of the right size reaches
    /// the model.
    pub fn step<F>(&mut self, incoming: Incoming, infer: F) -> (action: Action) where
        F: FnOnce(&InputRow, &StateTensor, &RateTensor) -> Result<ModelReply, String>,

        requires
            can_step(infer, *old(self), incoming),
        ensures
            final(self).vad.valid(),
            step_outcome(infer, *old(self), incoming, *final(self), action),
    {
        let action: Action = match incoming {
            Incoming::Binary(payload) => {
                match self.vad.handle_pcm_chunk(infer, payload.as_slice()) {
                    Ok(Some(event)) => Action::Send(event),
                    Ok(None) => Action::Wait,
                    Err(error) => Action::Fail(error),
                }
            },
            Incoming::Ping(payload) => Action::SendPong(payload),
            Incoming::Pong => Action::Wait,
            Incoming::Close => Action::Finish,
            Incoming::Ended => Action::Finish,
            Incoming::Text => Action::Send(
                VadEvent::Error {
                    message: "send binary pcm_s16le audio chunks, not text".to_owned(),
                },
            ),
            Incoming::Failed(message) => Action::Fail(ServiceError::Receive { message }),
            Incoming::Idle => Action::Fail(
                ServiceError::IdleTimeout { seconds: self.idle_timeout_secs },
            ),
        };
        self.open =
        match action {
            Action::Finish => false,
            Action::Fail(_) => false,
            _ => true,
        };
        action
    }
}

/// Whether a connection went through these states over what came.
pub open spec fn session_run<F>(
    infers: Seq<F>,
    sessions: Seq<SocketSession>,
    incoming: Seq<Incoming>,
    actions: Seq<Action>,
) -> bool where F: FnOnce(&InputRow, &StateTensor, &RateTensor) -> Result<ModelReply, String> {
    &&& infers.len() == incoming.len() == actions.len()
    &&& sessions.len() == actions.len() + 1
    &&& forall|i: int|
        0 <= i < actions.len() ==> {
            &&& can_step(infers[i], sessions[i], incoming[i])
            &&& sessions[i + 1].vad.valid()
            &&& step_outcome(
                infers[i],
                sessions[i],
                incoming[i],
                sessions[i + 1],
                #[trigger] actions[i],
            )
        }
}

/// The audio among what came.
pub open spec fn audio(incoming: Seq<Incoming>) -> Seq<Seq<u8>>
    decreases incoming.len(),
{
    if incoming.len() == 0 {
        Seq::empty()
    } else {
        match incoming.last() {
            Incoming::Binary(payload) => audio(incoming.drop_last()).push(payload@),
            _ => audio(incoming.drop_last()),
        }
    }
}

/// The starts and ends of speech and the silence that the client is told.
pub open spec fn speech_events(actions: Seq<Action>) -> Seq<VadEvent>
    decreases actions.len(),
{
    if actions.len() == 0 {
        Seq::empty()
    } else {
        match actions.last() {
            Action::Send(event) => if event is SpeechStart || event is SpeechEnd
                || event is Silence {
                speech_events(actions.drop_last()).push(event)
            } else {
                speech_events(actions.drop_last())
            },
            _ => speech_events(actions.drop_last()),
        }
    }
}

/// Where the model's answer depends on what it is handed alone, a connection is
/// told what its audio alone gives.
pub proof fn lemma_session_replayed<F>(
    model: Model,
    infers: Seq<F>,
    sessions: Seq<SocketSession>,
    incoming: Seq<Incoming>,
    actions: Seq<Action>,
    n: int,
) where F: FnOnce(&InputRow, &StateTensor, &RateTensor) -> Result<ModelReply, String>
    requires
        session_run(infers, sessions, incoming, actions),
        forall|i: int| 0 <= i < infers.len() ==> answers_as(#[trigger] infers[i], model),
        0 <= n <= actions.len(),
    ensures
        held(sessions[n].vad) == replay(model, held(sessions[0].vad), audio(incoming.take(n))),
        speech_events(actions.take(n)) == replayed(
            model,
            held(sessions[0].vad),
            audio(incoming.take(n)),
        ),
    decreases n,
{
    if n == 0 {
        assert(incoming.take(0) =~= Seq::<Incoming>::empty());
        assert(actions.take(0) =~= Seq::<Action>::empty());
    } else {
        lemma_session_replayed(model, infers, sessions, incoming, actions, n - 1);
        let (before, after) = (sessions[n - 1], sessions[n]);
        let (infer, came, action) = (infers[n - 1], incoming[n - 1], actions[n - 1]);
        assert(step_outcome(infer, before, came, after, action));
        assert(answers_as(infer, model));
        assert(incoming.take(n).drop_last() =~= incoming.take(n - 1));
        assert(actions.take(n).drop_last() =~= actions.take(n - 1));
        assert(incoming.take(n).last() == came);
        assert(actions.take(n).last() == action);
        if let Incoming::Binary(payload) = came {
            let result = choose|result: Result<Option<VadEvent>, ServiceError>|
                #[trigger] chunk_outcome(infer, before.vad, payload@, after.vad, result) && action
                    == action_for(result);
            lemma_call_replayed(model, infer, before.vad, payload@, after.vad, result);
            let chunks = audio(incoming.take(n));
            assert(chunks.drop_last() =~= audio(incoming.take(n - 1)));
            assert(chunks.last() == payload@);
        }
    }
}

/// Connections do not interfere: two with the same settings and the same audio
/// are told the same of it, whatever else they send and whatever others do,
/// where the model's answer depends on what it is handed alone.
pub proof fn lemma_sessions_agree<F, G>(
    config: ConfigView,
    model: Model,
    infers: Seq<F>,
    sessions: Seq<SocketSession>,
    incoming: Seq<Incoming>,
    actions: Seq<Action>,
    other_infers: Seq<G>,
    other_sessions: Seq<SocketSession>,
    other_incoming: Seq<Incoming>,
    other_actions: Seq<Action>,
) where
    F: FnOnce(&InputRow, &StateTensor, &RateTensor) -> Result<ModelReply, String>,
    G: FnOnce(&InputRow, &StateTensor, &RateTensor) -> Result<ModelReply, String>,

    requires
        session_run(infers, sessions, incoming, actions),
        session_run(other_infers, other_sessions, other_incoming, other_actions),
        forall|i: int| 0 <= i < infers.len() ==> answers_as(#[trigger] infers[i], model),
        forall|i: int|
            0 <= i < other_infers.len() ==> answers_as(#[trigger] other_infers[i], model),
        starts_as(sessions[0].vad, config),
        starts_as(other_sessions[0].vad, config),
        audio(incoming) == audio(other_incoming),
    ensures
        speech_events(actions) == speech_events(other_actions),
{
    let (n, m) = (actions.len() as int, other_actions.len() as int);
    lemma_session_replayed(model, infers, sessions, incoming, actions, n);
    lemma_session_replayed(
        model,
        other_infers,
        other_sessions,
        other_incoming,
        other_actions,
        m,
    );
    assert(actions.take(n) =~= actions && incoming.take(n) =~= incoming);
    assert(other_actions.take(m) =~= other_actions && other_incoming.take(m) =~= other_incoming);
    lemma_start_held(sessions[0].vad, other_sessions[0].vad, config);
}

/// Answers a health request.
pub fn health(config: &Config, active_connections: usize) -> (response: HealthResponse)
    ensures
        response.status@ == "ok"@,
        response.runtime@ == "rust+official-onnxruntime"@,
        response.active_connections == active_connections,
        response.max_connections == config.max_connections,
        response.sample_rate == config.sample_rate,
        response.chunk_samples == block_size_spec(config.sample_rate as int),
{
    HealthResponse {
        status: "ok",
        runtime: "rust+official-onnxruntime",
        active_connections,
        max_connections: config.max_connections,
        sample_rate: config.sample_rate,
        chunk_samples: block_size(config.sample_rate),
    }
}

} // verus!
