//! Connections: who is let in, what is answered, and in what words.
use crate::args::{ArgumentError, Refusal};
use crate::config::Config;
use crate::error::{ort_err, ServiceError};
use crate::event::{HealthResponse, VadEvent};
use crate::gate::{judge_connection, Admission, ConnectionGate};
use crate::laws::numbers::lemma_threshold_range;
use crate::laws::streaming::{at_start, handled, lemma_outcome_handled, lemma_start, usable};
use crate::session::{action_for, health, step_outcome, Action, Incoming, SocketSession};
use crate::stream::{can_process, chunk_outcome, starts_as, ModelReply};
use crate::tensor::{InputRow, RateTensor, StateTensor};
use crate::text::{decimal, signed_decimal, IntegerError};
use vstd::prelude::*;

verus! {

/// What a connection answers. Audio goes to its stream: an event is sent, no
/// event is waited over, an error ends the connection. Nothing else touches the
/// stream. A ping is answered with its own payload, a pong with nothing, text
/// with an error event; the client's end of it finishes the connection; and a
/// failure to receive or a silence of the idle timeout ends it in error.
pub open spec fn answered<F>(
    infer: F,
    before: SocketSession,
    incoming: Incoming,
    after: SocketSession,
    action: Action,
) -> bool where F: FnOnce(&InputRow, &StateTensor, &RateTensor) -> Result<ModelReply, String> {
    &&& after.idle_timeout_secs == before.idle_timeout_secs
    &&& after.open <==> !(action is Finish) && !(action is Fail)
    &&& match incoming {
        Incoming::Binary(payload) => exists|result: Result<Option<VadEvent>, ServiceError>|
            {
                &&& #[trigger] handled(infer, before.vad, payload@, after.vad, result)
                &&& match result {
                    Ok(Some(event)) => action == Action::Send(event),
                    Ok(None) => action == Action::Wait,
                    Err(error) => action == Action::Fail(error),
                }
            },
        Incoming::Ping(payload) => after.vad == before.vad && action == Action::SendPong(payload),
        Incoming::Pong => after.vad == before.vad && action == Action::Wait,
        Incoming::Close => after.vad == before.vad && action == Action::Finish,
        Incoming::Ended => after.vad == before.vad && action == Action::Finish,
        Incoming::Text => after.vad == before.vad && (action matches Action::Send(
            VadEvent::Error { message },
        ) && message@ == "send binary pcm_s16le audio chunks, not text"@),
        Incoming::Failed(words) => after.vad == before.vad && (action matches Action::Fail(
            ServiceError::Receive { message },
        ) && message == words),
        Incoming::Idle => after.vad == before.vad && (action matches Action::Fail(
            ServiceError::IdleTimeout { seconds },
        ) && seconds == before.idle_timeout_secs),
    }
}

/// What `SocketSession::step` answers. It can be called on whatever comes while
/// the connection is open, and asks something of the model only for audio.
pub proof fn lemma_answered<F>(infer: F) where
    F: FnOnce(&InputRow, &StateTensor, &RateTensor) -> Result<ModelReply, String>,

    ensures
        forall|session: &mut SocketSession, incoming: Incoming, action: Action|
            (*session).vad.valid() && #[trigger] call_ensures(
                SocketSession::step::<F>,
                (session, incoming, infer),
                action,
            ) ==> {
                &&& answered(infer, *session, incoming, *final(session), action)
                &&& step_outcome(infer, *session, incoming, *final(session), action)
                &&& (*final(session)).vad.valid()
            },
        forall|session: &mut SocketSession, incoming: Incoming|
            (*session).vad.valid() && (*session).open && (incoming matches Incoming::Binary(payload)
                ==> payload@.len() != 2 * (*session).vad.block_size || can_process(
                infer,
                (*session).vad,
                payload@,
            )) ==> #[trigger] call_requires(SocketSession::step::<F>, (session, incoming, infer)),
{
    assert forall|session: &mut SocketSession, incoming: Incoming, action: Action|
        (*session).vad.valid() && #[trigger] call_ensures(
            SocketSession::step::<F>,
            (session, incoming, infer),
            action,
        ) implies {
        &&& answered(infer, *session, incoming, *final(session), action)
        &&& step_outcome(infer, *session, incoming, *final(session), action)
        &&& (*final(session)).vad.valid()
    } by {
        let (before, after) = (*session, *final(session));
        if let Incoming::Binary(payload) = incoming {
            let result = choose|result: Result<Option<VadEvent>, ServiceError>|
                #[trigger] chunk_outcome(infer, before.vad, payload@, after.vad, result) && action
                    == action_for(result);
            assert(payload@.len() == payload.len());
            lemma_outcome_handled(infer, before.vad, payload@, after.vad, result);
        }
    }
}

/// How `SocketSession::start` opens a connection: with a stream at its start and
/// an event that names the sample rate, the chunk size and the format.
pub proof fn lemma_opened(config: &Config, opened: (SocketSession, VadEvent))
    requires
        usable(config@),
        call_ensures(SocketSession::start, (config,), opened),
    ensures
        call_requires(SocketSession::start, (config,)),
        opened.0.open,
        opened.0.idle_timeout_secs == config.idle_timeout_secs,
        starts_as(opened.0.vad, config@),
        at_start(opened.0.vad, config@),
        opened.1 matches VadEvent::Ready { sample_rate, chunk_samples, format } && sample_rate
            == config.sample_rate && chunk_samples * 1000 == 32 * config.sample_rate && format@
            == "pcm_s16le_mono"@,
{
    lemma_threshold_range(config.threshold);
    lemma_start(opened.0.vad, config@);
}

/// What `health` tells.
pub proof fn lemma_health(config: &Config, active: usize, response: HealthResponse)
    requires
        call_ensures(health, (config, active), response),
    ensures
        call_requires(health, (config, active)),
        response.status@ == "ok"@,
        response.runtime@ == "rust+official-onnxruntime"@,
        response.active_connections == active,
        response.max_connections == config.max_connections,
        response.sample_rate == config.sample_rate,
        response.chunk_samples == if config.sample_rate == 16000 {
            512int
        } else {
            256
        },
{
}

/// A connection is taken exactly while fewer are active than may be, and is else
/// refused as unavailable.
pub proof fn lemma_admission(active: usize, max_connections: usize, admission: Admission)
    requires
        call_ensures(judge_connection, (active, max_connections), admission),
    ensures
        call_requires(judge_connection, (active, max_connections)),
        admission is Accept <==> active < max_connections,
        admission matches Admission::Refuse { status, message } ==> status == 503 && message@
            == "too many active VAD sessions"@,
{
}

/// A gate starts empty with its cap. It lets in exactly while fewer are active
/// than its cap, counts who is let in and who leaves, and tells how many are
/// active.
pub proof fn lemma_gate(max_connections: usize)
    ensures
        forall|gate: ConnectionGate| #[trigger]
            call_ensures(ConnectionGate::new, (max_connections,), gate) ==> gate.active() == 0
                && gate.cap() == max_connections,
        forall|gate: &mut ConnectionGate, admission: Admission| #[trigger]
            call_ensures(ConnectionGate::enter, (gate,), admission) ==> {
                let (before, after) = (*gate, *final(gate));
                &&& after.cap() == before.cap()
                &&& admission is Accept <==> before.active() < before.cap()
                &&& after.active() == before.active() + if admission is Accept {
                    1int
                } else {
                    0
                }
                &&& (admission matches Admission::Refuse { status, message } ==> status == 503
                    && message@ == "too many active VAD sessions"@)
            },
        forall|gate: &mut ConnectionGate, left: ()| #[trigger]
            call_ensures(ConnectionGate::leave, (gate,), left) ==> (*final(gate)).active()
                == (*gate).active() - 1 && (*final(gate)).cap() == (*gate).cap(),
        forall|gate: &mut ConnectionGate|
            (*gate).active() > 0 ==> #[trigger] call_requires(ConnectionGate::leave, (gate,)),
        forall|gate: &mut ConnectionGate| #[trigger]
            call_requires(ConnectionGate::enter, (gate,)),
        forall|gate: &ConnectionGate, active: usize| #[trigger]
            call_ensures(ConnectionGate::active_connections, (gate,), active) ==> active
                == gate.active(),
{
}

/// The words for each error of a chunk or a connection.
pub proof fn lemma_error_words(error: &ServiceError, words: String)
    requires
        call_ensures(ServiceError::message, (error,), words),
    ensures
        call_requires(ServiceError::message, (error,)),
        match *error {
            ServiceError::ChunkSize { got, expected } => words@ == "invalid chunk size: got "@
                + decimal(got as nat) + " bytes, expected "@ + decimal(expected as nat)
                + " bytes"@,
            ServiceError::BenchmarkChunkSize { sample_rate, got, expected } => words@
                == "invalid chunk size for "@ + signed_decimal(sample_rate as int) + " Hz: got "@
                + decimal(got as nat) + " bytes, expected "@ + decimal(expected as nat)
                + " bytes"@,
            ServiceError::Runtime { message } => words@ == message@,
            ServiceError::StateNotContiguous => words@ == "state output buffer is not contiguous"@,
            ServiceError::Shape { message } => words@ == message@,
            ServiceError::Receive { message } => words@ == "websocket receive failed: "@ + message@,
            ServiceError::IdleTimeout { seconds } => words@ == "idle timeout after "@ + decimal(
                seconds as nat,
            ) + " seconds"@,
        },
{
    reveal_strlit("invalid chunk size");
    reveal_strlit(": got ");
    reveal_strlit("invalid chunk size: got ");
    reveal_strlit(" Hz");
    reveal_strlit(" Hz: got ");
    assert("invalid chunk size: got "@ =~= "invalid chunk size"@ + ": got "@);
    assert(" Hz: got "@ =~= " Hz"@ + ": got "@);
    match *error {
        ServiceError::ChunkSize { got, expected } => {
            assert(words@ =~= "invalid chunk size: got "@ + decimal(got as nat)
                + " bytes, expected "@ + decimal(expected as nat) + " bytes"@);
        },
        ServiceError::BenchmarkChunkSize { sample_rate, got, expected } => {
            assert(words@ =~= "invalid chunk size for "@ + signed_decimal(sample_rate as int)
                + " Hz: got "@ + decimal(got as nat) + " bytes, expected "@ + decimal(
                expected as nat,
            ) + " bytes"@);
        },
        _ => {},
    }
}

/// A failure of the model runtime keeps its words.
pub proof fn lemma_runtime_words(words: String, error: ServiceError)
    requires
        call_ensures(ort_err, (words,), error),
    ensures
        call_requires(ort_err, (words,)),
        error matches ServiceError::Runtime { message } && message == words,
{
}

/// The words for each refusal of a command line.
pub proof fn lemma_refusal_words(error: &ArgumentError, words: String)
    requires
        call_ensures(ArgumentError::message, (error,), words),
    ensures
        call_requires(ArgumentError::message, (error,)),
        match *error {
            ArgumentError::MissingValue { flag } => words@ == flag@ + " requires a value"@,
            ArgumentError::Integer { error: IntegerError::Empty } => words@
                == "cannot parse integer from empty string"@,
            ArgumentError::Integer { error: IntegerError::InvalidDigit } => words@
                == "invalid digit found in string"@,
            ArgumentError::Integer { error: IntegerError::TooLarge } => words@
                == "number too large to fit in target type"@,
            ArgumentError::Integer { error: IntegerError::TooSmall } => words@
                == "number too small to fit in target type"@,
            ArgumentError::Number { empty: true } => words@
                == "cannot parse float from empty string"@,
            ArgumentError::Number { empty: false } => words@ == "invalid float literal"@,
            ArgumentError::Unknown { text } => words@ == "unknown argument: "@ + text@,
            ArgumentError::Rule { words: rule } => words@ == rule@,
        },
        match *error {
            ArgumentError::MissingValue { flag } => error@ == (Refusal::MissingValue {
                flag: flag@,
            }),
            ArgumentError::Integer { error: kind } => error@ == (Refusal::Integer { error: kind }),
            ArgumentError::Number { empty } => error@ == (Refusal::Number { empty }),
            ArgumentError::Unknown { text } => error@ == (Refusal::Unknown { text: text@ }),
            ArgumentError::Rule { words: rule } => error@ == (Refusal::Rule { words: rule@ }),
        },
{
}

/// The address to listen on is host and port with a colon between.
pub proof fn lemma_address(config: &Config, address: String)
    requires
        call_ensures(Config::address, (config,), address),
    ensures
        call_requires(Config::address, (config,)),
        address@ == config.host@ + seq![':'] + decimal(config.port as nat),
{
    reveal_strlit(":");
    assert(":"@ =~= seq![':']);
}

} // verus!
