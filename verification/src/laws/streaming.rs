//! Streams: what a chunk does, and when speech starts and ends.
use crate::config::{Config, ConfigView};
use crate::detector::{
    advance_in_range, detect_in_range, event_at, is_end, is_start, latest_boundary,
    lemma_end_after_silence, lemma_end_position, lemma_progress_valid, lemma_reports_alternate,
    lemma_silence_time, lemma_start_position, millis, progress_after, quotient, reports,
    silence_run, step_in_range, Progress, Settings,
};
use crate::error::ServiceError;
use crate::event::VadEvent;
use crate::history::{accepted, chunk_calls, hears, lemma_stream_follows_detector};
use crate::laws::audio::{follows, lemma_window_follows};
use crate::laws::numbers::{finite32, lemma_threshold_range};
use crate::single::{at_least_spec, below_spec, scaled_value};
use crate::stream::{
    can_process, chunk_outcome, lengths_fit, reply_outcome, starts_as, state_axes, ModelReply, Room,
    VadStream,
};
use crate::tensor::{
    rate_items, row_items, row_shape, state_items, state_shape, InputRow, RateTensor, StateTensor,
};
use crate::threshold::{lemma_release_below_threshold, release};
use vstd::arithmetic::mul::{lemma_mul_is_distributive_add, lemma_mul_is_distributive_sub};
use vstd::arithmetic::power2::pow2;
use vstd::prelude::*;

verus! {

/// Whether a time in milliseconds is that of a position, rounded toward zero.
pub open spec fn is_time(time: int, position: int, sample_rate: int) -> bool {
    if position >= 0 {
        time * sample_rate <= position * 1000 < (time + 1) * sample_rate
    } else {
        (time - 1) * sample_rate < position * 1000 <= time * sample_rate
    }
}

/// A position in milliseconds is its time.
proof fn lemma_millis(position: int, sample_rate: int)
    requires
        sample_rate == 8000 || sample_rate == 16000,
    ensures
        is_time(millis(position, sample_rate), position, sample_rate),
{
}

/// Whether a configuration is one that a stream can be made from: a sample rate
/// of the model, a threshold from zero to one, and lengths that can be computed.
pub open spec fn usable(config: ConfigView) -> bool {
    &&& config.sample_rate == 8000 || config.sample_rate == 16000
    &&& finite32(config.threshold) && 0 <= scaled_value(config.threshold) <= pow2(149)
    &&& i64::MIN <= config.sample_rate * config.min_silence_ms <= i64::MAX
    &&& i64::MIN <= config.sample_rate * config.speech_pad_ms <= i64::MAX
}

/// Whether a stream is at its start with a configuration: lengths in samples are
/// those in milliseconds at the sample rate, nothing was heard, and window and
/// state are zero.
pub open spec fn at_start(stream: VadStream, config: ConfigView) -> bool {
    &&& stream.sample_rate == config.sample_rate
    &&& stream.block_size * 1000 == 32 * config.sample_rate
    &&& stream.context_size * 1000 == 4 * config.sample_rate
    &&& stream.threshold == config.threshold
    &&& stream.min_silence_samples * 1000 == config.sample_rate * config.min_silence_ms
    &&& stream.speech_pad_samples * 1000 == config.sample_rate * config.speech_pad_ms
    &&& stream.current_sample == 0
    &&& stream.temp_end == 0
    &&& !stream.triggered
    &&& row_shape(stream.input) == (1nat, (stream.context_size + stream.block_size) as nat)
    &&& row_items(stream.input).len() == stream.context_size + stream.block_size
    &&& forall|i: int|
        0 <= i < row_items(stream.input).len() ==> #[trigger] row_items(stream.input)[i] == 0
    &&& state_shape(stream.state) == seq![2usize, 1usize, 128usize]
    &&& state_items(stream.state).len() == 256
    &&& forall|i: int| 0 <= i < 256 ==> #[trigger] state_items(stream.state)[i] == 0
    &&& rate_items(stream.sr) == seq![config.sample_rate]
}

/// A stream that starts with a configuration is at its start.
pub proof fn lemma_start(stream: VadStream, config: ConfigView)
    requires
        starts_as(stream, config),
    ensures
        at_start(stream, config),
{
    lemma_length(config.sample_rate as int, config.min_silence_ms as int);
    lemma_length(config.sample_rate as int, config.speech_pad_ms as int);
    assert(seq![2usize, 1usize, 128usize] =~= state_axes());
}

/// A length in milliseconds is a whole number of samples at either sample rate.
proof fn lemma_length(sample_rate: int, ms: int)
    requires
        sample_rate == 8000 || sample_rate == 16000,
    ensures
        quotient(sample_rate * ms, 1000) * 1000 == sample_rate * ms,
{
    if sample_rate == 8000 {
        assert(sample_rate * ms == 8000 * ms);
    } else {
        assert(sample_rate * ms == 16000 * ms);
    }
}

/// What `VadStream::new` makes.
pub proof fn lemma_stream_made(config: &Config, stream: VadStream)
    requires
        usable(config@),
        call_ensures(VadStream::new, (config,), stream),
    ensures
        call_requires(VadStream::new, (config,)),
        starts_as(stream, config@),
        at_start(stream, config@),
{
    lemma_threshold_range(config.threshold);
    lemma_start(stream, config@);
}

/// What `lengths_fit` answers.
pub proof fn lemma_lengths_fit(config: &Config, fits: bool)
    requires
        call_ensures(lengths_fit, (config,), fits),
    ensures
        fits <==> i64::MIN <= config.sample_rate * config.min_silence_ms <= i64::MAX && i64::MIN
            <= config.sample_rate * config.speech_pad_ms <= i64::MAX,
        call_requires(lengths_fit, (config,)),
{
}

/// Since when the stream is quiet, if the chunk that ends at the current sample
/// is.
pub open spec fn quiet_from(stream: VadStream) -> int {
    if stream.temp_end == 0 {
        stream.current_sample as int
    } else {
        stream.temp_end as int
    }
}

/// What judging a chunk tells. Speech starts exactly if it is off and the
/// probability reaches the threshold, at the start of the chunk less the padding.
/// It ends exactly if it is on, the probability is below the release threshold
/// and the stream has been quiet for the minimum silence, at the start of the
/// first quiet chunk and the padding.
pub open spec fn judged(
    before: VadStream,
    probability: u32,
    after: VadStream,
    event: Option<VadEvent>,
) -> bool {
    &&& is_start(event) <==> !before.triggered && at_least_spec(probability, before.threshold)
    &&& is_end(event) <==> before.triggered && below_spec(probability, release(before.threshold))
        && before.current_sample - quiet_from(before) >= before.min_silence_samples
    &&& event is Some ==> is_start(event) || is_end(event)
    &&& (event matches Some(VadEvent::SpeechStart { audio_time_ms, probability: told }) ==> told
        == probability && is_time(
        audio_time_ms as int,
        if before.current_sample - before.speech_pad_samples - before.block_size < 0 {
            0
        } else {
            before.current_sample - before.speech_pad_samples - before.block_size
        },
        before.sample_rate as int,
    ))
    &&& (event matches Some(VadEvent::SpeechEnd { audio_time_ms, probability: told }) ==> told
        == probability && is_time(
        audio_time_ms as int,
        quiet_from(before) + before.speech_pad_samples - before.block_size,
        before.sample_rate as int,
    ))
    &&& after.triggered <==> is_start(event) || (before.triggered && !is_end(event))
    &&& at_least_spec(probability, before.threshold) || is_end(event) ==> after.temp_end == 0
    &&& before.triggered && below_spec(probability, release(before.threshold)) && !is_end(event)
        ==> after.temp_end == quiet_from(before)
    &&& !before.triggered && !is_start(event) ==> after.temp_end == before.temp_end
    &&& before.triggered && !at_least_spec(probability, before.threshold) && !below_spec(
        probability,
        release(before.threshold),
    ) ==> after.temp_end == before.temp_end
    &&& after.current_sample == before.current_sample
    &&& after.settings() == before.settings()
    &&& after.input == before.input && after.state == before.state && after.sr == before.sr
}

/// What `VadStream::vad_event` tells.
pub proof fn lemma_judged()
    ensures
        forall|stream: &mut VadStream, probability: u32, event: Option<VadEvent>|
            (*stream).valid() && detect_in_range(
                (*stream).settings(),
                (*stream).progress(),
                probability,
            ) && #[trigger] call_ensures(VadStream::vad_event, (stream, probability), event)
                ==> judged(*stream, probability, *final(stream), event),
        forall|stream: &mut VadStream, probability: u32|
            (*stream).valid() && detect_in_range(
                (*stream).settings(),
                (*stream).progress(),
                probability,
            ) ==> #[trigger] call_requires(VadStream::vad_event, (stream, probability)),
{
    assert forall|stream: &mut VadStream, probability: u32, event: Option<VadEvent>|
        (*stream).valid() && detect_in_range(
            (*stream).settings(),
            (*stream).progress(),
            probability,
        ) && #[trigger] call_ensures(
            VadStream::vad_event,
            (stream, probability),
            event,
        ) implies judged(*stream, probability, *final(stream), event) by {
        let before = *stream;
        let s = before.settings();
        lemma_release_below_threshold(before.threshold);
        lemma_in_range_time(s.start_sample(before.current_sample as int), s.sample_rate);
        lemma_in_range_time(s.end_sample(quiet_from(before)), s.sample_rate);
    }
}

/// A position in range has a time in range.
proof fn lemma_in_range_time(position: int, sample_rate: int)
    requires
        sample_rate == 8000 || sample_rate == 16000,
    ensures
        is_time(millis(position, sample_rate), position, sample_rate),
        i64::MIN <= position * 1000 <= i64::MAX ==> i64::MIN <= millis(position, sample_rate)
            <= i64::MAX,
{
}

/// The positions that judging a chunk needs are in range where the numbers
/// computed for it are, and for nothing else are they held to it.
pub proof fn lemma_judging_in_range(s: Settings, at: Progress, probability: u32)
    requires
        s.valid(),
        at.valid(),
        at.current <= i64::MAX,
    ensures
        ({
            let quiet = if at.temp_end == 0 {
                at.current
            } else {
                at.temp_end
            };
            detect_in_range(s, at, probability) <==> {
                &&& !at.triggered && at_least_spec(probability, s.threshold) ==> {
                    &&& i64::MIN <= at.current - s.pad <= i64::MAX
                    &&& i64::MIN <= at.current - s.pad - s.block
                    &&& (at.current - s.pad - s.block) * 1000 <= i64::MAX
                }
                &&& at.triggered && below_spec(probability, release(s.threshold)) && at.current
                    - quiet >= s.min_silence ==> {
                    &&& quiet + s.pad <= i64::MAX
                    &&& i64::MIN <= (quiet + s.pad - s.block) * 1000 <= i64::MAX
                }
            }
        }),
{
    lemma_release_below_threshold(s.threshold);
}

/// A chunk can be processed by a model that can be called on anything, where
/// whatever it can reply needs positions in range.
pub proof fn lemma_can_process<F>(infer: F, before: VadStream, payload: Seq<u8>) where
    F: FnOnce(&InputRow, &StateTensor, &RateTensor) -> Result<ModelReply, String>,

    requires
        forall|samples: InputRow, state: StateTensor, sr: RateTensor| #[trigger]
            infer.requires((&samples, &state, &sr)),
        forall|
            samples: InputRow,
            state: StateTensor,
            sr: RateTensor,
            reply: Result<ModelReply, String>,
        | #[trigger]
            infer.ensures((&samples, &state, &sr), reply) ==> (reply matches Ok(
                ModelReply { output, state: Some(next) },
            ) ==> next@.len() == 256 ==> advance_in_range(
                before.settings(),
                before.progress(),
                if output@.len() > 0 {
                    output@[0]
                } else {
                    0
                },
            )),
    ensures
        can_process(infer, before, payload),
{
}

/// The positions that a chunk needs are in range where the numbers computed for
/// it are, and for nothing else are they held to it.
pub proof fn lemma_positions_in_range(s: Settings, at: Progress, probability: u32)
    requires
        s.valid(),
        at.valid(),
    ensures
        ({
            let next = at.current + s.block;
            let quiet = if at.temp_end == 0 {
                next
            } else {
                at.temp_end
            };
            advance_in_range(s, at, probability) <==> {
                &&& next <= i64::MAX
                &&& !at.triggered && !at_least_spec(probability, s.threshold) ==> next * 1000
                    <= i64::MAX
                &&& !at.triggered && at_least_spec(probability, s.threshold) ==> {
                    &&& i64::MIN <= next - s.pad <= i64::MAX
                    &&& i64::MIN <= at.current - s.pad
                    &&& (at.current - s.pad) * 1000 <= i64::MAX
                }
                &&& at.triggered && below_spec(probability, release(s.threshold)) && next - quiet
                    >= s.min_silence ==> {
                    &&& quiet + s.pad <= i64::MAX
                    &&& i64::MIN <= (quiet + s.pad - s.block) * 1000 <= i64::MAX
                }
            }
        }),
{
    lemma_release_below_threshold(s.threshold);
}

/// What `Room::fits` answers of what `VadStream::room` gives.
pub proof fn lemma_room_tells(
    stream: &VadStream,
    room: Room,
    reply: &Result<ModelReply, String>,
    fits: bool,
)
    requires
        stream.valid(),
        call_ensures(VadStream::room, (stream,), room),
        call_ensures(Room::fits, (&room, reply), fits),
    ensures
        call_requires(VadStream::room, (stream,)),
        call_requires(Room::fits, (&room, reply)),
        fits <==> (*reply matches Ok(ModelReply { output, state: Some(state) }) ==> state@.len()
            == 256 ==> advance_in_range(
            stream.settings(),
            stream.progress(),
            if output@.len() > 0 {
                output@[0]
            } else {
                0
            },
        )),
{
}

/// Whether a stream took up a reply: one that failed, that has no state or a
/// state of the wrong size is an error that changes nothing; else the state of
/// the reply and the window are kept and the stream is one chunk further.
pub open spec fn taken_up(
    before: VadStream,
    samples: Seq<u32>,
    reply: Result<ModelReply, String>,
    after: VadStream,
    result: Result<Option<VadEvent>, ServiceError>,
) -> bool {
    match reply {
        Err(words) => after == before && (result matches Err(ServiceError::Runtime { message })
            && message == words),
        Ok(ModelReply { state: None, .. }) => after == before && (result matches Err(
            ServiceError::StateNotContiguous,
        )),
        Ok(ModelReply { state: Some(state), .. }) => {
            &&& state@.len() < 256 ==> after == before && (result matches Err(
                ServiceError::Shape { message },
            ) && message@ == "ShapeError/OutOfBounds: out of bounds indexing"@)
            &&& state@.len() > 256 ==> after == before && (result matches Err(
                ServiceError::Shape { message },
            ) && message@ == "ShapeError/IncompatibleShape: incompatible shapes"@)
            &&& state@.len() == 256 ==> {
                &&& result is Ok
                &&& state_items(after.state) == state@
                &&& row_items(after.input) == samples
                &&& after.current_sample == before.current_sample + before.block_size
                &&& after.settings() == before.settings()
                &&& after.context_size == before.context_size
                &&& rate_items(after.sr) == rate_items(before.sr)
            }
        },
    }
}

/// What handling a payload does: one that is not a chunk of two bytes a sample is
/// refused, with both sizes, and changes nothing; else the model is handed the
/// window that follows with the payload, the state and the sample rate, and its
/// reply is taken up.
pub open spec fn handled<F>(
    infer: F,
    before: VadStream,
    payload: Seq<u8>,
    after: VadStream,
    result: Result<Option<VadEvent>, ServiceError>,
) -> bool where F: FnOnce(&InputRow, &StateTensor, &RateTensor) -> Result<ModelReply, String> {
    &&& after.valid()
    &&& rate_items(before.sr) == seq![before.sample_rate]
    &&& payload.len() != 2 * before.block_size ==> after == before && (result matches Err(
        ServiceError::ChunkSize { got, expected },
    ) && got == payload.len() && expected == 2 * before.block_size)
    &&& payload.len() == 2 * before.block_size ==> exists|
        samples: InputRow,
        reply: Result<ModelReply, String>,
    |
        {
            &&& #[trigger] infer.ensures((&samples, &before.state, &before.sr), reply)
            &&& row_shape(samples) == (1nat, (before.context_size + before.block_size) as nat)
            &&& follows(
                row_items(before.input),
                before.block_size as int,
                before.context_size as int,
                payload,
                row_items(samples),
            )
            &&& taken_up(before, row_items(samples), reply, after, result)
        }
}

/// The outcome of a chunk is that of handling its payload.
pub proof fn lemma_outcome_handled<F>(
    infer: F,
    before: VadStream,
    payload: Seq<u8>,
    after: VadStream,
    result: Result<Option<VadEvent>, ServiceError>,
) where F: FnOnce(&InputRow, &StateTensor, &RateTensor) -> Result<ModelReply, String>
    requires
        before.valid(),
        after.valid(),
        payload.len() <= usize::MAX,
        chunk_outcome(infer, before, payload, after, result),
    ensures
        handled(infer, before, payload, after, result),
{
    if payload.len() == 2 * before.block_size {
        lemma_window_follows(
            row_items(before.input),
            before.block_size as int,
            before.context_size as int,
            payload,
        );
        let (samples, reply) = choose|samples: InputRow, reply: Result<ModelReply, String>|
            {
                &&& before.is_input_for(samples, payload)
                &&& #[trigger] infer.ensures((&samples, &before.state, &before.sr), reply)
                &&& reply_outcome(before, before.window_for(payload), reply, after, result)
            };
        assert(infer.ensures((&samples, &before.state, &before.sr), reply));
        assert(taken_up(before, row_items(samples), reply, after, result));
    }
}

/// What `VadStream::handle_pcm_chunk` does. It can be called on any payload, and
/// asks of the model only what a whole chunk needs.
pub proof fn lemma_handled<F>(infer: F) where
    F: FnOnce(&InputRow, &StateTensor, &RateTensor) -> Result<ModelReply, String>,

    ensures
        forall|
            stream: &mut VadStream,
            bytes: &[u8],
            result: Result<Option<VadEvent>, ServiceError>,
        |
            (*stream).valid() && #[trigger] call_ensures(
                VadStream::handle_pcm_chunk::<F>,
                (stream, infer, bytes),
                result,
            ) ==> {
                &&& chunk_outcome(infer, *stream, bytes@, *final(stream), result)
                &&& handled(infer, *stream, bytes@, *final(stream), result)
            },
        forall|stream: &mut VadStream, bytes: &[u8]|
            (*stream).valid() && (bytes@.len() != 2 * (*stream).block_size || can_process(
                infer,
                *stream,
                bytes@,
            )) ==> #[trigger] call_requires(
                VadStream::handle_pcm_chunk::<F>,
                (stream, infer, bytes),
            ),
{
    assert forall|
        stream: &mut VadStream,
        bytes: &[u8],
        result: Result<Option<VadEvent>, ServiceError>,
    |
        (*stream).valid() && #[trigger] call_ensures(
            VadStream::handle_pcm_chunk::<F>,
            (stream, infer, bytes),
            result,
        ) implies {
        &&& chunk_outcome(infer, *stream, bytes@, *final(stream), result)
        &&& handled(infer, *stream, bytes@, *final(stream), result)
    } by {
        assert(bytes@.len() == bytes.len());
        lemma_outcome_handled(infer, *stream, bytes@, *final(stream), result);
    }
}

/// What `VadStream::apply_reply` does with the model's reply to a window.
pub proof fn lemma_reply_applied()
    ensures
        forall|
            stream: &mut VadStream,
            samples: InputRow,
            reply: Result<ModelReply, String>,
            result: Result<Option<VadEvent>, ServiceError>,
        |
            (*stream).valid() && #[trigger] call_ensures(
                VadStream::apply_reply,
                (stream, samples, reply),
                result,
            ) ==> taken_up(*stream, row_items(samples), reply, *final(stream), result),
        forall|stream: &mut VadStream, samples: InputRow, reply: Result<ModelReply, String>|
            (*stream).valid() && row_shape(samples) == row_shape((*stream).input) && row_items(
                samples,
            ).len() == row_items((*stream).input).len() && (reply matches Ok(
                ModelReply { output, state: Some(state) },
            ) ==> state@.len() == 256 ==> advance_in_range(
                (*stream).settings(),
                (*stream).progress(),
                if output@.len() > 0 {
                    output@[0]
                } else {
                    0
                },
            )) ==> #[trigger] call_requires(VadStream::apply_reply, (stream, samples, reply)),
{
}

/// What a chunk that is accepted with a probability tells: silence, where speech
/// is off and stays off, at the end of the chunk; a start or an end of speech;
/// and else nothing.
pub open spec fn reported(
    before: VadStream,
    probability: u32,
    after: VadStream,
    event: Option<VadEvent>,
) -> bool {
    let next = before.current_sample + before.block_size;
    let quiet = if before.temp_end == 0 {
        next
    } else {
        before.temp_end as int
    };
    let speech = at_least_spec(probability, before.threshold);
    let ends = before.triggered && below_spec(probability, release(before.threshold)) && next
        - quiet >= before.min_silence_samples;
    &&& after.current_sample == next
    &&& after.triggered <==> speech || (before.triggered && !ends)
    &&& match event {
        Some(VadEvent::SpeechStart { audio_time_ms, probability: told }) => {
            &&& !before.triggered && speech
            &&& told == probability
            &&& is_time(
                audio_time_ms as int,
                if before.current_sample - before.speech_pad_samples < 0 {
                    0
                } else {
                    before.current_sample - before.speech_pad_samples
                },
                before.sample_rate as int,
            )
        },
        Some(VadEvent::SpeechEnd { audio_time_ms, probability: told }) => {
            &&& ends
            &&& told == probability
            &&& is_time(
                audio_time_ms as int,
                quiet + before.speech_pad_samples - before.block_size,
                before.sample_rate as int,
            )
        },
        Some(VadEvent::Silence { audio_time_ms, probability: told }) => {
            &&& !before.triggered && !speech
            &&& told == probability
            &&& is_time(audio_time_ms as int, next, before.sample_rate as int)
        },
        Some(_) => false,
        None => before.triggered && !ends,
    }
}

/// What taking up a reply with a whole state tells.
pub proof fn lemma_reply_told(
    before: VadStream,
    samples: Seq<u32>,
    output: Vec<u32>,
    state: Vec<u32>,
    after: VadStream,
    event: Option<VadEvent>,
)
    requires
        before.valid(),
        state@.len() == 256,
        reply_outcome(
            before,
            samples,
            Ok(ModelReply { output, state: Some(state) }),
            after,
            Ok(event),
        ),
        advance_in_range(
            before.settings(),
            before.progress(),
            if output@.len() > 0 {
                output@[0]
            } else {
                0
            },
        ),
    ensures
        reported(
            before,
            if output@.len() > 0 {
                output@[0]
            } else {
                0
            },
            after,
            event,
        ),
{
    let s = before.settings();
    let next = before.current_sample + before.block_size;
    let quiet = if before.temp_end == 0 {
        next
    } else {
        before.temp_end as int
    };
    lemma_release_below_threshold(before.threshold);
    lemma_in_range_time(s.start_sample(next), s.sample_rate);
    lemma_in_range_time(s.end_sample(quiet), s.sample_rate);
    lemma_in_range_time(next, s.sample_rate);
}

/// Whether a probability reaches the threshold.
pub open spec fn loud(config: ConfigView, probability: u32) -> bool {
    at_least_spec(probability, config.threshold)
}

/// Whether a probability is below the release threshold.
pub open spec fn low(config: ConfigView, probability: u32) -> bool {
    below_spec(probability, release(config.threshold))
}

/// Whether chunk `k` is the first low one since the last loud one before chunk
/// `m`, and chunk `m` is low too.
pub open spec fn low_since(config: ConfigView, heard: Seq<u32>, k: int, m: int) -> bool {
    &&& 0 <= k <= m < heard.len()
    &&& low(config, heard[k]) && low(config, heard[m])
    &&& forall|i: int| k <= i <= m ==> !loud(config, #[trigger] heard[i])
    &&& exists|j: int|
        {
            &&& 0 <= j < k
            &&& loud(config, #[trigger] heard[j])
            &&& forall|i: int|
                j < i < k ==> !loud(config, #[trigger] heard[i]) && !low(config, heard[i])
        }
}

/// What is told of chunk `m`, in milliseconds. Outside speech a loud chunk
/// starts it, at the start of the chunk less the padding but not before zero, and
/// any other chunk is silence, at its end. Inside speech a chunk ends it exactly
/// if the first low chunk since the last loud one is at least the minimum
/// silence ago and this one is low too, at the start of that chunk and the
/// padding.
pub open spec fn told_in_ms(
    config: ConfigView,
    heard: Seq<u32>,
    events: Seq<Option<VadEvent>>,
    m: int,
) -> bool {
    let inside = is_start(latest_boundary(events, m));
    match events[m] {
        Some(VadEvent::SpeechStart { audio_time_ms, probability }) => {
            &&& !inside && loud(config, heard[m])
            &&& probability == heard[m]
            &&& audio_time_ms == if 32 * m - config.speech_pad_ms < 0 {
                0
            } else {
                32 * m - config.speech_pad_ms
            }
        },
        Some(VadEvent::Silence { audio_time_ms, probability }) => {
            &&& !inside && !loud(config, heard[m])
            &&& probability == heard[m]
            &&& audio_time_ms == 32 * (m + 1)
        },
        Some(VadEvent::SpeechEnd { audio_time_ms, probability }) => {
            &&& inside
            &&& probability == heard[m]
            &&& exists|k: int| #[trigger]
                low_since(config, heard, k, m) && 32 * (m - k) >= config.min_silence_ms
                    && audio_time_ms == 32 * k + config.speech_pad_ms
        },
        Some(_) => false,
        None => {
            &&& inside
            &&& forall|k: int| #[trigger]
                low_since(config, heard, k, m) ==> 32 * (m - k) < config.min_silence_ms
        },
    }
}

/// A stream tells of the chunks that it accepts what the probabilities that the
/// model puts out for them make, in milliseconds and by its configuration.
pub proof fn lemma_stream_in_ms<F>(
    config: ConfigView,
    infers: Seq<F>,
    payloads: Seq<Seq<u8>>,
    streams: Seq<VadStream>,
    results: Seq<Result<Option<VadEvent>, ServiceError>>,
) -> (heard: Seq<u32>) where
    F: FnOnce(&InputRow, &StateTensor, &RateTensor) -> Result<ModelReply, String>,

    requires
        chunk_calls(infers, payloads, streams, results),
        starts_as(streams[0], config),
    ensures
        heard.len() == accepted(results).len(),
        forall|i: int|
            0 <= i < results.len() && #[trigger] results[i] is Ok ==> accepted(
                results.take(i),
            ).len() < heard.len() && hears(
                infers[i],
                streams[i],
                payloads[i],
                heard[accepted(results.take(i)).len() as int],
            ),
        forall|m: int|
            0 <= m < heard.len() ==> #[trigger] told_in_ms(config, heard, accepted(results), m),
        streams.last().current_sample * 1000 == 32 * heard.len() * config.sample_rate,
        streams.last().triggered <==> is_start(
            latest_boundary(accepted(results), heard.len() as int),
        ),
{
    let all = results.len() as int;
    let heard = lemma_stream_follows_detector(config, infers, payloads, streams, results, all);
    assert(results.take(all) =~= results);
    let s = streams[0].settings();
    lemma_start(streams[0], config);
    lemma_all_told(config, s, heard, accepted(results));
    assert(streams.last() == streams[all]);
    heard
}

/// What the detector tells of a row of chunks, in milliseconds.
proof fn lemma_all_told(
    config: ConfigView,
    s: Settings,
    heard: Seq<u32>,
    events: Seq<Option<VadEvent>>,
)
    requires
        s.valid(),
        s.sample_rate == config.sample_rate,
        s.threshold == config.threshold,
        s.min_silence * 1000 == config.sample_rate * config.min_silence_ms,
        s.pad * 1000 == config.sample_rate * config.speech_pad_ms,
        reports(s, heard, events),
        forall|i: int| 0 <= i < heard.len() ==> #[trigger] step_in_range(s, heard, i),
    ensures
        forall|m: int| 0 <= m < heard.len() ==> #[trigger] told_in_ms(config, heard, events, m),
        progress_after(s, heard).current * 1000 == 32 * heard.len() * config.sample_rate,
        progress_after(s, heard).triggered == is_start(
            latest_boundary(events, heard.len() as int),
        ),
{
    assert forall|m: int| 0 <= m < heard.len() implies #[trigger] told_in_ms(
        config,
        heard,
        events,
        m,
    ) by {
        assert(step_in_range(s, heard, m));
        assert(events[m] == event_at(s, heard, m));
        lemma_reports_alternate(s, heard, events, m);
        lemma_told(config, s, heard, events, m);
    }
    lemma_progress_valid(s, heard);
    lemma_reports_alternate(s, heard, events, heard.len() as int);
    assert(heard.take(heard.len() as int) =~= heard);
    let (n, block, rate) = (heard.len() as int, s.block, config.sample_rate as int);
    assert((n * block) * 1000 == 32 * n * rate) by (nonlinear_arith)
        requires
            block * 1000 == 32 * rate,
    ;
}

/// What the detector tells of a chunk, in milliseconds.
proof fn lemma_told(
    config: ConfigView,
    s: Settings,
    heard: Seq<u32>,
    events: Seq<Option<VadEvent>>,
    m: int,
)
    requires
        s.valid(),
        s.sample_rate == config.sample_rate,
        s.threshold == config.threshold,
        s.min_silence * 1000 == config.sample_rate * config.min_silence_ms,
        s.pad * 1000 == config.sample_rate * config.speech_pad_ms,
        0 <= m < heard.len(),
        events.len() == heard.len(),
        events[m] == event_at(s, heard, m),
        step_in_range(s, heard, m),
        progress_after(s, heard.take(m)).triggered == is_start(latest_boundary(events, m)),
    ensures
        told_in_ms(config, heard, events, m),
{
    let (block, rate) = (s.block, s.sample_rate);
    lemma_progress_valid(s, heard.take(m));
    lemma_release_below_threshold(s.threshold);
    match events[m] {
        Some(VadEvent::SpeechStart { audio_time_ms, .. }) => {
            let position = lemma_start_position(s, heard, m);
            lemma_chunks_last(m, block, rate);
            lemma_mul_is_distributive_sub(rate, 32 * m, config.speech_pad_ms as int);
            if position == 0 {
                lemma_exact_time(0, 0, rate);
            } else {
                lemma_exact_time(position, 32 * m - config.speech_pad_ms, rate);
            }
            lemma_sign_of_time(m * block - s.pad, 32 * m - config.speech_pad_ms, rate);
        },
        Some(VadEvent::Silence { .. }) => {
            assert(32 * (m + 1) <= m * block + block) by (nonlinear_arith)
                requires
                    0 <= m,
                    block >= 32,
            ;
            lemma_silence_time(s, heard, m);
        },
        Some(VadEvent::SpeechEnd { audio_time_ms, .. }) => {
            let (j, k) = lemma_end_position(s, heard, m);
            lemma_run_is_low(config, s, heard, j, k, m);
            lemma_chunks_last(k, block, rate);
            lemma_mul_is_distributive_add(rate, 32 * k, config.speech_pad_ms as int);
            lemma_mul_is_distributive_sub(rate, 32 * (m - k), config.min_silence_ms as int);
            lemma_exact_time(k * block + s.pad, 32 * k + config.speech_pad_ms, rate);
            lemma_chunks_last(m - k, block, rate);
            lemma_sign_of_time(
                (m - k) * block - s.min_silence,
                32 * (m - k) - config.min_silence_ms,
                rate,
            );
        },
        Some(_) => {},
        None => {
            assert forall|k: int| #[trigger] low_since(config, heard, k, m) implies 32 * (m - k)
                < config.min_silence_ms by {
                lemma_end_after_silence(s, heard, m);
                let j = choose|j: int|
                    {
                        &&& 0 <= j < k
                        &&& loud(config, #[trigger] heard[j])
                        &&& forall|i: int|
                            j < i < k ==> !loud(config, #[trigger] heard[i]) && !low(
                                config,
                                heard[i],
                            )
                    };
                if 32 * (m - k) >= config.min_silence_ms {
                    lemma_chunks_last(m - k, block, rate);
                    lemma_mul_is_distributive_sub(rate, 32 * (m - k), config.min_silence_ms as int);
                    lemma_sign_of_time(
                        (m - k) * block - s.min_silence,
                        32 * (m - k) - config.min_silence_ms,
                        rate,
                    );
                    assert forall|i: int| j < i < m + 1 implies !s.is_speech(
                        #[trigger] heard[i],
                    ) by {
                        assert(!loud(config, heard[i]));
                    }
                    assert forall|i: int| j < i < k implies !s.is_quiet(#[trigger] heard[i]) by {
                        assert(!low(config, heard[i]));
                    }
                    assert(silence_run(s, heard, j, k, m));
                }
            }
        },
    }
}

/// A number of chunks last thirty-two milliseconds each.
proof fn lemma_chunks_last(n: int, block: int, rate: int)
    requires
        block * 1000 == 32 * rate,
    ensures
        (n * block) * 1000 == rate * (32 * n),
{
    assert((n * block) * 1000 == rate * (32 * n)) by (nonlinear_arith)
        requires
            block * 1000 == 32 * rate,
    ;
}

/// A position that is a whole number of milliseconds is that time.
proof fn lemma_exact_time(position: int, time: int, rate: int)
    requires
        rate == 8000 || rate == 16000,
        position * 1000 == rate * time,
    ensures
        millis(position, rate) == time,
{
    if rate == 8000 {
        assert(rate * time == 8000 * time);
    } else {
        assert(rate * time == 16000 * time);
    }
}

/// A position has the sign of its time.
proof fn lemma_sign_of_time(position: int, time: int, rate: int)
    requires
        rate > 0,
        position * 1000 == rate * time,
    ensures
        position >= 0 <==> time >= 0,
        position > 0 <==> time > 0,
{
    assert(rate * time >= 0 <==> time >= 0) by (nonlinear_arith)
        requires
            rate > 0,
    ;
    assert(rate * time > 0 <==> time > 0) by (nonlinear_arith)
        requires
            rate > 0,
    ;
}

/// A run of silence is low since its first chunk.
proof fn lemma_run_is_low(
    config: ConfigView,
    s: Settings,
    heard: Seq<u32>,
    j: int,
    k: int,
    m: int,
)
    requires
        s.threshold == config.threshold,
        silence_run(s, heard, j, k, m),
    ensures
        low_since(config, heard, k, m),
{
    assert forall|i: int| k <= i <= m implies !loud(config, #[trigger] heard[i]) by {
        assert(!s.is_speech(heard[i]));
    }
    if k == m {
        assert(low(config, heard[k]));
    }
    assert(loud(config, heard[j]));
    assert forall|i: int| j < i < k implies !loud(config, #[trigger] heard[i]) && !low(
        config,
        heard[i],
    ) by {
        assert(!s.is_speech(heard[i]) && !s.is_quiet(heard[i]));
    }
}

} // verus!
