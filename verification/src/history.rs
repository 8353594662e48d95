//! What holds over the calls of one stream.
use crate::config::ConfigView;
use crate::detector::{
    advance, advance_in_range, event_at, is_end, is_start, latest_boundary, lemma_end_after_start,
    lemma_progress_valid, lemma_reports_alternate, lemma_silence_time, lemma_start_after_end,
    progress_after, reports, step_in_range, Settings,
};
use crate::error::ServiceError;
use crate::event::VadEvent;
use crate::pcm::model_samples;
use crate::single::ZERO_BITS;
use crate::stream::{
    can_process, chunk_outcome, probability_of, reply_in_range, reply_outcome, starts_as,
    ModelReply, VadStream,
};
use crate::tensor::{row_items, InputRow, RateTensor, StateTensor};
use vstd::prelude::*;

verus! {

/// Whether this is a call of `VadStream::handle_pcm_chunk`, as its contract has
/// it: what it was given, and what it left and returned.
pub open spec fn chunk_call<F>(
    infer: F,
    before: VadStream,
    payload: Seq<u8>,
    after: VadStream,
    result: Result<Option<VadEvent>, ServiceError>,
) -> bool where F: FnOnce(&InputRow, &StateTensor, &RateTensor) -> Result<ModelReply, String> {
    &&& before.valid()
    &&& can_process(infer, before, payload)
    &&& after.valid()
    &&& chunk_outcome(infer, before, payload, after, result)
}

/// Whether a stream went through these states over these calls.
pub open spec fn chunk_calls<F>(
    infers: Seq<F>,
    payloads: Seq<Seq<u8>>,
    streams: Seq<VadStream>,
    results: Seq<Result<Option<VadEvent>, ServiceError>>,
) -> bool where F: FnOnce(&InputRow, &StateTensor, &RateTensor) -> Result<ModelReply, String> {
    &&& infers.len() == payloads.len() == results.len()
    &&& streams.len() == results.len() + 1
    &&& forall|i: int|
        0 <= i < results.len() ==> chunk_call(
            infers[i],
            streams[i],
            payloads[i],
            streams[i + 1],
            #[trigger] results[i],
        )
}

/// What the chunks that were accepted are reported with, in order. Those that
/// failed are left out.
pub open spec fn accepted(results: Seq<Result<Option<VadEvent>, ServiceError>>) -> Seq<
    Option<VadEvent>,
>
    decreases results.len(),
{
    if results.len() == 0 {
        Seq::empty()
    } else {
        match results.last() {
            Ok(event) => accepted(results.drop_last()).push(event),
            Err(_) => accepted(results.drop_last()),
        }
    }
}

/// The last call before call `n` that was accepted, or -1.
pub open spec fn last_accepted(
    results: Seq<Result<Option<VadEvent>, ServiceError>>,
    n: int,
) -> int
    decreases n,
{
    if n <= 0 {
        -1
    } else if results[n - 1] is Ok {
        n - 1
    } else {
        last_accepted(results, n - 1)
    }
}

/// Whether a probability is the first element of what the model can put out for
/// a payload, or zero where that is empty.
pub open spec fn hears<F>(infer: F, before: VadStream, payload: Seq<u8>, probability: u32) -> bool where
    F: FnOnce(&InputRow, &StateTensor, &RateTensor) -> Result<ModelReply, String>,
 {
    exists|samples: InputRow, reply: Result<ModelReply, String>|
        {
            &&& #[trigger] infer.ensures((&samples, &before.state, &before.sr), reply)
            &&& before.is_input_for(samples, payload)
            &&& reply matches Ok(ModelReply { output, .. }) && probability == if output@.len() > 0 {
                output@[0]
            } else {
                0
            }
        }
}

/// A stream reports for the chunks that it accepts what the detector says of
/// the probabilities that the model puts out for them, and every position on
/// the way is in range, so what holds of the detector holds of every stream.
pub proof fn lemma_stream_follows_detector<F>(
    config: ConfigView,
    infers: Seq<F>,
    payloads: Seq<Seq<u8>>,
    streams: Seq<VadStream>,
    results: Seq<Result<Option<VadEvent>, ServiceError>>,
    n: int,
) -> (heard: Seq<u32>) where
    F: FnOnce(&InputRow, &StateTensor, &RateTensor) -> Result<ModelReply, String>,

    requires
        chunk_calls(infers, payloads, streams, results),
        starts_as(streams[0], config),
        0 <= n <= results.len(),
    ensures
        streams[n].settings() == streams[0].settings(),
        streams[n].progress() == progress_after(streams[0].settings(), heard),
        reports(streams[0].settings(), heard, accepted(results.take(n))),
        forall|i: int| 0 <= i < heard.len() ==> #[trigger] step_in_range(
            streams[0].settings(),
            heard,
            i,
        ),
        forall|i: int|
            0 <= i < n && #[trigger] results[i] is Ok ==> accepted(results.take(i)).len()
                < heard.len() && hears(
                infers[i],
                streams[i],
                payloads[i],
                heard[accepted(results.take(i)).len() as int],
            ),
    decreases n,
{
    let s = streams[0].settings();
    if n == 0 {
        assert(results.take(0) =~= Seq::<Result<Option<VadEvent>, ServiceError>>::empty());
        Seq::empty()
    } else {
        let shorter = lemma_stream_follows_detector(
            config,
            infers,
            payloads,
            streams,
            results,
            n - 1,
        );
        let before = streams[n - 1];
        let (infer, payload) = (infers[n - 1], payloads[n - 1]);
        assert(chunk_call(infer, before, payload, streams[n], results[n - 1]));
        assert(results.take(n).drop_last() =~= results.take(n - 1));
        assert(results.take(n).last() == results[n - 1]);
        match results[n - 1] {
            Ok(event) => {
                let (samples, reply) = choose|
                    samples: InputRow,
                    reply: Result<ModelReply, String>,
                |
                    {
                        &&& before.is_input_for(samples, payload)
                        &&& #[trigger] infer.ensures((&samples, &before.state, &before.sr), reply)
                        &&& reply_outcome(
                            before,
                            before.window_for(payload),
                            reply,
                            streams[n],
                            results[n - 1],
                        )
                    };
                assert(reply_in_range(before.settings(), before.progress(), reply));
                let p = probability_of(reply->Ok_0.output@);
                let heard = shorter.push(p);
                lemma_extend_reports(s, shorter, p, accepted(results.take(n - 1)), event);
                assert(hears(infer, before, payload, p));
                assert forall|i: int| 0 <= i < n && #[trigger] results[i] is Ok implies accepted(
                    results.take(i),
                ).len() < heard.len() && hears(
                    infers[i],
                    streams[i],
                    payloads[i],
                    heard[accepted(results.take(i)).len() as int],
                ) by {
                    let at = accepted(results.take(i)).len() as int;
                    if i < n - 1 {
                        assert(heard[at] == shorter[at]);
                    }
                }
                heard
            },
            Err(_) => shorter,
        }
    }
}

/// One more chunk is one more report.
proof fn lemma_extend_reports(
    s: Settings,
    heard: Seq<u32>,
    p: u32,
    events: Seq<Option<VadEvent>>,
    event: Option<VadEvent>,
)
    requires
        reports(s, heard, events),
        forall|i: int| 0 <= i < heard.len() ==> #[trigger] step_in_range(s, heard, i),
        event == advance(s, progress_after(s, heard), p).1,
        advance_in_range(s, progress_after(s, heard), p),
    ensures
        progress_after(s, heard.push(p)) == advance(s, progress_after(s, heard), p).0,
        reports(s, heard.push(p), events.push(event)),
        forall|i: int|
            0 <= i < heard.push(p).len() ==> #[trigger] step_in_range(s, heard.push(p), i),
{
    let longer = heard.push(p);
    assert(longer.drop_last() =~= heard);
    assert forall|i: int| 0 <= i < longer.len() implies #[trigger] events.push(event)[i]
        == event_at(s, longer, i) by {
        if i < heard.len() {
            assert(longer.take(i) =~= heard.take(i));
            assert(events[i] == event_at(s, heard, i));
        } else {
            assert(longer.take(i) =~= heard);
        }
    }
    assert forall|i: int| 0 <= i < longer.len() implies #[trigger] step_in_range(s, longer, i) by {
        if i < heard.len() {
            assert(longer.take(i) =~= heard.take(i));
            assert(step_in_range(s, heard, i));
        } else {
            assert(longer.take(i) =~= heard);
        }
    }
}

/// Every accepted chunk moves a stream by one block, thirty-two milliseconds,
/// and a failed one does not move it; silence is reported at the end of its
/// chunk.
pub proof fn lemma_stream_position<F>(
    config: ConfigView,
    infers: Seq<F>,
    payloads: Seq<Seq<u8>>,
    streams: Seq<VadStream>,
    results: Seq<Result<Option<VadEvent>, ServiceError>>,
    n: int,
) where F: FnOnce(&InputRow, &StateTensor, &RateTensor) -> Result<ModelReply, String>
    requires
        chunk_calls(infers, payloads, streams, results),
        starts_as(streams[0], config),
        0 <= n <= results.len(),
    ensures
        streams[n].current_sample == accepted(results.take(n)).len() * streams[0].block_size,
        n > 0 ==> (results[n - 1] matches Ok(Some(VadEvent::Silence { audio_time_ms, .. }))
            ==> audio_time_ms == 32 * accepted(results.take(n)).len()),
{
    let heard = lemma_stream_follows_detector(config, infers, payloads, streams, results, n);
    let s = streams[0].settings();
    lemma_progress_valid(s, heard);
    if n > 0 {
        assert(results.take(n).last() == results[n - 1]);
        if let Ok(Some(VadEvent::Silence { .. })) = results[n - 1] {
            let events = accepted(results.take(n));
            let i = heard.len() - 1;
            assert(events[i] == event_at(s, heard, i));
            assert(step_in_range(s, heard, i));
            lemma_progress_valid(s, heard.take(i));
            let block = s.block;
            assert(32 * (i + 1) <= i * block + block) by (nonlinear_arith)
                requires
                    0 <= i,
                    block >= 32,
            ;
            lemma_silence_time(s, heard, i);
        }
    }
}

/// Segments of speech that a stream reports are not empty and, where twice the
/// padding is at most the minimum silence and one chunk, do not overlap: an end
/// is at least thirty-two milliseconds after every start before it, and a start
/// is not before any end before it.
pub proof fn lemma_stream_segments<F>(
    config: ConfigView,
    infers: Seq<F>,
    payloads: Seq<Seq<u8>>,
    streams: Seq<VadStream>,
    results: Seq<Result<Option<VadEvent>, ServiceError>>,
    m: int,
    n: int,
) where F: FnOnce(&InputRow, &StateTensor, &RateTensor) -> Result<ModelReply, String>
    requires
        chunk_calls(infers, payloads, streams, results),
        starts_as(streams[0], config),
        0 <= streams[0].speech_pad_samples,
        0 <= m < n < accepted(results).len(),
    ensures
        accepted(results)[m] matches Some(VadEvent::SpeechStart { audio_time_ms: start, .. })
            ==> accepted(results)[n] matches Some(VadEvent::SpeechEnd { audio_time_ms: end, .. })
            ==> start + 32 <= end,
        2 * streams[0].speech_pad_samples <= streams[0].min_silence_samples + streams[0].block_size
            ==> (accepted(results)[m] matches Some(VadEvent::SpeechEnd { audio_time_ms: end, .. })
            ==> accepted(results)[n] matches Some(
            VadEvent::SpeechStart { audio_time_ms: start, .. },
        ) ==> end <= start),
{
    let all = results.len() as int;
    let heard = lemma_stream_follows_detector(config, infers, payloads, streams, results, all);
    assert(results.take(all) =~= results);
    let s = streams[0].settings();
    let events = accepted(results);
    assert(events[m] == event_at(s, heard, m));
    assert(events[n] == event_at(s, heard, n));
    assert(step_in_range(s, heard, m));
    assert(step_in_range(s, heard, n));
    lemma_end_after_start(s, heard, m, n);
    if 2 * s.pad <= s.min_silence + s.block {
        lemma_start_after_end(s, heard, m, n);
    }
}

/// A stream reports starts and ends of speech in strict alternation, beginning
/// with a start, and is inside speech exactly while the latest of them is a
/// start.
pub proof fn lemma_stream_alternates<F>(
    config: ConfigView,
    infers: Seq<F>,
    payloads: Seq<Seq<u8>>,
    streams: Seq<VadStream>,
    results: Seq<Result<Option<VadEvent>, ServiceError>>,
    n: int,
) where F: FnOnce(&InputRow, &StateTensor, &RateTensor) -> Result<ModelReply, String>
    requires
        chunk_calls(infers, payloads, streams, results),
        starts_as(streams[0], config),
    ensures
        0 <= n < accepted(results).len() && is_start(accepted(results)[n]) ==> !is_start(
            latest_boundary(accepted(results), n),
        ),
        0 <= n < accepted(results).len() && is_end(accepted(results)[n]) ==> is_start(
            latest_boundary(accepted(results), n),
        ),
        streams.last().triggered == is_start(
            latest_boundary(accepted(results), accepted(results).len() as int),
        ),
{
    let all = results.len() as int;
    let heard = lemma_stream_follows_detector(config, infers, payloads, streams, results, all);
    assert(results.take(all) =~= results);
    let s = streams[0].settings();
    let events = accepted(results);
    if 0 <= n < events.len() {
        lemma_reports_alternate(s, heard, events, n);
    }
    lemma_reports_alternate(s, heard, events, heard.len() as int);
    assert(heard.take(heard.len() as int) =~= heard);
}

/// The samples that precede those of call `n` in the window: the end of the
/// chunk that was accepted last, or silence where there is none.
pub open spec fn context_of(
    results: Seq<Result<Option<VadEvent>, ServiceError>>,
    payloads: Seq<Seq<u8>>,
    block: int,
    context: int,
    n: int,
) -> Seq<u32> {
    let last = last_accepted(results, n);
    if last < 0 {
        Seq::new(context as nat, |i: int| ZERO_BITS)
    } else {
        model_samples(payloads[last]).skip(block - context)
    }
}

/// The end of a stream's window is the context of the next chunk.
proof fn lemma_context<F>(
    config: ConfigView,
    infers: Seq<F>,
    payloads: Seq<Seq<u8>>,
    streams: Seq<VadStream>,
    results: Seq<Result<Option<VadEvent>, ServiceError>>,
    n: int,
) where F: FnOnce(&InputRow, &StateTensor, &RateTensor) -> Result<ModelReply, String>
    requires
        chunk_calls(infers, payloads, streams, results),
        starts_as(streams[0], config),
        0 <= n <= results.len(),
    ensures
        streams[n].settings() == streams[0].settings(),
        streams[n].context_size == streams[0].context_size,
        row_items(streams[n].input).subrange(
            streams[0].block_size as int,
            streams[0].block_size + streams[0].context_size,
        ) == context_of(
            results,
            payloads,
            streams[0].block_size as int,
            streams[0].context_size as int,
            n,
        ),
    decreases n,
{
    let (block, context) = (streams[0].block_size as int, streams[0].context_size as int);
    let expected = context_of(results, payloads, block, context, n);
    if n == 0 {
        assert(row_items(streams[0].input).subrange(block, block + context) =~= expected);
    } else {
        lemma_context(config, infers, payloads, streams, results, n - 1);
        let before = streams[n - 1];
        let payload = payloads[n - 1];
        assert(chunk_call(infers[n - 1], before, payload, streams[n], results[n - 1]));
        if results[n - 1] is Ok {
            assert(row_items(streams[n].input) == before.window_for(payload));
            assert(row_items(streams[n].input).subrange(block, block + context) =~= expected);
        }
    }
}

/// The windows of a stream have no gaps: what the model is handed for an
/// accepted chunk is the end of the chunk that was accepted before it, or
/// silence where there is none, and then the samples of the chunk. Chunks that
/// failed in between leave no trace.
pub proof fn lemma_windows_gapless<F>(
    config: ConfigView,
    infers: Seq<F>,
    payloads: Seq<Seq<u8>>,
    streams: Seq<VadStream>,
    results: Seq<Result<Option<VadEvent>, ServiceError>>,
    n: int,
) where F: FnOnce(&InputRow, &StateTensor, &RateTensor) -> Result<ModelReply, String>
    requires
        chunk_calls(infers, payloads, streams, results),
        starts_as(streams[0], config),
        0 <= n < results.len(),
        results[n] is Ok,
    ensures
        exists|samples: InputRow, reply: Result<ModelReply, String>|
            {
                &&& #[trigger] infers[n].ensures(
                    (&samples, &streams[n].state, &streams[n].sr),
                    reply,
                )
                &&& row_items(samples) == context_of(
                    results,
                    payloads,
                    streams[0].block_size as int,
                    streams[0].context_size as int,
                    n,
                ) + model_samples(payloads[n])
                &&& reply_outcome(
                    streams[n],
                    row_items(samples),
                    reply,
                    streams[n + 1],
                    results[n],
                )
            },
{
    lemma_context(config, infers, payloads, streams, results, n);
    let (before, payload) = (streams[n], payloads[n]);
    assert(chunk_call(infers[n], before, payload, streams[n + 1], results[n]));
    let (samples, reply) = choose|samples: InputRow, reply: Result<ModelReply, String>|
        {
            &&& before.is_input_for(samples, payload)
            &&& #[trigger] infers[n].ensures((&samples, &before.state, &before.sr), reply)
            &&& reply_outcome(
                before,
                before.window_for(payload),
                reply,
                streams[n + 1],
                results[n],
            )
        };
    assert(infers[n].ensures((&samples, &streams[n].state, &streams[n].sr), reply));
}

} // verus!
