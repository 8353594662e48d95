//! When speech starts and when it ends.
//!
//! A chunk whose probability reaches the threshold starts speech. Speech ends
//! when, after a chunk below the release threshold, no chunk reached the
//! threshold for the minimum silence and the last chunk is again below the
//! release threshold.
use crate::event::VadEvent;
use crate::pcm::block_size_spec;
use crate::single::{at_least_spec, below_spec};
use crate::threshold::{lemma_release_below_threshold, release, valid_threshold};
use vstd::arithmetic::div_mod::{lemma_div_is_ordered, lemma_div_is_ordered_by_denominator};
use vstd::prelude::*;

verus! {

/// What a detector was set up with. Lengths are in samples.
pub struct Settings {
    pub sample_rate: int,
    pub block: int,
    pub threshold: u32,
    pub min_silence: int,
    pub pad: int,
}

/// How far a detector has come: the end of the last chunk, the end of the
/// chunk that may turn out to end speech (or 0), and whether speech is on.
pub struct Progress {
    pub current: int,
    pub temp_end: int,
    pub triggered: bool,
}

/// Whether a sample rate is one that the model takes.
pub open spec fn valid_rate(sample_rate: int) -> bool {
    sample_rate == 8000 || sample_rate == 16000
}

/// Division that rounds toward zero.
pub open spec fn quotient(a: int, b: int) -> int {
    if a >= 0 {
        a / b
    } else {
        -((-a) / b)
    }
}

/// A position in the audio in whole milliseconds.
pub open spec fn millis(samples: int, sample_rate: int) -> int {
    quotient(samples * 1000, sample_rate)
}

/// Whether a number is in the range of `i64`.
pub open spec fn in_range(x: int) -> bool {
    i64::MIN <= x <= i64::MAX
}

impl Settings {
    /// The settings are in the range that the service accepts.
    pub open spec fn valid(self) -> bool {
        &&& valid_rate(self.sample_rate)
        &&& self.block == block_size_spec(self.sample_rate)
        &&& valid_threshold(self.threshold)
    }

    /// Whether a probability counts as speech.
    pub open spec fn is_speech(self, probability: u32) -> bool {
        at_least_spec(probability, self.threshold)
    }

    /// Whether a probability is low enough for speech to end.
    pub open spec fn is_quiet(self, probability: u32) -> bool {
        below_spec(probability, release(self.threshold))
    }

    /// Where speech starts if the chunk that ends at `current` starts it.
    pub open spec fn start_sample(self, current: int) -> int {
        if current - self.pad - self.block < 0 {
            0
        } else {
            current - self.pad - self.block
        }
    }

    /// Where speech ends if the chunk that ends at `temp_end` ended it.
    pub open spec fn end_sample(self, temp_end: int) -> int {
        temp_end + self.pad - self.block
    }
}

impl Progress {
    /// At the start of a stream.
    pub open spec fn fresh() -> Progress {
        Progress { current: 0, temp_end: 0, triggered: false }
    }

    /// A pending end lies inside speech that has been heard.
    pub open spec fn valid(self) -> bool {
        &&& 0 <= self.current
        &&& self.temp_end == 0 || (self.triggered && 0 < self.temp_end <= self.current)
    }

    /// The end of the first quiet chunk, if the last chunk is quiet.
    pub open spec fn quiet_since(self) -> int {
        if self.temp_end == 0 {
            self.current
        } else {
            self.temp_end
        }
    }

    /// One chunk further.
    pub open spec fn advanced(self, block: int) -> Progress {
        Progress { current: self.current + block, ..self }
    }
}

/// What the chunk that ends at `at.current` changes, and the boundary of
/// speech that it marks, if any.
pub open spec fn detect(s: Settings, at: Progress, probability: u32) -> (Progress, Option<VadEvent>) {
    if s.is_speech(probability) {
        (
            Progress { temp_end: 0, triggered: true, ..at },
            if at.triggered {
                None
            } else {
                Some(
                    VadEvent::SpeechStart {
                        audio_time_ms: millis(s.start_sample(at.current), s.sample_rate) as i64,
                        probability,
                    },
                )
            },
        )
    } else if s.is_quiet(probability) && at.triggered {
        if at.current - at.quiet_since() >= s.min_silence {
            (
                Progress { temp_end: 0, triggered: false, ..at },
                Some(
                    VadEvent::SpeechEnd {
                        audio_time_ms: millis(s.end_sample(at.quiet_since()), s.sample_rate) as i64,
                        probability,
                    },
                ),
            )
        } else {
            (Progress { temp_end: at.quiet_since(), ..at }, None)
        }
    } else {
        (at, None)
    }
}

/// Whether the positions that `detect` computes are in the range of `i64`.
pub open spec fn detect_in_range(s: Settings, at: Progress, probability: u32) -> bool {
    if s.is_speech(probability) {
        at.triggered || {
            &&& in_range(at.current - s.pad)
            &&& in_range(at.current - s.pad - s.block)
            &&& in_range(s.start_sample(at.current) * 1000)
        }
    } else if s.is_quiet(probability) && at.triggered {
        at.current - at.quiet_since() >= s.min_silence ==> {
            &&& in_range(at.quiet_since() + s.pad)
            &&& in_range(s.end_sample(at.quiet_since()))
            &&& in_range(s.end_sample(at.quiet_since()) * 1000)
        }
    } else {
        true
    }
}

/// What a whole chunk changes, and what is reported for it: a boundary of
/// speech, or silence outside speech.
pub open spec fn advance(s: Settings, at: Progress, probability: u32) -> (
    Progress,
    Option<VadEvent>,
) {
    let (after, event) = detect(s, at.advanced(s.block), probability);
    if event is None && !after.triggered {
        (
            after,
            Some(
                VadEvent::Silence {
                    audio_time_ms: millis(after.current, s.sample_rate) as i64,
                    probability,
                },
            ),
        )
    } else {
        (after, event)
    }
}

/// Whether the positions that `advance` computes are in the range of `i64`.
pub open spec fn advance_in_range(s: Settings, at: Progress, probability: u32) -> bool {
    let next = at.advanced(s.block);
    let (after, event) = detect(s, next, probability);
    &&& in_range(next.current)
    &&& detect_in_range(s, next, probability)
    &&& event is None && !after.triggered ==> in_range(next.current * 1000)
}

/// The progress after a row of chunks.
pub open spec fn progress_after(s: Settings, heard: Seq<u32>) -> Progress
    decreases heard.len(),
{
    if heard.len() == 0 {
        Progress::fresh()
    } else {
        advance(s, progress_after(s, heard.drop_last()), heard.last()).0
    }
}

/// What is reported for chunk `i` of a row of chunks.
pub open spec fn event_at(s: Settings, heard: Seq<u32>, i: int) -> Option<VadEvent> {
    advance(s, progress_after(s, heard.take(i)), heard[i]).1
}

/// How many starts of speech are reported.
pub open spec fn starts(s: Settings, heard: Seq<u32>) -> int
    decreases heard.len(),
{
    if heard.len() == 0 {
        0
    } else {
        starts(s, heard.drop_last()) + if event_at(s, heard, heard.len() - 1) matches Some(
            VadEvent::SpeechStart { .. },
        ) {
            1int
        } else {
            0
        }
    }
}

/// How many ends of speech are reported.
pub open spec fn ends(s: Settings, heard: Seq<u32>) -> int
    decreases heard.len(),
{
    if heard.len() == 0 {
        0
    } else {
        ends(s, heard.drop_last()) + if event_at(s, heard, heard.len() - 1) matches Some(
            VadEvent::SpeechEnd { .. },
        ) {
            1int
        } else {
            0
        }
    }
}

/// One more chunk is one more step.
proof fn lemma_step(s: Settings, heard: Seq<u32>, i: int)
    requires
        0 <= i < heard.len(),
    ensures
        progress_after(s, heard.take(i + 1)) == advance(
            s,
            progress_after(s, heard.take(i)),
            heard[i],
        ).0,
        event_at(s, heard.take(i + 1), i) == event_at(s, heard, i),
{
    assert(heard.take(i + 1).drop_last() =~= heard.take(i));
    assert(heard.take(i + 1).take(i) =~= heard.take(i));
}

/// Every chunk moves the position by one block, and a pending end stays inside
/// speech that has been heard.
pub proof fn lemma_progress_valid(s: Settings, heard: Seq<u32>)
    requires
        s.valid(),
    ensures
        progress_after(s, heard).valid(),
        progress_after(s, heard).current == heard.len() * s.block,
    decreases heard.len(),
{
    if heard.len() > 0 {
        lemma_progress_valid(s, heard.drop_last());
    }
}

/// Starts and ends of speech alternate, beginning with a start: after every
/// chunk there has been one start more than ends while speech is on, and as
/// many while it is off.
pub proof fn lemma_boundaries_alternate(s: Settings, heard: Seq<u32>)
    ensures
        starts(s, heard) == ends(s, heard) + if progress_after(s, heard).triggered {
            1int
        } else {
            0
        },
    decreases heard.len(),
{
    if heard.len() > 0 {
        lemma_boundaries_alternate(s, heard.drop_last());
        assert(heard.take(heard.len() - 1) =~= heard.drop_last());
    }
}

/// The latest start or end of speech among the first `n` reports, if there is
/// one.
pub open spec fn latest_boundary(events: Seq<Option<VadEvent>>, n: int) -> Option<VadEvent>
    decreases n,
{
    if n <= 0 {
        None
    } else if is_start(events[n - 1]) || is_end(events[n - 1]) {
        events[n - 1]
    } else {
        latest_boundary(events, n - 1)
    }
}

/// Whether these are the reports for a row of chunks.
pub open spec fn reports(s: Settings, heard: Seq<u32>, events: Seq<Option<VadEvent>>) -> bool {
    &&& events.len() == heard.len()
    &&& forall|i: int| 0 <= i < heard.len() ==> #[trigger] events[i] == event_at(s, heard, i)
}

/// Over the reports for a row of chunks, a start follows no boundary or an end,
/// an end follows a start, and speech is on exactly while the latest boundary
/// is a start.
pub proof fn lemma_reports_alternate(
    s: Settings,
    heard: Seq<u32>,
    events: Seq<Option<VadEvent>>,
    n: int,
)
    requires
        reports(s, heard, events),
        0 <= n <= heard.len(),
    ensures
        latest_boundary(events, n) is None || is_start(latest_boundary(events, n)) || is_end(
            latest_boundary(events, n),
        ),
        progress_after(s, heard.take(n)).triggered == is_start(latest_boundary(events, n)),
        n < heard.len() && is_start(events[n]) ==> !is_start(latest_boundary(events, n)),
        n < heard.len() && is_end(events[n]) ==> is_start(latest_boundary(events, n)),
    decreases n,
{
    if n > 0 {
        lemma_reports_alternate(s, heard, events, n - 1);
        lemma_step(s, heard, n - 1);
        assert(events[n - 1] == event_at(s, heard, n - 1));
    } else {
        assert(heard.take(0) =~= Seq::<u32>::empty());
    }
    if n < heard.len() {
        assert(events[n] == event_at(s, heard, n));
    }
}

/// A chunk goes unreported exactly when it lies inside speech.
pub proof fn lemma_unreported_inside_speech(s: Settings, heard: Seq<u32>, i: int)
    requires
        0 <= i < heard.len(),
    ensures
        event_at(s, heard, i) is None <==> progress_after(s, heard.take(i)).triggered
            && progress_after(s, heard.take(i + 1)).triggered,
{
    lemma_step(s, heard, i);
}

/// A chunk lasts thirty-two milliseconds at either sample rate, and silence is
/// reported at the end of its chunk.
pub proof fn lemma_silence_time(s: Settings, heard: Seq<u32>, i: int)
    requires
        s.valid(),
        0 <= i < heard.len(),
        32 * (i + 1) <= i64::MAX,
    ensures
        event_at(s, heard, i) matches Some(VadEvent::Silence { audio_time_ms, probability })
            ==> audio_time_ms == 32 * (i + 1) && probability == heard[i],
{
    lemma_progress_valid(s, heard.take(i));
    let block = s.block;
    assert(i * block + block == (i + 1) * block) by (nonlinear_arith);
    assert(millis((i + 1) * block, s.sample_rate) == 32 * (i + 1));
}

/// Chunk `j` is the last speech before chunk `n` and chunk `k` the first quiet
/// one after it; where none is quiet, `k` is `n`.
pub open spec fn last_speech(s: Settings, heard: Seq<u32>, j: int, k: int, n: int) -> bool {
    &&& 0 <= j < k <= n <= heard.len()
    &&& s.is_speech(heard[j])
    &&& forall|i: int| j < i < n ==> !s.is_speech(#[trigger] heard[i])
    &&& forall|i: int| j < i < k ==> !s.is_quiet(#[trigger] heard[i])
    &&& k < n ==> s.is_quiet(heard[k])
}

/// Chunk `n` is quiet, no chunk since the quiet chunk `k` is speech, `k` is the
/// first quiet chunk since the last speech `j`, and the minimum silence lies
/// between the two.
pub open spec fn silence_run(s: Settings, heard: Seq<u32>, j: int, k: int, n: int) -> bool {
    &&& k <= n < heard.len()
    &&& last_speech(s, heard, j, k, n + 1)
    &&& s.is_quiet(heard[n])
    &&& (n - k) * s.block >= s.min_silence
}

/// While speech is on, the pending end tells the first quiet chunk since the
/// last speech.
proof fn lemma_inside_speech(s: Settings, heard: Seq<u32>) -> (w: (int, int))
    requires
        s.valid(),
        progress_after(s, heard).triggered,
    ensures
        last_speech(s, heard, w.0, w.1, heard.len() as int),
        w.1 == heard.len() ==> progress_after(s, heard).temp_end == 0,
        w.1 < heard.len() ==> progress_after(s, heard).temp_end == (w.1 + 1) * s.block,
    decreases heard.len(),
{
    let n = heard.len() - 1;
    let before = heard.drop_last();
    lemma_progress_valid(s, heard);
    lemma_progress_valid(s, before);
    lemma_release_below_threshold(s.threshold);
    let block = s.block;
    assert(n * block + block == (n + 1) * block) by (nonlinear_arith);
    if s.is_speech(heard[n]) {
        (n, n + 1)
    } else {
        let (j, k) = lemma_inside_speech(s, before);
        assert forall|i: int| j < i < n + 1 implies !s.is_speech(#[trigger] heard[i]) by {
            if i < n {
                assert(heard[i] == before[i]);
            }
        }
        assert forall|i: int| j < i < k implies !s.is_quiet(#[trigger] heard[i]) by {
            assert(heard[i] == before[i]);
        }
        assert(heard[j] == before[j]);
        assert((k + 1) * block > 0) by (nonlinear_arith)
            requires
                k >= 0,
                block > 0,
        ;
        if k < n {
            assert(heard[k] == before[k]);
            (j, k)
        } else if s.is_quiet(heard[n]) {
            (j, n)
        } else {
            (j, n + 1)
        }
    }
}

/// Speech ends at chunk `n` exactly when it is on and a long enough silence
/// ends there.
pub proof fn lemma_end_after_silence(s: Settings, heard: Seq<u32>, n: int)
    requires
        s.valid(),
        0 <= n < heard.len(),
    ensures
        event_at(s, heard, n) matches Some(VadEvent::SpeechEnd { .. }) <==> (progress_after(
            s,
            heard.take(n),
        ).triggered && exists|j: int, k: int| silence_run(s, heard, j, k, n)),
{
    let before = heard.take(n);
    let at = progress_after(s, before);
    lemma_release_below_threshold(s.threshold);
    if at.triggered {
        let (j, k) = lemma_quiet_since(s, heard, n);
        if event_at(s, heard, n) matches Some(VadEvent::SpeechEnd { .. }) {
            assert(silence_run(s, heard, j, k, n));
        }
        if exists|a: int, b: int| silence_run(s, heard, a, b, n) {
            let (a, b) = choose|a: int, b: int| silence_run(s, heard, a, b, n);
            lemma_last_speech_unique(s, heard, j, k, a, b, n + 1);
        }
    }
}

/// Where speech is on before a quiet chunk `n` that is not speech, the length
/// of the silence counts from the first quiet chunk since the last speech.
proof fn lemma_quiet_since(s: Settings, heard: Seq<u32>, n: int) -> (w: (int, int))
    requires
        s.valid(),
        0 <= n < heard.len(),
        progress_after(s, heard.take(n)).triggered,
    ensures
        !s.is_speech(heard[n]) && s.is_quiet(heard[n]) ==> last_speech(s, heard, w.0, w.1, n + 1)
            && w.1 <= n,
        ({
            let next = progress_after(s, heard.take(n)).advanced(s.block);
            !s.is_speech(heard[n]) && s.is_quiet(heard[n]) ==> next.quiet_since() == (w.1 + 1)
                * s.block && next.current - next.quiet_since() == (n - w.1) * s.block
        }),
{
    let before = heard.take(n);
    let block = s.block;
    let (j, k) = lemma_inside_speech(s, before);
    lemma_progress_valid(s, before);
    assert(n * block + block == (n + 1) * block) by (nonlinear_arith);
    assert((n + 1) * block - (k + 1) * block == (n - k) * block) by (nonlinear_arith);
    assert((k + 1) * block > 0) by (nonlinear_arith)
        requires
            k >= 0,
            block > 0,
    ;
    assert(heard[j] == before[j]);
    assert forall|i: int| j < i < n implies heard[i] == #[trigger] before[i] by {}
    assert forall|i: int| j < i < n && !s.is_speech(heard[n]) implies !s.is_speech(
        #[trigger] heard[i],
    ) by {
        assert(heard[i] == before[i]);
    }
    assert forall|i: int| j < i < k implies !s.is_quiet(#[trigger] heard[i]) by {
        assert(heard[i] == before[i]);
    }
    if k < n {
        assert(heard[k] == before[k]);
    }
    (j, k)
}

/// There is one last speech and one first quiet chunk after it.
proof fn lemma_last_speech_unique(
    s: Settings,
    heard: Seq<u32>,
    j: int,
    k: int,
    a: int,
    b: int,
    n: int,
)
    requires
        last_speech(s, heard, j, k, n),
        last_speech(s, heard, a, b, n),
        k < n,
        b < n,
    ensures
        j == a,
        k == b,
{
    if j < a {
        assert(!s.is_speech(heard[a]));
    } else if a < j {
        assert(!s.is_speech(heard[j]));
    }
    if k < b {
        assert(!s.is_quiet(heard[k]));
    } else if b < k {
        assert(!s.is_quiet(heard[b]));
    }
}

/// The end of speech is placed at the start of the first quiet chunk, moved
/// later by the padding.
pub proof fn lemma_end_time(s: Settings, heard: Seq<u32>, n: int)
    requires
        s.valid(),
        0 <= n < heard.len(),
    ensures
        event_at(s, heard, n) matches Some(VadEvent::SpeechEnd { audio_time_ms, probability })
            ==> probability == heard[n] && exists|j: int, k: int|
            #[trigger] silence_run(s, heard, j, k, n) && audio_time_ms == millis(
                k * s.block + s.pad,
                s.sample_rate,
            ) as i64,
{
    let before = heard.take(n);
    let at = progress_after(s, before);
    lemma_release_below_threshold(s.threshold);
    if let Some(VadEvent::SpeechEnd { audio_time_ms, .. }) = event_at(s, heard, n) {
        let (j, k) = lemma_quiet_since(s, heard, n);
        let block = s.block;
        assert(silence_run(s, heard, j, k, n));
        assert((k + 1) * block - block == k * block) by (nonlinear_arith);
        assert(audio_time_ms == millis(k * s.block + s.pad, s.sample_rate) as i64);
    }
}

/// A start of speech is reported exactly where speech is off and the probability
/// reaches the threshold, and silence exactly where it is off and does not.
pub proof fn lemma_start_on_speech(s: Settings, heard: Seq<u32>, n: int)
    requires
        s.valid(),
        0 <= n < heard.len(),
    ensures
        is_start(event_at(s, heard, n)) <==> !progress_after(s, heard.take(n)).triggered
            && at_least_spec(heard[n], s.threshold),
        event_at(s, heard, n) matches Some(VadEvent::Silence { .. }) <==> !progress_after(
            s,
            heard.take(n),
        ).triggered && !at_least_spec(heard[n], s.threshold),
{
}

/// The start of speech is placed at the start of its chunk, moved earlier by
/// the padding but not before the start of the stream.
pub proof fn lemma_start_time(s: Settings, heard: Seq<u32>, n: int)
    requires
        s.valid(),
        0 <= n < heard.len(),
    ensures
        event_at(s, heard, n) matches Some(VadEvent::SpeechStart { audio_time_ms, probability })
            ==> probability == heard[n] && s.is_speech(heard[n]) && audio_time_ms == millis(
            if n * s.block - s.pad < 0 {
                0
            } else {
                n * s.block - s.pad
            },
            s.sample_rate,
        ) as i64,
{
    lemma_progress_valid(s, heard.take(n));
}

/// Whether the positions that chunk `i` of a row of chunks needs are in the
/// range of `i64`.
pub open spec fn step_in_range(s: Settings, heard: Seq<u32>, i: int) -> bool {
    advance_in_range(s, progress_after(s, heard.take(i)), heard[i])
}

/// A later position is no earlier time, and a time is in range where the
/// position is.
proof fn lemma_millis_ordered(a: int, b: int, sample_rate: int)
    requires
        a <= b,
        0 < sample_rate,
    ensures
        millis(a, sample_rate) <= millis(b, sample_rate),
        in_range(a * 1000) ==> in_range(millis(a, sample_rate)),
        in_range(b * 1000) ==> in_range(millis(b, sample_rate)),
{
    if a >= 0 {
        lemma_div_is_ordered(a * 1000, b * 1000, sample_rate);
    } else if b < 0 {
        lemma_div_is_ordered(-(b * 1000), -(a * 1000), sample_rate);
    }
    lemma_quotient_shrinks(a * 1000, sample_rate);
    lemma_quotient_shrinks(b * 1000, sample_rate);
}

/// A quotient lies between zero and what is divided.
proof fn lemma_quotient_shrinks(a: int, b: int)
    requires
        0 < b,
    ensures
        a >= 0 ==> 0 <= quotient(a, b) <= a,
        a <= 0 ==> a <= quotient(a, b) <= 0,
{
    let size = if a >= 0 {
        a
    } else {
        -a
    };
    lemma_div_is_ordered(0, size, b);
    lemma_div_is_ordered_by_denominator(size, 1, b);
}

/// With padding that is not negative, an end of speech is reported for a time
/// at least thirty-two milliseconds after every start that was reported before
/// it.
pub proof fn lemma_end_after_start(s: Settings, heard: Seq<u32>, m: int, n: int)
    requires
        s.valid(),
        0 <= s.pad,
        0 <= m < n < heard.len(),
        step_in_range(s, heard, m),
        step_in_range(s, heard, n),
    ensures
        event_at(s, heard, m) matches Some(VadEvent::SpeechStart { audio_time_ms: start, .. })
            ==> event_at(s, heard, n) matches Some(VadEvent::SpeechEnd { audio_time_ms: end, .. })
            ==> start + 32 <= end,
{
    lemma_start_time(s, heard, m);
    lemma_release_below_threshold(s.threshold);
    if let Some(VadEvent::SpeechStart { audio_time_ms: start, .. }) = event_at(s, heard, m) {
        if let Some(VadEvent::SpeechEnd { audio_time_ms: end, .. }) = event_at(s, heard, n) {
            let (j, k) = lemma_end_position(s, heard, n);
            let (block, rate) = (s.block, s.sample_rate);
            let a = lemma_start_position(s, heard, m);
            let b = k * block + s.pad;
            assert(m < k) by {
                if j < m {
                    assert(!s.is_speech(heard[m]));
                }
            }
            assert(m * block + block <= k * block) by (nonlinear_arith)
                requires
                    m < k,
                    block > 0,
            ;
            assert(0 <= m * block) by (nonlinear_arith)
                requires
                    0 <= m,
                    block > 0,
            ;
            lemma_millis_ordered(a + block, b, rate);
            lemma_millis_ordered(a, a + block, rate);
            assert(millis(a + block, rate) == millis(a, rate) + 32);
        }
    }
}

/// Where twice the padding is at most the minimum silence and one chunk, a
/// start of speech is reported for no earlier time than an end that was
/// reported before it.
pub proof fn lemma_start_after_end(s: Settings, heard: Seq<u32>, m: int, n: int)
    requires
        s.valid(),
        2 * s.pad <= s.min_silence + s.block,
        0 <= m < n < heard.len(),
        step_in_range(s, heard, m),
        step_in_range(s, heard, n),
    ensures
        event_at(s, heard, m) matches Some(VadEvent::SpeechEnd { audio_time_ms: end, .. })
            ==> event_at(s, heard, n) matches Some(
            VadEvent::SpeechStart { audio_time_ms: start, .. },
        ) ==> end <= start,
{
    if let Some(VadEvent::SpeechEnd { audio_time_ms: end, .. }) = event_at(s, heard, m) {
        if let Some(VadEvent::SpeechStart { audio_time_ms: start, .. }) = event_at(s, heard, n) {
            let (j, k) = lemma_end_position(s, heard, m);
            let (block, rate) = (s.block, s.sample_rate);
            let a = k * block + s.pad;
            let b = lemma_start_position(s, heard, n);
            assert(m * block + block <= n * block) by (nonlinear_arith)
                requires
                    m < n,
                    block > 0,
            ;
            assert((m - k) * block == m * block - k * block) by (nonlinear_arith);
            lemma_millis_ordered(a, b, rate);
        }
    }
}

/// Where an end of speech is placed, with its position in range.
pub proof fn lemma_end_position(s: Settings, heard: Seq<u32>, n: int) -> (w: (int, int))
    requires
        s.valid(),
        0 <= n < heard.len(),
        event_at(s, heard, n) matches Some(VadEvent::SpeechEnd { .. }),
        step_in_range(s, heard, n),
    ensures
        silence_run(s, heard, w.0, w.1, n),
        in_range((w.1 * s.block + s.pad) * 1000),
        event_at(s, heard, n)->0->SpeechEnd_audio_time_ms == millis(
            w.1 * s.block + s.pad,
            s.sample_rate,
        ),
{
    lemma_release_below_threshold(s.threshold);
    let (j, k) = lemma_quiet_since(s, heard, n);
    let block = s.block;
    assert((k + 1) * block - block == k * block) by (nonlinear_arith);
    lemma_millis_ordered(k * block + s.pad, k * block + s.pad, s.sample_rate);
    (j, k)
}

/// Where a start of speech is placed, with its position in range.
pub proof fn lemma_start_position(s: Settings, heard: Seq<u32>, n: int) -> (at: int)
    requires
        s.valid(),
        0 <= n < heard.len(),
        event_at(s, heard, n) matches Some(VadEvent::SpeechStart { .. }),
        step_in_range(s, heard, n),
    ensures
        0 <= at,
        n * s.block - s.pad <= at,
        at == 0 || at == n * s.block - s.pad,
        in_range(at * 1000),
        event_at(s, heard, n)->0->SpeechStart_audio_time_ms == millis(at, s.sample_rate),
{
    lemma_progress_valid(s, heard.take(n));
    let at = s.start_sample(n * s.block + s.block);
    lemma_millis_ordered(at, at, s.sample_rate);
    at
}

/// A pending end exists only inside speech and never lies ahead: what holds of
/// it before a chunk is judged holds after.
pub proof fn lemma_pending_end_kept(s: Settings, at: Progress, probability: u32)
    requires
        !at.triggered ==> at.temp_end == 0,
        0 <= at.temp_end <= at.current,
    ensures
        ({
            let after = detect(s, at, probability).0;
            &&& !after.triggered ==> after.temp_end == 0
            &&& 0 <= after.temp_end <= after.current
            &&& after.current == at.current
        }),
{
}

/// Whether this is a start of speech.
pub open spec fn is_start(event: Option<VadEvent>) -> bool {
    event matches Some(VadEvent::SpeechStart { .. })
}

/// Whether this is an end of speech.
pub open spec fn is_end(event: Option<VadEvent>) -> bool {
    event matches Some(VadEvent::SpeechEnd { .. })
}

/// Whether chunks were judged one after the other, as by calls of
/// `VadStream::vad_event` on one stream: the first outside speech, and each of
/// the others inside speech exactly if the one before left it so. Positions may
/// move between them in any way.
pub open spec fn judged_in_turn(
    s: Settings,
    before: Seq<Progress>,
    heard: Seq<u32>,
    after: Seq<Progress>,
    events: Seq<Option<VadEvent>>,
) -> bool {
    &&& before.len() == heard.len() == after.len() == events.len()
    &&& heard.len() > 0 ==> !before[0].triggered
    &&& forall|i: int|
        0 <= i < heard.len() ==> (after[i], events[i]) == detect(
            s,
            before[i],
            #[trigger] heard[i],
        )
    &&& forall|i: int|
        0 < i < heard.len() ==> (#[trigger] before[i]).triggered == after[i - 1].triggered
}

/// The latest event among the first `n`, if there is one.
pub open spec fn latest(events: Seq<Option<VadEvent>>, n: int) -> Option<VadEvent>
    decreases n,
{
    if n <= 0 {
        None
    } else if events[n - 1] is Some {
        events[n - 1]
    } else {
        latest(events, n - 1)
    }
}

/// Judging chunks in turn marks nothing but starts and ends of speech, in strict
/// alternation and beginning with a start, and speech is on exactly while the
/// latest mark is a start.
pub proof fn lemma_judged_alternate(
    s: Settings,
    before: Seq<Progress>,
    heard: Seq<u32>,
    after: Seq<Progress>,
    events: Seq<Option<VadEvent>>,
    n: int,
)
    requires
        judged_in_turn(s, before, heard, after, events),
        0 <= n < heard.len(),
    ensures
        events[n] is Some ==> is_start(events[n]) || is_end(events[n]),
        is_start(events[n]) ==> latest(events, n) is None || is_end(latest(events, n)),
        is_end(events[n]) ==> is_start(latest(events, n)),
        after[n].triggered == is_start(latest(events, n + 1)),
    decreases n,
{
    assert((after[n], events[n]) == detect(s, before[n], heard[n]));
    if n > 0 {
        lemma_judged_alternate(s, before, heard, after, events, n - 1);
        assert(before[n].triggered == after[n - 1].triggered);
        lemma_latest_is_mark(s, before, heard, after, events, n);
    }
}

/// The latest mark is a start or an end.
proof fn lemma_latest_is_mark(
    s: Settings,
    before: Seq<Progress>,
    heard: Seq<u32>,
    after: Seq<Progress>,
    events: Seq<Option<VadEvent>>,
    n: int,
)
    requires
        judged_in_turn(s, before, heard, after, events),
        0 <= n <= heard.len(),
    ensures
        latest(events, n) is Some ==> is_start(latest(events, n)) || is_end(latest(events, n)),
    decreases n,
{
    if n > 0 {
        assert((after[n - 1], events[n - 1]) == detect(s, before[n - 1], heard[n - 1]));
        lemma_latest_is_mark(s, before, heard, after, events, n - 1);
    }
}

} // verus!
