//! One audio stream: its window, the state of the model, and the detector.
use crate::config::{Config, ConfigView};
use crate::detector::{
    advance, advance_in_range, detect, detect_in_range, in_range, quotient, valid_rate, Progress,
    Settings,
};
use crate::error::{ort_err, ServiceError};
use crate::event::VadEvent;
use crate::pcm::{
    block_size, block_size_spec, build_window, context_size, context_size_spec, window,
    PCM_I16_BYTES_PER_SAMPLE,
};
use crate::single::{at_least, below, ZERO_BITS};
use crate::tensor::{
    rate_items, row_items, row_shape, shape_error_text, state_items, state_shape, volume, InputRow,
    RateTensor, StateTensor,
};
use crate::threshold::{lemma_release_below_threshold, release_threshold, valid_threshold};
use vstd::prelude::*;

verus! {

/// How many elements the state of the model has.
pub const STATE_LEN: usize = 256;

/// The axis lengths of the state of the model.
pub open spec fn state_axes() -> Seq<usize> {
    seq![2usize, 1usize, 128usize]
}

/// What the model answered: the elements of its output, and those of its next
/// state where they are contiguous. Elements are bit patterns of
/// single-precision numbers.
#[derive(Debug)]
pub struct ModelReply {
    pub output: Vec<u32>,
    pub state: Option<Vec<u32>>,
}

/// The probability of speech: the first element of the output, or zero.
pub open spec fn probability_of(output: Seq<u32>) -> u32 {
    if output.len() > 0 {
        output[0]
    } else {
        ZERO_BITS
    }
}

/// One audio stream. Positions and lengths are in samples.
pub struct VadStream {
    pub sample_rate: i64,
    pub block_size: usize,
    pub context_size: usize,
    pub threshold: u32,
    pub min_silence_samples: i64,
    pub speech_pad_samples: i64,
    pub current_sample: i64,
    pub temp_end: i64,
    pub triggered: bool,
    pub input: InputRow,
    pub state: StateTensor,
    pub sr: RateTensor,
}

impl VadStream {
    /// What the detector was set up with.
    pub open spec fn settings(self) -> Settings {
        Settings {
            sample_rate: self.sample_rate as int,
            block: self.block_size as int,
            threshold: self.threshold,
            min_silence: self.min_silence_samples as int,
            pad: self.speech_pad_samples as int,
        }
    }

    /// How far the detector has come.
    pub open spec fn progress(self) -> Progress {
        Progress {
            current: self.current_sample as int,
            temp_end: self.temp_end as int,
            triggered: self.triggered,
        }
    }

    /// The parts of the stream fit together.
    pub open spec fn valid(self) -> bool {
        &&& self.settings().valid()
        &&& self.progress().valid()
        &&& self.context_size == context_size_spec(self.sample_rate as int)
        &&& row_shape(self.input) == (1nat, (self.context_size + self.block_size) as nat)
        &&& row_items(self.input).len() == self.context_size + self.block_size
        &&& state_shape(self.state) == state_axes()
        &&& state_items(self.state).len() == STATE_LEN
        &&& rate_items(self.sr) == seq![self.sample_rate]
    }

    /// Whether a payload has the size of a chunk.
    pub open spec fn takes(self, payload: Seq<u8>) -> bool {
        payload.len() == self.block_size * PCM_I16_BYTES_PER_SAMPLE
    }

    /// The refusal of a payload of the wrong size.
    pub open spec fn size_error(self, payload: Seq<u8>) -> ServiceError {
        ServiceError::ChunkSize {
            got: payload.len() as usize,
            expected: (self.block_size * PCM_I16_BYTES_PER_SAMPLE) as usize,
        }
    }

    /// What the model reads for a payload.
    pub open spec fn window_for(self, payload: Seq<u8>) -> Seq<u32> {
        window(
            row_items(self.input),
            self.block_size as int,
            self.context_size as int,
            payload,
        )
    }
}

/// Whether the lengths that settings give in milliseconds can be computed in
/// samples.
pub open spec fn lengths_in_range(config: ConfigView) -> bool {
    &&& in_range(config.sample_rate * config.min_silence_ms)
    &&& in_range(config.sample_rate * config.speech_pad_ms)
}

/// What a stream makes of the reply to a window: an error that changes
/// nothing, or the new window, state and progress, and the event.
pub open spec fn reply_outcome(
    before: VadStream,
    samples: Seq<u32>,
    reply: Result<ModelReply, String>,
    after: VadStream,
    result: Result<Option<VadEvent>, ServiceError>,
) -> bool {
    match reply {
        Err(message) => {
            &&& result == Err::<Option<VadEvent>, ServiceError>(ServiceError::Runtime { message })
            &&& after == before
        },
        Ok(ModelReply { state: None, .. }) => {
            &&& result == Err::<Option<VadEvent>, ServiceError>(ServiceError::StateNotContiguous)
            &&& after == before
        },
        Ok(ModelReply { output, state: Some(state) }) => if state@.len() != STATE_LEN {
            &&& result matches Err(ServiceError::Shape { message })
            &&& message@ == shape_error_text(state@.len() as int, STATE_LEN as int)
            &&& after == before
        } else {
            let probability = probability_of(output@);
            let (progress, event) = advance(before.settings(), before.progress(), probability);
            &&& result == Ok::<Option<VadEvent>, ServiceError>(event)
            &&& after.settings() == before.settings()
            &&& after.progress() == progress
            &&& row_items(after.input) == samples
            &&& state_items(after.state) == state@
            &&& after.valid()
        },
    }
}

/// Whether the positions computed for a reply are in the range of `i64`.
pub open spec fn reply_in_range(
    s: Settings,
    at: Progress,
    reply: Result<ModelReply, String>,
) -> bool {
    reply matches Ok(ModelReply { output, state: Some(state) }) ==> state@.len() == STATE_LEN
        ==> advance_in_range(s, at, probability_of(output@))
}

/// Whether `infer` can be called on the window of a payload, and whether what
/// it can reply can be taken up. Nothing is asked of `infer` where the payload
/// does not have the size of a chunk: it is not called then.
pub open spec fn can_process<F>(infer: F, before: VadStream, payload: Seq<u8>) -> bool where
    F: FnOnce(&InputRow, &StateTensor, &RateTensor) -> Result<ModelReply, String>,
 {
    before.takes(payload) ==> {
        &&& forall|samples: InputRow|
            before.is_input_for(samples, payload) ==> #[trigger] infer.requires(
                (&samples, &before.state, &before.sr),
            )
        &&& forall|samples: InputRow, reply: Result<ModelReply, String>|
            before.is_input_for(samples, payload) && #[trigger] infer.ensures(
                (&samples, &before.state, &before.sr),
                reply,
            ) ==> reply_in_range(before.settings(), before.progress(), reply)
    }
}

/// What a chunk does: a payload of the wrong size is refused and changes
/// nothing; else some reply that `infer` can give to its window is taken up.
pub open spec fn chunk_outcome<F>(
    infer: F,
    before: VadStream,
    payload: Seq<u8>,
    after: VadStream,
    result: Result<Option<VadEvent>, ServiceError>,
) -> bool where F: FnOnce(&InputRow, &StateTensor, &RateTensor) -> Result<ModelReply, String> {
    if !before.takes(payload) {
        &&& result == Err::<Option<VadEvent>, ServiceError>(before.size_error(payload))
        &&& after == before
    } else {
        exists|samples: InputRow, reply: Result<ModelReply, String>|
            {
                &&& before.is_input_for(samples, payload)
                &&& #[trigger] infer.ensures((&samples, &before.state, &before.sr), reply)
                &&& reply_outcome(before, before.window_for(payload), reply, after, result)
            }
    }
}

/// Tests that a number is in the range of `i64`.
fn fits(x: i128) -> (result: bool)
    ensures
        result == in_range(x as int),
{
    i64::MIN as i128 <= x && x <= i64::MAX as i128
}

/// Tests that the lengths of silence and padding can be computed in samples.
pub fn lengths_fit(config: &Config) -> (result: bool)
    ensures
        result == lengths_in_range(config@),
{
    let rate: i128 = config.sample_rate as i128;
    proof {
        lemma_product_bound(config.sample_rate, config.min_silence_ms);
        lemma_product_bound(config.sample_rate, config.speech_pad_ms);
    }
    fits(rate * config.min_silence_ms as i128) && fits(rate * config.speech_pad_ms as i128)
}

proof fn lemma_product_bound(a: i64, b: i64)
    ensures
        i128::MIN <= a * b <= i128::MAX,
{
    assert(i128::MIN <= a * b <= i128::MAX) by (nonlinear_arith)
        requires
            i64::MIN <= a <= i64::MAX,
            i64::MIN <= b <= i64::MAX,
    ;
}

/// Whether a stream is at its start, with what the settings give.
pub open spec fn starts_as(stream: VadStream, config: ConfigView) -> bool {
    &&& stream.valid()
    &&& stream.settings() == (Settings {
        sample_rate: config.sample_rate as int,
        block: block_size_spec(config.sample_rate as int),
        threshold: config.threshold,
        min_silence: quotient(config.sample_rate * config.min_silence_ms, 1000),
        pad: quotient(config.sample_rate * config.speech_pad_ms, 1000),
    })
    &&& stream.progress() == Progress::fresh()
    &&& row_items(stream.input) == Seq::new(
        (stream.context_size + stream.block_size) as nat,
        |i: int| ZERO_BITS,
    )
    &&& state_items(stream.state) == Seq::new(STATE_LEN as nat, |i: int| ZERO_BITS)
}

impl VadStream {
    /// A stream at its start: silence before the first chunk, and a zero state.
    pub fn new(config: &Config) -> (stream: VadStream)
        requires
            valid_rate(config.sample_rate as int),
            valid_threshold(config.threshold),
            lengths_in_range(config@),
        ensures
            starts_as(stream, config@),
    {
        let block: usize = block_size(config.sample_rate);
        let context: usize = context_size(config.sample_rate);
        let axes: [usize; 3] = [2, 1, 128];
        proof {
            lemma_state_volume();
            assert(axes@ =~= state_axes());
        }
        let stream = VadStream {
            sample_rate: config.sample_rate,
            block_size: block,
            context_size: context,
            threshold: config.threshold,
            min_silence_samples: config.sample_rate * config.min_silence_ms / 1000,
            speech_pad_samples: config.sample_rate * config.speech_pad_ms / 1000,
            current_sample: 0,
            temp_end: 0,
            triggered: false,
            input: InputRow::zeros(1, context + block),
            state: StateTensor::zeros(axes.as_slice()),
            sr: RateTensor::from_vec(vec![config.sample_rate]),
        };
        assert(rate_items(stream.sr) =~= seq![stream.sample_rate]);
        stream
    }
}

impl VadStream {
    /// Judges the chunk that ends at the current sample.
    pub fn vad_event(&mut self, probability: u32) -> (event: Option<VadEvent>)
        requires
            old(self).valid(),
            detect_in_range(old(self).settings(), old(self).progress(), probability),
        ensures
            final(self).valid(),
            (final(self).progress(), event) == detect(
                old(self).settings(),
                old(self).progress(),
                probability,
            ),
            final(self).settings() == old(self).settings(),
            final(self).input == old(self).input,
            final(self).state == old(self).state,
            final(self).context_size == old(self).context_size,
            final(self).sr == old(self).sr,
    {
        let release_bits: u32 = release_threshold(self.threshold);
        proof {
            lemma_release_below_threshold(self.threshold);
        }
        if at_least(probability, self.threshold) && self.temp_end != 0 {
            self.temp_end = 0;
        }
        if at_least(probability, self.threshold) && !self.triggered {
            self.triggered = true;
            let earliest: i64 = self.current_sample - self.speech_pad_samples
                - self.block_size as i64;
            let start_sample: i64 = if earliest < 0 {
                0
            } else {
                earliest
            };
            return Some(
                VadEvent::SpeechStart {
                    audio_time_ms: start_sample * 1000 / self.sample_rate,
                    probability,
                },
            );
        }
        if below(probability, release_bits) && self.triggered {
            if self.temp_end == 0 {
                self.temp_end = self.current_sample;
            }
            if self.current_sample - self.temp_end >= self.min_silence_samples {
                let end_sample: i64 = self.temp_end + self.speech_pad_samples
                    - self.block_size as i64;
                self.temp_end = 0;
                self.triggered = false;
                return Some(
                    VadEvent::SpeechEnd {
                        audio_time_ms: end_sample * 1000 / self.sample_rate,
                        probability,
                    },
                );
            }
        }
        None
    }

    /// Takes up the model's reply to a window.
    pub fn apply_reply(&mut self, samples: InputRow, reply: Result<ModelReply, String>) -> (result:
        Result<Option<VadEvent>, ServiceError>)
        requires
            old(self).valid(),
            row_shape(samples) == row_shape(old(self).input),
            row_items(samples).len() == row_items(old(self).input).len(),
            reply_in_range(old(self).settings(), old(self).progress(), reply),
        ensures
            reply_outcome(*old(self), row_items(samples), reply, *final(self), result),
    {
        let reply: ModelReply = match reply {
            Ok(reply) => reply,
            Err(message) => {
                return Err(ort_err(message));
            },
        };
        let probability: u32 = if reply.output.len() > 0 {
            reply.output[0]
        } else {
            ZERO_BITS
        };
        let elements: Vec<u32> = match reply.state {
            Some(elements) => elements,
            None => {
                return Err(ServiceError::StateNotContiguous);
            },
        };
        let axes: [usize; 3] = [2, 1, 128];
        proof {
            lemma_state_volume();
            assert(axes@ =~= state_axes());
        }
        let state: StateTensor = match StateTensor::from_shape_vec(axes.as_slice(), elements) {
            Ok(state) => state,
            Err(message) => {
                return Err(ServiceError::Shape { message });
            },
        };
        self.state = state;
        self.input = samples;
        self.current_sample = self.current_sample + self.block_size as i64;
        match self.vad_event(probability) {
            Some(event) => Ok(Some(event)),
            None => {
                if self.triggered {
                    Ok(None)
                } else {
                    Ok(
                        Some(
                            VadEvent::Silence {
                                audio_time_ms: self.current_sample * 1000 / self.sample_rate,
                                probability,
                            },
                        ),
                    )
                }
            },
        }
    }

    /// Processes one chunk: holds the payload to its size, hands the window,
    /// the state and the sample rate to the model, and takes up the reply. A
    /// payload of the wrong size does not reach the model.
    pub fn handle_pcm_chunk<F>(&mut self, infer: F, payload: &[u8]) -> (result: Result<
        Option<VadEvent>,
        ServiceError,
    >) where F: FnOnce(&InputRow, &StateTensor, &RateTensor) -> Result<ModelReply, String>
        requires
            old(self).valid(),
            can_process(infer, *old(self), payload@),
        ensures
            final(self).valid(),
            chunk_outcome(infer, *old(self), payload@, *final(self), result),
    {
        let expected_bytes: usize = self.block_size * PCM_I16_BYTES_PER_SAMPLE;
        if payload.len() != expected_bytes {
            return Err(ServiceError::ChunkSize { got: payload.len(), expected: expected_bytes });
        }
        let samples: Vec<u32> = build_window(
            self.input.items(),
            self.block_size,
            self.context_size,
            payload,
        );
        let input: InputRow = match InputRow::from_shape_vec(
            1,
            self.context_size + self.block_size,
            samples,
        ) {
            Ok(input) => input,
            Err(message) => {
                return Err(ServiceError::Shape { message });
            },
        };
        let reply: Result<ModelReply, String> = infer(&input, &self.state, &self.sr);
        self.apply_reply(input, reply)
    }

    /// What it takes to tell whether a reply can be taken up.
    pub fn room(&self) -> (room: Room)
        requires
            self.valid(),
        ensures
            room.valid(),
            room.settings() == self.settings(),
            room.progress() == self.progress(),
    {
        Room {
            sample_rate: self.sample_rate,
            block_size: self.block_size,
            threshold: self.threshold,
            min_silence_samples: self.min_silence_samples,
            speech_pad_samples: self.speech_pad_samples,
            current_sample: self.current_sample,
            temp_end: self.temp_end,
            triggered: self.triggered,
        }
    }

    /// Whether an array is what the model is handed for a payload.
    pub open spec fn is_input_for(self, samples: InputRow, payload: Seq<u8>) -> bool {
        &&& row_shape(samples) == (1nat, (self.context_size + self.block_size) as nat)
        &&& row_items(samples) == self.window_for(payload)
    }
}

/// The numbers of a stream that decide whether a reply can be taken up.
#[derive(Clone, Copy, Debug)]
pub struct Room {
    sample_rate: i64,
    block_size: usize,
    threshold: u32,
    min_silence_samples: i64,
    speech_pad_samples: i64,
    current_sample: i64,
    temp_end: i64,
    triggered: bool,
}

impl Room {
    /// What the detector was set up with.
    pub closed spec fn settings(self) -> Settings {
        Settings {
            sample_rate: self.sample_rate as int,
            block: self.block_size as int,
            threshold: self.threshold,
            min_silence: self.min_silence_samples as int,
            pad: self.speech_pad_samples as int,
        }
    }

    /// How far the detector has come.
    pub closed spec fn progress(self) -> Progress {
        Progress {
            current: self.current_sample as int,
            temp_end: self.temp_end as int,
            triggered: self.triggered,
        }
    }

    /// The numbers are those of a stream.
    pub open spec fn valid(self) -> bool {
        self.settings().valid() && self.progress().valid()
    }

    /// Tests that the positions computed for a reply are in range.
    pub fn fits(&self, reply: &Result<ModelReply, String>) -> (result: bool)
        requires
            self.valid(),
        ensures
            result == reply_in_range(self.settings(), self.progress(), *reply),
    {
        match reply {
            Ok(ModelReply { output, state: Some(state) }) => {
                if state.len() != STATE_LEN {
                    true
                } else if output.len() > 0 {
                    self.fits_probability(output[0])
                } else {
                    self.fits_probability(ZERO_BITS)
                }
            },
            _ => true,
        }
    }

    /// Tests that the positions computed for a probability are in range.
    fn fits_probability(&self, probability: u32) -> (result: bool)
        requires
            self.valid(),
        ensures
            result == advance_in_range(self.settings(), self.progress(), probability),
    {
        let block: i128 = self.block_size as i128;
        let pad: i128 = self.speech_pad_samples as i128;
        let next: i128 = self.current_sample as i128 + block;
        let release_bits: u32 = release_threshold(self.threshold);
        if !fits(next) {
            false
        } else if at_least(probability, self.threshold) {
            let earliest: i128 = next - pad - block;
            self.triggered || (fits(next - pad) && fits(earliest) && (earliest < 0 || fits(
                earliest * 1000,
            )))
        } else if !self.triggered {
            fits(next * 1000)
        } else if below(probability, release_bits) {
            let quiet_since: i128 = if self.temp_end == 0 {
                next
            } else {
                self.temp_end as i128
            };
            let end: i128 = quiet_since + pad - block;
            next - quiet_since < self.min_silence_samples as i128 || (fits(quiet_since + pad)
                && fits(end) && fits(end * 1000))
        } else {
            true
        }
    }
}

/// A chunk that fails, for its size or in the model, leaves the stream as it
/// was.
pub proof fn lemma_failed_chunk_leaves_no_trace<F>(
    infer: F,
    before: VadStream,
    payload: Seq<u8>,
    after: VadStream,
    result: Result<Option<VadEvent>, ServiceError>,
) where F: FnOnce(&InputRow, &StateTensor, &RateTensor) -> Result<ModelReply, String>
    requires
        chunk_outcome(infer, before, payload, after, result),
        result is Err,
    ensures
        after == before,
{
}

/// The state of the model has this many elements.
pub proof fn lemma_state_volume()
    ensures
        volume(state_axes()) == STATE_LEN,
{
    assert(state_axes().drop_last() =~= seq![2usize, 1usize]);
    assert(seq![2usize, 1usize].drop_last() =~= seq![2usize]);
    assert(seq![2usize].drop_last() =~= Seq::<usize>::empty());
    assert(volume(Seq::<usize>::empty()) == 1);
    assert(volume(seq![2usize]) == 2);
    assert(volume(seq![2usize, 1usize]) == 2);
}

} // verus!
