//! What the service tells its clients.
use vstd::prelude::*;

verus! {

/// The sample format that a client has to send.
pub const PCM_FORMAT: &'static str = "pcm_s16le_mono";

/// An event that is sent to a client. Probabilities are bit patterns of
/// single-precision numbers.
#[derive(Debug, PartialEq)]
pub enum VadEvent {
    Ready { sample_rate: i64, chunk_samples: usize, format: &'static str },
    SpeechStart { audio_time_ms: i64, probability: u32 },
    SpeechEnd { audio_time_ms: i64, probability: u32 },
    Silence { audio_time_ms: i64, probability: u32 },
    Error { message: String },
}

/// The answer to a health request.
#[derive(Debug, PartialEq)]
pub struct HealthResponse {
    pub status: &'static str,
    pub runtime: &'static str,
    pub active_connections: usize,
    pub max_connections: usize,
    pub sample_rate: i64,
    pub chunk_samples: usize,
}

} // verus!
