//! A voice activity detection service: the audio window that a speech model
//! reads, the detector that turns its probabilities into events, the settings,
//! the connections, and a benchmark.

pub mod args;
pub mod bench;
pub mod config;
pub mod detector;
pub mod double;
pub mod error;
pub mod event;
pub mod flags;
pub mod gate;
pub mod history;
pub mod laws;
pub mod pcm;
pub mod replay;
pub mod session;
pub mod single;
pub mod stream;
pub mod tensor;
pub mod text;
pub mod threshold;
