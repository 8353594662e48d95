//! The chunk benchmark: its settings, the audio that is fed, the two ways to
//! process a chunk, and what is told of the times they took.

pub mod chunk;
pub mod config;
pub mod run;
pub mod state;
pub mod times;
