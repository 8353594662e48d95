//! What the functions of the library do, stated of their contracts in terms of
//! what goes in and what comes out.

pub mod audio;
pub mod benchmark_flags;
pub mod benchmarking;
pub mod connection;
pub mod numbers;
pub mod service_flags;
pub mod streaming;
pub mod timing;
