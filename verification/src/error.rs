//! What can go wrong while audio is processed.
use crate::text::{decimal, push_decimal, push_signed_decimal, signed_decimal};
use vstd::prelude::*;

verus! {

/// Why a chunk or a connection failed.
#[derive(Debug, PartialEq)]
pub enum ServiceError {
    /// A chunk on a connection has the wrong number of bytes.
    ChunkSize { got: usize, expected: usize },
    /// A chunk of a benchmark has the wrong number of bytes.
    BenchmarkChunkSize { sample_rate: i64, got: usize, expected: usize },
    /// The model runtime failed, with its own words.
    Runtime { message: String },
    /// The state that the model returned has no contiguous elements.
    StateNotContiguous,
    /// Elements do not fill an array, in the words of the array library.
    Shape { message: String },
    /// The connection failed while receiving, with its own words.
    Receive { message: String },
    /// Nothing was received for too long.
    IdleTimeout { seconds: u64 },
}

/// Wraps what the model runtime says of a failure.
pub fn ort_err(error: String) -> (result: ServiceError)
    ensures
        result == (ServiceError::Runtime { message: error }),
{
    ServiceError::Runtime { message: error }
}

/// The words for sizes that differ.
pub open spec fn sizes_text(got: nat, expected: nat) -> Seq<char> {
    ": got "@ + decimal(got) + " bytes, expected "@ + decimal(expected) + " bytes"@
}

impl ServiceError {
    /// The error in words.
    pub open spec fn text(self) -> Seq<char> {
        match self {
            ServiceError::ChunkSize { got, expected } => "invalid chunk size"@ + sizes_text(
                got as nat,
                expected as nat,
            ),
            ServiceError::BenchmarkChunkSize { sample_rate, got, expected } =>
                "invalid chunk size for "@ + signed_decimal(sample_rate as int) + " Hz"@
                + sizes_text(got as nat, expected as nat),
            ServiceError::Runtime { message } => message@,
            ServiceError::StateNotContiguous => "state output buffer is not contiguous"@,
            ServiceError::Shape { message } => message@,
            ServiceError::Receive { message } => "websocket receive failed: "@ + message@,
            ServiceError::IdleTimeout { seconds } => "idle timeout after "@ + decimal(
                seconds as nat,
            ) + " seconds"@,
        }
    }

    /// The error in words.
    pub fn message(&self) -> (words: String)
        ensures
            words@ == self.text(),
    {
        match self {
            ServiceError::ChunkSize { got, expected } => {
                let mut words: String = "invalid chunk size".to_owned();
                push_sizes(&mut words, *got, *expected);
                words
            },
            ServiceError::BenchmarkChunkSize { sample_rate, got, expected } => {
                let mut words: String = "invalid chunk size for ".to_owned();
                push_signed_decimal(&mut words, *sample_rate);
                words.append(" Hz");
                push_sizes(&mut words, *got, *expected);
                words
            },
            ServiceError::Runtime { message } => message.clone(),
            ServiceError::StateNotContiguous => "state output buffer is not contiguous".to_owned(),
            ServiceError::Shape { message } => message.clone(),
            ServiceError::Receive { message } => {
                let mut words: String = "websocket receive failed: ".to_owned();
                words.append(message.as_str());
                words
            },
            ServiceError::IdleTimeout { seconds } => {
                let mut words: String = "idle timeout after ".to_owned();
                push_decimal(&mut words, *seconds);
                words.append(" seconds");
                words
            },
        }
    }
}

/// Appends the words for sizes that differ.
fn push_sizes(words: &mut String, got: usize, expected: usize)
    ensures
        final(words)@ == old(words)@ + sizes_text(got as nat, expected as nat),
{
    words.append(": got ");
    push_decimal(words, got as u64);
    words.append(" bytes, expected ");
    push_decimal(words, expected as u64);
    words.append(" bytes");
    assert(words@ =~= old(words)@ + sizes_text(got as nat, expected as nat));
}

} // verus!
