//! The closed set of errors surfaced by consumer operations.

use vstd::prelude::*;

verus! {

/// An error reported by a consumer operation.
///
/// All variants are recoverable, typed results: no consumer operation
/// panics on a documented input, and no resource stays allocated on an
/// error path.
#[derive(Debug)]
pub enum KafkaError {
    /// The native engine failed to allocate or initialize a consumer
    /// handle.  Carries the engine's diagnostic text, decoded once at the
    /// boundary (truncated at the first terminator byte, invalid encoding
    /// replaced rather than rejected).  Fatal to that creation attempt.
    ConsumerCreationError(String),
    /// The engine rejected a subscription request.  Carries the topic
    /// name; the caller may retry or choose a different topic.
    SubscriptionError(String),
    /// A delivery-time error reported by the engine for one poll attempt,
    /// carrying the engine's error code.  The underlying record is always
    /// released before this error is returned.
    MessageConsumptionError(i32),
}

impl KafkaError {
    /// True when the error came from a failed consumer creation.
    pub fn is_creation_error(&self) -> (r: bool)
        ensures
            r == (self is ConsumerCreationError),
    {
        match self {
            KafkaError::ConsumerCreationError(_) => true,
            _ => false,
        }
    }
}

} // verus!
