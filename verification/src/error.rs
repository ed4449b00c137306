//! What can go wrong with a request.

use vstd::prelude::*;

verus! {

/// The ways in which a request fails.
#[derive(Debug, Clone, Copy, PartialEq, Eq, Structural)]
pub enum BrokerError {
    /// The bytes are no text, or their first line lacks a method or a path.
    MalformedRequest,
    /// A queue of that name is there already.
    QueueAlreadyExists,
    /// No queue has that name.
    QueueNotFound,
}

} // verus!
