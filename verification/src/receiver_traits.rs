//! Reading a delivered payload out of a pending operation.

use vstd::prelude::*;

use crate::comm_request::Extract;

verus! {

/// A handle on an operation whose reply arrives later: poll it for the
/// delivered payload, or block until the payload is there. Implemented
/// by the surrounding program over whatever channel carries replies.
pub trait Message {
    /// The request type the reply is wrapped in.
    type T: Extract;

    /// The delivered payload, if the reply has already arrived.
    fn data(&self) -> Option<<Self::T as Extract>::DType>;

    /// Block until the reply arrives and hand out its payload.
    fn wait(&self) -> Option<<Self::T as Extract>::DType>;
}

} // verus!
