//! A client-side record of one point-to-point operation.

use vstd::prelude::*;

verus! {

/// The endpoints and tag of one requested operation.
#[derive(Debug, Clone, Default)]
pub struct MPIRequest {
    /// Source rank.
    pub src: Option<usize>,
    /// Destination rank.
    pub dest: Option<usize>,
    /// Matching tag.
    pub tag: Option<u64>,
}

impl MPIRequest {
    /// Record an operation between two ranks under a tag.
    pub fn new(src: usize, dest: usize, tag: u64) -> (r: MPIRequest)
        ensures
            r == (MPIRequest { src: Some(src), dest: Some(dest), tag: Some(tag) }),
    {
        MPIRequest { src: Some(src), dest: Some(dest), tag: Some(tag) }
    }
}

} // verus!
