//! Error taxonomy of the store and of the request layer.

use vstd::prelude::*;

verus! {

/// Failures surfaced by the co-store itself.
#[derive(Clone, Copy, PartialEq, Eq, Structural, Debug)]
pub enum StoreError {
    /// The requested id has no entry in the offset table.
    NotFound,
    /// A metadata line exists at the requested offset but is not a
    /// well-formed record encoding.
    CorruptData,
    /// The vector log and the metadata log do not describe the same
    /// number of records, or the metadata log ends in an incomplete
    /// line.  This is the operator-visible, fatal condition left behind
    /// by a failure between the two log writes of an append; it is
    /// detected when a store is opened and never silently tolerated.
    Misaligned,
}

/// Failures surfaced to API callers by the orchestrator.
#[derive(Debug)]
pub enum ApiError {
    /// Caller-supplied data violates a precondition; never retried.
    ValidationError(String),
    /// Any other failure, with a textual reason.
    InternalError(String),
}

} // verus!
