//! The failure taxonomy shared by allocation, placement, removal and input
//! validation. All variants are recoverable and reported to the caller.

use vstd::prelude::*;

verus! {

/// Why an operation on the warehouse could not be carried out.
#[derive(Clone, Copy, PartialEq, Eq, Structural, Debug)]
pub enum WarehouseError {
    /// Allocation exhausted the search space without a qualifying candidate.
    NoCapacity,
    /// A malformed or out-of-range quality parameter, e.g. a zero or
    /// overlarge contiguous-zone requirement.
    InvalidConstraint,
    /// The post-allocation re-check failed; defensive, unreachable while the
    /// allocation engine meets its contract.
    ConstraintViolation,
    /// The removal or lookup target is absent.
    NotFound,
    /// Malformed textual input from a caller.
    InvalidInput,
}

} // verus!
