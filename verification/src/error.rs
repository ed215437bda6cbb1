//! The failure conditions of the axis-algebra operations.

use vstd::prelude::*;

verus! {

/// Why an axis-algebra operation refused its arguments.
///
/// Every operation fails fast: the error is returned to the immediate caller
/// and the source tensor is left untouched.
#[derive(Copy, Clone, Debug, PartialEq, Eq, Structural)]
pub enum EinopsError {
    /// A reshape was requested with a different element count than the source.
    ShapeMismatch,
    /// A transpose was given a sequence that is not a bijection over `[0, rank)`.
    InvalidPermutation,
    /// An axis index or insertion position outside the valid range was given
    /// to a reduce or broadcast call.
    InvalidAxis,
    /// A reduction kind that is declared but not implemented by the engine.
    UnsupportedOperation,
    /// Broadcast insertions that do not reconcile with the declared target rank.
    RankMismatch,
}

} // verus!
