//! Backend-agnostic axis algebra for tensor rearrangement.
//!
//! The crate offers a tensor handle backed by a numeric engine together with
//! the four axis-transforming operations that rearrange expressions compose:
//! reshape, transpose, multi-axis reduction and axis broadcasting.  Every
//! operation is a pure transformation that returns a fresh handle and never
//! mutates its input.  The axis bookkeeping (shapes, index spaces, error
//! conditions) is specified and verified here; the engine performs the data
//! movement and arithmetic behind a small trusted boundary.

use vstd::prelude::*;

pub mod algebra;
pub mod backend;
pub mod error;
pub mod laws;
pub mod plan;

pub use backend::candle::CandleTensor;
pub use error::EinopsError;
pub use plan::AxisOperation;
pub use plan::apply_plan;

verus! {

/// Specifies the operation used to reduce an axis
#[derive(Copy, Clone, Debug)]
pub enum Operation {
    /// Take the minimum value
    Min,
    /// Take the maximum value
    Max,
    /// Add all elements
    Sum,
    /// Take the average
    Mean,
    /// Multiply all elements
    Prod,
}

} // verus!
