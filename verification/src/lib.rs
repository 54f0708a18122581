//! A tensor-algebra engine for differential-geometry computation.
//!
//! Tensors are anchored at a point of a coordinate system, carry a variance
//! descriptor (one covariant or contravariant kind per index slot), and store
//! their components densely in row-major order (the last index varies
//! fastest).  The algebraic operations — componentwise arithmetic,
//! contraction, tensor product, inner product, transpose, and re-expression
//! of components under a coordinate change — are verified against exact
//! mathematical models of that flattened encoding.

use vstd::prelude::*;

pub mod algebra;
pub mod convert;
pub mod indexing;
pub mod laws;
pub mod matrix;
pub mod point;
pub mod tensor;
pub mod variance;

verus! {

/// The ways a tensor operation can be misused.  Shape and index misuse is
/// reported through these values rather than tolerated silently.
#[derive(Clone, Copy, Debug, PartialEq, Eq, Structural)]
pub enum TensorError {
    /// A component array or a descriptor does not match the expected
    /// dimension-and-rank shape.
    ShapeMismatch,
    /// A multi-index has the wrong length or a component at or beyond the
    /// dimension, or a flat offset is at or beyond the component count.
    IndexOutOfBounds,
    /// Two tensors anchored at different points were combined.
    IncompatiblePoints,
    /// A contraction was requested over slots that are not two distinct,
    /// ordered slots of opposite kinds.
    InvalidContraction,
}

} // verus!
