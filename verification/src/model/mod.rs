//! The model, as far as it is a matter of shapes, positions and counts.
use vstd::prelude::*;

pub mod attention;
pub mod builder;
pub mod gpt;
pub mod kv;
pub mod loss;
pub mod rope;
pub mod tensor;

verus! {

/// Why a step of the model cannot be taken.
#[derive(Debug)]
pub enum ModelError {
    /// A cache without layers.
    NoLayers,
    /// A tensor does not have the number of dimensions that it should.
    Rank,
    /// The dimensions of tensors do not go together.
    Shape,
    /// The elements of tensors are of different types.
    Types,
    /// A sequence without positions.
    EmptySequence,
    /// A batch of size zero.
    EmptyBatch,
    /// Heads are of the first size, and should be of the second.
    HeadDim(usize, usize),
    /// The positions from the first up to the second are past the third.
    Positions(usize, usize, usize),
    /// There are keys for the second number of positions, and should be for the first.
    CacheLength(usize, usize),
    /// A batch of the first size cannot be turned into one of the second.
    BatchChange(usize, usize),
    /// An operation on tensors failed.
    Backend(candle_core::Error),
}

} // verus!
