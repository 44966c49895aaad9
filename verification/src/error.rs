//! The ways an operation of the fill can be refused.

use vstd::prelude::*;

verus! {

#[derive(Clone, Copy, Debug, PartialEq, Eq, Structural)]
pub enum FillError {
    /// A coordinate lies outside `[0, width) x [0, height)`.
    OutOfBounds,
    /// A draw was asked of a frontier that holds nothing.
    EmptyFrontier,
    /// A supplied draw names no frontier entry, or perturbs a channel by
    /// more than the randomness bound.
    InvalidDraw,
}

} // verus!
