//! A tile-rotation puzzle: a wave function collapse generator lays out
//! pipe-like tiles on a small grid, shuffles their rotations, and the
//! player turns them until every connection meets its neighbour again.
//! This crate holds the verified logic; windowing, input and floating-point
//! animation live in the program around it.
use vstd::prelude::*;

pub mod app;
pub mod direction;
pub mod sprite;
pub mod wave_function_collapse;
pub mod wfc;

verus! {

/// Row-major index of the cell `(x, y)` in a grid that is `width` cells wide.
pub fn idx(x: usize, y: usize, width: usize) -> (r: usize)
    requires
        y * width + x <= usize::MAX,
    ensures
        r == y * width + x,
{
    y * width + x
}

} // verus!
