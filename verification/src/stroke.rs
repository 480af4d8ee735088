//! Centreline tracing: thinning, stroke graphs, and Eulerian traversal.

pub mod skeleton;
pub mod graph;
pub mod traverse;
pub mod chain;
pub mod filter;
pub mod junctions;

use vstd::prelude::*;

verus! {

/// Where the ink mask of a trace comes from.
#[derive(Debug, Clone)]
pub enum InkSource {
    /// Adaptive thresholding of luminance.
    Luminance,
    /// A caller-supplied mask, one flag per pixel, row-major.
    Mask(Vec<bool>),
}

} // verus!
pub mod prune;
pub mod components;
