//! Object masks from a segmentation model, and the errors of running one.

use vstd::prelude::*;

verus! {

/// A per-pixel coverage mask (0-255, row-major) for one segmented object.
#[derive(Debug, Clone)]
pub struct Mask {
    pub id: String,
    pub width: u32,
    pub height: u32,
    pub pixels: Vec<u8>,
}

impl Mask {
    /// One coverage value per pixel.
    pub open spec fn wf(&self) -> bool {
        self.pixels.len() == (self.width as int) * (self.height as int)
    }
}

/// Failures of loading or running a segmentation model.
#[derive(Debug, Clone, PartialEq, Eq)]
pub enum SamError {
    ModelLoad(String),
    Inference(String),
    Shape(String),
}

/// Foreground pixels of two masks (coverage of at least 128): how many are
/// foreground in both, and how many in either, over their common length.
pub fn mask_overlap(a: &[u8], b: &[u8]) -> (r: (u64, u64))
    ensures
        r.0 == overlap_count(a@, b@, true),
        r.1 == overlap_count(a@, b@, false),
        r.0 <= r.1,
{
    let n = if a.len() < b.len() { a.len() } else { b.len() };
    let mut both: u64 = 0;
    let mut either: u64 = 0;
    let mut i: usize = 0;
    while i < n
        invariant
            n <= a.len(),
            n <= b.len(),
            n == min_len(a@, b@),
            i <= n,
            both == crate::counting::count_in(|k: int| a@[k] >= 128 && b@[k] >= 128, 0, i as int),
            either == crate::counting::count_in(|k: int| a@[k] >= 128 || b@[k] >= 128, 0, i as int),
            both <= either,
            either <= i,
        decreases n - i,
    {
        let fa = a[i] >= 128;
        let fb = b[i] >= 128;
        if fa || fb {
            either = either + 1;
            if fa && fb {
                both = both + 1;
            }
        }
        i = i + 1;
    }
    (both, either)
}

pub open spec fn min_len(a: Seq<u8>, b: Seq<u8>) -> int {
    if a.len() < b.len() { a.len() as int } else { b.len() as int }
}

/// Number of positions, over the common length, where both (`both`) or
/// either (`!both`) of the masks is foreground.
pub open spec fn overlap_count(a: Seq<u8>, b: Seq<u8>, both: bool) -> nat {
    if both {
        crate::counting::count_in(|k: int| a[k] >= 128 && b[k] >= 128, 0, min_len(a, b))
    } else {
        crate::counting::count_in(|k: int| a[k] >= 128 || b[k] >= 128, 0, min_len(a, b))
    }
}

} // verus!

pub mod grouping;
