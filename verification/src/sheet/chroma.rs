//! Binary ink masks, and the chroma rule that separates coloured ink from
//! grey text and white paper.

use vstd::prelude::*;
use crate::counting::{count_in, count_true, lemma_count_bounds};
use crate::raster::RasterImage;

verus! {

/// A row-major binary mask; `bits[y * width + x]` is pixel `(x, y)`.
#[derive(Debug, Clone)]
pub struct Mask {
    pub width: u32,
    pub height: u32,
    pub bits: Vec<bool>,
}

/// Thresholds of the chroma ink rule.
#[derive(Debug, Clone, Copy)]
pub struct ChromaConfig {
    pub sat_min: u8,
    pub value_max: u8,
    pub alpha_min: u8,
}

impl Default for ChromaConfig {
    fn default() -> (c: ChromaConfig)
        ensures
            c.sat_min == 90,
            c.value_max == 250,
            c.alpha_min == 10,
    {
        ChromaConfig { sat_min: 90, value_max: 250, alpha_min: 10 }
    }
}

impl Mask {
    /// Every in-bounds linear index `y * width + x` fits in a `u32`.
    pub open spec fn index_fits(&self) -> bool {
        (self.width as int) * (self.height as int) <= u32::MAX
    }

    /// The bits cover the whole `width x height` grid.
    pub open spec fn full(&self) -> bool {
        self.bits@.len() == (self.width as int) * (self.height as int)
    }

    /// The raw bit for `(x, y)`, meaningful for in-bounds coordinates of a
    /// full mask.
    pub open spec fn px(&self, x: int, y: int) -> bool {
        cell(self.bits@, self.width as int, x, y)
    }

    /// The value `get` reports: out-of-bounds coordinates and indices past
    /// the end of `bits` read as unset.
    pub open spec fn bit(&self, x: int, y: int) -> bool {
        if 0 <= x < self.width && 0 <= y < self.height && y * self.width + x < self.bits@.len() {
            self.px(x, y)
        } else {
            false
        }
    }

    /// Number of set bits.
    pub fn count(&self) -> (c: usize)
        ensures
            c == count_true(self.bits@),
    {
        let mut c: usize = 0;
        let mut i: usize = 0;
        let ghost f = |k: int| self.bits@[k];
        while i < self.bits.len()
            invariant
                i <= self.bits@.len(),
                c == count_in(f, 0, i as int),
                f == (|k: int| self.bits@[k]),
            decreases self.bits@.len() - i,
        {
            proof {
                lemma_count_bounds(f, 0, i as int + 1);
            }
            if self.bits[i] {
                c = c + 1;
            }
            i = i + 1;
        }
        c
    }

    /// The bit at `(x, y)`; coordinates outside the mask read as unset.
    pub fn get(&self, x: u32, y: u32) -> (b: bool)
        requires
            self.index_fits(),
        ensures
            b == self.bit(x as int, y as int),
    {
        if x >= self.width || y >= self.height {
            return false;
        }
        proof {
            lemma_index_in(self.width as int, self.height as int, x as int, y as int);
        }
        let idx = (y * self.width + x) as usize;
        if idx < self.bits.len() {
            self.bits[idx]
        } else {
            false
        }
    }
}

/// Entry `(x, y)` of a row-major grid of width `w`.
pub open spec fn cell<T>(s: Seq<T>, w: int, x: int, y: int) -> T {
    s[y * w + x]
}

/// `y * w + x` is a valid linear index of a `w x h` grid.
pub proof fn lemma_index_in(w: int, h: int, x: int, y: int)
    requires
        0 <= x < w,
        0 <= y < h,
    ensures
        0 <= y * w,
        0 <= y * w + x < w * h,
        y * w + w <= w * h,
        w * h == h * w,
{
    assert(0 <= y * w) by (nonlinear_arith)
        requires y >= 0, w >= 0;
    assert(y * w + w <= w * h) by (nonlinear_arith)
        requires y + 1 <= h, w >= 0;
}

pub open spec fn max3(r: u8, g: u8, b: u8) -> int {
    if r >= g && r >= b {
        r as int
    } else if g >= b {
        g as int
    } else {
        b as int
    }
}

pub open spec fn min3(r: u8, g: u8, b: u8) -> int {
    if r <= g && r <= b {
        r as int
    } else if g <= b {
        g as int
    } else {
        b as int
    }
}

pub fn max_channel(r: u8, g: u8, b: u8) -> (m: u8)
    ensures
        m == max3(r, g, b),
{
    let m = if r >= g { r } else { g };
    if m >= b { m } else { b }
}

pub fn min_channel(r: u8, g: u8, b: u8) -> (m: u8)
    ensures
        m == min3(r, g, b),
{
    let m = if r <= g { r } else { g };
    if m <= b { m } else { b }
}

/// Saturation proxy of an RGB colour: the spread between its largest and
/// smallest channel.
pub fn saturation(r: u8, g: u8, b: u8) -> (s: u8)
    ensures
        s == max3(r, g, b) - min3(r, g, b),
{
    max_channel(r, g, b) - min_channel(r, g, b)
}

/// The chroma ink rule for one RGBA pixel: visible, saturated, and not
/// near-white.
pub open spec fn chroma_ink(r: u8, g: u8, b: u8, a: u8, cfg: ChromaConfig) -> bool {
    a >= cfg.alpha_min && max3(r, g, b) - min3(r, g, b) >= cfg.sat_min && max3(r, g, b)
        <= cfg.value_max
}

/// Chroma ink rule applied to quadruple `i` of an RGBA buffer.
pub open spec fn chroma_ink_at(p: Seq<u8>, i: int, cfg: ChromaConfig) -> bool {
    chroma_ink(p[4 * i], p[4 * i + 1], p[4 * i + 2], p[4 * i + 3], cfg)
}

/// The chroma ink mask of an image: one bit per whole RGBA quadruple.
pub fn chroma_mask(image: &RasterImage, cfg: &ChromaConfig) -> (m: Mask)
    ensures
        m.width == image.width,
        m.height == image.height,
        m.bits@.len() == image.pixels@.len() / 4,
        forall|i: int|
            0 <= i < m.bits@.len() ==> #[trigger] m.bits@[i] == chroma_ink_at(image.pixels@, i, *cfg),
{
    let total = image.pixels.len();
    let n = total / 4;
    let mut bits: Vec<bool> = Vec::new();
    let mut i: usize = 0;
    while i < n
        invariant
            total == image.pixels@.len(),
            n == image.pixels@.len() / 4,
            n * 4 <= total,
            i <= n,
            bits@.len() == i,
            forall|k: int| 0 <= k < i ==> #[trigger] bits@[k] == chroma_ink_at(image.pixels@, k, *cfg),
        decreases n - i,
    {
        let r = image.pixels[4 * i];
        let g = image.pixels[4 * i + 1];
        let b = image.pixels[4 * i + 2];
        let a = image.pixels[4 * i + 3];
        let is_ink = a >= cfg.alpha_min && saturation(r, g, b) >= cfg.sat_min && max_channel(r, g, b)
            <= cfg.value_max;
        bits.push(is_ink);
        i = i + 1;
    }
    Mask { width: image.width, height: image.height, bits }
}

/// The chroma ink rule in plain terms: a pixel is ink exactly when its alpha
/// reaches `alpha_min`, none of its colour channels exceeds `value_max`, and
/// some two of its channels differ by at least `sat_min`.
pub proof fn law_chroma_ink_rule(p: Seq<u8>, i: int, cfg: ChromaConfig)
    ensures
        ({
            let r = p[4 * i] as int;
            let g = p[4 * i + 1] as int;
            let b = p[4 * i + 2] as int;
            let a = p[4 * i + 3];
            let s = cfg.sat_min as int;
            chroma_ink_at(p, i, cfg) <==> (a >= cfg.alpha_min && r <= cfg.value_max && g <= cfg.value_max && b
                <= cfg.value_max && (r - g >= s || g - r >= s || r - b >= s || b - r >= s || g - b >= s || b - g >= s))
        }),
{
}

} // verus!
