//! Bounding boxes, morphological dilation, and connected ink clusters.

use vstd::prelude::*;
use crate::counting::{
    clipped_len, count_in, lemma_count_bounds, lemma_count_ext, lemma_count_front, lemma_count_interval,
    lemma_count_pos, lemma_sum_interval, sum_in,
};
use crate::sheet::chroma::{cell, lemma_index_in, Mask};
use crate::stroke::graph::{index_of, lemma_offset_of, lit, off_x, off_y, raster_before, touching};

verus! {

/// An axis-aligned box; `x2`/`y2` are exclusive.
#[derive(Debug, Clone, Copy, PartialEq, Eq, Structural)]
pub struct Bbox {
    pub x1: u32,
    pub y1: u32,
    pub x2: u32,
    pub y2: u32,
}

pub open spec fn sat_sub(a: u32, b: u32) -> u32 {
    if a >= b { (a - b) as u32 } else { 0 }
}

pub open spec fn min_u32(a: u32, b: u32) -> u32 {
    if a <= b { a } else { b }
}

pub open spec fn max_u32(a: u32, b: u32) -> u32 {
    if a >= b { a } else { b }
}

/// Pixels covered by a box.
pub open spec fn box_area(b: Bbox) -> int {
    (b.spec_width() as int) * (b.spec_height() as int)
}

/// The spans of the two boxes cross on both axes (for non-empty boxes: they
/// share a pixel).
pub open spec fn box_overlaps(a: Bbox, b: Bbox) -> bool {
    a.x1 < b.x2 && b.x1 < a.x2 && a.y1 < b.y2 && b.y1 < a.y2
}

/// Columns shared by the two boxes.
pub open spec fn overlap_width(a: Bbox, b: Bbox) -> int {
    let lo = max_u32(a.x1, b.x1);
    let hi = min_u32(a.x2, b.x2);
    if lo < hi { hi - lo } else { 0 }
}

/// Rows shared by the two boxes.
pub open spec fn overlap_height(a: Bbox, b: Bbox) -> int {
    let lo = max_u32(a.y1, b.y1);
    let hi = min_u32(a.y2, b.y2);
    if lo < hi { hi - lo } else { 0 }
}

/// Area of the overlap of two boxes.
pub open spec fn overlap_area(a: Bbox, b: Bbox) -> int {
    overlap_width(a, b) * overlap_height(a, b)
}

impl Bbox {
    pub open spec fn spec_width(&self) -> u32 {
        sat_sub(self.x2, self.x1)
    }

    pub open spec fn spec_height(&self) -> u32 {
        sat_sub(self.y2, self.y1)
    }

    /// Columns spanned, 0 for an inverted box.
    pub fn width(&self) -> (w: u32)
        ensures
            w == self.spec_width(),
    {
        if self.x2 >= self.x1 { self.x2 - self.x1 } else { 0 }
    }

    /// Rows spanned, 0 for an inverted box.
    pub fn height(&self) -> (h: u32)
        ensures
            h == self.spec_height(),
    {
        if self.y2 >= self.y1 { self.y2 - self.y1 } else { 0 }
    }

    /// Pixels covered.
    pub fn area(&self) -> (a: u64)
        ensures
            a == box_area(*self),
    {
        let w = self.width() as u64;
        let h = self.height() as u64;
        proof {
            assert(w * h <= (u32::MAX as int) * (u32::MAX as int)) by (nonlinear_arith)
                requires w <= u32::MAX, h <= u32::MAX;
        }
        w * h
    }

    /// The two boxes share an interior pixel.
    pub fn intersects(&self, other: &Bbox) -> (b: bool)
        ensures
            b == box_overlaps(*self, *other),
    {
        self.x1 < other.x2 && other.x1 < self.x2 && self.y1 < other.y2 && other.y1 < self.y2
    }

    /// Area of the overlap, 0 when disjoint.
    pub fn intersection_area(&self, other: &Bbox) -> (a: u64)
        ensures
            a == overlap_area(*self, *other),
    {
        let ix1 = if self.x1 >= other.x1 { self.x1 } else { other.x1 };
        let ix2 = if self.x2 <= other.x2 { self.x2 } else { other.x2 };
        let iy1 = if self.y1 >= other.y1 { self.y1 } else { other.y1 };
        let iy2 = if self.y2 <= other.y2 { self.y2 } else { other.y2 };
        if ix1 < ix2 && iy1 < iy2 {
            let w = (ix2 - ix1) as u64;
            let h = (iy2 - iy1) as u64;
            proof {
                assert(w * h <= (u32::MAX as int) * (u32::MAX as int)) by (nonlinear_arith)
                    requires w <= u32::MAX, h <= u32::MAX;
            }
            w * h
        } else {
            assert(overlap_width(*self, *other) == 0 || overlap_height(*self, *other) == 0);
            0
        }
    }

    /// Smallest box containing both.
    pub fn union(&self, other: &Bbox) -> (u: Bbox)
        ensures
            u == (Bbox {
                x1: min_u32(self.x1, other.x1),
                y1: min_u32(self.y1, other.y1),
                x2: max_u32(self.x2, other.x2),
                y2: max_u32(self.y2, other.y2),
            }),
    {
        Bbox {
            x1: if self.x1 <= other.x1 { self.x1 } else { other.x1 },
            y1: if self.y1 <= other.y1 { self.y1 } else { other.y1 },
            x2: if self.x2 >= other.x2 { self.x2 } else { other.x2 },
            y2: if self.y2 >= other.y2 { self.y2 } else { other.y2 },
        }
    }

    /// `(x, y)` lies inside the box.
    pub fn contains_point(&self, x: u32, y: u32) -> (b: bool)
        ensures
            b == (self.x1 <= x < self.x2 && self.y1 <= y < self.y2),
    {
        x >= self.x1 && x < self.x2 && y >= self.y1 && y < self.y2
    }
}

/// One connected ink cluster: the tight box of its original (undilated)
/// ink pixels, and how many there are.
#[derive(Debug, Clone, Copy, PartialEq, Eq, Structural)]
pub struct Cluster {
    pub bbox: Bbox,
    pub pixels: u32,
}

/// Row-major order of boxes by `(y1, x1, y2, x2)`, not strict.
pub open spec fn box_le(a: Bbox, b: Bbox) -> bool {
    a.y1 < b.y1 || (a.y1 == b.y1 && (a.x1 < b.x1 || (a.x1 == b.x1 && (a.y2 < b.y2 || (a.y2 == b.y2 && a.x2 <= b.x2)))))
}

fn box_lt_exec(a: &Bbox, b: &Bbox) -> (r: bool)
    ensures
        r == !box_le(*b, *a),
{
    a.y1 < b.y1 || (a.y1 == b.y1 && (a.x1 < b.x1 || (a.x1 == b.x1 && (a.y2 < b.y2 || (a.y2 == b.y2 && a.x2 < b.x2)))))
}

/// The elements of `s` sorted by `key_of`, stably.
pub open spec fn boxes_sorted(s: Seq<Bbox>) -> bool {
    forall|i: int, j: int| 0 <= i < j < s.len() ==> box_le(#[trigger] s[i], #[trigger] s[j])
}

/// `v` sorted by `(y1, x1, y2, x2)`; equal boxes keep their order.
pub fn sort_boxes(v: &Vec<Bbox>) -> (r: Vec<Bbox>)
    ensures
        boxes_sorted(r@),
        r@.to_multiset() == v@.to_multiset(),
{
    let mut r: Vec<Bbox> = Vec::new();
    let mut k: usize = 0;
    assert(r@ =~= v@.subrange(0, 0));
    while k < v.len()
        invariant
            k <= v.len(),
            boxes_sorted(r@),
            r@.to_multiset() == v@.subrange(0, k as int).to_multiset(),
        decreases v.len() - k,
    {
        let t = v[k];
        let mut i: usize = 0;
        while i < r.len() && !box_lt_exec(&t, &r[i])
            invariant
                i <= r.len(),
                forall|a: int| 0 <= a < i ==> box_le(#[trigger] r@[a], t),
            decreases r.len() - i,
        {
            i = i + 1;
        }
        let ghost pre = r@;
        r.insert(i, t);
        proof {
            assert(r@ == pre.insert(i as int, t));
            assert forall|a: int, b: int| 0 <= a < b < r.len() implies box_le(#[trigger] r@[a], #[trigger] r@[b]) by {
                if b < i {
                } else if b == i {
                } else if a < i {
                    assert(box_le(pre[i as int], pre[b - 1]) || b - 1 == i);
                } else if a == i {
                    assert(box_le(pre[i as int], pre[b - 1]) || b - 1 == i);
                } else {
                    assert(box_le(pre[a - 1], pre[b - 1]));
                }
            }
            assert(v@.subrange(0, k + 1) == v@.subrange(0, k as int).push(t));
            vstd::seq_lib::to_multiset_insert(pre, i as int, t);
            vstd::seq_lib::to_multiset_build(v@.subrange(0, k as int), t);
        }
        k = k + 1;
    }
    assert(v@.subrange(0, v.len() as int) == v@);
    r
}

/// Clustering parameters.
#[derive(Debug, Clone, Copy)]
pub struct ClusterConfig {
    /// Chebyshev dilation radius applied before labelling.
    pub dilate: u32,
    /// Clusters with fewer original ink pixels are dropped as noise.
    pub min_pixels: u32,
}

impl Default for ClusterConfig {
    fn default() -> (c: ClusterConfig)
        ensures
            c.dilate == 3,
            c.min_pixels == 12,
    {
        ClusterConfig { dilate: 3, min_pixels: 12 }
    }
}

/// Some bit of row `y` lies within `r` columns of `x`.
pub open spec fn row_hit(bits: Seq<bool>, w: int, r: int, x: int, y: int) -> bool {
    exists|xx: int| 0 <= xx < w && x - r <= xx <= x + r && #[trigger] cell(bits, w, xx, y)
}

/// Some bit of column `x` lies within `r` rows of `y`.
pub open spec fn col_hit(bits: Seq<bool>, w: int, h: int, r: int, x: int, y: int) -> bool {
    exists|yy: int| 0 <= yy < h && y - r <= yy <= y + r && #[trigger] cell(bits, w, x, yy)
}

/// The Chebyshev dilation of `mask` by `r` at `(x, y)`: some set pixel lies
/// within `r` in both axes.
pub open spec fn dilated_bit(mask: &Mask, r: int, x: int, y: int) -> bool {
    exists|xx: int, yy: int|
        0 <= xx < mask.width && 0 <= yy < mask.height && x - r <= xx <= x + r && y - r <= yy <= y
            + r && #[trigger] mask.px(xx, yy)
}

pub open spec fn lo_win(x: int, r: int) -> int {
    if x - r >= 0 { x - r } else { 0 }
}

pub open spec fn hi_win(x: int, r: int, n: int) -> int {
    if x + r + 1 <= n { x + r + 1 } else { n }
}

proof fn lemma_window_hit(f: spec_fn(int) -> bool, x: int, r: int, n: int)
    requires
        0 <= x < n,
        r >= 0,
    ensures
        count_in(f, lo_win(x, r), hi_win(x, r, n)) > 0 <==> exists|i: int|
            0 <= i < n && x - r <= i <= x + r && #[trigger] f(i),
{
    lemma_count_pos(f, lo_win(x, r), hi_win(x, r, n));
    if exists|i: int| 0 <= i < n && x - r <= i <= x + r && #[trigger] f(i) {
        let i = choose|i: int| 0 <= i < n && x - r <= i <= x + r && #[trigger] f(i);
        assert(lo_win(x, r) <= i < hi_win(x, r, n) && f(i));
    }
}

proof fn lemma_row_window(bits: Seq<bool>, w: int, r: int, x: int, y: int)
    requires
        0 <= x < w,
        r >= 0,
    ensures
        count_in(|i: int| cell(bits, w, i, y), lo_win(x, r), hi_win(x, r, w)) > 0 <==> row_hit(
            bits,
            w,
            r,
            x,
            y,
        ),
{
    let f = |i: int| cell(bits, w, i, y);
    lemma_window_hit(f, x, r, w);
    if row_hit(bits, w, r, x, y) {
        let xx = choose|xx: int| 0 <= xx < w && x - r <= xx <= x + r && #[trigger] cell(bits, w, xx, y);
        assert(f(xx));
    }
    if count_in(f, lo_win(x, r), hi_win(x, r, w)) > 0 {
        let i = choose|i: int| 0 <= i < w && x - r <= i <= x + r && #[trigger] f(i);
        assert(cell(bits, w, i, y));
    }
}

proof fn lemma_col_window(bits: Seq<bool>, w: int, h: int, r: int, x: int, y: int)
    requires
        0 <= y < h,
        r >= 0,
    ensures
        count_in(|i: int| cell(bits, w, x, i), lo_win(y, r), hi_win(y, r, h)) > 0 <==> col_hit(
            bits,
            w,
            h,
            r,
            x,
            y,
        ),
{
    let f = |i: int| cell(bits, w, x, i);
    lemma_window_hit(f, y, r, h);
    if col_hit(bits, w, h, r, x, y) {
        let yy = choose|yy: int| 0 <= yy < h && y - r <= yy <= y + r && #[trigger] cell(bits, w, x, yy);
        assert(f(yy));
    }
    if count_in(f, lo_win(y, r), hi_win(y, r, h)) > 0 {
        let i = choose|i: int| 0 <= i < h && y - r <= i <= y + r && #[trigger] f(i);
        assert(cell(bits, w, x, i));
    }
}

/// Horizontal sliding-window pass: entry `(x, y)` is set when row `y` of
/// `bits` has a set bit within `r` columns.
fn dilate_rows(bits: &Vec<bool>, w: usize, h: usize, r: usize) -> (out: Vec<bool>)
    requires
        w > 0,
        h > 0,
        bits@.len() >= w * h,
    ensures
        out@.len() == w * h,
        forall|x: int, y: int|
            0 <= x < w && 0 <= y < h ==> #[trigger] cell(out@, w as int, x, y) == row_hit(
                bits@,
                w as int,
                r as int,
                x,
                y,
            ),
{
    let total = bits.len();
    let mut out: Vec<bool> = Vec::new();
    let mut y: usize = 0;
    while y < h
        invariant
            w > 0,
            total == bits@.len(),
            bits@.len() >= w * h,
            y <= h,
            out@.len() == y * w,
            forall|xx: int, yy: int|
                0 <= xx < w && 0 <= yy < y ==> #[trigger] cell(out@, w as int, xx, yy) == row_hit(
                    bits@,
                    w as int,
                    r as int,
                    xx,
                    yy,
                ),
        decreases h - y,
    {
        proof {
            lemma_index_in(w as int, h as int, 0, y as int);
        }
        let row_offset = y * w;
        let ghost f = |i: int| cell(bits@, w as int, i, y as int);
        let ghost out0 = out@;
        let init_end = if r < w - 1 { r } else { w - 1 };
        let mut active: usize = 0;
        let mut i: usize = 0;
        while i <= init_end
            invariant
                init_end < w,
                total == bits@.len(),
                i <= init_end + 1,
                row_offset == y * w,
                row_offset + w <= bits@.len(),
                f == (|i: int| cell(bits@, w as int, i, y as int)),
                active == count_in(f, 0, i as int),
            decreases init_end + 1 - i,
        {
            proof {
                lemma_count_bounds(f, 0, i as int + 1);
            }
            if bits[row_offset + i] {
                active = active + 1;
            }
            i = i + 1;
        }
        proof {
            assert(lo_win(0, r as int) == 0);
            assert(hi_win(0, r as int, w as int) == init_end + 1);
            lemma_row_window(bits@, w as int, r as int, 0, y as int);
        }
        out.push(active > 0);
        assert(cell(out@, w as int, 0, y as int) == row_hit(bits@, w as int, r as int, 0, y as int));
        let mut x: usize = 1;
        while x < w
            invariant
                1 <= x <= w,
                total == bits@.len(),
                row_offset == y * w,
                row_offset + w <= bits@.len(),
                f == (|i: int| cell(bits@, w as int, i, y as int)),
                active == count_in(f, lo_win(x - 1, r as int), hi_win(x - 1, r as int, w as int)),
                out@.len() == y * w + x,
                forall|k: int| 0 <= k < y * w ==> out@[k] == out0[k],
                out0.len() == y * w,
                forall|xx: int|
                    0 <= xx < x ==> #[trigger] cell(out@, w as int, xx, y as int) == row_hit(
                        bits@,
                        w as int,
                        r as int,
                        xx,
                        y as int,
                    ),
            decreases w - x,
        {
            let ghost lo0 = lo_win(x - 1, r as int);
            let ghost hi0 = hi_win(x - 1, r as int, w as int);
            proof {
                lemma_count_bounds(f, lo0, hi0);
            }
            if r < w && x < w - r {
                let right = x + r;
                proof {
                    assert(hi0 == right);
                    assert(count_in(f, lo0, right as int + 1) == count_in(f, lo0, right as int) + if f(right as int) { 1nat } else { 0nat });
                    lemma_count_bounds(f, lo0, right as int + 1);
                }
                if bits[row_offset + right] {
                    active = active + 1;
                }
            }
            let ghost mid_hi = hi_win(x as int, r as int, w as int);
            assert(active == count_in(f, lo0, mid_hi));
            if x > r {
                let left = x - r - 1;
                proof {
                    assert(lo0 == left);
                    lemma_count_front(f, lo0, mid_hi);
                }
                if bits[row_offset + left] {
                    active = active - 1;
                }
            }
            assert(active == count_in(f, lo_win(x as int, r as int), mid_hi));
            proof {
                lemma_row_window(bits@, w as int, r as int, x as int, y as int);
            }
            let ghost before = out@;
            out.push(active > 0);
            proof {
                assert forall|xx: int| 0 <= xx < x + 1 implies #[trigger] cell(out@, w as int, xx, y as int)
                    == row_hit(bits@, w as int, r as int, xx, y as int) by {
                    if xx < x {
                        assert(cell(before, w as int, xx, y as int) == row_hit(bits@, w as int, r as int, xx, y as int));
                    }
                }
            }
            x = x + 1;
        }
        proof {
            assert forall|xx: int, yy: int|
                0 <= xx < w && 0 <= yy < y + 1 implies #[trigger] cell(out@, w as int, xx, yy) == row_hit(
                    bits@,
                    w as int,
                    r as int,
                    xx,
                    yy,
                ) by {
                lemma_index_in(w as int, (y + 1) as int, xx, yy);
                if yy < y {
                    lemma_index_in(w as int, y as int, xx, yy);
                    assert(out@[yy * w + xx] == out0[yy * w + xx]);
                    assert(cell(out0, w as int, xx, yy) == row_hit(bits@, w as int, r as int, xx, yy));
                }
            }
            assert((y + 1) * w == y * w + w) by (nonlinear_arith);
        }
        y = y + 1;
    }
    assert(y * w == w * h) by (nonlinear_arith)
        requires y == h;
    out
}

pub proof fn lemma_index_inj(w: int, x1: int, y1: int, x2: int, y2: int)
    requires
        0 <= x1 < w,
        0 <= x2 < w,
        y1 * w + x1 == y2 * w + x2,
    ensures
        x1 == x2,
        y1 == y2,
{
    if y1 < y2 {
        assert(y1 * w + w <= y2 * w) by (nonlinear_arith)
            requires y1 + 1 <= y2, w >= 0;
    } else if y2 < y1 {
        assert(y2 * w + w <= y1 * w) by (nonlinear_arith)
            requires y2 + 1 <= y1, w >= 0;
    }
}

/// Vertical sliding-window pass: entry `(x, y)` is set when column `x` of
/// `buf` has a set bit within `r` rows.
fn dilate_cols(buf: &Vec<bool>, w: usize, h: usize, r: usize) -> (out: Vec<bool>)
    requires
        w > 0,
        h > 0,
        buf@.len() == w * h,
    ensures
        out@.len() == w * h,
        forall|x: int, y: int|
            0 <= x < w && 0 <= y < h ==> #[trigger] cell(out@, w as int, x, y) == col_hit(
                buf@,
                w as int,
                h as int,
                r as int,
                x,
                y,
            ),
{
    let total = buf.len();
    let mut out: Vec<bool> = vec![false; total];
    let mut x: usize = 0;
    while x < w
        invariant
            w > 0,
            h > 0,
            total == buf@.len(),
            buf@.len() == w * h,
            out@.len() == w * h,
            x <= w,
            forall|xx: int, yy: int|
                0 <= xx < x && 0 <= yy < h ==> #[trigger] cell(out@, w as int, xx, yy) == col_hit(
                    buf@,
                    w as int,
                    h as int,
                    r as int,
                    xx,
                    yy,
                ),
        decreases w - x,
    {
        let ghost f = |i: int| cell(buf@, w as int, x as int, i);
        let init_end = if r < h - 1 { r } else { h - 1 };
        let mut active: usize = 0;
        let mut i: usize = 0;
        while i <= init_end
            invariant
                init_end < h,
                x < w,
                total == buf@.len(),
                buf@.len() == w * h,
                i <= init_end + 1,
                f == (|i: int| cell(buf@, w as int, x as int, i)),
                active == count_in(f, 0, i as int),
            decreases init_end + 1 - i,
        {
            proof {
                lemma_count_bounds(f, 0, i as int + 1);
                lemma_index_in(w as int, h as int, x as int, i as int);
            }
            if buf[i * w + x] {
                active = active + 1;
            }
            i = i + 1;
        }
        proof {
            assert(lo_win(0, r as int) == 0);
            assert(hi_win(0, r as int, h as int) == init_end + 1);
            lemma_col_window(buf@, w as int, h as int, r as int, x as int, 0);
            lemma_index_in(w as int, h as int, x as int, 0);
        }
        let ghost before0 = out@;
        out.set(x, active > 0);
        proof {
            assert forall|xx: int, yy: int|
                0 <= xx < x && 0 <= yy < h implies #[trigger] cell(out@, w as int, xx, yy) == col_hit(
                    buf@,
                    w as int,
                    h as int,
                    r as int,
                    xx,
                    yy,
                ) by {
                lemma_index_in(w as int, h as int, xx, yy);
                if yy * w + xx == x {
                    lemma_index_inj(w as int, xx, yy, x as int, 0);
                }
                assert(cell(before0, w as int, xx, yy) == col_hit(buf@, w as int, h as int, r as int, xx, yy));
            }
            assert(cell(out@, w as int, x as int, 0) == col_hit(buf@, w as int, h as int, r as int, x as int, 0));
        }
        let mut y: usize = 1;
        while y < h
            invariant
                1 <= y <= h,
                x < w,
                w > 0,
                total == buf@.len(),
                buf@.len() == w * h,
                out@.len() == w * h,
                f == (|i: int| cell(buf@, w as int, x as int, i)),
                active == count_in(f, lo_win(y - 1, r as int), hi_win(y - 1, r as int, h as int)),
                forall|xx: int, yy: int|
                    0 <= xx < x && 0 <= yy < h ==> #[trigger] cell(out@, w as int, xx, yy) == col_hit(
                        buf@,
                        w as int,
                        h as int,
                        r as int,
                        xx,
                        yy,
                    ),
                forall|yy: int|
                    0 <= yy < y ==> #[trigger] cell(out@, w as int, x as int, yy) == col_hit(
                        buf@,
                        w as int,
                        h as int,
                        r as int,
                        x as int,
                        yy,
                    ),
            decreases h - y,
        {
            let ghost lo0 = lo_win(y - 1, r as int);
            let ghost hi0 = hi_win(y - 1, r as int, h as int);
            proof {
                lemma_count_bounds(f, lo0, hi0);
            }
            if r < h && y < h - r {
                let right = y + r;
                proof {
                    assert(hi0 == right);
                    assert(count_in(f, lo0, right as int + 1) == count_in(f, lo0, right as int) + if f(right as int) { 1nat } else { 0nat });
                    lemma_count_bounds(f, lo0, right as int + 1);
                    lemma_index_in(w as int, h as int, x as int, right as int);
                }
                if buf[right * w + x] {
                    active = active + 1;
                }
            }
            let ghost mid_hi = hi_win(y as int, r as int, h as int);
            assert(active == count_in(f, lo0, mid_hi));
            if y > r {
                let left = y - r - 1;
                proof {
                    assert(lo0 == left);
                    lemma_count_front(f, lo0, mid_hi);
                    lemma_index_in(w as int, h as int, x as int, left as int);
                }
                if buf[left * w + x] {
                    active = active - 1;
                }
            }
            assert(active == count_in(f, lo_win(y as int, r as int), mid_hi));
            proof {
                lemma_col_window(buf@, w as int, h as int, r as int, x as int, y as int);
                lemma_index_in(w as int, h as int, x as int, y as int);
            }
            let ghost before = out@;
            out.set(y * w + x, active > 0);
            proof {
                assert forall|xx: int, yy: int|
                    0 <= xx < x && 0 <= yy < h implies #[trigger] cell(out@, w as int, xx, yy) == col_hit(
                        buf@,
                        w as int,
                        h as int,
                        r as int,
                        xx,
                        yy,
                    ) by {
                    lemma_index_in(w as int, h as int, xx, yy);
                    if yy * w + xx == y * w + x {
                        lemma_index_inj(w as int, xx, yy, x as int, y as int);
                    }
                    assert(cell(before, w as int, xx, yy) == col_hit(buf@, w as int, h as int, r as int, xx, yy));
                }
                assert forall|yy: int| 0 <= yy < y + 1 implies #[trigger] cell(out@, w as int, x as int, yy)
                    == col_hit(buf@, w as int, h as int, r as int, x as int, yy) by {
                    if yy < y {
                        lemma_index_in(w as int, h as int, x as int, yy);
                        if yy * w + x == y * w + x {
                            lemma_index_inj(w as int, x as int, yy, x as int, y as int);
                        }
                        assert(cell(before, w as int, x as int, yy) == col_hit(buf@, w as int, h as int, r as int, x as int, yy));
                    }
                }
            }
            y = y + 1;
        }
        x = x + 1;
    }
    out
}

/// Chebyshev (square) dilation of `mask` by `radius`. Radius 0, or an empty
/// mask, returns a copy.
pub fn dilate(mask: &Mask, radius: u32) -> (out: Mask)
    requires
        radius == 0 || mask.width == 0 || mask.height == 0 || mask.bits@.len() >= (mask.width as int)
            * (mask.height as int),
    ensures
        out.width == mask.width,
        out.height == mask.height,
        radius == 0 || mask.width == 0 || mask.height == 0 ==> out.bits@ == mask.bits@,
        !(radius == 0 || mask.width == 0 || mask.height == 0) ==> {
            &&& out.full()
            &&& forall|x: int, y: int|
                0 <= x < mask.width && 0 <= y < mask.height ==> #[trigger] out.px(x, y)
                    == dilated_bit(mask, radius as int, x, y)
        },
{
    if radius == 0 || mask.width == 0 || mask.height == 0 {
        let bits = mask.bits.clone();
        assert(bits@ =~= mask.bits@);
        return Mask { width: mask.width, height: mask.height, bits };
    }
    let w = mask.width as usize;
    let h = mask.height as usize;
    let r = radius as usize;
    let buf1 = dilate_rows(&mask.bits, w, h, r);
    let buf2 = dilate_cols(&buf1, w, h, r);
    let out = Mask { width: mask.width, height: mask.height, bits: buf2 };
    proof {
        assert forall|x: int, y: int|
            0 <= x < mask.width && 0 <= y < mask.height implies #[trigger] out.px(x, y)
                == dilated_bit(mask, radius as int, x, y) by {
            assert(out.px(x, y) == col_hit(buf1@, w as int, h as int, r as int, x, y));
            if col_hit(buf1@, w as int, h as int, r as int, x, y) {
                let yy = choose|yy: int| 0 <= yy < h && y - r <= yy <= y + r && #[trigger] cell(buf1@, w as int, x, yy);
                assert(row_hit(mask.bits@, w as int, r as int, x, yy));
                let xx = choose|xx: int| 0 <= xx < w && x - r <= xx <= x + r && #[trigger] cell(mask.bits@, w as int, xx, yy);
                assert(mask.px(xx, yy));
            }
            if dilated_bit(mask, radius as int, x, y) {
                let (xx, yy) = choose|xx: int, yy: int|
                    0 <= xx < mask.width && 0 <= yy < mask.height && x - radius <= xx <= x + radius && y - radius <= yy <= y
                        + radius && #[trigger] mask.px(xx, yy);
                assert(cell(mask.bits@, w as int, xx, yy));
                assert(row_hit(mask.bits@, w as int, r as int, x, yy));
                assert(cell(buf1@, w as int, x, yy));
            }
        }
    }
    out
}


/// Dilation never clears a pixel, and a larger radius covers at least as
/// much as a smaller one.
pub proof fn law_dilation_grows(mask: &Mask, r1: int, r2: int, x: int, y: int)
    requires
        0 <= r1 <= r2,
        0 <= x < mask.width,
        0 <= y < mask.height,
    ensures
        mask.px(x, y) ==> dilated_bit(mask, r1, x, y),
        dilated_bit(mask, r1, x, y) ==> dilated_bit(mask, r2, x, y),
{
    if mask.px(x, y) {
        assert(x - r1 <= x <= x + r1 && y - r1 <= y <= y + r1);
    }
    if dilated_bit(mask, r1, x, y) {
        let (xx, yy) = choose|xx: int, yy: int|
            0 <= xx < mask.width && 0 <= yy < mask.height && x - r1 <= xx <= x + r1 && y - r1 <= yy <= y + r1
                && #[trigger] mask.px(xx, yy);
        assert(mask.px(xx, yy));
    }
}

/// Box overlap is symmetric, and so is the overlap area, which never exceeds
/// either box's area.
pub proof fn law_overlap_symmetric(a: Bbox, b: Bbox)
    ensures
        box_overlaps(a, b) == box_overlaps(b, a),
        overlap_area(a, b) == overlap_area(b, a),
        overlap_area(a, b) <= box_area(a),
        overlap_area(a, b) <= box_area(b),
{
    let ow = overlap_width(a, b);
    let oh = overlap_height(a, b);
    assert(ow <= a.spec_width() && ow <= b.spec_width());
    assert(oh <= a.spec_height() && oh <= b.spec_height());
    assert(ow * oh <= (a.spec_width() as int) * (a.spec_height() as int)) by (nonlinear_arith)
        requires 0 <= ow <= a.spec_width(), 0 <= oh <= a.spec_height();
    assert(ow * oh <= (b.spec_width() as int) * (b.spec_height() as int)) by (nonlinear_arith)
        requires 0 <= ow <= b.spec_width(), 0 <= oh <= b.spec_height();
}


/// `(x, y)` lies in both boxes.
pub open spec fn in_both(a: Bbox, b: Bbox, x: int, y: int) -> bool {
    a.x1 <= x < a.x2 && a.y1 <= y < a.y2 && b.x1 <= x < b.x2 && b.y1 <= y < b.y2
}

/// Number of points of the `u32` plane that lie in both boxes.
pub open spec fn shared_points(a: Bbox, b: Bbox) -> nat {
    sum_in(
        |x: int| count_in(|y: int| in_both(a, b, x, y), 0, 0x1_0000_0000),
        0,
        0x1_0000_0000,
    )
}

/// The overlap area of two boxes is the number of points they share, and
/// for non-empty boxes it is 0 exactly when they do not overlap
/// (disjoint or touching at an edge).
pub proof fn law_overlap_counts_shared_points(a: Bbox, b: Bbox)
    ensures
        overlap_area(a, b) == shared_points(a, b),
        a.x1 < a.x2 && a.y1 < a.y2 && b.x1 < b.x2 && b.y1 < b.y2 ==> (overlap_area(a, b) == 0
            <==> !box_overlaps(a, b)),
{
    let top: int = 0x1_0000_0000;
    let xs = max_u32(a.x1, b.x1) as int;
    let xe = min_u32(a.x2, b.x2) as int;
    let ys = max_u32(a.y1, b.y1) as int;
    let ye = min_u32(a.y2, b.y2) as int;
    let oh = overlap_height(a, b);
    let inner = |x: int| count_in(|y: int| in_both(a, b, x, y), 0, top);
    assert forall|x: int| 0 <= x < top implies #[trigger] inner(x) == if xs <= x < xe {
        oh as nat
    } else {
        0nat
    } by {
        let f = |y: int| in_both(a, b, x, y);
        if xs <= x < xe {
            lemma_count_interval(f, ys, ye, 0, top);
        } else {
            lemma_count_interval(f, 0, 0, 0, top);
        }
    }
    lemma_sum_interval(inner, xs, xe, oh as nat, 0, top);
    assert(clipped_len(xs, xe, 0, top) == overlap_width(a, b));
    let ow = overlap_width(a, b);
    if a.x1 < a.x2 && a.y1 < a.y2 && b.x1 < b.x2 && b.y1 < b.y2 {
        assert(ow > 0 <==> (a.x1 < b.x2 && b.x1 < a.x2));
        assert(oh > 0 <==> (a.y1 < b.y2 && b.y1 < a.y2));
    }
    if ow == 0 || oh == 0 {
        assert(ow * oh == 0) by (nonlinear_arith) requires ow == 0 || oh == 0;
    } else {
        assert(ow * oh > 0) by (nonlinear_arith) requires ow > 0, oh > 0;
    }
}

/// A walk of `n` steps between 8-neighbouring set pixels of the `w x h`
/// grid `d`, from `(x, y)` to `(a, b)`.
pub open spec fn walk8(d: Seq<bool>, w: int, h: int, x: int, y: int, a: int, b: int, n: nat) -> bool
    decreases n,
{
    if n == 0 {
        lit(d, w, h, x, y) && a == x && b == y
    } else {
        exists|p: int, q: int| walk8(d, w, h, x, y, p, q, (n - 1) as nat) && #[trigger] step8(d, w, h, p, q, a, b)
    }
}

/// `(a, b)` is a set pixel next to `(p, q)`.
pub open spec fn step8(d: Seq<bool>, w: int, h: int, p: int, q: int, a: int, b: int) -> bool {
    lit(d, w, h, a, b) && touching(p, q, a, b)
}

/// `(a, b)` is reachable from `(x, y)` through set pixels.
pub open spec fn joined8(d: Seq<bool>, w: int, h: int, x: int, y: int, a: int, b: int) -> bool {
    exists|n: nat| #[trigger] walk8(d, w, h, x, y, a, b, n)
}

/// `(x, y)` is the first pixel, in row-major order, of its component.
pub open spec fn is_seed(d: Seq<bool>, w: int, h: int, x: int, y: int) -> bool {
    &&& lit(d, w, h, x, y)
    &&& forall|a: int, b: int|
        (b < y || (b == y && a < x)) && #[trigger] lit(d, w, h, a, b) ==> !joined8(d, w, h, a, b, x, y)
}

pub(crate) proof fn lemma_walk_ends_lit(d: Seq<bool>, w: int, h: int, x: int, y: int, a: int, b: int, n: nat)
    requires
        walk8(d, w, h, x, y, a, b, n),
    ensures
        lit(d, w, h, a, b),
        lit(d, w, h, x, y),
    decreases n,
{
    if n > 0 {
        let (p, q) = choose|p: int, q: int| walk8(d, w, h, x, y, p, q, (n - 1) as nat) && #[trigger] step8(d, w, h, p, q, a, b);
        lemma_walk_ends_lit(d, w, h, x, y, p, q, (n - 1) as nat);
    }
}

/// Reachability is transitive.
pub(crate) proof fn lemma_walk_join(d: Seq<bool>, w: int, h: int, x: int, y: int, p: int, q: int, a: int, b: int, n: nat, m: nat)
    requires
        walk8(d, w, h, x, y, p, q, n),
        walk8(d, w, h, p, q, a, b, m),
    ensures
        walk8(d, w, h, x, y, a, b, n + m),
    decreases m,
{
    if m > 0 {
        let (u, v) = choose|u: int, v: int| walk8(d, w, h, p, q, u, v, (m - 1) as nat) && #[trigger] step8(d, w, h, u, v, a, b);
        lemma_walk_join(d, w, h, x, y, p, q, u, v, n, (m - 1) as nat);
        assert(walk8(d, w, h, x, y, u, v, (n + m - 1) as nat) && step8(d, w, h, u, v, a, b));
    }
}

/// Every 8-neighbour of a labelled pixel that is set carries its label.
pub open spec fn closed8_at(d: Seq<bool>, lab: Seq<usize>, w: int, h: int, x: int, y: int) -> bool {
    forall|k: int|
        0 <= k < 8 && lit(d, w, h, x + #[trigger] off_x(k), y + off_y(k)) ==> cell(lab, w, x + off_x(k), y + off_y(k))
            == cell(lab, w, x, y)
}

pub open spec fn labels_closed8(d: Seq<bool>, lab: Seq<usize>, w: int, h: int) -> bool {
    forall|x: int, y: int| lit(d, w, h, x, y) && cell(lab, w, x, y) != 0 ==> #[trigger] closed8_at(d, lab, w, h, x, y)
}

/// In a closed labelling, everything reachable from a labelled pixel carries
/// its label.
pub(crate) proof fn lemma_closed_reach(d: Seq<bool>, lab: Seq<usize>, w: int, h: int, x: int, y: int, a: int, b: int, n: nat)
    requires
        labels_closed8(d, lab, w, h),
        walk8(d, w, h, x, y, a, b, n),
        cell(lab, w, x, y) != 0,
    ensures
        cell(lab, w, a, b) == cell(lab, w, x, y),
    decreases n,
{
    if n > 0 {
        let (p, q) = choose|p: int, q: int| walk8(d, w, h, x, y, p, q, (n - 1) as nat) && #[trigger] step8(d, w, h, p, q, a, b);
        lemma_closed_reach(d, lab, w, h, x, y, p, q, (n - 1) as nat);
        lemma_walk_ends_lit(d, w, h, x, y, p, q, (n - 1) as nat);
        assert(closed8_at(d, lab, w, h, p, q));
        let k = lemma_offset_of(p, q, a, b);
        assert(lit(d, w, h, p + off_x(k), q + off_y(k)));
    }
}


/// The set 8-neighbours of `(x, y)`.
fn ink_neighbours(d: &Vec<bool>, w: i32, h: i32, x: i32, y: i32) -> (r: Vec<(i32, i32)>)
    requires
        w >= 0,
        h >= 0,
        (w as int) * (h as int) <= i32::MAX,
        d@.len() >= (w as int) * (h as int),
        0 <= x < w,
        0 <= y < h,
    ensures
        forall|j: int| 0 <= j < r.len() ==> step8(d@, w as int, h as int, x as int, y as int, (#[trigger] r@[j]).0 as int, r@[j].1 as int)
            && 0 <= r@[j].0 < w && 0 <= r@[j].1 < h,
        forall|k: int| 0 <= k < 8 && lit(d@, w as int, h as int, x + #[trigger] off_x(k), y + off_y(k))
            ==> r@.contains(((x + off_x(k)) as i32, (y + off_y(k)) as i32)),
{
    let dxs: [i32; 8] = [-1, 0, 1, -1, 1, -1, 0, 1];
    let dys: [i32; 8] = [-1, -1, -1, 0, 0, 1, 1, 1];
    let mut r: Vec<(i32, i32)> = Vec::new();
    let mut k: usize = 0;
    while k < 8
        invariant
            w >= 0,
            h >= 0,
            (w as int) * (h as int) <= i32::MAX,
            d@.len() >= (w as int) * (h as int),
            0 <= x < w,
            0 <= y < h,
            k <= 8,
            dxs@ == seq![-1i32, 0i32, 1i32, -1i32, 1i32, -1i32, 0i32, 1i32],
            dys@ == seq![-1i32, -1i32, -1i32, 0i32, 0i32, 1i32, 1i32, 1i32],
            forall|j: int| 0 <= j < r.len() ==> step8(d@, w as int, h as int, x as int, y as int, (#[trigger] r@[j]).0 as int, r@[j].1 as int)
                && 0 <= r@[j].0 < w && 0 <= r@[j].1 < h,
            forall|q: int| 0 <= q < k && lit(d@, w as int, h as int, x + #[trigger] off_x(q), y + off_y(q))
                ==> r@.contains(((x + off_x(q)) as i32, (y + off_y(q)) as i32)),
        decreases 8 - k,
    {
        let dx = dxs[k];
        let dy = dys[k];
        assert(dx == off_x(k as int) && dy == off_y(k as int));
        let a = x + dx;
        let b = y + dy;
        let ghost before = r@;
        if a >= 0 && a < w && b >= 0 && b < h {
            let i = index_of(w, h, a, b);
            if d[i] {
                r.push((a, b));
            }
        }
        proof {
            assert forall|q: int| 0 <= q < k + 1 && lit(d@, w as int, h as int, x + #[trigger] off_x(q), y + off_y(q))
                implies r@.contains(((x + off_x(q)) as i32, (y + off_y(q)) as i32)) by {
                if q < k {
                    let j = choose|j: int| 0 <= j < before.len() && before[j] == ((x + off_x(q)) as i32, (y + off_y(q)) as i32);
                    assert(r@[j] == before[j]);
                } else {
                    assert(r@[r.len() - 1] == (a, b));
                }
            }
        }
        k = k + 1;
    }
    r
}

/// Labels with `c` every set pixel reachable from `(x0, y0)`, breadth first,
/// and lists them in visiting order.
pub(crate) fn flood8(d: &Vec<bool>, lab: &mut Vec<usize>, c: usize, w: i32, h: i32, x0: i32, y0: i32) -> (comp: Vec<(i32, i32)>)
    requires
        w >= 0,
        h >= 0,
        (w as int) * (h as int) <= i32::MAX,
        d@.len() >= (w as int) * (h as int),
        old(lab)@.len() == (w as int) * (h as int),
        0 <= x0 < w,
        0 <= y0 < h,
        lit(d@, w as int, h as int, x0 as int, y0 as int),
        cell(old(lab)@, w as int, x0 as int, y0 as int) == 0,
        c > 0,
        labels_closed8(d@, old(lab)@, w as int, h as int),
        forall|i: int| 0 <= i < old(lab).len() ==> #[trigger] old(lab)@[i] < c,
    ensures
        final(lab)@.len() == old(lab)@.len(),
        comp.len() > 0,
        comp@[0] == (x0, y0),
        forall|k: int| 0 <= k < comp.len() ==> 0 <= (#[trigger] comp@[k]).0 < w && 0 <= comp@[k].1 < h
            && lit(d@, w as int, h as int, comp@[k].0 as int, comp@[k].1 as int)
            && cell(final(lab)@, w as int, comp@[k].0 as int, comp@[k].1 as int) == c
            && joined8(d@, w as int, h as int, x0 as int, y0 as int, comp@[k].0 as int, comp@[k].1 as int),
        forall|i: int, j: int| 0 <= i < j < comp.len() ==> #[trigger] comp@[i] != #[trigger] comp@[j],
        forall|i: int| 0 <= i < final(lab).len() ==> #[trigger] final(lab)@[i] == old(lab)@[i] || (old(lab)@[i] == 0 && final(lab)@[i] == c),
        forall|x: int, y: int| 0 <= x < w && 0 <= y < h && #[trigger] cell(final(lab)@, w as int, x, y) == c ==> comp@.contains((x as i32, y as i32)),
        labels_closed8(d@, final(lab)@, w as int, h as int),
        forall|i: int| 0 <= i < final(lab).len() ==> #[trigger] final(lab)@[i] <= c,
        comp.len() <= final(lab).len(),
        count_in(|t: int| final(lab)@[t] != old(lab)@[t], 0, final(lab).len() as int) == comp.len(),
{
    let ghost lab0 = lab@;
    let ghost wi = w as int;
    let ghost hi = h as int;
    let i0 = index_of(w, h, x0, y0);
    lab.set(i0, c);
    let mut comp: Vec<(i32, i32)> = Vec::new();
    comp.push((x0, y0));
    proof {
        assert(walk8(d@, wi, hi, x0 as int, y0 as int, x0 as int, y0 as int, 0));
        lemma_count_ext(|t: int| lab0[t] != lab0[t], |t: int| false, 0, lab.len() as int);
        lemma_count_pos(|t: int| false, 0, lab.len() as int);
        crate::counting::lemma_count_point(|t: int| lab0[t] != lab0[t], |t: int| lab@[t] != lab0[t], 0, lab.len() as int, i0 as int);
        lemma_count_bounds(|t: int| lab@[t] != lab0[t], 0, lab.len() as int);
        assert forall|x: int, y: int| 0 <= x < w && 0 <= y < h && #[trigger] cell(lab@, wi, x, y) == c implies comp@.contains((x as i32, y as i32)) by {
            lemma_index_in(wi, hi, x, y);
            if y * wi + x != i0 {
                assert(lab@[y * wi + x] == lab0[y * wi + x]);
            } else {
                lemma_index_inj(wi, x, y, x0 as int, y0 as int);
                assert(comp@[0] == (x0, y0));
            }
        }
    }
    let mut head: usize = 0;
    while head < comp.len()
        invariant
            w >= 0,
            h >= 0,
            (w as int) * (h as int) <= i32::MAX,
            d@.len() >= (w as int) * (h as int),
            lab@.len() == (w as int) * (h as int),
            wi == w as int,
            hi == h as int,
            c > 0,
            lab0.len() == lab.len(),
            comp.len() > 0,
            comp@[0] == (x0, y0),
            head <= comp.len(),
            comp.len() <= lab.len(),
            comp.len() == count_in(|t: int| lab@[t] != lab0[t], 0, lab.len() as int),
            forall|k: int| 0 <= k < comp.len() ==> 0 <= (#[trigger] comp@[k]).0 < w && 0 <= comp@[k].1 < h
                && lit(d@, wi, hi, comp@[k].0 as int, comp@[k].1 as int)
                && cell(lab@, wi, comp@[k].0 as int, comp@[k].1 as int) == c
                && joined8(d@, wi, hi, x0 as int, y0 as int, comp@[k].0 as int, comp@[k].1 as int),
            forall|i: int, j: int| 0 <= i < j < comp.len() ==> #[trigger] comp@[i] != #[trigger] comp@[j],
            forall|i: int| 0 <= i < lab.len() ==> #[trigger] lab@[i] == lab0[i] || (lab0[i] == 0 && lab@[i] == c),
            forall|x: int, y: int| 0 <= x < w && 0 <= y < h && #[trigger] cell(lab@, wi, x, y) == c ==> comp@.contains((x as i32, y as i32)),
            forall|k: int| 0 <= k < head ==> closed8_at(d@, lab@, wi, hi, (#[trigger] comp@[k]).0 as int, comp@[k].1 as int),
            labels_closed8(d@, lab0, wi, hi),
            forall|i: int| 0 <= i < lab0.len() ==> #[trigger] lab0[i] < c,
        decreases lab.len() - head,
    {
        let (cx, cy) = comp[head];
        let nbrs = ink_neighbours(d, w, h, cx, cy);
        let mut j: usize = 0;
        while j < nbrs.len()
            invariant
                w >= 0,
                h >= 0,
                (w as int) * (h as int) <= i32::MAX,
                d@.len() >= (w as int) * (h as int),
                lab@.len() == (w as int) * (h as int),
                wi == w as int,
                hi == h as int,
                c > 0,
                lab0.len() == lab.len(),
                comp.len() > 0,
                comp@[0] == (x0, y0),
                head < comp.len(),
                comp@[head as int] == (cx, cy),
                comp.len() <= lab.len(),
                comp.len() == count_in(|t: int| lab@[t] != lab0[t], 0, lab.len() as int),
                j <= nbrs.len(),
                forall|q: int| 0 <= q < nbrs.len() ==> step8(d@, wi, hi, cx as int, cy as int, (#[trigger] nbrs@[q]).0 as int, nbrs@[q].1 as int)
                    && 0 <= nbrs@[q].0 < w && 0 <= nbrs@[q].1 < h,
                forall|q: int| 0 <= q < j ==> cell(lab@, wi, (#[trigger] nbrs@[q]).0 as int, nbrs@[q].1 as int) == c,
                forall|k: int| 0 <= k < comp.len() ==> 0 <= (#[trigger] comp@[k]).0 < w && 0 <= comp@[k].1 < h
                    && lit(d@, wi, hi, comp@[k].0 as int, comp@[k].1 as int)
                    && cell(lab@, wi, comp@[k].0 as int, comp@[k].1 as int) == c
                    && joined8(d@, wi, hi, x0 as int, y0 as int, comp@[k].0 as int, comp@[k].1 as int),
                forall|i: int, j: int| 0 <= i < j < comp.len() ==> #[trigger] comp@[i] != #[trigger] comp@[j],
                forall|i: int| 0 <= i < lab.len() ==> #[trigger] lab@[i] == lab0[i] || (lab0[i] == 0 && lab@[i] == c),
                forall|x: int, y: int| 0 <= x < w && 0 <= y < h && #[trigger] cell(lab@, wi, x, y) == c ==> comp@.contains((x as i32, y as i32)),
                forall|k: int| 0 <= k < head ==> closed8_at(d@, lab@, wi, hi, (#[trigger] comp@[k]).0 as int, comp@[k].1 as int),
                labels_closed8(d@, lab0, wi, hi),
                forall|i: int| 0 <= i < lab0.len() ==> #[trigger] lab0[i] < c,
            decreases nbrs.len() - j,
        {
            let (nx, ny) = nbrs[j];
            let i = index_of(w, h, nx, ny);
            let ghost before = lab@;
            let ghost comp_before = comp@;
            if lab[i] == 0 {
                lab.set(i, c);
                comp.push((nx, ny));
                proof {
                    assert(lab@ == before.update(i as int, c));
                    assert(step8(d@, wi, hi, cx as int, cy as int, nx as int, ny as int));
                    assert(joined8(d@, wi, hi, x0 as int, y0 as int, cx as int, cy as int));
                    let n = choose|n: nat| #[trigger] walk8(d@, wi, hi, x0 as int, y0 as int, cx as int, cy as int, n);
                    assert(walk8(d@, wi, hi, x0 as int, y0 as int, nx as int, ny as int, n + 1));
                    assert forall|k: int| 0 <= k < head implies closed8_at(d@, lab@, wi, hi, (#[trigger] comp@[k]).0 as int, comp@[k].1 as int) by {
                        assert(comp@[k] == comp_before[k]);
                        lemma_closed8_update(d@, before, wi, hi, comp@[k].0 as int, comp@[k].1 as int, i as int, c);
                    }
                    assert forall|k: int| 0 <= k < comp.len() implies 0 <= (#[trigger] comp@[k]).0 < w && 0 <= comp@[k].1 < h
                        && lit(d@, wi, hi, comp@[k].0 as int, comp@[k].1 as int)
                        && cell(lab@, wi, comp@[k].0 as int, comp@[k].1 as int) == c
                        && joined8(d@, wi, hi, x0 as int, y0 as int, comp@[k].0 as int, comp@[k].1 as int) by {
                        if k < comp.len() - 1 {
                            assert(comp@[k] == comp_before[k]);
                            lemma_index_in(wi, hi, comp@[k].0 as int, comp@[k].1 as int);
                        }
                    }
                    assert forall|a: int, b: int| 0 <= a < b < comp.len() implies #[trigger] comp@[a] != #[trigger] comp@[b] by {
                        if b == comp.len() - 1 {
                            assert(cell(before, wi, comp_before[a].0 as int, comp_before[a].1 as int) == c);
                        } else {
                            assert(comp_before[a] != comp_before[b]);
                        }
                    }
                    assert forall|x: int, y: int| 0 <= x < w && 0 <= y < h && #[trigger] cell(lab@, wi, x, y) == c implies comp@.contains((x as i32, y as i32)) by {
                        lemma_index_in(wi, hi, x, y);
                        if y * wi + x == i {
                            lemma_index_inj(wi, x, y, nx as int, ny as int);
                            assert(comp@[comp.len() - 1] == (nx, ny));
                        } else {
                            assert(cell(before, wi, x, y) == c);
                            let k = choose|k: int| 0 <= k < comp_before.len() && comp_before[k] == (x as i32, y as i32);
                            assert(comp@[k] == comp_before[k]);
                        }
                    }
                    assert forall|q: int| 0 <= q < j + 1 implies cell(lab@, wi, (#[trigger] nbrs@[q]).0 as int, nbrs@[q].1 as int) == c by {
                        lemma_index_in(wi, hi, nbrs@[q].0 as int, nbrs@[q].1 as int);
                    }
                    crate::counting::lemma_count_point(|t: int| before[t] != lab0[t], |t: int| lab@[t] != lab0[t], 0, lab.len() as int, i as int);
                    lemma_count_bounds(|t: int| lab@[t] != lab0[t], 0, lab.len() as int);
                }
            } else {
                proof {
                    if lab@[i as int] != c {
                        assert(lab0[i as int] == lab@[i as int]);
                        assert(closed8_at(d@, lab0, wi, hi, nx as int, ny as int));
                        let k = lemma_offset_of(nx as int, ny as int, cx as int, cy as int);
                        assert(lit(d@, wi, hi, nx + off_x(k), ny + off_y(k)));
                        lemma_index_in(wi, hi, cx as int, cy as int);
                        assert(cell(lab@, wi, cx as int, cy as int) == c);
                        assert(false);
                    }
                }
            }
            j = j + 1;
        }
        proof {
            assert(closed8_at(d@, lab@, wi, hi, cx as int, cy as int)) by {
                assert forall|k: int|
                    0 <= k < 8 && lit(d@, wi, hi, cx + #[trigger] off_x(k), cy + off_y(k))
                        implies cell(lab@, wi, cx + off_x(k), cy + off_y(k)) == cell(lab@, wi, cx as int, cy as int) by {
                    let t = ((cx + off_x(k)) as i32, (cy + off_y(k)) as i32);
                    assert(nbrs@.contains(t));
                    let q = choose|q: int| 0 <= q < nbrs.len() && nbrs@[q] == t;
                    assert(cell(lab@, wi, nbrs@[q].0 as int, nbrs@[q].1 as int) == c);
                }
            }
        }
        head = head + 1;
    }
    proof {
        assert forall|x: int, y: int| lit(d@, wi, hi, x, y) && cell(lab@, wi, x, y) != 0 implies #[trigger] closed8_at(d@, lab@, wi, hi, x, y) by {
            lemma_index_in(wi, hi, x, y);
            if cell(lab@, wi, x, y) == c {
                let k = choose|k: int| 0 <= k < comp.len() && comp@[k] == (x as i32, y as i32);
                assert(closed8_at(d@, lab@, wi, hi, comp@[k].0 as int, comp@[k].1 as int));
            } else {
                assert(cell(lab0, wi, x, y) == cell(lab@, wi, x, y));
                assert(closed8_at(d@, lab0, wi, hi, x, y));
                assert forall|k: int|
                    0 <= k < 8 && lit(d@, wi, hi, x + #[trigger] off_x(k), y + off_y(k))
                        implies cell(lab@, wi, x + off_x(k), y + off_y(k)) == cell(lab@, wi, x, y) by {
                    lemma_index_in(wi, hi, x + off_x(k), y + off_y(k));
                    assert(cell(lab0, wi, x + off_x(k), y + off_y(k)) == cell(lab0, wi, x, y));
                }
            }
        }
        assert forall|i: int| 0 <= i < lab.len() implies #[trigger] lab@[i] <= c by {
            assert(lab0[i] < c);
        }
    }
    comp
}

/// Labelling a fresh pixel keeps a pixel closed whose own label is not zero.
proof fn lemma_closed8_update(d: Seq<bool>, lab: Seq<usize>, w: int, h: int, x: int, y: int, i: int, c: usize)
    requires
        w >= 0,
        h >= 0,
        lab.len() == w * h,
        0 <= x < w,
        0 <= y < h,
        0 <= i < lab.len(),
        lab[i] == 0,
        cell(lab, w, x, y) != 0,
        closed8_at(d, lab, w, h, x, y),
    ensures
        closed8_at(d, lab.update(i, c), w, h, x, y),
{
    let l2 = lab.update(i, c);
    lemma_index_in(w, h, x, y);
    assert forall|k: int|
        0 <= k < 8 && lit(d, w, h, x + #[trigger] off_x(k), y + off_y(k)) implies cell(l2, w, x + off_x(k), y + off_y(k))
            == cell(l2, w, x, y) by {
        lemma_index_in(w, h, x + off_x(k), y + off_y(k));
        assert(cell(lab, w, x + off_x(k), y + off_y(k)) == cell(lab, w, x, y));
    }
}


/// Pixel `(a, b)` is original ink (`m`) of the component of `(x, y)` in the
/// grid `d`.
pub open spec fn cluster_member(m: Seq<bool>, d: Seq<bool>, w: int, h: int, x: int, y: int, a: int, b: int) -> bool {
    lit(m, w, h, a, b) && joined8(d, w, h, x, y, a, b)
}

/// Number of original ink pixels in the component of `(x, y)`.
pub open spec fn member_count(m: Seq<bool>, d: Seq<bool>, w: int, h: int, x: int, y: int) -> nat {
    count_in(|t: int| cluster_member(m, d, w, h, x, y, t % w, t / w), 0, w * h)
}

/// `b` is the tight box of the component's original ink; a component with
/// none gets the box `(u32::MAX, u32::MAX, 1, 1)`.
pub open spec fn member_box(m: Seq<bool>, d: Seq<bool>, w: int, h: int, x: int, y: int, b: Bbox) -> bool {
    if member_count(m, d, w, h, x, y) == 0 {
        b == Bbox { x1: u32::MAX, y1: u32::MAX, x2: 1, y2: 1 }
    } else {
        &&& forall|a: int, c: int| #[trigger] cluster_member(m, d, w, h, x, y, a, c) ==> b.x1 <= a < b.x2 && b.y1 <= c < b.y2
        &&& exists|a: int, c: int| #[trigger] cluster_member(m, d, w, h, x, y, a, c) && a == b.x1
        &&& exists|a: int, c: int| #[trigger] cluster_member(m, d, w, h, x, y, a, c) && a + 1 == b.x2
        &&& exists|a: int, c: int| #[trigger] cluster_member(m, d, w, h, x, y, a, c) && c == b.y1
        &&& exists|a: int, c: int| #[trigger] cluster_member(m, d, w, h, x, y, a, c) && c + 1 == b.y2
    }
}

/// `cl` is the cluster of the component of `(x, y)`.
pub open spec fn describes(m: Seq<bool>, d: Seq<bool>, w: int, h: int, x: int, y: int, cl: Cluster) -> bool {
    cl.pixels == member_count(m, d, w, h, x, y) && member_box(m, d, w, h, x, y, cl.bbox)
}

proof fn lemma_index_coords(w: int, x: int, y: int)
    requires
        0 <= x < w,
        0 <= y,
    ensures
        (y * w + x) % w == x,
        (y * w + x) / w == y,
{
    vstd::arithmetic::div_mod::lemma_fundamental_div_mod_converse(y * w + x, w, y, x);
}

/// Count and tight box of the original ink of a flooded component.
pub(crate) fn component_stats(
    m: &Vec<bool>,
    d: &Vec<bool>,
    lab: &Vec<usize>,
    c: usize,
    w: i32,
    h: i32,
    comp: &Vec<(i32, i32)>,
    Ghost(sx): Ghost<int>,
    Ghost(sy): Ghost<int>,
) -> (r: Cluster)
    requires
        w > 0,
        h > 0,
        (w as int) * (h as int) <= i32::MAX,
        d@.len() >= (w as int) * (h as int),
        m@.len() >= (w as int) * (h as int),
        lab@.len() == (w as int) * (h as int),
        c > 0,
        labels_closed8(d@, lab@, w as int, h as int),
        lit(d@, w as int, h as int, sx, sy),
        cell(lab@, w as int, sx, sy) == c,
        forall|k: int| 0 <= k < comp.len() ==> 0 <= (#[trigger] comp@[k]).0 < w && 0 <= comp@[k].1 < h
            && joined8(d@, w as int, h as int, sx, sy, comp@[k].0 as int, comp@[k].1 as int),
        forall|i: int, j: int| 0 <= i < j < comp.len() ==> #[trigger] comp@[i] != #[trigger] comp@[j],
        forall|x: int, y: int| 0 <= x < w && 0 <= y < h && #[trigger] cell(lab@, w as int, x, y) == c ==> comp@.contains((x as i32, y as i32)),
        comp.len() <= (w as int) * (h as int),
    ensures
        describes(m@, d@, w as int, h as int, sx, sy, r),
{
    let ghost wi = w as int;
    let ghost hi = h as int;
    let ghost n = wi * hi;
    let ghost mem = |t: int| cluster_member(m@, d@, wi, hi, sx, sy, t % wi, t / wi);
    let mut count: u32 = 0;
    let mut min_x: u32 = u32::MAX;
    let mut min_y: u32 = u32::MAX;
    let mut max_x: u32 = 0;
    let mut max_y: u32 = 0;
    let mut k: usize = 0;
    proof {
        let f0 = |t: int| mem(t) && exists|j: int| 0 <= j < 0 && (#[trigger] comp@[j]).1 * wi + comp@[j].0 == t;
        lemma_count_ext(f0, |t: int| false, 0, n);
        lemma_count_pos(|t: int| false, 0, n);
    }
    while k < comp.len()
        invariant
            comp.len() <= n,
            wi == w as int,
            hi == h as int,
            n == wi * hi,
            w > 0,
            h > 0,
            n <= i32::MAX,
            m@.len() >= n,
            mem == (|t: int| cluster_member(m@, d@, wi, hi, sx, sy, t % wi, t / wi)),
            forall|q: int| 0 <= q < comp.len() ==> 0 <= (#[trigger] comp@[q]).0 < w && 0 <= comp@[q].1 < h
                && joined8(d@, wi, hi, sx, sy, comp@[q].0 as int, comp@[q].1 as int),
            forall|i: int, j: int| 0 <= i < j < comp.len() ==> #[trigger] comp@[i] != #[trigger] comp@[j],
            k <= comp.len(),
            count == count_in(|t: int| mem(t) && exists|j: int| 0 <= j < k && (#[trigger] comp@[j]).1 * wi + comp@[j].0 == t, 0, n),
            count <= k,
            max_x < w,
            max_y < h,
            forall|j: int| 0 <= j < k && lit(m@, wi, hi, (#[trigger] comp@[j]).0 as int, comp@[j].1 as int)
                ==> min_x <= comp@[j].0 <= max_x && min_y <= comp@[j].1 <= max_y,
            count == 0 ==> min_x == u32::MAX && min_y == u32::MAX && max_x == 0 && max_y == 0,
            count > 0 ==> exists|j: int| 0 <= j < k && lit(m@, wi, hi, (#[trigger] comp@[j]).0 as int, comp@[j].1 as int) && comp@[j].0 == min_x,
            count > 0 ==> exists|j: int| 0 <= j < k && lit(m@, wi, hi, (#[trigger] comp@[j]).0 as int, comp@[j].1 as int) && comp@[j].0 == max_x,
            count > 0 ==> exists|j: int| 0 <= j < k && lit(m@, wi, hi, (#[trigger] comp@[j]).0 as int, comp@[j].1 as int) && comp@[j].1 == min_y,
            count > 0 ==> exists|j: int| 0 <= j < k && lit(m@, wi, hi, (#[trigger] comp@[j]).0 as int, comp@[j].1 as int) && comp@[j].1 == max_y,
        decreases comp.len() - k,
    {
        let (px, py) = comp[k];
        let idx = index_of(w, h, px, py);
        let ghost f = |t: int| mem(t) && exists|j: int| 0 <= j < k && (#[trigger] comp@[j]).1 * wi + comp@[j].0 == t;
        let ghost g = |t: int| mem(t) && exists|j: int| 0 <= j < k + 1 && (#[trigger] comp@[j]).1 * wi + comp@[j].0 == t;
        proof {
            lemma_index_coords(wi, px as int, py as int);
            // the component's pixels are distinct, so this one was not counted before
            assert(!(exists|j: int| 0 <= j < k && (#[trigger] comp@[j]).1 * wi + comp@[j].0 == idx)) by {
                if exists|j: int| 0 <= j < k && (#[trigger] comp@[j]).1 * wi + comp@[j].0 == idx {
                    let j = choose|j: int| 0 <= j < k && (#[trigger] comp@[j]).1 * wi + comp@[j].0 == idx;
                    lemma_index_inj(wi, comp@[j].0 as int, comp@[j].1 as int, px as int, py as int);
                    assert(comp@[j] == comp@[k as int]);
                }
            }
            assert forall|t: int| 0 <= t < n && t != idx implies #[trigger] f(t) == g(t) by {
                if g(t) {
                    let j = choose|j: int| 0 <= j < k + 1 && (#[trigger] comp@[j]).1 * wi + comp@[j].0 == t;
                    assert(j != k);
                    assert(0 <= j < k && comp@[j].1 * wi + comp@[j].0 == t);
                }
            }
            assert(g(idx as int) == mem(idx as int)) by {
                assert(comp@[k as int].1 * wi + comp@[k as int].0 == idx);
            }
            assert(mem(idx as int) == lit(m@, wi, hi, px as int, py as int)) by {
                assert(joined8(d@, wi, hi, sx, sy, comp@[k as int].0 as int, comp@[k as int].1 as int));
            }
            if mem(idx as int) {
                crate::counting::lemma_count_point(f, g, 0, n, idx as int);
            } else {
                assert forall|t: int| 0 <= t < n implies #[trigger] f(t) == g(t) by {}
                lemma_count_ext(f, g, 0, n);
            }
        }
        if m[idx] {
            count = count + 1;
            let pxu = px as u32;
            let pyu = py as u32;
            if pxu < min_x {
                min_x = pxu;
            }
            if pyu < min_y {
                min_y = pyu;
            }
            if pxu > max_x {
                max_x = pxu;
            }
            if pyu > max_y {
                max_y = pyu;
            }
        }
        proof {
            lemma_count_bounds(g, 0, n);
        }
        k = k + 1;
    }
    proof {
        assert forall|t: int| 0 <= t < n implies #[trigger] mem(t) == (mem(t) && exists|j: int| 0 <= j < comp.len() && (#[trigger] comp@[j]).1 * wi + comp@[j].0 == t) by {
            if mem(t) {
                let a = t % wi;
                let b = t / wi;
                vstd::arithmetic::div_mod::lemma_fundamental_div_mod(t, wi);
                assert(0 <= a < wi && 0 <= b < hi) by (nonlinear_arith)
                    requires a == t % wi, b == t / wi, 0 <= t < wi * hi, wi > 0, hi > 0, t == wi * b + a, 0 <= a < wi;
                assert(joined8(d@, wi, hi, sx, sy, a, b));
                let nn = choose|nn: nat| #[trigger] walk8(d@, wi, hi, sx, sy, a, b, nn);
                lemma_closed_reach(d@, lab@, wi, hi, sx, sy, a, b, nn);
                assert(comp@.contains((a as i32, b as i32)));
                let j = choose|j: int| 0 <= j < comp.len() && comp@[j] == (a as i32, b as i32);
                assert(comp@[j].1 * wi + comp@[j].0 == t);
            }
        }
        lemma_count_ext(
            |t: int| mem(t) && exists|j: int| 0 <= j < comp.len() && (#[trigger] comp@[j]).1 * wi + comp@[j].0 == t,
            mem,
            0,
            n,
        );
    }
    let bbox = Bbox { x1: min_x, y1: min_y, x2: max_x + 1, y2: max_y + 1 };
    let r = Cluster { bbox, pixels: count };
    proof {
        if count > 0 {
            assert forall|a: int, b: int| #[trigger] cluster_member(m@, d@, wi, hi, sx, sy, a, b) implies bbox.x1 <= a < bbox.x2
                && bbox.y1 <= b < bbox.y2 by {
                let nn = choose|nn: nat| #[trigger] walk8(d@, wi, hi, sx, sy, a, b, nn);
                lemma_walk_ends_lit(d@, wi, hi, sx, sy, a, b, nn);
                lemma_closed_reach(d@, lab@, wi, hi, sx, sy, a, b, nn);
                assert(comp@.contains((a as i32, b as i32)));
                let j = choose|j: int| 0 <= j < comp.len() && comp@[j] == (a as i32, b as i32);
                assert(lit(m@, wi, hi, comp@[j].0 as int, comp@[j].1 as int));
            }
            let j1 = choose|j: int| 0 <= j < comp.len() && lit(m@, wi, hi, (#[trigger] comp@[j]).0 as int, comp@[j].1 as int) && comp@[j].0 == min_x;
            assert(cluster_member(m@, d@, wi, hi, sx, sy, comp@[j1].0 as int, comp@[j1].1 as int));
            let j2 = choose|j: int| 0 <= j < comp.len() && lit(m@, wi, hi, (#[trigger] comp@[j]).0 as int, comp@[j].1 as int) && comp@[j].0 == max_x;
            assert(cluster_member(m@, d@, wi, hi, sx, sy, comp@[j2].0 as int, comp@[j2].1 as int));
            let j3 = choose|j: int| 0 <= j < comp.len() && lit(m@, wi, hi, (#[trigger] comp@[j]).0 as int, comp@[j].1 as int) && comp@[j].1 == min_y;
            assert(cluster_member(m@, d@, wi, hi, sx, sy, comp@[j3].0 as int, comp@[j3].1 as int));
            let j4 = choose|j: int| 0 <= j < comp.len() && lit(m@, wi, hi, (#[trigger] comp@[j]).0 as int, comp@[j].1 as int) && comp@[j].1 == max_y;
            assert(cluster_member(m@, d@, wi, hi, sx, sy, comp@[j4].0 as int, comp@[j4].1 as int));
        }
    }
    r
}


/// Clusters in row-major order of their boxes.
pub open spec fn clusters_sorted(s: Seq<Cluster>) -> bool {
    forall|i: int, j: int| 0 <= i < j < s.len() ==> box_le((#[trigger] s[i]).bbox, (#[trigger] s[j]).bbox)
}

/// `v` sorted by box `(y1, x1, y2, x2)`; clusters with equal boxes keep their
/// order.
fn sort_clusters(v: &Vec<Cluster>) -> (r: Vec<Cluster>)
    ensures
        clusters_sorted(r@),
        r@.to_multiset() == v@.to_multiset(),
{
    let mut r: Vec<Cluster> = Vec::new();
    let mut k: usize = 0;
    assert(r@ =~= v@.subrange(0, 0));
    while k < v.len()
        invariant
            k <= v.len(),
            clusters_sorted(r@),
            r@.to_multiset() == v@.subrange(0, k as int).to_multiset(),
        decreases v.len() - k,
    {
        let t = v[k];
        let mut i: usize = 0;
        while i < r.len() && !box_lt_exec(&t.bbox, &r[i].bbox)
            invariant
                i <= r.len(),
                forall|a: int| 0 <= a < i ==> box_le((#[trigger] r@[a]).bbox, t.bbox),
            decreases r.len() - i,
        {
            i = i + 1;
        }
        let ghost pre = r@;
        r.insert(i, t);
        proof {
            assert(r@ == pre.insert(i as int, t));
            assert forall|a: int, b: int| 0 <= a < b < r.len() implies box_le((#[trigger] r@[a]).bbox, (#[trigger] r@[b]).bbox) by {
                if b < i {
                } else if b == i {
                } else if a < i {
                    assert(box_le(pre[i as int].bbox, pre[b - 1].bbox) || b - 1 == i);
                } else if a == i {
                    assert(box_le(pre[i as int].bbox, pre[b - 1].bbox) || b - 1 == i);
                } else {
                    assert(box_le(pre[a - 1].bbox, pre[b - 1].bbox));
                }
            }
            assert(v@.subrange(0, k + 1) == v@.subrange(0, k as int).push(t));
            vstd::seq_lib::to_multiset_insert(pre, i as int, t);
            vstd::seq_lib::to_multiset_build(v@.subrange(0, k as int), t);
        }
        k = k + 1;
    }
    assert(v@.subrange(0, v.len() as int) == v@);
    r
}

/// The grid whose 8-connected components are the clusters: the mask dilated
/// by `r`, or the mask itself for radius 0 or an empty mask.
pub open spec fn dilation_grid(mask: &Mask, r: int) -> Seq<bool> {
    if r == 0 || mask.width == 0 || mask.height == 0 {
        mask.bits@
    } else {
        Seq::new(
            ((mask.width as int) * (mask.height as int)) as nat,
            |i: int| dilated_bit(mask, r, i % mask.width as int, i / mask.width as int),
        )
    }
}

/// Raster index `t` is the first pixel of a component of the dilated grid
/// holding at least `min` original ink pixels.
#[verifier::opaque]
pub open spec fn big_seed_at(mask: &Mask, r: int, min: u32, t: int) -> bool {
    let w = mask.width as int;
    let h = mask.height as int;
    let d = dilation_grid(mask, r);
    is_seed(d, w, h, t % w, t / w) && member_count(mask.bits@, d, w, h, t % w, t / w) >= min
}

/// The cluster of the component whose first pixel has raster index `t`.
#[verifier::opaque]
pub open spec fn describes_at(mask: &Mask, r: int, t: int, cl: Cluster) -> bool {
    let w = mask.width as int;
    describes(mask.bits@, dilation_grid(mask, r), w, mask.height as int, t % w, t / w, cl)
}

/// A seed's reach stays with its label: `(x, y)` is a seed when every earlier
/// set pixel is labelled and every labelled pixel is reachable from the seed
/// of its label, in a closed labelling that leaves `(x, y)` unlabelled.
pub(crate) proof fn lemma_fresh_is_seed(d: Seq<bool>, lab: Seq<usize>, seeds: Seq<(int, int)>, w: int, h: int, x: int, y: int)
    requires
        w > 0,
        h > 0,
        lab.len() == w * h,
        0 <= x < w,
        0 <= y < h,
        lit(d, w, h, x, y),
        cell(lab, w, x, y) == 0,
        labels_closed8(d, lab, w, h),
        forall|px: int, py: int| 0 <= px < w && 0 <= py < h && py * w + px < y * w + x && #[trigger] lit(d, w, h, px, py)
            ==> cell(lab, w, px, py) != 0,
        forall|px: int, py: int| 0 <= px < w && 0 <= py < h && #[trigger] cell(lab, w, px, py) != 0
            ==> cell(lab, w, px, py) <= seeds.len() && joined8(d, w, h, seeds[cell(lab, w, px, py) - 1].0, seeds[cell(lab, w, px, py) - 1].1, px, py),
        forall|c: int| 0 <= c < seeds.len() ==> {
            let s = #[trigger] seeds[c];
            0 <= s.0 < w && 0 <= s.1 < h && cell(lab, w, s.0, s.1) == c + 1
        },
    ensures
        is_seed(d, w, h, x, y),
{
    assert forall|a: int, b: int| (b < y || (b == y && a < x)) && #[trigger] lit(d, w, h, a, b) implies !joined8(d, w, h, a, b, x, y) by {
        lemma_raster_order(w, a, b, x, y);
        if joined8(d, w, h, a, b, x, y) {
            let c = cell(lab, w, a, b);
            assert(c != 0);
            let s = seeds[c - 1];
            assert(joined8(d, w, h, s.0, s.1, a, b));
            let n1 = choose|n: nat| #[trigger] walk8(d, w, h, s.0, s.1, a, b, n);
            let n2 = choose|n: nat| #[trigger] walk8(d, w, h, a, b, x, y, n);
            lemma_walk_join(d, w, h, s.0, s.1, a, b, x, y, n1, n2);
            lemma_walk_ends_lit(d, w, h, s.0, s.1, x, y, n1 + n2);
            assert(cell(lab, w, s.0, s.1) == c);
            lemma_closed_reach(d, lab, w, h, s.0, s.1, x, y, n1 + n2);
        }
    }
}


pub(crate) proof fn lemma_raster_order(w: int, px: int, py: int, x: int, y: int)
    requires
        0 <= px < w,
        0 <= x < w,
        0 <= py,
        0 <= y,
    ensures
        (py * w + px < y * w + x) == (py < y || (py == y && px < x)),
{
    if py < y {
        assert(py * w + px < y * w + x) by (nonlinear_arith)
            requires py + 1 <= y, px < w, 0 <= x, w >= 0;
    } else if py > y {
        assert(py * w + px > y * w + x) by (nonlinear_arith)
            requires y + 1 <= py, x < w, 0 <= px, w >= 0;
    }
}

/// `cl` is the cluster of a component with at least `min` original ink
/// pixels whose first pixel comes before raster index `t`.
pub open spec fn sourced(mask: &Mask, r: int, min: u32, cl: Cluster, t: int) -> bool {
    exists|q: int| 0 <= q < t && big_seed_at(mask, r, min, q) && #[trigger] describes_at(mask, r, q, cl)
}

/// What the row-major scan of `find_clusters` has established about its
/// labels once it has passed the first `t` pixels.
#[verifier::opaque]
pub open spec fn scan_labels(mask: &Mask, r: int, lab: Seq<usize>, seeds: Seq<(int, int)>, t: int) -> bool {
    let w = mask.width as int;
    let h = mask.height as int;
    let d = dilation_grid(mask, r);
    &&& lab.len() == w * h
    &&& labels_closed8(d, lab, w, h)
    &&& forall|i: int| 0 <= i < lab.len() ==> #[trigger] lab[i] <= seeds.len()
    &&& forall|px: int, py: int|
        0 <= px < w && 0 <= py < h && py * w + px < t && #[trigger] lit(d, w, h, px, py) ==> cell(lab, w, px, py) != 0
    &&& forall|c: int|
        0 <= c < seeds.len() ==> {
            let s = #[trigger] seeds[c];
            &&& 0 <= s.0 < w && 0 <= s.1 < h
            &&& lit(d, w, h, s.0, s.1)
            &&& cell(lab, w, s.0, s.1) == c + 1
            &&& is_seed(d, w, h, s.0, s.1)
            &&& s.1 * w + s.0 < t
        }
    &&& forall|px: int, py: int|
        0 <= px < w && 0 <= py < h && #[trigger] cell(lab, w, px, py) != 0 ==> cell(lab, w, px, py) <= seeds.len()
            && joined8(d, w, h, seeds[cell(lab, w, px, py) - 1].0, seeds[cell(lab, w, px, py) - 1].1, px, py)
}

/// What the scan has established about the clusters it has kept.
#[verifier::opaque]
pub open spec fn scan_out(mask: &Mask, r: int, min: u32, out: Seq<Cluster>, t: int) -> bool {
    &&& out.len() == count_in(|q: int| big_seed_at(mask, r, min, q), 0, t)
    &&& forall|i: int| 0 <= i < out.len() ==> sourced(mask, r, min, #[trigger] out[i], t)
    &&& forall|q: int| 0 <= q < t && #[trigger] big_seed_at(mask, r, min, q) ==> exists|i: int| 0 <= i < out.len() && describes_at(mask, r, q, #[trigger] out[i])
}

/// A pixel that is unset, or already labelled when the scan reaches it,
/// starts no component.
proof fn lemma_scan_not_seed(mask: &Mask, r: int, lab: Seq<usize>, seeds: Seq<(int, int)>, x: int, y: int)
    requires
        0 <= x < mask.width,
        0 <= y < mask.height,
        scan_labels(mask, r, lab, seeds, y * mask.width + x),
        !(lit(dilation_grid(mask, r), mask.width as int, mask.height as int, x, y) && cell(lab, mask.width as int, x, y) == 0),
    ensures
        !is_seed(dilation_grid(mask, r), mask.width as int, mask.height as int, x, y),
{
    reveal(scan_labels);
    reveal(scan_out);
    let w = mask.width as int;
    let h = mask.height as int;
    let d = dilation_grid(mask, r);
    if lit(d, w, h, x, y) {
        let c = cell(lab, w, x, y);
        let s = seeds[c - 1];
        assert(joined8(d, w, h, s.0, s.1, x, y));
        lemma_raster_order(w, s.0, s.1, x, y);
        assert(lit(d, w, h, s.0, s.1));
    }
}

/// Passing a pixel that starts no component keeps the label part of the
/// scan invariant.
proof fn lemma_scan_skip_labels(mask: &Mask, r: int, lab: Seq<usize>, seeds: Seq<(int, int)>, x: int, y: int)
    requires
        0 <= x < mask.width,
        0 <= y < mask.height,
        scan_labels(mask, r, lab, seeds, y * mask.width + x),
        !(lit(dilation_grid(mask, r), mask.width as int, mask.height as int, x, y) && cell(lab, mask.width as int, x, y) == 0),
    ensures
        scan_labels(mask, r, lab, seeds, y * mask.width + x + 1),
{
    reveal(scan_labels);
    reveal(scan_out);
    let w = mask.width as int;
    let h = mask.height as int;
    let d = dilation_grid(mask, r);
    let t = y * w + x;
    assert forall|px: int, py: int|
        0 <= px < w && 0 <= py < h && py * w + px < t + 1 && #[trigger] lit(d, w, h, px, py) implies cell(lab, w, px, py) != 0 by {
        if py * w + px == t {
            lemma_index_inj(w, px, py, x, y);
        }
    }
}

/// Passing a pixel that is no seed keeps the output part of the scan
/// invariant.
proof fn lemma_scan_skip_out(mask: &Mask, r: int, min: u32, out: Seq<Cluster>, x: int, y: int)
    requires
        0 <= x < mask.width,
        0 <= y < mask.height,
        scan_out(mask, r, min, out, y * mask.width + x),
        !is_seed(dilation_grid(mask, r), mask.width as int, mask.height as int, x, y),
    ensures
        scan_out(mask, r, min, out, y * mask.width + x + 1),
{
    reveal(scan_labels);
    reveal(scan_out);
    let w = mask.width as int;
    let t = y * w + x;
    lemma_index_coords(w, x, y);
    assert(!big_seed_at(mask, r, min, t)) by {
        reveal(big_seed_at);
    }
    assert forall|i: int| 0 <= i < out.len() implies sourced(mask, r, min, #[trigger] out[i], t + 1) by {
        assert(sourced(mask, r, min, out[i], t));
    }
}

/// Flooding a fresh pixel keeps the label part of the scan invariant, and
/// the fresh pixel is a seed.
proof fn lemma_scan_fresh_labels(
    mask: &Mask,
    r: int,
    lab0: Seq<usize>,
    lab1: Seq<usize>,
    seeds: Seq<(int, int)>,
    comp: Seq<(i32, i32)>,
    x: int,
    y: int,
)
    requires
        (mask.width as int) * (mask.height as int) <= i32::MAX,
        0 <= x < mask.width,
        0 <= y < mask.height,
        scan_labels(mask, r, lab0, seeds, y * mask.width + x),
        lit(dilation_grid(mask, r), mask.width as int, mask.height as int, x, y),
        cell(lab0, mask.width as int, x, y) == 0,
        lab1.len() == lab0.len(),
        comp.len() > 0,
        comp[0] == (x as i32, y as i32),
        forall|k: int| 0 <= k < comp.len() ==> 0 <= (#[trigger] comp[k]).0 < mask.width && 0 <= comp[k].1 < mask.height
            && cell(lab1, mask.width as int, comp[k].0 as int, comp[k].1 as int) == seeds.len() + 1
            && joined8(dilation_grid(mask, r), mask.width as int, mask.height as int, x, y, comp[k].0 as int, comp[k].1 as int),
        forall|i: int| 0 <= i < lab1.len() ==> #[trigger] lab1[i] == lab0[i] || (lab0[i] == 0 && lab1[i] == seeds.len() + 1),
        forall|px: int, py: int| 0 <= px < mask.width && 0 <= py < mask.height && #[trigger] cell(lab1, mask.width as int, px, py) == seeds.len() + 1
            ==> comp.contains((px as i32, py as i32)),
        labels_closed8(dilation_grid(mask, r), lab1, mask.width as int, mask.height as int),
        forall|i: int| 0 <= i < lab1.len() ==> #[trigger] lab1[i] <= seeds.len() + 1,
    ensures
        is_seed(dilation_grid(mask, r), mask.width as int, mask.height as int, x, y),
        scan_labels(mask, r, lab1, seeds.push((x, y)), y * mask.width + x + 1),
{
    reveal(scan_labels);
    reveal(scan_out);
    let w = mask.width as int;
    let h = mask.height as int;
    let d = dilation_grid(mask, r);
    let t = y * w + x;
    let c = seeds.len() + 1;
    let seeds1 = seeds.push((x, y));
    assert(w <= i32::MAX && h <= i32::MAX) by (nonlinear_arith)
        requires w * h <= i32::MAX, w >= 1, h >= 1;
    lemma_index_in(w, h, x, y);
    lemma_fresh_is_seed(d, lab0, seeds, w, h, x, y);
    assert(cell(lab1, w, x, y) == c) by {
        assert(comp[0] == (x as i32, y as i32));
    }
    assert forall|px: int, py: int|
        0 <= px < w && 0 <= py < h && py * w + px < t + 1 && #[trigger] lit(d, w, h, px, py) implies cell(lab1, w, px, py) != 0 by {
        lemma_index_in(w, h, px, py);
        if py * w + px == t {
            lemma_index_inj(w, px, py, x, y);
        } else {
            assert(cell(lab0, w, px, py) != 0);
        }
    }
    assert forall|k: int| 0 <= k < seeds1.len() implies {
        let s = #[trigger] seeds1[k];
        &&& 0 <= s.0 < w && 0 <= s.1 < h
        &&& lit(d, w, h, s.0, s.1)
        &&& cell(lab1, w, s.0, s.1) == k + 1
        &&& is_seed(d, w, h, s.0, s.1)
        &&& s.1 * w + s.0 < t + 1
    } by {
        if k < seeds.len() {
            assert(seeds1[k] == seeds[k]);
            let s = seeds[k];
            assert(cell(lab0, w, s.0, s.1) == k + 1);
            lemma_index_in(w, h, s.0, s.1);
        }
    }
    assert forall|px: int, py: int|
        0 <= px < w && 0 <= py < h && #[trigger] cell(lab1, w, px, py) != 0 implies cell(lab1, w, px, py) <= seeds1.len()
            && joined8(d, w, h, seeds1[cell(lab1, w, px, py) - 1].0, seeds1[cell(lab1, w, px, py) - 1].1, px, py) by {
        lemma_index_in(w, h, px, py);
        if cell(lab0, w, px, py) != 0 {
            let c0 = cell(lab0, w, px, py);
            assert(seeds1[c0 - 1] == seeds[c0 - 1]);
        } else {
            assert(cell(lab1, w, px, py) == c);
            assert(comp.contains((px as i32, py as i32)));
            let k = choose|k: int| 0 <= k < comp.len() && comp[k] == (px as i32, py as i32);
            assert(seeds1[c - 1] == (x, y));
        }
    }
    assert forall|i: int| 0 <= i < lab1.len() implies #[trigger] lab1[i] <= seeds1.len() by {}
}

/// Keeping the fresh seed's cluster when it is big enough keeps the output
/// part of the scan invariant.
proof fn lemma_scan_fresh_out(mask: &Mask, r: int, min: u32, out: Seq<Cluster>, cl: Cluster, x: int, y: int)
    requires
        0 <= x < mask.width,
        0 <= y < mask.height,
        scan_out(mask, r, min, out, y * mask.width + x),
        is_seed(dilation_grid(mask, r), mask.width as int, mask.height as int, x, y),
        describes(mask.bits@, dilation_grid(mask, r), mask.width as int, mask.height as int, x, y, cl),
    ensures
        scan_out(mask, r, min, if cl.pixels >= min { out.push(cl) } else { out }, y * mask.width + x + 1),
{
    reveal(scan_labels);
    reveal(scan_out);
    let w = mask.width as int;
    let t = y * w + x;
    let out1 = if cl.pixels >= min { out.push(cl) } else { out };
    lemma_index_coords(w, x, y);
    assert(big_seed_at(mask, r, min, t) == (cl.pixels >= min)) by {
        reveal(big_seed_at);
    }
    assert(describes_at(mask, r, t, cl)) by {
        reveal(describes_at);
    }
    assert forall|i: int| 0 <= i < out1.len() implies sourced(mask, r, min, #[trigger] out1[i], t + 1) by {
        if i < out.len() {
            assert(out1[i] == out[i]);
            assert(sourced(mask, r, min, out[i], t));
        } else {
            assert(out1[i] == cl);
        }
    }
    assert forall|q: int| 0 <= q < t + 1 && #[trigger] big_seed_at(mask, r, min, q) implies exists|i: int| 0 <= i < out1.len() && describes_at(mask, r, q, #[trigger] out1[i]) by {
        if q < t {
            let i = choose|i: int| 0 <= i < out.len() && describes_at(mask, r, q, #[trigger] out[i]);
            assert(out1[i] == out[i]);
        } else {
            assert(out1[out1.len() - 1] == cl);
        }
    }
}



/// What the scan invariant gives the flood of a fresh pixel.
proof fn lemma_scan_facts(mask: &Mask, r: int, min: u32, lab: Seq<usize>, seeds: Seq<(int, int)>, out: Seq<Cluster>, t: int)
    requires
        scan_labels(mask, r, lab, seeds, t),
        scan_out(mask, r, min, out, t),
    ensures
        lab.len() == (mask.width as int) * (mask.height as int),
        labels_closed8(dilation_grid(mask, r), lab, mask.width as int, mask.height as int),
        forall|i: int| 0 <= i < lab.len() ==> #[trigger] lab[i] <= seeds.len(),
        out.len() == count_in(|q: int| big_seed_at(mask, r, min, q), 0, t),
        forall|i: int| 0 <= i < out.len() ==> sourced(mask, r, min, #[trigger] out[i], t),
        forall|q: int| 0 <= q < t && #[trigger] big_seed_at(mask, r, min, q) ==> exists|i: int| 0 <= i < out.len() && describes_at(mask, r, q, #[trigger] out[i]),
{
    reveal(scan_labels);
    reveal(scan_out);
}

/// The scan starts from nothing.
proof fn lemma_scan_start(mask: &Mask, r: int, min: u32, lab: Seq<usize>)
    requires
        lab.len() == (mask.width as int) * (mask.height as int),
        forall|i: int| 0 <= i < lab.len() ==> #[trigger] lab[i] == 0,
    ensures
        scan_labels(mask, r, lab, Seq::empty(), 0),
        scan_out(mask, r, min, Seq::empty(), 0),
{
    reveal(scan_labels);
    reveal(scan_out);
    let w = mask.width as int;
    let h = mask.height as int;
    assert forall|px: int, py: int| 0 <= px < w && 0 <= py < h implies #[trigger] cell(lab, w, px, py) == 0 by {
        lemma_index_in(w, h, px, py);
    }
}

/// Connected ink clusters. The mask is dilated by `cfg.dilate` so that the
/// separate strokes of one icon merge; the dilated ink splits into
/// 8-connected components; each component holding at least
/// `cfg.min_pixels` original (undilated) ink pixels becomes one cluster,
/// with the tight box and the count of those pixels. Clusters come sorted
/// by box `(y1, x1, y2, x2)`.
pub fn find_clusters(mask: &Mask, cfg: &ClusterConfig) -> (clusters: Vec<Cluster>)
    requires
        (mask.width as int) * (mask.height as int) <= i32::MAX,
        mask.bits@.len() >= (mask.width as int) * (mask.height as int),
    ensures
        clusters_sorted(clusters@),
        clusters.len() == count_in(
            |q: int| big_seed_at(mask, cfg.dilate as int, cfg.min_pixels, q),
            0,
            (mask.width as int) * (mask.height as int),
        ),
        forall|i: int|
            0 <= i < clusters.len() ==> sourced(
                mask,
                cfg.dilate as int,
                cfg.min_pixels,
                #[trigger] clusters@[i],
                (mask.width as int) * (mask.height as int),
            ),
        forall|q: int|
            0 <= q < (mask.width as int) * (mask.height as int) && #[trigger] big_seed_at(mask, cfg.dilate as int, cfg.min_pixels, q)
                ==> exists|i: int| 0 <= i < clusters.len() && describes_at(mask, cfg.dilate as int, q, #[trigger] clusters@[i]),
{
    let ghost r = cfg.dilate as int;
    let ghost min = cfg.min_pixels;
    if mask.width == 0 || mask.height == 0 {
        proof {
            assert((mask.width as int) * (mask.height as int) == 0);
        }
        return Vec::new();
    }
    proof {
        assert(mask.width <= i32::MAX && mask.height <= i32::MAX) by (nonlinear_arith)
            requires (mask.width as int) * (mask.height as int) <= i32::MAX, mask.width >= 1, mask.height >= 1;
    }
    let w = mask.width as i32;
    let h = mask.height as i32;
    let ghost wi = w as int;
    let ghost hi = h as int;
    let n = (w * h) as usize;
    let dil = dilate(mask, cfg.dilate);
    proof {
        if r != 0 {
            assert forall|i: int| 0 <= i < n implies #[trigger] dil.bits@[i] == dilation_grid(mask, r)[i] by {
                let x = i % wi;
                let y = i / wi;
                vstd::arithmetic::div_mod::lemma_fundamental_div_mod(i, wi);
                assert(0 <= x < wi && 0 <= y < hi && i == y * wi + x) by (nonlinear_arith)
                    requires x == i % wi, y == i / wi, 0 <= i < wi * hi, wi > 0, hi > 0, i == wi * y + x, 0 <= x < wi;
                assert(dil.px(x, y) == dilated_bit(mask, r, x, y));
            }
        }
        assert(dil.bits@ =~= dilation_grid(mask, r));
    }
    let ghost d = dil.bits@;
    let mut lab: Vec<usize> = Vec::new();
    let mut k: usize = 0;
    while k < n
        invariant
            k <= n,
            lab.len() == k,
            forall|i: int| 0 <= i < k ==> #[trigger] lab@[i] == 0,
        decreases n - k,
    {
        lab.push(0);
        k = k + 1;
    }
    let mut out: Vec<Cluster> = Vec::new();
    let ghost mut seeds: Seq<(int, int)> = Seq::empty();
    let mut ncomp: usize = 0;
    proof {
        lemma_scan_start(mask, r, min, lab@);
        assert(out@ == Seq::<Cluster>::empty());
    }
    let mut y: i32 = 0;
    while y < h
        invariant
            w == mask.width,
            h == mask.height,
            wi == w as int,
            hi == h as int,
            w > 0,
            h > 0,
            n == wi * hi,
            n <= i32::MAX,
            d == dil.bits@,
            d == dilation_grid(mask, r),
            d.len() >= n,
            mask.bits@.len() >= n,
            r == cfg.dilate as int,
            min == cfg.min_pixels,
            0 <= y <= h,
            ncomp == seeds.len(),
            ncomp <= y * wi,
            lab.len() == n,
            scan_labels(mask, r, lab@, seeds, y * wi),
            scan_out(mask, r, min, out@, y * wi),
        decreases h - y,
    {
        let mut x: i32 = 0;
        while x < w
            invariant
                w == mask.width,
                h == mask.height,
                wi == w as int,
                hi == h as int,
                w > 0,
                h > 0,
                n == wi * hi,
                n <= i32::MAX,
                d == dil.bits@,
                d == dilation_grid(mask, r),
                d.len() >= n,
                mask.bits@.len() >= n,
                r == cfg.dilate as int,
                min == cfg.min_pixels,
                0 <= y < h,
                0 <= x <= w,
                ncomp == seeds.len(),
                ncomp <= y * wi + x,
                lab.len() == n,
                scan_labels(mask, r, lab@, seeds, y * wi + x),
                scan_out(mask, r, min, out@, y * wi + x),
            decreases w - x,
        {
            let idx = index_of(w, h, x, y);
            if dil.bits[idx] && lab[idx] == 0 {
                let ghost lab0 = lab@;
                let c = ncomp + 1;
                proof {
                    lemma_scan_facts(mask, r, min, lab@, seeds, out@, y * wi + x);
                    assert(lit(d, wi, hi, x as int, y as int));
                    assert forall|i: int| 0 <= i < lab.len() implies #[trigger] lab@[i] < c by {}
                }
                let comp = flood8(&dil.bits, &mut lab, c, w, h, x, y);
                proof {
                    lemma_scan_fresh_labels(mask, r, lab0, lab@, seeds, comp@, x as int, y as int);
                }
                let cl = component_stats(&mask.bits, &dil.bits, &lab, c, w, h, &comp, Ghost(x as int), Ghost(y as int));
                proof {
                    lemma_scan_fresh_out(mask, r, min, out@, cl, x as int, y as int);
                }
                if cl.pixels >= cfg.min_pixels {
                    out.push(cl);
                }
                proof {
                    seeds = seeds.push((x as int, y as int));
                }
                ncomp = ncomp + 1;
            } else {
                proof {
                    lemma_scan_not_seed(mask, r, lab@, seeds, x as int, y as int);
                    lemma_scan_skip_labels(mask, r, lab@, seeds, x as int, y as int);
                    lemma_scan_skip_out(mask, r, min, out@, x as int, y as int);
                }
            }
            x = x + 1;
        }
        proof {
            assert(y * wi + wi == (y + 1) * wi) by (nonlinear_arith);
        }
        y = y + 1;
    }
    let sorted = sort_clusters(&out);
    proof {
        assert(h * wi == n) by (nonlinear_arith)
            requires n == wi * hi, h == hi;
        lemma_scan_facts(mask, r, min, lab@, seeds, out@, n as int);
        vstd::seq_lib::to_multiset_len(sorted@);
        vstd::seq_lib::to_multiset_len(out@);
        assert forall|i: int| 0 <= i < sorted.len() implies sourced(mask, r, min, #[trigger] sorted@[i], n as int) by {
            let a = sorted@[i];
            assert(sorted@.contains(a));
            vstd::seq_lib::to_multiset_contains(sorted@, a);
            vstd::seq_lib::to_multiset_contains(out@, a);
            let j = choose|j: int| 0 <= j < out.len() && out@[j] == a;
            assert(sourced(mask, r, min, out@[j], n as int));
        }
        assert forall|q: int| 0 <= q < n && #[trigger] big_seed_at(mask, r, min, q)
            implies exists|i: int| 0 <= i < sorted.len() && describes_at(mask, r, q, #[trigger] sorted@[i]) by {
            let j = choose|j: int| 0 <= j < out.len() && describes_at(mask, r, q, #[trigger] out@[j]);
            let a = out@[j];
            assert(out@.contains(a));
            vstd::seq_lib::to_multiset_contains(sorted@, a);
            vstd::seq_lib::to_multiset_contains(out@, a);
            let i = choose|i: int| 0 <= i < sorted.len() && sorted@[i] == a;
            assert(describes_at(mask, r, q, sorted@[i]));
        }
    }
    sorted
}

} // verus!
