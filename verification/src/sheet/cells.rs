//! Icon cells of a lattice: the ink each cell holds and the padded crop
//! rectangle around it.

use vstd::prelude::*;
use crate::counting::{count_in, lemma_count_bounds, lemma_sum_bounds, sum_in};
use crate::sheet::chroma::Mask;
use crate::sheet::cluster::Bbox;
use crate::sheet::lattice::Lattice;

verus! {

/// One non-empty lattice cell.
#[derive(Debug, Clone, Copy)]
pub struct IconCell {
    pub col: usize,
    pub row: usize,
    /// The lattice rectangle the icon came from.
    pub cell_rect: Bbox,
    /// Tight ink box inside the cell, padded and clipped to the mask.
    pub crop: Bbox,
    /// Ink pixels inside the cell.
    pub ink_pixels: u32,
}

/// Cell extraction parameters.
#[derive(Debug, Clone, Copy)]
pub struct CellConfig {
    /// Padding around the tight ink box, clipped to the mask.
    pub pad: u32,
    /// Cells with less ink are skipped.
    pub min_ink: u32,
}

impl Default for CellConfig {
    fn default() -> (c: CellConfig)
        ensures
            c.pad == 2,
            c.min_ink == 12,
    {
        CellConfig { pad: 2, min_ink: 12 }
    }
}

/// `(x, y)` is set in `mask` and lies inside `rect`.
pub open spec fn ink_in(mask: &Mask, rect: Bbox, x: int, y: int) -> bool {
    rect.x1 <= x < rect.x2 && rect.y1 <= y < rect.y2 && mask.bit(x, y)
}

/// `rect` holds some set pixel of `mask`.
pub open spec fn has_ink_in(mask: &Mask, rect: Bbox) -> bool {
    exists|x: int, y: int| #[trigger] ink_in(mask, rect, x, y)
}

/// `b` is the smallest box (exclusive bounds) holding all ink of `mask`
/// inside `rect`.
pub open spec fn is_tight_box(mask: &Mask, rect: Bbox, b: Bbox) -> bool {
    &&& forall|x: int, y: int| #[trigger]
        ink_in(mask, rect, x, y) ==> b.x1 <= x < b.x2 && b.y1 <= y < b.y2
    &&& exists|x: int, y: int| #[trigger] ink_in(mask, rect, x, y) && x == b.x1
    &&& exists|x: int, y: int| #[trigger] ink_in(mask, rect, x, y) && x + 1 == b.x2
    &&& exists|x: int, y: int| #[trigger] ink_in(mask, rect, x, y) && y == b.y1
    &&& exists|x: int, y: int| #[trigger] ink_in(mask, rect, x, y) && y + 1 == b.y2
}

/// Tight bounding box of the set bits of `mask` inside `rect`; `None` when
/// `rect` holds no ink.
pub fn ink_bbox_in(mask: &Mask, rect: &Bbox) -> (r: Option<Bbox>)
    requires
        mask.index_fits(),
    ensures
        r is None <==> !has_ink_in(mask, *rect),
        r matches Some(b) ==> is_tight_box(mask, *rect, b),
{
    if mask.width == 0 || mask.height == 0 {
        return None;
    }
    let x_min = if rect.x1 <= mask.width { rect.x1 } else { mask.width };
    let x_max = if rect.x2 <= mask.width { rect.x2 } else { mask.width };
    let y_min = if rect.y1 <= mask.height { rect.y1 } else { mask.height };
    let y_max = if rect.y2 <= mask.height { rect.y2 } else { mask.height };
    if x_min >= x_max || y_min >= y_max {
        return None;
    }
    let mut min_x = u32::MAX;
    let mut min_y = u32::MAX;
    let mut max_x: u32 = 0;
    let mut max_y: u32 = 0;
    let mut found = false;
    let ghost rc = *rect;
    // Ghost witnesses: ink pixels that attain each extreme.
    let ghost mut a: (int, int) = (0, 0);
    let ghost mut b: (int, int) = (0, 0);
    let ghost mut c: (int, int) = (0, 0);
    let ghost mut d: (int, int) = (0, 0);
    let mut y = y_min;
    while y < y_max
        invariant
            mask.index_fits(),
            rc == *rect,
            x_min == rect.x1,
            x_min < x_max,
            x_max <= mask.width,
            x_max <= rect.x2,
            x_max == rect.x2 || x_max == mask.width,
            y_min == rect.y1,
            y_max <= mask.height,
            y_max <= rect.y2,
            y_max == rect.y2 || y_max == mask.height,
            y_min <= y <= y_max,
            found <==> exists|xx: int, yy: int| #[trigger] ink_in(mask, rc, xx, yy) && yy < y,
            found ==> {
                &&& forall|xx: int, yy: int| #[trigger]
                    ink_in(mask, rc, xx, yy) && yy < y ==> min_x <= xx <= max_x && min_y <= yy
                        <= max_y
                &&& ink_in(mask, rc, a.0, a.1) && a.1 < y && a.0 == min_x
                &&& ink_in(mask, rc, b.0, b.1) && b.1 < y && b.0 == max_x
                &&& ink_in(mask, rc, c.0, c.1) && c.1 < y && c.1 == min_y
                &&& ink_in(mask, rc, d.0, d.1) && d.1 < y && d.1 == max_y
            },
        decreases y_max - y,
    {
        let mut x = x_min;
        while x < x_max
            invariant
                mask.index_fits(),
                rc == *rect,
                x_min == rect.x1,
                x_max <= mask.width,
                x_max <= rect.x2,
                x_max == rect.x2 || x_max == mask.width,
                y < y_max,
                y_max <= mask.height,
                y_max <= rect.y2,
                y_min == rect.y1,
                y_min <= y,
                x_min <= x <= x_max,
                found <==> exists|xx: int, yy: int| #[trigger] ink_in(mask, rc, xx, yy) && (yy < y || (yy == y && xx < x)),
                found ==> {
                    &&& forall|xx: int, yy: int| #[trigger]
                        ink_in(mask, rc, xx, yy) && (yy < y || (yy == y && xx < x)) ==> min_x <= xx <= max_x
                            && min_y <= yy <= max_y
                    &&& ink_in(mask, rc, a.0, a.1) && (a.1 < y || (a.1 == y && a.0 < x)) && a.0 == min_x
                    &&& ink_in(mask, rc, b.0, b.1) && (b.1 < y || (b.1 == y && b.0 < x)) && b.0 == max_x
                    &&& ink_in(mask, rc, c.0, c.1) && (c.1 < y || (c.1 == y && c.0 < x)) && c.1 == min_y
                    &&& ink_in(mask, rc, d.0, d.1) && (d.1 < y || (d.1 == y && d.0 < x)) && d.1 == max_y
                },
            decreases x_max - x,
        {
            if mask.get(x, y) {
                assert(ink_in(mask, rc, x as int, y as int));
                let was = found;
                found = true;
                if !was || x < min_x {
                    min_x = x;
                    proof { a = (x as int, y as int); }
                }
                if !was || y < min_y {
                    min_y = y;
                    proof { c = (x as int, y as int); }
                }
                if !was || x > max_x {
                    max_x = x;
                    proof { b = (x as int, y as int); }
                }
                if !was || y > max_y {
                    max_y = y;
                    proof { d = (x as int, y as int); }
                }
            } else {
                assert(!ink_in(mask, rc, x as int, y as int));
            }
            x = x + 1;
        }
        proof {
            assert forall|xx: int, yy: int| #[trigger] ink_in(mask, rc, xx, yy) && yy == y implies xx < x by {}
        }
        y = y + 1;
    }
    proof {
        assert forall|xx: int, yy: int| #[trigger] ink_in(mask, rc, xx, yy) implies yy < y by {}
    }
    if found {
        let bb = Bbox { x1: min_x, y1: min_y, x2: max_x + 1, y2: max_y + 1 };
        proof {
            assert(ink_in(mask, rc, a.0, a.1) && a.0 == bb.x1);
            assert(ink_in(mask, rc, b.0, b.1) && b.0 + 1 == bb.x2);
            assert(ink_in(mask, rc, c.0, c.1) && c.1 == bb.y1);
            assert(ink_in(mask, rc, d.0, d.1) && d.1 + 1 == bb.y2);
        }
        Some(bb)
    } else {
        None
    }
}

/// Set bits of `mask` in the window `x_lo..x_hi` by `y_lo..y_hi`.
pub open spec fn window_ink(mask: &Mask, x_lo: int, x_hi: int, y_lo: int, y_hi: int) -> nat {
    sum_in(|yy: int| count_in(|xx: int| mask.bit(xx, yy), x_lo, x_hi), y_lo, y_hi)
}

pub open spec fn sat_add(a: u32, b: u32) -> u32 {
    if a + b <= u32::MAX { (a + b) as u32 } else { u32::MAX }
}

pub open spec fn clip(v: u32, limit: u32) -> u32 {
    if v <= limit { v } else { limit }
}

/// The rectangle of lattice cell `(c, r)`.
pub open spec fn cell_box(lat: &Lattice, c: int, r: int) -> Bbox {
    let cb = lat.cols@[c];
    let rb = lat.rows@[r];
    Bbox {
        x1: cb.start,
        y1: rb.start,
        x2: (cb.start + cb.spec_len()) as u32,
        y2: (rb.start + rb.spec_len()) as u32,
    }
}

/// The icon cell extracted from lattice cell `(c, r)`, if any.
pub open spec fn icon_cell_at(mask: &Mask, lat: &Lattice, cfg: CellConfig, c: int, r: int) -> Option<IconCell> {
    let rect = cell_box(lat, c, r);
    let ink = window_ink(
        mask,
        clip(rect.x1, mask.width) as int,
        clip(rect.x2, mask.width) as int,
        clip(rect.y1, mask.height) as int,
        clip(rect.y2, mask.height) as int,
    );
    if ink < cfg.min_ink || !has_ink_in(mask, rect) {
        None
    } else {
        let t = choose|t: Bbox| is_tight_box(mask, rect, t);
        Some(IconCell {
            col: c as usize,
            row: r as usize,
            cell_rect: rect,
            crop: Bbox {
                x1: if t.x1 >= cfg.pad { (t.x1 - cfg.pad) as u32 } else { 0 },
                y1: if t.y1 >= cfg.pad { (t.y1 - cfg.pad) as u32 } else { 0 },
                x2: clip(sat_add(t.x2, cfg.pad), mask.width),
                y2: clip(sat_add(t.y2, cfg.pad), mask.height),
            },
            ink_pixels: ink as u32,
        })
    }
}

pub open spec fn opt_seq(o: Option<IconCell>) -> Seq<IconCell> {
    match o {
        Some(v) => seq![v],
        None => Seq::empty(),
    }
}

/// Icon cells of row `r`, columns `0..n`.
pub open spec fn row_cells(mask: &Mask, lat: &Lattice, cfg: CellConfig, r: int, n: int) -> Seq<IconCell>
    decreases n,
{
    if n <= 0 {
        Seq::empty()
    } else {
        row_cells(mask, lat, cfg, r, n - 1) + opt_seq(icon_cell_at(mask, lat, cfg, n - 1, r))
    }
}

/// Icon cells of rows `0..n`, in row-major order.
pub open spec fn grid_cells(mask: &Mask, lat: &Lattice, cfg: CellConfig, n: int) -> Seq<IconCell>
    decreases n,
{
    if n <= 0 {
        Seq::empty()
    } else {
        grid_cells(mask, lat, cfg, n - 1) + row_cells(mask, lat, cfg, n - 1, lat.cols@.len() as int)
    }
}

proof fn lemma_tight_unique(mask: &Mask, rect: Bbox, t1: Bbox, t2: Bbox)
    requires
        is_tight_box(mask, rect, t1),
        is_tight_box(mask, rect, t2),
    ensures
        t1 == t2,
{
    let (ax, ay) = choose|x: int, y: int| #[trigger] ink_in(mask, rect, x, y) && x == t1.x1;
    let (bx, by) = choose|x: int, y: int| #[trigger] ink_in(mask, rect, x, y) && x == t2.x1;
    let (cx, cy) = choose|x: int, y: int| #[trigger] ink_in(mask, rect, x, y) && x + 1 == t1.x2;
    let (dx, dy) = choose|x: int, y: int| #[trigger] ink_in(mask, rect, x, y) && x + 1 == t2.x2;
    let (ex, ey) = choose|x: int, y: int| #[trigger] ink_in(mask, rect, x, y) && y == t1.y1;
    let (fx, fy) = choose|x: int, y: int| #[trigger] ink_in(mask, rect, x, y) && y == t2.y1;
    let (gx, gy) = choose|x: int, y: int| #[trigger] ink_in(mask, rect, x, y) && y + 1 == t1.y2;
    let (hx, hy) = choose|x: int, y: int| #[trigger] ink_in(mask, rect, x, y) && y + 1 == t2.y2;
}

/// Count the set bits of `mask` in the clipped window of `rect`.
pub(crate) fn count_window(mask: &Mask, x_min: u32, x_max: u32, y_min: u32, y_max: u32) -> (n: u32)
    requires
        mask.index_fits(),
        x_min <= x_max <= mask.width,
        y_min <= y_max <= mask.height,
    ensures
        n == window_ink(mask, x_min as int, x_max as int, y_min as int, y_max as int),
{
    let ghost ww = (x_max - x_min) as int;
    let ghost rowf = |yy: int| count_in(|xx: int| mask.bit(xx, yy), x_min as int, x_max as int);
    proof {
        assert(ww * (y_max - y_min) <= (mask.width as int) * (mask.height as int)) by (nonlinear_arith)
            requires 0 <= ww <= mask.width, 0 <= y_max - y_min <= mask.height;
    }
    let mut n: u32 = 0;
    let mut y = y_min;
    while y < y_max
        invariant
            mask.index_fits(),
            x_min <= x_max <= mask.width,
            y_min <= y <= y_max <= mask.height,
            ww == x_max - x_min,
            ww * (y_max - y_min) <= (mask.width as int) * (mask.height as int),
            rowf == (|yy: int| count_in(|xx: int| mask.bit(xx, yy), x_min as int, x_max as int)),
            n == sum_in(rowf, y_min as int, y as int),
            n <= (y - y_min) * ww,
        decreases y_max - y,
    {
        let ghost f = |xx: int| mask.bit(xx, y as int);
        let ghost n0 = n as int;
        let mut x = x_min;
        while x < x_max
            invariant
                mask.index_fits(),
                x_min <= x <= x_max <= mask.width,
                y_min <= y < y_max <= mask.height,
                ww == x_max - x_min,
                ww * (y_max - y_min) <= (mask.width as int) * (mask.height as int),
                f == (|xx: int| mask.bit(xx, y as int)),
                n == n0 + count_in(f, x_min as int, x as int),
                n0 <= (y - y_min) * ww,
                n <= n0 + (x - x_min),
            decreases x_max - x,
        {
            if mask.get(x, y) {
                proof {
                    assert((y - y_min) * ww + ww <= ww * (y_max - y_min)) by (nonlinear_arith)
                        requires y + 1 <= y_max, ww >= 0;
                }
                n = n + 1;
            }
            x = x + 1;
        }
        proof {
            assert(rowf(y as int) == count_in(f, x_min as int, x_max as int));
            assert((y - y_min) * ww + ww == (y + 1 - y_min) * ww) by (nonlinear_arith);
        }
        y = y + 1;
    }
    n
}

/// One `IconCell` per lattice cell holding at least `min_ink` ink pixels,
/// in row-major order.
pub fn extract_cells(mask: &Mask, lat: &Lattice, cfg: &CellConfig) -> (cells: Vec<IconCell>)
    requires
        mask.index_fits(),
    ensures
        cells@ == grid_cells(mask, lat, *cfg, lat.rows@.len() as int),
{
    let mut cells: Vec<IconCell> = Vec::new();
    let num_rows = lat.rows.len();
    let num_cols = lat.cols.len();
    let mut r: usize = 0;
    while r < num_rows
        invariant
            mask.index_fits(),
            num_rows == lat.rows@.len(),
            num_cols == lat.cols@.len(),
            r <= num_rows,
            cells@ == grid_cells(mask, lat, *cfg, r as int),
        decreases num_rows - r,
    {
        let ghost prefix = cells@;
        let mut c: usize = 0;
        while c < num_cols
            invariant
                mask.index_fits(),
                num_rows == lat.rows@.len(),
                num_cols == lat.cols@.len(),
                r < num_rows,
                c <= num_cols,
                cells@ == prefix + row_cells(mask, lat, *cfg, r as int, c as int),
            decreases num_cols - c,
        {
            let ghost before = cells@;
            let rect_opt = lat.cell_rect(c, r);
            let (x, y, w, h) = match rect_opt {
                Some(t) => t,
                None => {
                    proof { assert(false); }
                    (0, 0, 0, 0)
                },
            };
            let cell_rect = Bbox { x1: x, y1: y, x2: x + w, y2: y + h };
            assert(cell_rect == cell_box(lat, c as int, r as int));
            let x_min = if cell_rect.x1 <= mask.width { cell_rect.x1 } else { mask.width };
            let x_max = if cell_rect.x2 <= mask.width { cell_rect.x2 } else { mask.width };
            let y_min = if cell_rect.y1 <= mask.height { cell_rect.y1 } else { mask.height };
            let y_max = if cell_rect.y2 <= mask.height { cell_rect.y2 } else { mask.height };
            let ink_pixels = if x_min <= x_max && y_min <= y_max {
                count_window(mask, x_min, x_max, y_min, y_max)
            } else {
                0
            };
            proof {
                if !(x_min <= x_max && y_min <= y_max) {
                    assert(window_ink(mask, x_min as int, x_max as int, y_min as int, y_max as int) == 0) by {
                        if y_min >= y_max {
                        } else {
                            let rowf = |yy: int| count_in(|xx: int| mask.bit(xx, yy), x_min as int, x_max as int);
                            assert forall|yy: int| y_min <= yy < y_max implies #[trigger] rowf(yy) <= 0 by {}
                            lemma_sum_bounds(rowf, y_min as int, y_max as int, 0);
                        }
                    }
                }
            }
            if ink_pixels < cfg.min_ink {
                c = c + 1;
                continue;
            }
            let tight = match ink_bbox_in(mask, &cell_rect) {
                Some(t) => t,
                None => {
                    c = c + 1;
                    continue;
                },
            };
            proof {
                let t = choose|t: Bbox| is_tight_box(mask, cell_rect, t);
                lemma_tight_unique(mask, cell_rect, t, tight);
            }
            let crop_x1 = if tight.x1 >= cfg.pad { tight.x1 - cfg.pad } else { 0 };
            let crop_y1 = if tight.y1 >= cfg.pad { tight.y1 - cfg.pad } else { 0 };
            let ax2 = if tight.x2 <= u32::MAX - cfg.pad { tight.x2 + cfg.pad } else { u32::MAX };
            let ay2 = if tight.y2 <= u32::MAX - cfg.pad { tight.y2 + cfg.pad } else { u32::MAX };
            let crop_x2 = if ax2 <= mask.width { ax2 } else { mask.width };
            let crop_y2 = if ay2 <= mask.height { ay2 } else { mask.height };
            let crop = Bbox { x1: crop_x1, y1: crop_y1, x2: crop_x2, y2: crop_y2 };
            cells.push(IconCell { col: c, row: r, cell_rect, crop, ink_pixels });
            proof {
                assert(cells@ =~= prefix + row_cells(mask, lat, *cfg, r as int, c as int + 1));
            }
            c = c + 1;
        }
        proof {
            assert(cells@ =~= grid_cells(mask, lat, *cfg, r as int + 1));
        }
        r = r + 1;
    }
    cells
}

} // verus!
