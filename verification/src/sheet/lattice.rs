//! Ink projection profiles, band detection along one axis, and the grid of
//! cells that a pair of band lists defines.

use vstd::prelude::*;
use crate::counting::{
    count_in, count_true, lemma_count_bounds, lemma_count_shift, lemma_count_split, lemma_sum_add,
    lemma_sum_bounds, lemma_sum_ext, lemma_sum_indicator, sum_in,
};
use crate::sheet::chroma::{lemma_index_in, Mask};

verus! {

/// Projection axis: `X` counts ink per column, `Y` per row.
#[derive(Debug, Clone, Copy, PartialEq, Eq, Structural)]
pub enum Axis {
    X,
    Y,
}

/// A half-open run `start..end` along one axis.
#[derive(Debug, Clone, Copy, PartialEq, Eq, Structural)]
pub struct Band {
    pub start: u32,
    pub end: u32,
}

impl Band {
    pub open spec fn spec_len(&self) -> u32 {
        if self.end >= self.start { (self.end - self.start) as u32 } else { 0 }
    }

    /// Extent of the band, 0 when inverted.
    pub fn len(&self) -> (n: u32)
        ensures
            n == self.spec_len(),
    {
        if self.end >= self.start { self.end - self.start } else { 0 }
    }

    /// The band covers nothing.
    pub fn is_empty(&self) -> (b: bool)
        ensures
            b == (self.spec_len() == 0),
    {
        self.len() == 0
    }
}

/// Ink in column `x` of a mask.
pub open spec fn column_ink(mask: &Mask, x: int) -> nat {
    count_in(|y: int| mask.bit(x, y), 0, mask.height as int)
}

/// Ink in row `y` of a mask.
pub open spec fn row_ink(mask: &Mask, y: int) -> nat {
    count_in(|x: int| mask.bit(x, y), 0, mask.width as int)
}

/// Ink count per column (`Axis::X`) or per row (`Axis::Y`).
pub fn project(mask: &Mask, axis: Axis) -> (profile: Vec<u32>)
    requires
        mask.index_fits(),
    ensures
        axis == Axis::X ==> profile@.len() == mask.width && forall|x: int|
            0 <= x < mask.width ==> #[trigger] profile@[x] == column_ink(mask, x),
        axis == Axis::Y ==> profile@.len() == mask.height && forall|y: int|
            0 <= y < mask.height ==> #[trigger] profile@[y] == row_ink(mask, y),
{
    match axis {
        Axis::X => {
            let w = mask.width;
            let h = mask.height;
            let mut profile: Vec<u32> = Vec::new();
            let mut x: u32 = 0;
            while x < w
                invariant
                    mask.index_fits(),
                    w == mask.width,
                    h == mask.height,
                    x <= w,
                    profile@.len() == x,
                    forall|xx: int| 0 <= xx < x ==> #[trigger] profile@[xx] == column_ink(mask, xx),
                decreases w - x,
            {
                let ghost f = |y: int| mask.bit(x as int, y);
                let mut n: u32 = 0;
                let mut y: u32 = 0;
                while y < h
                    invariant
                        mask.index_fits(),
                        h == mask.height,
                        y <= h,
                        f == (|y: int| mask.bit(x as int, y)),
                        n == count_in(f, 0, y as int),
                    decreases h - y,
                {
                    proof {
                        lemma_count_bounds(f, 0, y as int + 1);
                    }
                    if mask.get(x, y) {
                        n = n + 1;
                    }
                    y = y + 1;
                }
                profile.push(n);
                x = x + 1;
            }
            profile
        },
        Axis::Y => {
            let w = mask.width;
            let h = mask.height;
            let mut profile: Vec<u32> = Vec::new();
            let mut y: u32 = 0;
            while y < h
                invariant
                    mask.index_fits(),
                    w == mask.width,
                    h == mask.height,
                    y <= h,
                    profile@.len() == y,
                    forall|yy: int| 0 <= yy < y ==> #[trigger] profile@[yy] == row_ink(mask, yy),
                decreases h - y,
            {
                let ghost f = |x: int| mask.bit(x, y as int);
                let mut n: u32 = 0;
                let mut x: u32 = 0;
                while x < w
                    invariant
                        mask.index_fits(),
                        w == mask.width,
                        x <= w,
                        f == (|x: int| mask.bit(x, y as int)),
                        n == count_in(f, 0, x as int),
                    decreases w - x,
                {
                    proof {
                        lemma_count_bounds(f, 0, x as int + 1);
                    }
                    if mask.get(x, y) {
                        n = n + 1;
                    }
                    x = x + 1;
                }
                profile.push(n);
                y = y + 1;
            }
            profile
        },
    }
}

/// Ink in the first `k` rows of column `x`.
spec fn column_ink_upto(mask: &Mask, x: int, k: int) -> nat {
    count_in(|y: int| mask.bit(x, y), 0, k)
}

/// Summing the columns over the first `k` rows gives the ink of those rows.
proof fn lemma_columns_rows(mask: &Mask, k: int)
    requires
        0 <= k,
    ensures
        sum_in(|x: int| column_ink_upto(mask, x, k), 0, mask.width as int) == sum_in(
            |y: int| row_ink(mask, y),
            0,
            k,
        ),
    decreases k,
{
    let w = mask.width as int;
    if k == 0 {
        lemma_sum_bounds(|x: int| column_ink_upto(mask, x, 0), 0, w, 0);
    } else {
        lemma_columns_rows(mask, k - 1);
        let prev = |x: int| column_ink_upto(mask, x, k - 1);
        let ind = |x: int| if mask.bit(x, k - 1) { 1nat } else { 0nat };
        let cur = |x: int| column_ink_upto(mask, x, k);
        assert forall|x: int| 0 <= x < w implies #[trigger] cur(x) == prev(x) + ind(x) by {}
        lemma_sum_add(prev, ind, cur, 0, w);
        lemma_sum_indicator(|x: int| mask.bit(x, k - 1), ind, 0, w);
    }
}

/// The set bits of the first `k` rows of a full mask are the ink of those rows.
proof fn lemma_rows_bits(mask: &Mask, k: int)
    requires
        mask.full(),
        0 <= k <= mask.height,
    ensures
        count_in(|i: int| mask.bits@[i], 0, k * mask.width) == sum_in(|y: int| row_ink(mask, y), 0, k),
    decreases k,
{
    let w = mask.width as int;
    let h = mask.height as int;
    let f = |i: int| mask.bits@[i];
    if k == 0 {
        assert(k * w == 0) by (nonlinear_arith)
            requires k == 0;
    } else {
        lemma_rows_bits(mask, k - 1);
        let base = (k - 1) * w;
        assert(base + w == k * w) by (nonlinear_arith)
            requires base == (k - 1) * w;
        assert(0 <= base) by (nonlinear_arith)
            requires k >= 1, w >= 0, base == (k - 1) * w;
        lemma_count_split(f, 0, base, k * w);
        let g = |x: int| mask.bit(x, k - 1);
        assert forall|x: int| 0 <= x < w implies #[trigger] g(x) == f(x + base) by {
            lemma_index_in(w, h, x, k - 1);
        }
        lemma_count_shift(f, g, 0, w, base);
    }
}

/// Both projection profiles of a full mask add up to its ink count: each set
/// pixel lies in exactly one column and exactly one row.
pub proof fn law_profiles_sum_to_count(mask: &Mask)
    requires
        mask.full(),
    ensures
        sum_in(|x: int| column_ink(mask, x), 0, mask.width as int) == count_true(mask.bits@),
        sum_in(|y: int| row_ink(mask, y), 0, mask.height as int) == count_true(mask.bits@),
{
    let w = mask.width as int;
    let h = mask.height as int;
    lemma_columns_rows(mask, h);
    lemma_sum_ext(|x: int| column_ink_upto(mask, x, h), |x: int| column_ink(mask, x), 0, w);
    lemma_rows_bits(mask, h);
    assert(h * w == w * h) by (nonlinear_arith);
}

/// State of the band scan after a prefix of the profile: the bands closed
/// so far, the start of the open band if any, the last inked position, and
/// the length of the current run of uninked positions inside the open band.
pub struct BandScan {
    pub bands: Seq<Band>,
    pub open: Option<u32>,
    pub last: u32,
    pub gap: u32,
}

/// The band `start..last+1`, kept only when at least `min_run` long.
pub open spec fn closed(bands: Seq<Band>, start: u32, last: u32, min_run: u32) -> Seq<Band> {
    if last + 1 - start >= min_run {
        bands.push(Band { start, end: (last + 1) as u32 })
    } else {
        bands
    }
}

/// One step of the scan at position `i` with profile value `val`. A
/// position is inked when `val >= min_profile`; an open band closes after
/// `min_gap` consecutive uninked positions (at least one).
pub open spec fn band_step(s: BandScan, i: u32, val: u32, min_run: u32, min_gap: u32, min_profile: u32) -> BandScan {
    if val >= min_profile {
        BandScan {
            bands: s.bands,
            open: if s.open is Some { s.open } else { Some(i) },
            last: i,
            gap: 0,
        }
    } else {
        match s.open {
            Some(start) => if s.gap + 1 >= min_gap {
                BandScan { bands: closed(s.bands, start, s.last, min_run), open: None, last: s.last, gap: 0 }
            } else {
                BandScan { bands: s.bands, open: s.open, last: s.last, gap: (s.gap + 1) as u32 }
            },
            None => s,
        }
    }
}

/// The scan over the first `n` positions of `profile`.
pub open spec fn band_scan(profile: Seq<u32>, n: int, min_run: u32, min_gap: u32, min_profile: u32) -> BandScan
    decreases n,
{
    if n <= 0 {
        BandScan { bands: Seq::empty(), open: None, last: 0, gap: 0 }
    } else {
        band_step(
            band_scan(profile, n - 1, min_run, min_gap, min_profile),
            (n - 1) as u32,
            profile[n - 1],
            min_run,
            min_gap,
            min_profile,
        )
    }
}

/// The bands of a whole profile: the scan's closed bands plus the band
/// still open at the end.
pub open spec fn bands_of(profile: Seq<u32>, min_run: u32, min_gap: u32, min_profile: u32) -> Seq<Band> {
    let s = band_scan(profile, profile.len() as int, min_run, min_gap, min_profile);
    match s.open {
        Some(start) => closed(s.bands, start, s.last, min_run),
        None => s.bands,
    }
}

/// Well-formedness of a scan state reached after `n` positions.
pub open spec fn scan_wf(s: BandScan, n: int, min_gap: u32) -> bool {
    &&& s.open is Some ==> s.open->0 <= s.last < n && s.gap < if min_gap == 0 { 1 } else { min_gap as int }
    &&& s.open is None ==> s.gap == 0
}

proof fn lemma_scan_wf(profile: Seq<u32>, n: int, min_run: u32, min_gap: u32, min_profile: u32)
    requires
        0 <= n <= profile.len(),
        n <= u32::MAX,
    ensures
        scan_wf(band_scan(profile, n, min_run, min_gap, min_profile), n, min_gap),
    decreases n,
{
    if n > 0 {
        lemma_scan_wf(profile, n - 1, min_run, min_gap, min_profile);
    }
}

/// Runs of inked positions (`profile[i] >= min_profile`) that are separated
/// by at least `min_gap` uninked positions, keeping those at least `min_run`
/// long, in order.
pub fn find_bands(profile: &[u32], min_run: u32, min_gap: u32, min_profile: u32) -> (bands: Vec<Band>)
    requires
        profile@.len() <= u32::MAX,
    ensures
        bands@ == bands_of(profile@, min_run, min_gap, min_profile),
{
    let mut bands: Vec<Band> = Vec::new();
    let mut band_start: Option<u32> = None;
    let mut last_inked: u32 = 0;
    let mut gap: u32 = 0;
    let n = profile.len();
    let mut i: usize = 0;
    while i < n
        invariant
            n == profile@.len(),
            n <= u32::MAX,
            i <= n,
            ({
                let s = band_scan(profile@, i as int, min_run, min_gap, min_profile);
                &&& bands@ == s.bands
                &&& band_start == s.open
                &&& last_inked == s.last
                &&& gap == s.gap
            }),
        decreases n - i,
    {
        proof {
            lemma_scan_wf(profile@, i as int, min_run, min_gap, min_profile);
        }
        let val = profile[i];
        let inked = val >= min_profile;
        if inked {
            if band_start.is_none() {
                band_start = Some(i as u32);
            }
            last_inked = i as u32;
            gap = 0;
        } else if let Some(start) = band_start {
            gap = gap + 1;
            if gap >= min_gap {
                let end = last_inked + 1;
                if end - start >= min_run {
                    bands.push(Band { start, end });
                }
                band_start = None;
                gap = 0;
            }
        }
        i = i + 1;
    }
    proof {
        lemma_scan_wf(profile@, n as int, min_run, min_gap, min_profile);
    }
    if let Some(start) = band_start {
        let end = last_inked + 1;
        if end - start >= min_run {
            bands.push(Band { start, end });
        }
    }
    bands
}

/// A grid of cells: every (column band, row band) pair is one cell.
#[derive(Debug, Clone)]
pub struct Lattice {
    pub cols: Vec<Band>,
    pub rows: Vec<Band>,
}

impl Lattice {
    /// Number of cells.
    pub fn cell_count(&self) -> (n: usize)
        requires
            self.cols@.len() * self.rows@.len() <= usize::MAX,
        ensures
            n == self.cols@.len() * self.rows@.len(),
    {
        self.cols.len() * self.rows.len()
    }

    /// `(x, y, w, h)` of cell `(col, row)`, or `None` when either index is
    /// out of range.
    pub fn cell_rect(&self, col: usize, row: usize) -> (r: Option<(u32, u32, u32, u32)>)
        ensures
            col < self.cols@.len() && row < self.rows@.len() ==> r == Some(
                (
                    self.cols@[col as int].start,
                    self.rows@[row as int].start,
                    self.cols@[col as int].spec_len(),
                    self.rows@[row as int].spec_len(),
                ),
            ),
            !(col < self.cols@.len() && row < self.rows@.len()) ==> r is None,
    {
        if col >= self.cols.len() || row >= self.rows.len() {
            return None;
        }
        let c = &self.cols[col];
        let r = &self.rows[row];
        Some((c.start, r.start, c.len(), r.len()))
    }
}


/// The bands of a profile are well formed: each starts and ends on an
/// inked position and is at least `min_run` long, and consecutive bands are
/// in order with at least `max(min_gap, 1)` uninked positions between them,
/// so a stray inked position shorter than that never bridges two bands.
pub open spec fn bands_well_formed(profile: Seq<u32>, bands: Seq<Band>, min_run: u32, min_gap: u32, min_profile: u32) -> bool {
    let g = if min_gap == 0 { 1int } else { min_gap as int };
    &&& forall|k: int|
        0 <= k < bands.len() ==> {
            let b = #[trigger] bands[k];
            &&& b.start < b.end <= profile.len()
            &&& b.end - b.start >= min_run
            &&& profile[b.start as int] >= min_profile
            &&& profile[b.end - 1] >= min_profile
        }
    &&& forall|k: int| 0 <= k < bands.len() - 1 ==> (#[trigger] bands[k]).end + g <= bands[k + 1].start
}

/// The scan keeps its closed bands well formed, with the open band (or the
/// next one) starting far enough past the last closed band.
pub open spec fn scan_inv(profile: Seq<u32>, s: BandScan, n: int, min_run: u32, min_gap: u32, min_profile: u32) -> bool {
    let g = if min_gap == 0 { 1int } else { min_gap as int };
    &&& bands_well_formed(profile.subrange(0, n), s.bands, min_run, min_gap, min_profile)
    &&& match s.open {
        Some(start) => {
            &&& start <= s.last < n
            &&& profile[start as int] >= min_profile
            &&& profile[s.last as int] >= min_profile
            &&& s.gap == n - 1 - s.last
            &&& s.bands.len() > 0 ==> s.bands[s.bands.len() - 1].end + g <= start
        },
        None => s.bands.len() > 0 ==> s.bands[s.bands.len() - 1].end + g <= n,
    }
}

proof fn lemma_scan_inv(profile: Seq<u32>, n: int, min_run: u32, min_gap: u32, min_profile: u32)
    requires
        0 <= n <= profile.len(),
        profile.len() <= u32::MAX,
    ensures
        scan_inv(profile, band_scan(profile, n, min_run, min_gap, min_profile), n, min_run, min_gap, min_profile),
    decreases n,
{
    if n > 0 {
        lemma_scan_inv(profile, n - 1, min_run, min_gap, min_profile);
        lemma_scan_wf(profile, n - 1, min_run, min_gap, min_profile);
        let s = band_scan(profile, n - 1, min_run, min_gap, min_profile);
        let t = band_scan(profile, n, min_run, min_gap, min_profile);
        let p0 = profile.subrange(0, n - 1);
        let p1 = profile.subrange(0, n);
        assert forall|k: int| 0 <= k < s.bands.len() implies #[trigger] p1[s.bands[k].start as int] == p0[s.bands[k].start as int]
            && p1[s.bands[k].end - 1] == p0[s.bands[k].end - 1] by {
            let _ = s.bands[k];
        }
        if let Some(start) = s.open {
            if profile[n - 1] < min_profile && s.gap + 1 >= min_gap && s.last + 1 - start >= min_run {
                let nb = Band { start, end: (s.last + 1) as u32 };
                assert(t.bands == s.bands.push(nb));
                assert forall|k: int| 0 <= k < t.bands.len() - 1 implies (#[trigger] t.bands[k]).end + (if min_gap == 0 { 1int } else { min_gap as int }) <= t.bands[k + 1].start by {
                    if k < s.bands.len() - 1 {
                        assert(t.bands[k] == s.bands[k] && t.bands[k + 1] == s.bands[k + 1]);
                    }
                }
            }
        }
    }
}

/// The bands `find_bands` returns are well formed.
pub proof fn law_bands_well_formed(profile: Seq<u32>, min_run: u32, min_gap: u32, min_profile: u32)
    requires
        profile.len() <= u32::MAX,
    ensures
        bands_well_formed(profile, bands_of(profile, min_run, min_gap, min_profile), min_run, min_gap, min_profile),
{
    let n = profile.len() as int;
    lemma_scan_inv(profile, n, min_run, min_gap, min_profile);
    lemma_scan_wf(profile, n, min_run, min_gap, min_profile);
    let s = band_scan(profile, n, min_run, min_gap, min_profile);
    assert(profile.subrange(0, n) == profile);
    if let Some(start) = s.open {
        if s.last + 1 - start >= min_run {
            let b = bands_of(profile, min_run, min_gap, min_profile);
            assert(b == s.bands.push(Band { start, end: (s.last + 1) as u32 }));
            assert forall|k: int| 0 <= k < b.len() - 1 implies (#[trigger] b[k]).end + (if min_gap == 0 { 1int } else { min_gap as int }) <= b[k + 1].start by {
                if k < s.bands.len() - 1 {
                    assert(b[k] == s.bands[k] && b[k + 1] == s.bands[k + 1]);
                }
            }
        }
    }
}

} // verus!
