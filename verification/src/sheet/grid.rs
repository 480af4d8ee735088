//! Fitting a lattice to a mask: band lists refined by their median length,
//! and the integer evidence that a lattice's confidence is scored from.

use vstd::prelude::*;
use vstd::relations::{sorted_by, total_ordering};
use crate::counting::count_in;
use crate::sheet::cells::{cell_box, clip, count_window, window_ink};
use crate::sheet::chroma::Mask;
use crate::sheet::lattice::{bands_of, bands_well_formed, law_bands_well_formed, column_ink, find_bands, project, row_ink, Axis, Band, Lattice};

verus! {

/// The order `sort_ascending` sorts by.
pub open spec fn le_u32() -> spec_fn(u32, u32) -> bool {
    |a: u32, b: u32| a <= b
}

/// `s` in ascending order.
pub open spec fn ascending(s: Seq<u32>) -> Seq<u32> {
    s.sort_by(le_u32())
}

/// The element at index `len / 2` of `s` in ascending order (the upper
/// median); 0 for an empty sequence.
pub open spec fn upper_median(s: Seq<u32>) -> u32 {
    if s.len() == 0 {
        0
    } else {
        ascending(s)[(s.len() / 2) as int]
    }
}

/// The lengths of `bands`, in order.
pub open spec fn band_lengths(bands: Seq<Band>) -> Seq<u32> {
    Seq::new(bands.len(), |i: int| bands[i].spec_len())
}

proof fn lemma_le_total()
    ensures
        total_ordering(le_u32()),
{
    assert(vstd::relations::reflexive(le_u32()));
    assert(vstd::relations::antisymmetric(le_u32()));
    assert(vstd::relations::transitive(le_u32()));
    assert(vstd::relations::strongly_connected(le_u32()));
}

/// `v` in ascending order.
pub fn sort_ascending(v: &Vec<u32>) -> (r: Vec<u32>)
    ensures
        r@ == ascending(v@),
{
    let ghost le = le_u32();
    let mut r: Vec<u32> = Vec::new();
    let mut k: usize = 0;
    assert(r@ =~= v@.subrange(0, 0));
    while k < v.len()
        invariant
            k <= v.len(),
            le == le_u32(),
            sorted_by(r@, le),
            r@.to_multiset() == v@.subrange(0, k as int).to_multiset(),
        decreases v.len() - k,
    {
        let t = v[k];
        let mut i: usize = 0;
        while i < r.len() && r[i] <= t
            invariant
                i <= r.len(),
                forall|a: int| 0 <= a < i ==> r@[a] <= t,
            decreases r.len() - i,
        {
            i = i + 1;
        }
        let ghost pre = r@;
        r.insert(i, t);
        proof {
            assert(r@ == pre.insert(i as int, t));
            assert forall|a: int, b: int| 0 <= a < b < r.len() implies #[trigger] le(r@[a], r@[b]) by {
                if b < i {
                    assert(le(pre[a], pre[b]));
                } else if b == i {
                } else if a < i {
                    assert(b - 1 == i || le(pre[i as int], pre[b - 1]));
                } else if a == i {
                    assert(b - 1 == i || le(pre[i as int], pre[b - 1]));
                } else {
                    assert(le(pre[a - 1], pre[b - 1]));
                }
            }
            assert(v@.subrange(0, k + 1) == v@.subrange(0, k as int).push(t));
            vstd::seq_lib::to_multiset_insert(pre, i as int, t);
            vstd::seq_lib::to_multiset_build(v@.subrange(0, k as int), t);
        }
        k = k + 1;
    }
    proof {
        assert(v@.subrange(0, v.len() as int) == v@);
        lemma_le_total();
        v@.lemma_sort_by_ensures(le);
        vstd::seq_lib::lemma_sorted_unique(r@, ascending(v@), le);
    }
    r
}

/// The upper median of the band lengths; 0 without bands.
pub fn median_lengths(bands: &[Band]) -> (m: u32)
    ensures
        m == upper_median(band_lengths(bands@)),
{
    let mut lengths: Vec<u32> = Vec::new();
    let mut i: usize = 0;
    while i < bands.len()
        invariant
            i <= bands@.len(),
            lengths@ == band_lengths(bands@.subrange(0, i as int)),
        decreases bands@.len() - i,
    {
        let n = bands[i].len();
        lengths.push(n);
        i = i + 1;
        assert(lengths@ =~= band_lengths(bands@.subrange(0, i as int)));
    }
    assert(bands@.subrange(0, bands@.len() as int) == bands@);
    if lengths.len() == 0 {
        return 0;
    }
    let sorted = sort_ascending(&lengths);
    proof {
        lemma_le_total();
        lengths@.lemma_sort_by_ensures(le_u32());
        vstd::seq_lib::to_multiset_len(lengths@);
        vstd::seq_lib::to_multiset_len(sorted@);
    }
    sorted[sorted.len() / 2]
}

/// Ink per column of `mask`.
pub open spec fn column_profile(mask: &Mask) -> Seq<u32> {
    Seq::new(mask.width as nat, |x: int| column_ink(mask, x) as u32)
}

/// Ink per row of `mask`.
pub open spec fn row_profile(mask: &Mask) -> Seq<u32> {
    Seq::new(mask.height as nat, |y: int| row_ink(mask, y) as u32)
}

/// The bands of `profile`; when there are at least two, they are found again
/// with the run length raised to a quarter of their median length, so that
/// short fragments between real bands drop out.
pub open spec fn refined_bands(profile: Seq<u32>, min_run: u32, min_gap: u32, min_profile: u32) -> Seq<Band> {
    let first = bands_of(profile, min_run, min_gap, min_profile);
    if first.len() >= 2 {
        let quarter = upper_median(band_lengths(first)) / 4;
        bands_of(profile, if quarter >= min_run { quarter } else { min_run }, min_gap, min_profile)
    } else {
        first
    }
}

/// Refined bands are well formed under a run length no shorter than the one
/// asked for.
pub proof fn law_refined_bands_well_formed(profile: Seq<u32>, min_run: u32, min_gap: u32, min_profile: u32)
    requires
        profile.len() <= u32::MAX,
    ensures
        exists|run: u32|
            run >= min_run && bands_well_formed(
                profile,
                #[trigger] refined_bands(profile, min_run, min_gap, min_profile),
                run,
                min_gap,
                min_profile,
            ),
{
    let first = bands_of(profile, min_run, min_gap, min_profile);
    if first.len() >= 2 {
        let quarter = upper_median(band_lengths(first)) / 4;
        let run = if quarter >= min_run { quarter } else { min_run };
        law_bands_well_formed(profile, run, min_gap, min_profile);
        assert(bands_well_formed(profile, refined_bands(profile, min_run, min_gap, min_profile), run, min_gap, min_profile));
    } else {
        law_bands_well_formed(profile, min_run, min_gap, min_profile);
        assert(bands_well_formed(profile, refined_bands(profile, min_run, min_gap, min_profile), min_run, min_gap, min_profile));
    }
}

/// Refinement finds the bands again with the run length raised to a
/// quarter of the upper median of the first scan's band lengths (the middle
/// entry, index `n / 2`, once the `n` lengths are put in ascending order),
/// never below `min_run`; with fewer than two bands it keeps the first scan.
pub proof fn law_refinement_uses_median_length(profile: Seq<u32>, min_run: u32, min_gap: u32, min_profile: u32)
    ensures
        bands_of(profile, min_run, min_gap, min_profile).len() < 2 ==> refined_bands(profile, min_run, min_gap, min_profile)
            == bands_of(profile, min_run, min_gap, min_profile),
        bands_of(profile, min_run, min_gap, min_profile).len() >= 2 ==> exists|t: Seq<u32>|
            {
                let first = bands_of(profile, min_run, min_gap, min_profile);
                let n = first.len();
                let q = t[(n / 2) as int] / 4;
                &&& t.len() == n
                &&& forall|i: int, j: int| 0 <= i <= j < n ==> t[i] <= t[j]
                &&& #[trigger] t.to_multiset() == band_lengths(first).to_multiset()
                &&& refined_bands(profile, min_run, min_gap, min_profile) == bands_of(
                    profile,
                    if q >= min_run { q } else { min_run },
                    min_gap,
                    min_profile,
                )
            },
{
    let first = bands_of(profile, min_run, min_gap, min_profile);
    if first.len() >= 2 {
        let l = band_lengths(first);
        let t = ascending(l);
        lemma_le_total();
        l.lemma_sort_by_ensures(le_u32());
        vstd::seq_lib::to_multiset_len(l);
        vstd::seq_lib::to_multiset_len(t);
        assert(sorted_by(t, le_u32()));
        assert forall|i: int, j: int| 0 <= i <= j < first.len() implies t[i] <= t[j] by {
            if i < j {
                assert(le_u32()(t[i], t[j]));
            }
        }
        assert(upper_median(l) == t[(first.len() / 2) as int]);
    }
}

fn refine_bands(profile: &[u32], min_run: u32, min_gap: u32, min_profile: u32) -> (bands: Vec<Band>)
    requires
        profile@.len() <= u32::MAX,
    ensures
        bands@ == refined_bands(profile@, min_run, min_gap, min_profile),
{
    let first = find_bands(profile, min_run, min_gap, min_profile);
    if first.len() >= 2 {
        let quarter = median_lengths(first.as_slice()) / 4;
        let run = if quarter >= min_run { quarter } else { min_run };
        find_bands(profile, run, min_gap, min_profile)
    } else {
        first
    }
}

/// The lattice of the refined column and row bands of `mask`, or `None` when
/// either axis has no band.
pub fn lattice_candidate(mask: &Mask, min_profile: u32, min_run: u32, min_gap: u32) -> (lat: Option<Lattice>)
    requires
        mask.index_fits(),
    ensures
        lat is None <==> (refined_bands(column_profile(mask), min_run, min_gap, min_profile).len() == 0
            || refined_bands(row_profile(mask), min_run, min_gap, min_profile).len() == 0),
        lat matches Some(l) ==> l.cols@ == refined_bands(column_profile(mask), min_run, min_gap, min_profile)
            && l.rows@ == refined_bands(row_profile(mask), min_run, min_gap, min_profile),
{
    let px = project(mask, Axis::X);
    let py = project(mask, Axis::Y);
    assert(px@ =~= column_profile(mask));
    assert(py@ =~= row_profile(mask));
    let cols = refine_bands(px.as_slice(), min_run, min_gap, min_profile);
    let rows = refine_bands(py.as_slice(), min_run, min_gap, min_profile);
    if cols.len() == 0 || rows.len() == 0 {
        return None;
    }
    Some(Lattice { cols, rows })
}

/// Ink of lattice cell `(c, r)`, clipped to the mask.
pub open spec fn cell_ink(mask: &Mask, lat: &Lattice, c: int, r: int) -> nat {
    let rect = cell_box(lat, c, r);
    window_ink(
        mask,
        clip(rect.x1, mask.width) as int,
        clip(rect.x2, mask.width) as int,
        clip(rect.y1, mask.height) as int,
        clip(rect.y2, mask.height) as int,
    )
}

/// The ink of every cell of `lat`, row by row.
pub open spec fn cell_inks(mask: &Mask, lat: &Lattice) -> Seq<u32> {
    let nc = lat.cols@.len() as int;
    Seq::new((lat.rows@.len() * lat.cols@.len()) as nat, |i: int| cell_ink(mask, lat, i % nc, i / nc) as u32)
}

/// The least ink a cell needs to count as filled: a tenth of the median
/// cell, and at least one pixel.
pub open spec fn ink_floor(inks: Seq<u32>) -> u32 {
    let tenth = upper_median(inks) / 10;
    if tenth >= 1 {
        tenth
    } else {
        1
    }
}

/// Cells whose ink reaches the floor.
pub open spec fn filled_cells(inks: Seq<u32>) -> nat {
    count_in(|i: int| inks[i] >= ink_floor(inks), 0, inks.len() as int)
}

/// `(filled, total)`: how many cells of `lat` hold at least a tenth of the
/// median cell's ink (and at least one pixel), out of how many cells.
pub fn occupancy_counts(mask: &Mask, lat: &Lattice) -> (r: (usize, usize))
    requires
        mask.index_fits(),
        lat.rows@.len() * lat.cols@.len() <= usize::MAX,
    ensures
        r.1 == lat.rows@.len() * lat.cols@.len(),
        r.0 == filled_cells(cell_inks(mask, lat)),
{
    let nr = lat.rows.len();
    let nc = lat.cols.len();
    let ghost all = cell_inks(mask, lat);
    let mut inks: Vec<u32> = Vec::new();
    let mut r: usize = 0;
    while r < nr
        invariant
            mask.index_fits(),
            nr == lat.rows@.len(),
            nc == lat.cols@.len(),
            nr * nc <= usize::MAX,
            all == cell_inks(mask, lat),
            r <= nr,
            inks@.len() == r * nc,
            forall|i: int| 0 <= i < inks@.len() ==> #[trigger] inks@[i] == all[i],
        decreases nr - r,
    {
        let mut c: usize = 0;
        while c < nc
            invariant
                mask.index_fits(),
                nr == lat.rows@.len(),
                nc == lat.cols@.len(),
                nr * nc <= usize::MAX,
                all == cell_inks(mask, lat),
                r < nr,
                c <= nc,
                inks@.len() == r * nc + c,
                forall|i: int| 0 <= i < inks@.len() ==> #[trigger] inks@[i] == all[i],
            decreases nc - c,
        {
            let cb = lat.cols[c];
            let rb = lat.rows[r];
            let x1 = cb.start;
            let x2 = cb.start + cb.len();
            let y1 = rb.start;
            let y2 = rb.start + rb.len();
            let x_min = if x1 <= mask.width { x1 } else { mask.width };
            let x_max = if x2 <= mask.width { x2 } else { mask.width };
            let y_min = if y1 <= mask.height { y1 } else { mask.height };
            let y_max = if y2 <= mask.height { y2 } else { mask.height };
            let n = count_window(mask, x_min, x_max, y_min, y_max);
            proof {
                let t = r * nc + c;
                assert(t < nr * nc) by (nonlinear_arith)
                    requires r < nr, c < nc, t == r * nc + c;
                vstd::arithmetic::div_mod::lemma_fundamental_div_mod_converse(t as int, nc as int, r as int, c as int);
                assert(all[t as int] == cell_ink(mask, lat, c as int, r as int) as u32);
            }
            inks.push(n);
            c = c + 1;
        }
        proof {
            assert(r * nc + nc == (r + 1) * nc) by (nonlinear_arith);
        }
        r = r + 1;
    }
    assert(inks@ =~= all);
    let total = inks.len();
    if total == 0 {
        return (0, 0);
    }
    let sorted = sort_ascending(&inks);
    proof {
        lemma_le_total();
        inks@.lemma_sort_by_ensures(le_u32());
        vstd::seq_lib::to_multiset_len(inks@);
        vstd::seq_lib::to_multiset_len(sorted@);
    }
    let tenth = sorted[total / 2] / 10;
    let floor = if tenth >= 1 { tenth } else { 1 };
    let mut filled: usize = 0;
    let mut k: usize = 0;
    while k < total
        invariant
            total == inks@.len(),
            inks@ == all,
            floor == ink_floor(all),
            k <= total,
            filled == count_in(|i: int| all[i] >= ink_floor(all), 0, k as int),
            filled <= k,
        decreases total - k,
    {
        if inks[k] >= floor {
            filled = filled + 1;
        }
        k = k + 1;
    }
    (filled, total)
}

/// `(spread, median)` of the band lengths: the median is the upper median;
/// the spread is the full range below four bands and the interquartile range
/// from four on.
pub open spec fn width_spread_of(lengths: Seq<u32>) -> (u32, u32) {
    let w = ascending(lengths);
    let n = lengths.len() as int;
    let spread = if n < 4 {
        w[n - 1] - w[0]
    } else {
        w[(3 * n) / 4] - w[n / 4]
    };
    (spread as u32, w[n / 2])
}

/// Spread and median of the band widths, from which a lattice's width
/// uniformity is scored.
pub fn width_spread(bands: &[Band]) -> (r: (u32, u32))
    requires
        bands@.len() >= 2,
    ensures
        r == width_spread_of(band_lengths(bands@)),
{
    let mut lengths: Vec<u32> = Vec::new();
    let mut i: usize = 0;
    while i < bands.len()
        invariant
            i <= bands@.len(),
            lengths@ == band_lengths(bands@.subrange(0, i as int)),
        decreases bands@.len() - i,
    {
        let n = bands[i].len();
        lengths.push(n);
        i = i + 1;
        assert(lengths@ =~= band_lengths(bands@.subrange(0, i as int)));
    }
    assert(bands@.subrange(0, bands@.len() as int) == bands@);
    let w = sort_ascending(&lengths);
    proof {
        lemma_le_total();
        lengths@.lemma_sort_by_ensures(le_u32());
        vstd::seq_lib::to_multiset_len(lengths@);
        vstd::seq_lib::to_multiset_len(w@);
        assert(sorted_by(w@, le_u32()));
    }
    let n = w.len();
    let spread = if n < 4 {
        proof {
            assert(le_u32()(w@[0], w@[n - 1]));
            assert(w@[0] <= w@[n - 1]);
        }
        w[n - 1] - w[0]
    } else {
        let lo = n / 4;
        let hi = n - lo - (if n % 4 == 0 { 0 } else { 1 });
        proof {
            let q = n / 4;
            let m = n % 4;
            assert(n == 4 * q + m && 0 <= m < 4) by {
                vstd::arithmetic::div_mod::lemma_fundamental_div_mod(n as int, 4);
            }
            assert(hi == (3 * n) / 4) by (nonlinear_arith)
                requires n == 4 * q + m, 0 <= m < 4, lo == q, hi == n - lo - (if m == 0 { 0int } else { 1int });
            assert(lo < hi);
            assert(le_u32()(w@[lo as int], w@[hi as int]));
        }
        w[hi] - w[lo]
    };
    (spread, w[n / 2])
}

} // verus!
