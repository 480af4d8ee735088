//! Cross-checking a lattice against clusters: which cells hold exactly one
//! cluster, which clusters straddle cells or fall outside every cell, and
//! which cells are empty.

use vstd::prelude::*;
use crate::counting::{count_in, lemma_count_bounds, lemma_count_ext};
use crate::sheet::cluster::{box_area, overlap_area, sort_boxes, boxes_sorted, Bbox, Cluster};
use crate::sheet::lattice::{Band, Lattice};

verus! {

/// How a lattice and a set of clusters agree. The agreement score derived
/// from these counts is `matched / cells - 0.1 * (straddling + orphans)`,
/// clamped to `0..=1`.
#[derive(Debug, Clone)]
pub struct Reconciliation {
    /// Cells claimed by exactly one cluster.
    pub matched: usize,
    /// Boxes of clusters claiming two or more cells, sorted.
    pub straddling: Vec<Bbox>,
    /// Boxes of clusters claiming no cell, sorted.
    pub orphans: Vec<Bbox>,
    /// `(col, row)` of cells claimed by no cluster, row-major.
    pub empty_cells: Vec<(usize, usize)>,
    /// `(col, row, clusters)` of cells claimed by two or more, row-major.
    pub multi_cluster_cells: Vec<(usize, usize, usize)>,
    /// Number of cells of the lattice.
    pub total_cells: usize,
}

/// The far edge of a band: its end, or its start for an inverted band.
pub open spec fn band_far(b: Band) -> u32 {
    if b.end > b.start { b.end } else { b.start }
}

/// The box of cell `(c, r)`.
pub open spec fn cell_box(cols: Seq<Band>, rows: Seq<Band>, c: int, r: int) -> Bbox {
    Bbox { x1: cols[c].start, y1: rows[r].start, x2: band_far(cols[c]), y2: band_far(rows[r]) }
}

/// A cluster box claims a cell when at least a quarter of its (non-zero)
/// area lies inside the cell.
pub open spec fn claims(cl: Bbox, cell: Bbox) -> bool {
    box_area(cl) > 0 && 4 * overlap_area(cl, cell) >= box_area(cl)
}

/// Number of cells a cluster box claims; cell `k` is `(k % cols, k / cols)`.
pub open spec fn claimed_count(cols: Seq<Band>, rows: Seq<Band>, cl: Bbox) -> nat {
    count_in(|k: int| claims(cl, cell_box(cols, rows, k % cols.len() as int, k / cols.len() as int)), 0, (cols.len() * rows.len()) as int)
}

/// Number of clusters claiming cell `(c, r)`.
pub open spec fn cell_load(cols: Seq<Band>, rows: Seq<Band>, cls: Seq<Cluster>, c: int, r: int) -> nat {
    count_in(|i: int| claims(cls[i].bbox, cell_box(cols, rows, c, r)), 0, cls.len() as int)
}

/// Boxes of the first `n` clusters whose claimed-cell count is zero
/// (`many == false`) or at least two (`many == true`), in order.
pub open spec fn boxes_where(cols: Seq<Band>, rows: Seq<Band>, cls: Seq<Cluster>, many: bool, n: int) -> Seq<Bbox>
    decreases n,
{
    if n <= 0 {
        Seq::empty()
    } else {
        let rest = boxes_where(cols, rows, cls, many, n - 1);
        let k = claimed_count(cols, rows, cls[n - 1].bbox);
        if (many && k >= 2) || (!many && k == 0) { rest.push(cls[n - 1].bbox) } else { rest }
    }
}

/// Cells among the first `n` (row-major) that no cluster claims.
pub open spec fn empty_upto(cols: Seq<Band>, rows: Seq<Band>, cls: Seq<Cluster>, n: int) -> Seq<(usize, usize)>
    decreases n,
{
    if n <= 0 {
        Seq::empty()
    } else {
        let rest = empty_upto(cols, rows, cls, n - 1);
        let c = (n - 1) % cols.len() as int;
        let r = (n - 1) / cols.len() as int;
        if cell_load(cols, rows, cls, c, r) == 0 { rest.push((c as usize, r as usize)) } else { rest }
    }
}

/// Cells among the first `n` (row-major) claimed by two or more clusters,
/// with their counts.
pub open spec fn multi_upto(cols: Seq<Band>, rows: Seq<Band>, cls: Seq<Cluster>, n: int) -> Seq<(usize, usize, usize)>
    decreases n,
{
    if n <= 0 {
        Seq::empty()
    } else {
        let rest = multi_upto(cols, rows, cls, n - 1);
        let c = (n - 1) % cols.len() as int;
        let r = (n - 1) / cols.len() as int;
        let load = cell_load(cols, rows, cls, c, r);
        if load >= 2 { rest.push((c as usize, r as usize, load as usize)) } else { rest }
    }
}

fn claims_exec(cl: &Bbox, cell: &Bbox) -> (b: bool)
    ensures
        b == claims(*cl, *cell),
{
    let area = cl.area();
    let inter = cl.intersection_area(cell);
    proof {
        crate::sheet::cluster::law_overlap_symmetric(*cl, *cell);
    }
    area > 0 && (inter as u128) * 4 >= area as u128
}

/// Reconciles a lattice with clusters: each cluster claims the cells that
/// hold at least a quarter of its box; a cluster claiming none is an orphan,
/// one claiming several straddles them. A lattice without cells reconciles
/// to nothing.
pub fn reconcile(lat: &Lattice, clusters: &[Cluster]) -> (rec: Reconciliation)
    requires
        lat.cols@.len() * lat.rows@.len() <= usize::MAX,
    ensures
        ({
            let cols = lat.cols@;
            let rows = lat.rows@;
            let cls = clusters@;
            let n = (cols.len() * rows.len()) as int;
            &&& rec.total_cells == n
            &&& n == 0 ==> rec.matched == 0 && rec.straddling@.len() == 0 && rec.orphans@.len() == 0
                && rec.empty_cells@.len() == 0 && rec.multi_cluster_cells@.len() == 0
            &&& n > 0 ==> {
                &&& rec.matched == count_in(|k: int| cell_load(cols, rows, cls, k % cols.len() as int, k / cols.len() as int) == 1, 0, n)
                &&& boxes_sorted(rec.straddling@)
                &&& rec.straddling@.to_multiset() == boxes_where(cols, rows, cls, true, cls.len() as int).to_multiset()
                &&& boxes_sorted(rec.orphans@)
                &&& rec.orphans@.to_multiset() == boxes_where(cols, rows, cls, false, cls.len() as int).to_multiset()
                &&& rec.empty_cells@ == empty_upto(cols, rows, cls, n)
                &&& rec.multi_cluster_cells@ == multi_upto(cols, rows, cls, n)
            }
        }),
{
    let nc = lat.cols.len();
    let nr = lat.rows.len();
    let total = lat.cell_count();
    if total == 0 {
        return Reconciliation {
            matched: 0,
            straddling: Vec::new(),
            orphans: Vec::new(),
            empty_cells: Vec::new(),
            multi_cluster_cells: Vec::new(),
            total_cells: 0,
        };
    }
    let ghost cols = lat.cols@;
    let ghost rows = lat.rows@;
    let ghost cls = clusters@;
    // Cell boxes, row-major.
    let mut boxes: Vec<Bbox> = Vec::new();
    let mut r: usize = 0;
    while r < nr
        invariant
            nc == cols.len(),
            nr == rows.len(),
            cols == lat.cols@,
            rows == lat.rows@,
            nc * nr == total,
            r <= nr,
            boxes.len() == r * nc,
            forall|k: int| 0 <= k < boxes.len() ==> #[trigger] boxes@[k] == cell_box(cols, rows, k % nc as int, k / nc as int),
        decreases nr - r,
    {
        let mut c: usize = 0;
        while c < nc
            invariant
                nc == cols.len(),
                nr == rows.len(),
                cols == lat.cols@,
                rows == lat.rows@,
                nc * nr == total,
                r < nr,
                c <= nc,
                boxes.len() == r * nc + c,
                forall|k: int| 0 <= k < boxes.len() ==> #[trigger] boxes@[k] == cell_box(cols, rows, k % nc as int, k / nc as int),
            decreases nc - c,
        {
            let col = lat.cols[c];
            let row = lat.rows[r];
            let x2 = col.start + col.len();
            let y2 = row.start + row.len();
            proof {
                let k = r * nc + c;
                assert(k % nc as int == c && k / nc as int == r) by (nonlinear_arith)
                    requires k == r * nc + c, 0 <= c < nc;
                assert(r * nc + c + 1 <= nr * nc) by (nonlinear_arith)
                    requires r + 1 <= nr, c < nc;
            }
            boxes.push(Bbox { x1: col.start, y1: row.start, x2, y2 });
            c = c + 1;
        }
        proof {
            assert((r + 1) * nc == r * nc + nc) by (nonlinear_arith);
        }
        r = r + 1;
    }
    // Per-cell counts and the unsorted straddling / orphan lists.
    let mut counts: Vec<usize> = Vec::new();
    let mut k: usize = 0;
    while k < total
        invariant
            k <= total,
            counts.len() == k,
            forall|j: int| 0 <= j < k ==> #[trigger] counts@[j] == 0,
        decreases total - k,
    {
        counts.push(0);
        k = k + 1;
    }
    proof {
        assert(boxes.len() == total) by (nonlinear_arith)
            requires boxes.len() == nr * nc, total == nc * nr;
    }
    let mut straddling: Vec<Bbox> = Vec::new();
    let mut orphans: Vec<Bbox> = Vec::new();
    let mut i: usize = 0;
    while i < clusters.len()
        invariant
            nc == cols.len(),
            nr == rows.len(),
            cols == lat.cols@,
            rows == lat.rows@,
            cls == clusters@,
            total == nc * nr,
            total > 0,
            boxes.len() == total,
            forall|k: int| 0 <= k < boxes.len() ==> #[trigger] boxes@[k] == cell_box(cols, rows, k % nc as int, k / nc as int),
            i <= clusters.len(),
            counts.len() == total,
            forall|k: int| 0 <= k < total ==> #[trigger] counts@[k] == cell_load(cols, rows, cls.subrange(0, i as int), k % nc as int, k / nc as int),
            forall|k: int| 0 <= k < total ==> #[trigger] counts@[k] <= i,
            straddling@ == boxes_where(cols, rows, cls, true, i as int),
            orphans@ == boxes_where(cols, rows, cls, false, i as int),
        decreases clusters.len() - i,
    {
        let cl = clusters[i].bbox;
        let mut hits: Vec<usize> = Vec::new();
        let mut k: usize = 0;
        while k < total
            invariant
                boxes.len() == total,
                k <= total,
                forall|j: int| 0 <= j < hits.len() ==> (#[trigger] hits@[j]) < k,
                forall|j: int| 0 <= j < hits.len() ==> claims(cl, boxes@[#[trigger] hits@[j] as int]),
                forall|a: int, b: int| 0 <= a < b < hits.len() ==> (#[trigger] hits@[a]) < (#[trigger] hits@[b]),
                forall|j: int| 0 <= j < k && claims(cl, #[trigger] boxes@[j]) ==> hits@.contains(j as usize),
                hits.len() == count_in(|j: int| claims(cl, boxes@[j]), 0, k as int),
            decreases total - k,
        {
            let ghost before = hits@;
            proof {
                lemma_count_bounds(|j: int| claims(cl, boxes@[j]), 0, k as int);
            }
            if claims_exec(&cl, &boxes[k]) {
                hits.push(k);
                proof {
                    assert forall|j: int| 0 <= j < k + 1 && claims(cl, #[trigger] boxes@[j]) implies hits@.contains(j as usize) by {
                        if j < k {
                            let q = choose|q: int| 0 <= q < before.len() && before[q] == j as usize;
                            assert(hits@[q] == before[q]);
                        } else {
                            assert(hits@[hits.len() - 1] == k);
                        }
                    }
                }
            }
            k = k + 1;
        }
        let ghost old_counts = counts@;
        proof {
            assert(hits.len() == claimed_count(cols, rows, cl)) by {
                lemma_count_ext(|j: int| claims(cl, boxes@[j]), |j: int| claims(cl, cell_box(cols, rows, j % cols.len() as int, j / cols.len() as int)), 0, total as int);
            }
        }
        if hits.len() == 0 {
            orphans.push(cl);
        } else if hits.len() >= 2 {
            straddling.push(cl);
        }
        let mut j: usize = 0;
        while j < hits.len()
            invariant
                counts.len() == total,
                forall|q: int| 0 <= q < hits.len() ==> (#[trigger] hits@[q]) < total,
                forall|a: int, b: int| 0 <= a < b < hits.len() ==> (#[trigger] hits@[a]) < (#[trigger] hits@[b]),
                forall|k: int| 0 <= k < total ==> #[trigger] old_counts[k] <= i,
                j <= hits.len(),
                old_counts.len() == total,
                forall|k: int| 0 <= k < total ==> #[trigger] counts@[k] == old_counts[k] + if exists|q: int| 0 <= q < j && hits@[q] == k { 1int } else { 0int },
                i < clusters.len(),
                clusters.len() <= usize::MAX,
            decreases hits.len() - j,
        {
            let h = hits[j];
            let v = counts[h];
            proof {
                assert(v <= i + 0) by {
                    if exists|q: int| 0 <= q < j && hits@[q] == h {
                        let q = choose|q: int| 0 <= q < j && hits@[q] == h;
                        assert(hits@[q] < hits@[j as int]);
                    }
                }
            }
            counts.set(h, v + 1);
            proof {
                assert forall|k: int| 0 <= k < total implies #[trigger] counts@[k] == old_counts[k] + if exists|q: int| 0 <= q < j + 1 && hits@[q] == k { 1int } else { 0int } by {
                    if k == h {
                        if exists|q: int| 0 <= q < j && hits@[q] == k {
                            let q = choose|q: int| 0 <= q < j && hits@[q] == k;
                            assert(hits@[q] < hits@[j as int]);
                        }
                        assert(hits@[j as int] == k);
                    } else {
                        if exists|q: int| 0 <= q < j + 1 && hits@[q] == k {
                            let q = choose|q: int| 0 <= q < j + 1 && hits@[q] == k;
                            assert(q < j);
                        }
                    }
                }
            }
            j = j + 1;
        }
        proof {
            let s0 = cls.subrange(0, i as int);
            let s1 = cls.subrange(0, i + 1);
            assert forall|k: int| 0 <= k < total implies #[trigger] counts@[k] == cell_load(cols, rows, s1, k % nc as int, k / nc as int) by {
                let cb = cell_box(cols, rows, k % nc as int, k / nc as int);
                let f0 = |t: int| claims(s0[t].bbox, cb);
                let f1 = |t: int| claims(s1[t].bbox, cb);
                lemma_count_ext(f0, |t: int| claims(s1[t].bbox, cb), 0, i as int);
                assert(boxes@[k] == cb);
                if claims(cl, cb) {
                    assert(hits@.contains(k as usize));
                    let q = choose|q: int| 0 <= q < hits.len() && hits@[q] == k as usize;
                    assert(exists|q: int| 0 <= q < hits.len() && hits@[q] == k);
                } else {
                    if exists|q: int| 0 <= q < hits.len() && hits@[q] == k {
                        let q = choose|q: int| 0 <= q < hits.len() && hits@[q] == k;
                        assert(claims(cl, boxes@[hits@[q] as int]));
                    }
                }
            }
            assert forall|k: int| 0 <= k < total implies #[trigger] counts@[k] <= i + 1 by {}
        }
        i = i + 1;
    }
    proof {
        assert(cls.subrange(0, cls.len() as int) == cls);
    }
    let straddling = sort_boxes(&straddling);
    let orphans = sort_boxes(&orphans);
    // Per-cell verdicts, row-major.
    let mut matched: usize = 0;
    let mut empty_cells: Vec<(usize, usize)> = Vec::new();
    let mut multi: Vec<(usize, usize, usize)> = Vec::new();
    let mut k: usize = 0;
    while k < total
        invariant
            nc == cols.len(),
            nr == rows.len(),
            total == nc * nr,
            counts.len() == total,
            forall|k: int| 0 <= k < total ==> #[trigger] counts@[k] == cell_load(cols, rows, cls, k % nc as int, k / nc as int),
            k <= total,
            matched <= k,
            matched == count_in(|q: int| cell_load(cols, rows, cls, q % cols.len() as int, q / cols.len() as int) == 1, 0, k as int),
            empty_cells@ == empty_upto(cols, rows, cls, k as int),
            multi@ == multi_upto(cols, rows, cls, k as int),
        decreases total - k,
    {
        let v = counts[k];
        let c = k % nc;
        let r = k / nc;
        if v == 0 {
            empty_cells.push((c, r));
        } else if v == 1 {
            matched = matched + 1;
        } else {
            multi.push((c, r, v));
        }
        k = k + 1;
    }
    Reconciliation { matched, straddling, orphans, empty_cells, multi_cluster_cells: multi, total_cells: total }
}

} // verus!
