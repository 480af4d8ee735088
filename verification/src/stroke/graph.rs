//! Stroke graphs: endpoints and junctions of a skeleton joined by pixel runs.

use vstd::prelude::*;
use crate::counting::{count_in, lemma_count_bounds, lemma_count_ext, lemma_count_mono, lemma_count_point, lemma_count_pos};
use crate::sheet::chroma::{cell, lemma_index_in};
use crate::sheet::cluster::lemma_index_inj;
use crate::stroke::prune::{linked, linked_upto};
use crate::stroke::junctions::edge_view;

verus! {

/// A node of a stroke graph: an endpoint, a junction, an isolated pixel, or
/// the chosen anchor of a closed loop.
#[derive(Debug, Clone, Copy, PartialEq, Eq, Structural, PartialOrd, Ord)]
pub struct GraphNode {
    pub x: i32,
    pub y: i32,
}

/// A run of skeleton pixels between two nodes. `from` and `to` index the
/// graph's `nodes`; `pixels` starts at `nodes[from]` and ends at `nodes[to]`.
#[derive(Debug, Clone)]
pub struct GraphEdge {
    pub from: usize,
    pub to: usize,
    pub pixels: Vec<(i32, i32)>,
}

#[derive(Debug, Clone)]
pub struct StrokeGraph {
    pub nodes: Vec<GraphNode>,
    pub edges: Vec<GraphEdge>,
}

impl StrokeGraph {
    /// The endpoints of every edge, in edge order.
    pub open spec fn ends(&self) -> Seq<(usize, usize)> {
        self.edges@.map_values(|e: GraphEdge| (e.from, e.to))
    }

    /// Every edge joins two nodes of the graph.
    pub open spec fn wf(&self) -> bool {
        forall|e: int|
            0 <= e < self.edges.len() ==> #[trigger] self.edges[e].from < self.nodes.len()
                && self.edges[e].to < self.nodes.len()
    }
}


/// Pixel `(x, y)` of a `w x h` row-major grid lies inside and is set.
pub open spec fn lit(s: Seq<bool>, w: int, h: int, x: int, y: int) -> bool {
    0 <= x < w && 0 <= y < h && s[y * w + x]
}

/// `(a, b)` is one of the eight pixels around `(x, y)`.
pub open spec fn touching(x: int, y: int, a: int, b: int) -> bool {
    -1 <= a - x <= 1 && -1 <= b - y <= 1 && (a != x || b != y)
}

/// Skeleton adjacency: a set 8-neighbour, except that a diagonal step is
/// dropped when either pixel at the corner it cuts is set.
pub open spec fn links(s: Seq<bool>, w: int, h: int, x: int, y: int, a: int, b: int) -> bool {
    &&& lit(s, w, h, a, b)
    &&& touching(x, y, a, b)
    &&& (a != x && b != y ==> !lit(s, w, h, a, y) && !lit(s, w, h, x, b))
}

/// A walk of `n` links between set pixels, from `(x, y)` to `(a, b)`.
pub open spec fn link_walk(s: Seq<bool>, w: int, h: int, x: int, y: int, a: int, b: int, n: nat) -> bool
    decreases n,
{
    if n == 0 {
        lit(s, w, h, x, y) && a == x && b == y
    } else {
        exists|p: int, q: int| link_walk(s, w, h, x, y, p, q, (n - 1) as nat) && #[trigger] links(s, w, h, p, q, a, b)
    }
}

/// `(a, b)` is reachable from `(x, y)` along links.
pub open spec fn connected(s: Seq<bool>, w: int, h: int, x: int, y: int, a: int, b: int) -> bool {
    exists|n: nat| #[trigger] link_walk(s, w, h, x, y, a, b, n)
}

/// Column offset of the `k`-th neighbour, in row-major order.
pub open spec fn off_x(k: int) -> int {
    seq![-1int, 0, 1, -1, 1, -1, 0, 1][k]
}

/// Row offset of the `k`-th neighbour, in row-major order.
pub open spec fn off_y(k: int) -> int {
    seq![-1int, -1, -1, 0, 0, 1, 1, 1][k]
}

/// Number of pixels linked to `(x, y)`.
pub open spec fn link_degree(s: Seq<bool>, w: int, h: int, x: int, y: int) -> nat {
    count_in(|k: int| links(s, w, h, x, y, x + off_x(k), y + off_y(k)), 0, 8)
}

/// Row-major order of pixels.
pub open spec fn raster_before(p: (i32, i32), q: (i32, i32)) -> bool {
    p.1 < q.1 || (p.1 == q.1 && p.0 < q.0)
}

/// A set pixel, carrying label `c` when `restrict` holds.
pub open spec fn member(s: Seq<bool>, lab: Seq<usize>, c: usize, restrict: bool, w: int, h: int, x: int, y: int) -> bool {
    lit(s, w, h, x, y) && (!restrict || lab[y * w + x] == c)
}

/// Adjacency among the pixels that `member` admits.
pub open spec fn joins(s: Seq<bool>, lab: Seq<usize>, c: usize, restrict: bool, w: int, h: int, x: int, y: int, a: int, b: int) -> bool {
    &&& member(s, lab, c, restrict, w, h, a, b)
    &&& touching(x, y, a, b)
    &&& (a != x && b != y ==> !member(s, lab, c, restrict, w, h, a, y) && !member(s, lab, c, restrict, w, h, x, b))
}

/// The grid facts every pixel routine relies on.
pub open spec fn grid_ok(s: Seq<bool>, lab: Seq<usize>, w: i32, h: i32) -> bool {
    &&& w >= 0
    &&& h >= 0
    &&& (w as int) * (h as int) <= i32::MAX
    &&& s.len() >= (w as int) * (h as int)
    &&& lab.len() == (w as int) * (h as int)
}

pub(crate) fn index_of(w: i32, h: i32, x: i32, y: i32) -> (i: usize)
    requires
        w >= 0,
        h >= 0,
        (w as int) * (h as int) <= i32::MAX,
        0 <= x < w,
        0 <= y < h,
    ensures
        i == y * w + x,
        i < (w as int) * (h as int),
{
    proof {
        lemma_index_in(w as int, h as int, x as int, y as int);
    }
    (y * w + x) as usize
}

fn member_at(s: &[bool], lab: &Vec<usize>, c: usize, restrict: bool, w: i32, h: i32, x: i32, y: i32) -> (r: bool)
    requires
        grid_ok(s@, lab@, w, h),
        -1 <= x <= w,
        -1 <= y <= h,
    ensures
        r == member(s@, lab@, c, restrict, w as int, h as int, x as int, y as int),
{
    if x < 0 || x >= w || y < 0 || y >= h {
        false
    } else {
        let i = index_of(w, h, x, y);
        s[i] && (!restrict || lab[i] == c)
    }
}

/// The pixels joined to `(x, y)` among the first `k` neighbour offsets.
pub open spec fn joins_upto(s: Seq<bool>, lab: Seq<usize>, c: usize, restrict: bool, w: int, h: int, x: int, y: int, k: int) -> Seq<(i32, i32)>
    decreases k,
{
    if k <= 0 {
        Seq::empty()
    } else if joins(s, lab, c, restrict, w, h, x, y, x + off_x(k - 1), y + off_y(k - 1)) {
        joins_upto(s, lab, c, restrict, w, h, x, y, k - 1).push(((x + off_x(k - 1)) as i32, (y + off_y(k - 1)) as i32))
    } else {
        joins_upto(s, lab, c, restrict, w, h, x, y, k - 1)
    }
}

/// The pixels joined to `(x, y)`, in row-major order.
fn neighbour_list(s: &[bool], lab: &Vec<usize>, c: usize, restrict: bool, w: i32, h: i32, x: i32, y: i32) -> (r: Vec<(i32, i32)>)
    requires
        grid_ok(s@, lab@, w, h),
        0 <= x < w,
        0 <= y < h,
    ensures
        r.len() == count_in(|k: int| joins(s@, lab@, c, restrict, w as int, h as int, x as int, y as int, x + off_x(k), y + off_y(k)), 0, 8),
        r.len() <= 8,
        forall|j: int| 0 <= j < r.len() ==> joins(s@, lab@, c, restrict, w as int, h as int, x as int, y as int, (#[trigger] r@[j]).0 as int, r@[j].1 as int),
        forall|i: int, j: int| 0 <= i < j < r.len() ==> raster_before(#[trigger] r@[i], #[trigger] r@[j]),
        forall|q: int| 0 <= q < 8 && joins(s@, lab@, c, restrict, w as int, h as int, x as int, y as int, x + #[trigger] off_x(q), y + off_y(q))
            ==> r@.contains(((x + off_x(q)) as i32, (y + off_y(q)) as i32)),
        r@ == joins_upto(s@, lab@, c, restrict, w as int, h as int, x as int, y as int, 8),
{
    let dxs: [i32; 8] = [-1, 0, 1, -1, 1, -1, 0, 1];
    let dys: [i32; 8] = [-1, -1, -1, 0, 0, 1, 1, 1];
    let ghost pred = |k: int| joins(s@, lab@, c, restrict, w as int, h as int, x as int, y as int, x + off_x(k), y + off_y(k));
    let mut r: Vec<(i32, i32)> = Vec::new();
    let mut k: usize = 0;
    while k < 8
        invariant
            grid_ok(s@, lab@, w, h),
            0 <= x < w,
            0 <= y < h,
            k <= 8,
            dxs@ == seq![-1i32, 0i32, 1i32, -1i32, 1i32, -1i32, 0i32, 1i32],
            dys@ == seq![-1i32, -1i32, -1i32, 0i32, 0i32, 1i32, 1i32, 1i32],
            pred == (|k: int| joins(s@, lab@, c, restrict, w as int, h as int, x as int, y as int, x + off_x(k), y + off_y(k))),
            r.len() == count_in(pred, 0, k as int),
            forall|j: int| 0 <= j < r.len() ==> joins(s@, lab@, c, restrict, w as int, h as int, x as int, y as int, (#[trigger] r@[j]).0 as int, r@[j].1 as int),
            forall|j: int| 0 <= j < r.len() ==> exists|q: int| 0 <= q < k && (#[trigger] r@[j]).0 == x + off_x(q) && r@[j].1 == y + off_y(q),
            forall|i: int, j: int| 0 <= i < j < r.len() ==> raster_before(#[trigger] r@[i], #[trigger] r@[j]),
            forall|q: int| 0 <= q < k && #[trigger] pred(q) ==> r@.contains(((x + off_x(q)) as i32, (y + off_y(q)) as i32)),
            r@ == joins_upto(s@, lab@, c, restrict, w as int, h as int, x as int, y as int, k as int),
        decreases 8 - k,
    {
        proof {
            lemma_count_bounds(pred, 0, k as int);
        }
        let dx = dxs[k];
        let dy = dys[k];
        assert(dx == off_x(k as int) && dy == off_y(k as int));
        let a = x + dx;
        let b = y + dy;
        let on = member_at(s, lab, c, restrict, w, h, a, b);
        let mut ok = on;
        if on && dx != 0 && dy != 0 {
            let m1 = member_at(s, lab, c, restrict, w, h, a, y);
            let m2 = member_at(s, lab, c, restrict, w, h, x, b);
            ok = !m1 && !m2;
        }
        assert(ok == pred(k as int));
        let ghost before = r@;
        if ok {
            proof {
                assert forall|j: int| 0 <= j < before.len() implies raster_before(before[j], (a, b)) by {
                    assert(exists|q: int| 0 <= q < k && (#[trigger] before[j]).0 == x + off_x(q) && before[j].1 == y + off_y(q));
                }
            }
            r.push((a, b));
        }
        proof {
            assert forall|q: int| 0 <= q < k + 1 && #[trigger] pred(q) implies r@.contains(((x + off_x(q)) as i32, (y + off_y(q)) as i32)) by {
                if q < k {
                    let j = choose|j: int| 0 <= j < before.len() && before[j] == ((x + off_x(q)) as i32, (y + off_y(q)) as i32);
                    assert(r@[j] == before[j]);
                } else {
                    assert(r@[r.len() - 1] == (a, b));
                }
            }
            assert forall|j: int| 0 <= j < r.len() implies exists|q: int| 0 <= q < k + 1 && (#[trigger] r@[j]).0 == x + off_x(q) && r@[j].1 == y + off_y(q) by {
                if j < before.len() {
                    assert(r@[j] == before[j]);
                } else {
                    assert(r@[j].0 == x + off_x(k as int));
                }
            }
        }
        k = k + 1;
    }
    proof {
        lemma_count_bounds(pred, 0, 8);
        assert forall|q: int| 0 <= q < 8 && joins(s@, lab@, c, restrict, w as int, h as int, x as int, y as int, x + #[trigger] off_x(q), y + off_y(q))
            implies r@.contains(((x + off_x(q)) as i32, (y + off_y(q)) as i32) ) by {
            assert(pred(q));
        }
    }
    r
}


/// Every link out of `(x, y)` reaches a pixel with the same label.
pub open spec fn closed_at(s: Seq<bool>, lab: Seq<usize>, w: int, h: int, x: int, y: int) -> bool {
    forall|k: int|
        0 <= k < 8 && links(s, w, h, x, y, x + #[trigger] off_x(k), y + off_y(k)) ==> cell(lab, w, x + off_x(k), y + off_y(k))
            == cell(lab, w, x, y)
}

/// Labelled pixels share their label with every pixel linked to them.
pub open spec fn labels_closed(s: Seq<bool>, lab: Seq<usize>, w: int, h: int) -> bool {
    forall|x: int, y: int| lit(s, w, h, x, y) && cell(lab, w, x, y) != 0 ==> #[trigger] closed_at(s, lab, w, h, x, y)
}

/// The offset table covers the eight neighbours.
pub proof fn lemma_offset_of(x: int, y: int, a: int, b: int) -> (k: int)
    requires
        touching(x, y, a, b),
    ensures
        0 <= k < 8,
        a == x + off_x(k),
        b == y + off_y(k),
{
    let dx = a - x;
    let dy = b - y;
    if dy == -1 {
        if dx == -1 { 0 } else if dx == 0 { 1 } else { 2 }
    } else if dy == 0 {
        if dx == -1 { 3 } else { 4 }
    } else {
        if dx == -1 { 5 } else if dx == 0 { 6 } else { 7 }
    }
}

/// Labelling a fresh pixel keeps a pixel closed whose own label is not zero.
proof fn lemma_closed_at_update(s: Seq<bool>, lab: Seq<usize>, w: int, h: int, x: int, y: int, i: int, c: usize)
    requires
        w >= 0,
        h >= 0,
        lab.len() == w * h,
        0 <= x < w,
        0 <= y < h,
        0 <= i < lab.len(),
        lab[i] == 0,
        cell(lab, w, x, y) != 0,
        closed_at(s, lab, w, h, x, y),
    ensures
        closed_at(s, lab.update(i, c), w, h, x, y),
{
    let l2 = lab.update(i, c);
    lemma_index_in(w, h, x, y);
    assert forall|k: int|
        0 <= k < 8 && links(s, w, h, x, y, x + #[trigger] off_x(k), y + off_y(k)) implies cell(l2, w, x + off_x(k), y + off_y(k))
            == cell(l2, w, x, y) by {
        lemma_index_in(w, h, x + off_x(k), y + off_y(k));
        assert(cell(lab, w, x + off_x(k), y + off_y(k)) == cell(lab, w, x, y));
    }
}

/// Labels pixel `(x0, y0)`'s component with `c` by breadth-first search and
/// lists its pixels in visiting order.
fn flood(s: &[bool], lab: &mut Vec<usize>, c: usize, w: i32, h: i32, x0: i32, y0: i32) -> (comp: Vec<(i32, i32)>)
    requires
        grid_ok(s@, old(lab)@, w, h),
        0 <= x0 < w,
        0 <= y0 < h,
        lit(s@, w as int, h as int, x0 as int, y0 as int),
        cell(old(lab)@, w as int, x0 as int, y0 as int) == 0,
        c > 0,
        labels_closed(s@, old(lab)@, w as int, h as int),
        forall|i: int| 0 <= i < old(lab).len() ==> #[trigger] old(lab)@[i] < c,
    ensures
        grid_ok(s@, final(lab)@, w, h),
        comp.len() > 0,
        comp@[0] == (x0, y0),
        forall|k: int| 0 <= k < comp.len() ==> 0 <= (#[trigger] comp@[k]).0 < w && 0 <= comp@[k].1 < h
            && lit(s@, w as int, h as int, comp@[k].0 as int, comp@[k].1 as int)
            && cell(final(lab)@, w as int, comp@[k].0 as int, comp@[k].1 as int) == c,
        forall|i: int, j: int| 0 <= i < j < comp.len() ==> #[trigger] comp@[i] != #[trigger] comp@[j],
        forall|i: int| 0 <= i < final(lab).len() ==> #[trigger] final(lab)@[i] == old(lab)@[i] || (old(lab)@[i] == 0 && final(lab)@[i] == c),
        forall|x: int, y: int| 0 <= x < w && 0 <= y < h && #[trigger] cell(final(lab)@, w as int, x, y) == c ==> comp@.contains((x as i32, y as i32)),
        labels_closed(s@, final(lab)@, w as int, h as int),
        forall|i: int| 0 <= i < final(lab).len() ==> #[trigger] final(lab)@[i] <= c,
        forall|k: int| 0 <= k < comp.len() ==> connected(s@, w as int, h as int, x0 as int, y0 as int, (#[trigger] comp@[k]).0 as int, comp@[k].1 as int),
{
    let ghost lab0 = lab@;
    let ghost wi = w as int;
    let ghost hi = h as int;
    let i0 = index_of(w, h, x0, y0);
    lab.set(i0, c);
    let mut comp: Vec<(i32, i32)> = Vec::new();
    comp.push((x0, y0));
    proof {
        lemma_count_ext(|t: int| lab0[t] != lab0[t], |t: int| false, 0, lab.len() as int);
        lemma_count_pos(|t: int| false, 0, lab.len() as int);
        lemma_count_point(|t: int| lab0[t] != lab0[t], |t: int| lab@[t] != lab0[t], 0, lab.len() as int, i0 as int);
        lemma_count_bounds(|t: int| lab@[t] != lab0[t], 0, lab.len() as int);
        assert forall|x: int, y: int| 0 <= x < w && 0 <= y < h && #[trigger] cell(lab@, wi, x, y) == c implies comp@.contains((x as i32, y as i32)) by {
            lemma_index_in(wi, hi, x, y);
            if y * wi + x != i0 {
                assert(lab@[y * wi + x] == lab0[y * wi + x]);
            } else {
                lemma_index_inj(wi, x, y, x0 as int, y0 as int);
                assert(comp@[0] == (x0, y0));
            }
        }
    }
    proof {
        assert(link_walk(s@, wi, hi, x0 as int, y0 as int, x0 as int, y0 as int, 0));
        assert(comp@[0] == (x0, y0));
    }
    let mut head: usize = 0;
    while head < comp.len()
        invariant
            grid_ok(s@, lab@, w, h),
            wi == w as int,
            hi == h as int,
            c > 0,
            lab0.len() == lab.len(),
            comp.len() > 0,
            comp@[0] == (x0, y0),
            head <= comp.len(),
            comp.len() <= lab.len(),
            comp.len() == count_in(|t: int| lab@[t] != lab0[t], 0, lab.len() as int),
            forall|k: int| 0 <= k < comp.len() ==> 0 <= (#[trigger] comp@[k]).0 < w && 0 <= comp@[k].1 < h
                && lit(s@, wi, hi, comp@[k].0 as int, comp@[k].1 as int)
                && cell(lab@, wi, comp@[k].0 as int, comp@[k].1 as int) == c,
            forall|i: int, j: int| 0 <= i < j < comp.len() ==> #[trigger] comp@[i] != #[trigger] comp@[j],
            forall|i: int| 0 <= i < lab.len() ==> #[trigger] lab@[i] == lab0[i] || (lab0[i] == 0 && lab@[i] == c),
            forall|x: int, y: int| 0 <= x < w && 0 <= y < h && #[trigger] cell(lab@, wi, x, y) == c ==> comp@.contains((x as i32, y as i32)),
            forall|k: int| 0 <= k < head ==> closed_at(s@, lab@, wi, hi, (#[trigger] comp@[k]).0 as int, comp@[k].1 as int),
            labels_closed(s@, lab0, wi, hi),
            forall|k: int| 0 <= k < comp.len() ==> connected(s@, wi, hi, x0 as int, y0 as int, (#[trigger] comp@[k]).0 as int, comp@[k].1 as int),
            forall|i: int| 0 <= i < lab0.len() ==> #[trigger] lab0[i] < c,
        decreases lab.len() - head,
    {
        let (cx, cy) = comp[head];
        let nbrs = neighbour_list(s, lab, 0, false, w, h, cx, cy);
        let mut j: usize = 0;
        while j < nbrs.len()
            invariant
                grid_ok(s@, lab@, w, h),
                wi == w as int,
                hi == h as int,
                c > 0,
                lab0.len() == lab.len(),
                comp.len() > 0,
                comp@[0] == (x0, y0),
                head < comp.len(),
                comp@[head as int] == (cx, cy),
                comp.len() <= lab.len(),
                comp.len() == count_in(|t: int| lab@[t] != lab0[t], 0, lab.len() as int),
                j <= nbrs.len(),
                forall|q: int| 0 <= q < nbrs.len() ==> links(s@, wi, hi, cx as int, cy as int, (#[trigger] nbrs@[q]).0 as int, nbrs@[q].1 as int),
                forall|q: int| 0 <= q < j ==> cell(lab@, wi, (#[trigger] nbrs@[q]).0 as int, nbrs@[q].1 as int) == c,
                forall|k: int| 0 <= k < comp.len() ==> 0 <= (#[trigger] comp@[k]).0 < w && 0 <= comp@[k].1 < h
                    && lit(s@, wi, hi, comp@[k].0 as int, comp@[k].1 as int)
                    && cell(lab@, wi, comp@[k].0 as int, comp@[k].1 as int) == c,
                forall|i: int, j: int| 0 <= i < j < comp.len() ==> #[trigger] comp@[i] != #[trigger] comp@[j],
                forall|i: int| 0 <= i < lab.len() ==> #[trigger] lab@[i] == lab0[i] || (lab0[i] == 0 && lab@[i] == c),
                forall|x: int, y: int| 0 <= x < w && 0 <= y < h && #[trigger] cell(lab@, wi, x, y) == c ==> comp@.contains((x as i32, y as i32)),
                forall|k: int| 0 <= k < head ==> closed_at(s@, lab@, wi, hi, (#[trigger] comp@[k]).0 as int, comp@[k].1 as int),
                labels_closed(s@, lab0, wi, hi),
                forall|k: int| 0 <= k < comp.len() ==> connected(s@, wi, hi, x0 as int, y0 as int, (#[trigger] comp@[k]).0 as int, comp@[k].1 as int),
                forall|i: int| 0 <= i < lab0.len() ==> #[trigger] lab0[i] < c,
            decreases nbrs.len() - j,
        {
            let (nx, ny) = nbrs[j];
            let i = index_of(w, h, nx, ny);
            let ghost before = lab@;
            let ghost comp_before = comp@;
            if lab[i] == 0 {
                lab.set(i, c);
                comp.push((nx, ny));
                proof {
                    assert(lab@ == before.update(i as int, c));
                    assert forall|k: int| 0 <= k < head implies closed_at(s@, lab@, wi, hi, (#[trigger] comp@[k]).0 as int, comp@[k].1 as int) by {
                        assert(comp@[k] == comp_before[k]);
                        lemma_closed_at_update(s@, before, wi, hi, comp@[k].0 as int, comp@[k].1 as int, i as int, c);
                    }
                    assert forall|k: int| 0 <= k < comp.len() implies 0 <= (#[trigger] comp@[k]).0 < w && 0 <= comp@[k].1 < h
                        && lit(s@, wi, hi, comp@[k].0 as int, comp@[k].1 as int)
                        && cell(lab@, wi, comp@[k].0 as int, comp@[k].1 as int) == c by {
                        if k < comp.len() - 1 {
                            assert(comp@[k] == comp_before[k]);
                            lemma_index_in(wi, hi, comp@[k].0 as int, comp@[k].1 as int);
                        }
                    }
                    assert forall|a: int, b: int| 0 <= a < b < comp.len() implies #[trigger] comp@[a] != #[trigger] comp@[b] by {
                        if b == comp.len() - 1 {
                            assert(cell(before, wi, comp_before[a].0 as int, comp_before[a].1 as int) == c);
                        } else {
                            assert(comp_before[a] != comp_before[b]);
                        }
                    }
                    assert forall|x: int, y: int| 0 <= x < w && 0 <= y < h && #[trigger] cell(lab@, wi, x, y) == c implies comp@.contains((x as i32, y as i32)) by {
                        lemma_index_in(wi, hi, x, y);
                        if y * wi + x == i {
                            lemma_index_inj(wi, x, y, nx as int, ny as int);
                            assert(comp@[comp.len() - 1] == (nx, ny));
                        } else {
                            assert(cell(before, wi, x, y) == c);
                            let k = choose|k: int| 0 <= k < comp_before.len() && comp_before[k] == (x as i32, y as i32);
                            assert(comp@[k] == comp_before[k]);
                        }
                    }
                    assert forall|q: int| 0 <= q < j + 1 implies cell(lab@, wi, (#[trigger] nbrs@[q]).0 as int, nbrs@[q].1 as int) == c by {
                        assert(links(s@, wi, hi, cx as int, cy as int, nbrs@[q].0 as int, nbrs@[q].1 as int));
                        lemma_index_in(wi, hi, nbrs@[q].0 as int, nbrs@[q].1 as int);
                    }
                    assert(connected(s@, wi, hi, x0 as int, y0 as int, comp_before[head as int].0 as int, comp_before[head as int].1 as int));
                    lemma_connected_step(s@, wi, hi, x0 as int, y0 as int, cx as int, cy as int, nx as int, ny as int);
                    assert forall|k: int| 0 <= k < comp.len() implies connected(s@, wi, hi, x0 as int, y0 as int, (#[trigger] comp@[k]).0 as int, comp@[k].1 as int) by {
                        if k < comp.len() - 1 {
                            assert(comp@[k] == comp_before[k]);
                        }
                    }
                    lemma_count_point(|t: int| before[t] != lab0[t], |t: int| lab@[t] != lab0[t], 0, lab.len() as int, i as int);
                    lemma_count_bounds(|t: int| lab@[t] != lab0[t], 0, lab.len() as int);
                }
            } else {
                proof {
                    let p = (cx as int, cy as int);
                    let q = (nx as int, ny as int);
                    if lab@[i as int] != c {
                        assert(lab0[i as int] == lab@[i as int]);
                        assert(closed_at(s@, lab0, wi, hi, q.0, q.1));
                        let k = lemma_offset_of(q.0, q.1, p.0, p.1);
                        assert(links(s@, wi, hi, q.0, q.1, q.0 + off_x(k), q.1 + off_y(k)));
                        lemma_index_in(wi, hi, p.0, p.1);
                        assert(cell(lab@, wi, p.0, p.1) == c);
                        assert(false);
                    }
                }
            }
            j = j + 1;
        }
        proof {
            assert(closed_at(s@, lab@, wi, hi, cx as int, cy as int)) by {
                assert forall|k: int|
                    0 <= k < 8 && links(s@, wi, hi, cx as int, cy as int, cx + #[trigger] off_x(k), cy + off_y(k))
                        implies cell(lab@, wi, cx + off_x(k), cy + off_y(k)) == cell(lab@, wi, cx as int, cy as int) by {
                    assert(joins(s@, lab@, 0, false, wi, hi, cx as int, cy as int, cx + off_x(k), cy + off_y(k)));
                    let t = ((cx + off_x(k)) as i32, (cy + off_y(k)) as i32);
                    assert(nbrs@.contains(t));
                    let q = choose|q: int| 0 <= q < nbrs.len() && nbrs@[q] == t;
                    assert(cell(lab@, wi, nbrs@[q].0 as int, nbrs@[q].1 as int) == c);
                }
            }
        }
        head = head + 1;
    }
    proof {
        assert forall|x: int, y: int| lit(s@, wi, hi, x, y) && cell(lab@, wi, x, y) != 0 implies #[trigger] closed_at(s@, lab@, wi, hi, x, y) by {
            lemma_index_in(wi, hi, x, y);
            if cell(lab@, wi, x, y) == c {
                let k = choose|k: int| 0 <= k < comp.len() && comp@[k] == (x as i32, y as i32);
                assert(closed_at(s@, lab@, wi, hi, comp@[k].0 as int, comp@[k].1 as int));
            } else {
                assert(cell(lab0, wi, x, y) == cell(lab@, wi, x, y));
                assert(closed_at(s@, lab0, wi, hi, x, y));
                assert forall|k: int|
                    0 <= k < 8 && links(s@, wi, hi, x, y, x + #[trigger] off_x(k), y + off_y(k))
                        implies cell(lab@, wi, x + off_x(k), y + off_y(k)) == cell(lab@, wi, x, y) by {
                    lemma_index_in(wi, hi, x + off_x(k), y + off_y(k));
                    assert(cell(lab0, wi, x + off_x(k), y + off_y(k)) == cell(lab0, wi, x, y));
                }
            }
        }
        assert forall|i: int| 0 <= i < lab.len() implies #[trigger] lab@[i] <= c by {
            assert(lab0[i] < c);
        }
    }
    comp
}


/// Inside a closed component, the component-restricted adjacency is the
/// skeleton's own.
proof fn lemma_joins_in_component(s: Seq<bool>, lab: Seq<usize>, c: usize, w: int, h: int, x: int, y: int, k: int)
    requires
        w >= 0,
        h >= 0,
        lab.len() == w * h,
        lit(s, w, h, x, y),
        cell(lab, w, x, y) == c,
        closed_at(s, lab, w, h, x, y),
        0 <= k < 8,
    ensures
        joins(s, lab, c, true, w, h, x, y, x + off_x(k), y + off_y(k)) == links(s, w, h, x, y, x + off_x(k), y + off_y(k)),
{
    let a = x + off_x(k);
    let b = y + off_y(k);
    if lit(s, w, h, a, y) && a != x {
        let k2 = lemma_offset_of(x, y, a, y);
        assert(links(s, w, h, x, y, x + off_x(k2), y + off_y(k2)));
    }
    if lit(s, w, h, x, b) && b != y {
        let k3 = lemma_offset_of(x, y, x, b);
        assert(links(s, w, h, x, y, x + off_x(k3), y + off_y(k3)));
    }
}

/// The index of pixel `p` in `v`, if it is there.
fn find_pixel(v: &Vec<(i32, i32)>, p: (i32, i32)) -> (r: Option<usize>)
    ensures
        r matches Some(i) ==> i < v.len() && v@[i as int] == p,
        r.is_none() ==> !v@.contains(p),
{
    let mut i: usize = 0;
    while i < v.len()
        invariant
            i <= v.len(),
            forall|k: int| 0 <= k < i ==> v@[k] != p,
        decreases v.len() - i,
    {
        if v[i].0 == p.0 && v[i].1 == p.1 {
            return Some(i);
        }
        i = i + 1;
    }
    None
}

/// Distinct pixels in row-major order.
fn sort_raster(v: &Vec<(i32, i32)>) -> (r: Vec<(i32, i32)>)
    requires
        forall|i: int, j: int| 0 <= i < j < v.len() ==> #[trigger] v@[i] != #[trigger] v@[j],
    ensures
        r.len() == v.len(),
        forall|i: int, j: int| 0 <= i < j < r.len() ==> raster_before(#[trigger] r@[i], #[trigger] r@[j]),
        forall|p: (i32, i32)| #[trigger] r@.contains(p) <==> v@.contains(p),
{
    let mut r: Vec<(i32, i32)> = Vec::new();
    let mut k: usize = 0;
    while k < v.len()
        invariant
            k <= v.len(),
            r.len() == k,
            forall|i: int, j: int| 0 <= i < j < v.len() ==> #[trigger] v@[i] != #[trigger] v@[j],
            forall|i: int, j: int| 0 <= i < j < r.len() ==> raster_before(#[trigger] r@[i], #[trigger] r@[j]),
            forall|p: (i32, i32)| #[trigger] r@.contains(p) <==> v@.subrange(0, k as int).contains(p),
        decreases v.len() - k,
    {
        let t = v[k];
        proof {
            if r@.contains(t) {
                let j = choose|j: int| 0 <= j < k && v@.subrange(0, k as int)[j] == t;
                assert(v@[j] == v@[k as int]);
            }
        }
        let mut i: usize = 0;
        while i < r.len() && raster_before_exec(r[i], t)
            invariant
                i <= r.len(),
                forall|a: int| 0 <= a < i ==> raster_before(#[trigger] r@[a], t),
            decreases r.len() - i,
        {
            i = i + 1;
        }
        let ghost pre = r@;
        r.insert(i, t);
        proof {
            assert(r@ == pre.insert(i as int, t));
            if i < pre.len() {
                assert(!raster_before(pre[i as int], t));
                assert(pre[i as int] != t);
            }
            assert forall|a: int, b: int| 0 <= a < b < r.len() implies raster_before(#[trigger] r@[a], #[trigger] r@[b]) by {
                if b < i {
                } else if b == i {
                } else if a < i {
                    if b - 1 > i {
                        assert(raster_before(pre[i as int], pre[b - 1]));
                    }
                } else if a == i {
                    if b - 1 > i {
                        assert(raster_before(pre[i as int], pre[b - 1]));
                    }
                } else {
                    assert(raster_before(pre[a - 1], pre[b - 1]));
                }
            }
            let vk1 = v@.subrange(0, k + 1);
            assert(vk1 == v@.subrange(0, k as int).push(t));
            let vk = v@.subrange(0, k as int);
            assert forall|p: (i32, i32)| #[trigger] r@.contains(p) <==> vk1.contains(p) by {
                if r@.contains(p) {
                    let j = choose|j: int| 0 <= j < r@.len() && r@[j] == p;
                    if j == i {
                        assert(vk1[k as int] == p);
                    } else {
                        let jj = if j < i { j } else { j - 1 };
                        assert(pre[jj] == p);
                        assert(pre.contains(p));
                        assert(vk.contains(p));
                        let q = choose|q: int| 0 <= q < vk.len() && vk[q] == p;
                        assert(vk1[q] == p);
                    }
                }
                if vk1.contains(p) {
                    let j = choose|j: int| 0 <= j < k + 1 && vk1[j] == p;
                    if j == k {
                        assert(r@[i as int] == p);
                    } else {
                        assert(vk[j] == p);
                        assert(vk.contains(p));
                        assert(pre.contains(p));
                        let q = choose|q: int| 0 <= q < pre.len() && pre[q] == p;
                        if q < i {
                            assert(r@[q] == p);
                        } else {
                            assert(r@[q + 1] == p);
                        }
                    }
                }
            }
        }
        k = k + 1;
    }
    assert(v@.subrange(0, v.len() as int) == v@);
    r
}

fn raster_before_exec(p: (i32, i32), q: (i32, i32)) -> (r: bool)
    ensures
        r == raster_before(p, q),
{
    p.1 < q.1 || (p.1 == q.1 && p.0 < q.0)
}


/// A link from the end of a walk extends it.
proof fn lemma_connected_step(s: Seq<bool>, w: int, h: int, x: int, y: int, p: int, q: int, a: int, b: int)
    requires
        connected(s, w, h, x, y, p, q),
        links(s, w, h, p, q, a, b),
    ensures
        connected(s, w, h, x, y, a, b),
{
    let n = choose|n: nat| #[trigger] link_walk(s, w, h, x, y, p, q, n);
    assert(link_walk(s, w, h, x, y, p, q, n) && links(s, w, h, p, q, a, b));
    assert(link_walk(s, w, h, x, y, a, b, n + 1));
}

/// Both ends of a walk are set pixels.
proof fn lemma_walk_ends_lit(s: Seq<bool>, w: int, h: int, x: int, y: int, a: int, b: int, n: nat)
    requires
        link_walk(s, w, h, x, y, a, b, n),
    ensures
        lit(s, w, h, x, y),
        lit(s, w, h, a, b),
    decreases n,
{
    if n > 0 {
        let (p, q) = choose|p: int, q: int| link_walk(s, w, h, x, y, p, q, (n - 1) as nat) && #[trigger] links(s, w, h, p, q, a, b);
        lemma_walk_ends_lit(s, w, h, x, y, p, q, (n - 1) as nat);
    }
}

/// Two walks end to end make one.
proof fn lemma_walk_join(s: Seq<bool>, w: int, h: int, x: int, y: int, a: int, b: int, c: int, d: int, n: nat, m: nat)
    requires
        link_walk(s, w, h, x, y, a, b, n),
        link_walk(s, w, h, a, b, c, d, m),
    ensures
        link_walk(s, w, h, x, y, c, d, n + m),
    decreases m,
{
    if m > 0 {
        let (p, q) = choose|p: int, q: int| link_walk(s, w, h, a, b, p, q, (m - 1) as nat) && #[trigger] links(s, w, h, p, q, c, d);
        lemma_walk_join(s, w, h, x, y, a, b, p, q, n, (m - 1) as nat);
        assert(link_walk(s, w, h, x, y, p, q, (n + m - 1) as nat) && links(s, w, h, p, q, c, d));
    }
}

/// A walk can be followed backwards: links between set pixels go both ways.
proof fn lemma_walk_back(s: Seq<bool>, w: int, h: int, x: int, y: int, a: int, b: int, n: nat)
    requires
        link_walk(s, w, h, x, y, a, b, n),
    ensures
        link_walk(s, w, h, a, b, x, y, n),
    decreases n,
{
    if n > 0 {
        let (p, q) = choose|p: int, q: int| link_walk(s, w, h, x, y, p, q, (n - 1) as nat) && #[trigger] links(s, w, h, p, q, a, b);
        lemma_walk_back(s, w, h, x, y, p, q, (n - 1) as nat);
        lemma_walk_ends_lit(s, w, h, x, y, p, q, (n - 1) as nat);
        assert(links(s, w, h, a, b, p, q));
        assert(link_walk(s, w, h, a, b, a, b, 0));
        assert(link_walk(s, w, h, a, b, p, q, 1));
        lemma_walk_join(s, w, h, a, b, p, q, x, y, 1, (n - 1) as nat);
    }
}

/// Connection is symmetric.
proof fn lemma_connected_back(s: Seq<bool>, w: int, h: int, x: int, y: int, a: int, b: int)
    requires
        connected(s, w, h, x, y, a, b),
    ensures
        connected(s, w, h, a, b, x, y),
        lit(s, w, h, a, b),
        lit(s, w, h, x, y),
{
    let n = choose|n: nat| #[trigger] link_walk(s, w, h, x, y, a, b, n);
    lemma_walk_back(s, w, h, x, y, a, b, n);
    lemma_walk_ends_lit(s, w, h, x, y, a, b, n);
}

/// Connection is transitive.
proof fn lemma_connected_join(s: Seq<bool>, w: int, h: int, x: int, y: int, a: int, b: int, c: int, d: int)
    requires
        connected(s, w, h, x, y, a, b),
        connected(s, w, h, a, b, c, d),
    ensures
        connected(s, w, h, x, y, c, d),
{
    let n = choose|n: nat| #[trigger] link_walk(s, w, h, x, y, a, b, n);
    let m = choose|m: nat| #[trigger] link_walk(s, w, h, a, b, c, d, m);
    lemma_walk_join(s, w, h, x, y, a, b, c, d, n, m);
}

/// Labels closed under links are shared by every pixel a labelled pixel
/// reaches.
proof fn lemma_connected_label(s: Seq<bool>, lab: Seq<usize>, w: int, h: int, x: int, y: int, a: int, b: int)
    requires
        w >= 0,
        h >= 0,
        lab.len() == w * h,
        labels_closed(s, lab, w, h),
        cell(lab, w, x, y) != 0,
        connected(s, w, h, x, y, a, b),
    ensures
        lit(s, w, h, a, b),
        cell(lab, w, a, b) == cell(lab, w, x, y),
{
    let n = choose|n: nat| #[trigger] link_walk(s, w, h, x, y, a, b, n);
    lemma_walk_label(s, lab, w, h, x, y, a, b, n);
}

proof fn lemma_walk_label(s: Seq<bool>, lab: Seq<usize>, w: int, h: int, x: int, y: int, a: int, b: int, n: nat)
    requires
        w >= 0,
        h >= 0,
        lab.len() == w * h,
        labels_closed(s, lab, w, h),
        cell(lab, w, x, y) != 0,
        link_walk(s, w, h, x, y, a, b, n),
    ensures
        lit(s, w, h, a, b),
        cell(lab, w, a, b) == cell(lab, w, x, y),
    decreases n,
{
    if n > 0 {
        let (p, q) = choose|p: int, q: int| link_walk(s, w, h, x, y, p, q, (n - 1) as nat) && #[trigger] links(s, w, h, p, q, a, b);
        lemma_walk_label(s, lab, w, h, x, y, p, q, (n - 1) as nat);
        assert(closed_at(s, lab, w, h, p, q));
        let k = lemma_offset_of(p, q, a, b);
        assert(links(s, w, h, p, q, p + off_x(k), q + off_y(k)));
    }
}

/// `(a, b)` is connected to a node of `g`: it lies in the component that
/// `g` was traced from.
pub open spec fn in_component(g: &StrokeGraph, s: Seq<bool>, w: int, h: int, a: int, b: int) -> bool {
    exists|i: int| 0 <= i < g.nodes@.len() && #[trigger] connected(s, w, h, g.nodes@[i].x as int, g.nodes@[i].y as int, a, b)
}

/// `(a, b)` is the first pixel, in row-major order, of `g`'s component.
pub open spec fn component_first(g: &StrokeGraph, s: Seq<bool>, w: int, h: int, a: int, b: int) -> bool {
    &&& in_component(g, s, w, h, a, b)
    &&& forall|p: int, q: int| (q < b || (q == b && p < a)) ==> !#[trigger] in_component(g, s, w, h, p, q)
}

/// Coordinates of a node.
pub open spec fn node_px(n: GraphNode) -> (i32, i32) {
    (n.x, n.y)
}

/// `ed` runs over set pixels, each linked to the next, from node `from` to
/// node `to` of `nodes`, with `from <= to`.
pub open spec fn edge_ok(ed: GraphEdge, nodes: Seq<GraphNode>, s: Seq<bool>, w: int, h: int) -> bool {
    let px = ed.pixels@;
    &&& ed.from <= ed.to < nodes.len()
    &&& px.len() >= 2
    &&& px[0] == node_px(nodes[ed.from as int])
    &&& px[px.len() - 1] == node_px(nodes[ed.to as int])
    &&& forall|k: int| 0 <= k < px.len() ==> lit(s, w, h, (#[trigger] px[k]).0 as int, px[k].1 as int)
    &&& forall|k: int| 0 <= k < px.len() - 1 ==> links(s, w, h, (#[trigger] px[k]).0 as int, px[k].1 as int, px[k + 1].0 as int, px[k + 1].1 as int)
}

/// A stroke graph traced from a `w x h` skeleton: nodes in row-major order,
/// each a set pixel that is not on the inside of a stroke (link degree other
/// than two) unless it is the only node, and every edge a linked pixel run.
pub open spec fn graph_traced(g: &StrokeGraph, s: Seq<bool>, w: int, h: int) -> bool {
    &&& g.nodes.len() > 0
    &&& forall|i: int, j: int| 0 <= i < j < g.nodes.len() ==> raster_before(node_px(#[trigger] g.nodes@[i]), node_px(#[trigger] g.nodes@[j]))
    &&& forall|i: int| 0 <= i < g.nodes.len() ==> lit(s, w, h, (#[trigger] g.nodes@[i]).x as int, g.nodes@[i].y as int)
    &&& forall|i: int| 0 <= i < g.nodes.len() ==> link_degree(s, w, h, (#[trigger] g.nodes@[i]).x as int, g.nodes@[i].y as int) != 2
        || g.nodes.len() == 1
    &&& forall|e: int| 0 <= e < g.edges.len() ==> edge_ok(#[trigger] g.edges@[e], g.nodes@, s, w, h)
}

/// Every graph traced from a skeleton is well formed: its edges join nodes
/// it has, so it can be handed to the traversal.
pub proof fn law_traced_graph_well_formed(g: &StrokeGraph, s: Seq<bool>, w: int, h: int)
    requires
        graph_traced(g, s, w, h),
    ensures
        g.wf(),
{
    assert forall|e: int| 0 <= e < g.edges.len() implies #[trigger] g.edges[e].from < g.nodes.len() && g.edges[e].to < g.nodes.len() by {
        assert(edge_ok(g.edges@[e], g.nodes@, s, w, h));
    }
}

/// The facts `flood` leaves about a component labelled `c`.
pub open spec fn component_of(s: Seq<bool>, lab: Seq<usize>, c: usize, w: i32, h: i32, comp: Seq<(i32, i32)>) -> bool {
    &&& grid_ok(s, lab, w, h)
    &&& labels_closed(s, lab, w as int, h as int)
    &&& c > 0
    &&& comp.len() > 0
    &&& forall|k: int| 0 <= k < comp.len() ==> 0 <= (#[trigger] comp[k]).0 < w && 0 <= comp[k].1 < h
        && lit(s, w as int, h as int, comp[k].0 as int, comp[k].1 as int)
        && cell(lab, w as int, comp[k].0 as int, comp[k].1 as int) == c
    &&& forall|i: int, j: int| 0 <= i < j < comp.len() ==> #[trigger] comp[i] != #[trigger] comp[j]
    &&& forall|x: int, y: int| 0 <= x < w && 0 <= y < h && #[trigger] cell(lab, w as int, x, y) == c ==> comp.contains((x as i32, y as i32))
}

/// Inside its component, a pixel's joined neighbours are its linked ones.
proof fn lemma_joins_are_links(s: Seq<bool>, lab: Seq<usize>, c: usize, w: int, h: int, x: int, y: int, k: int)
    requires
        w >= 0,
        h >= 0,
        lab.len() == w * h,
        lit(s, w, h, x, y),
        cell(lab, w, x, y) == c,
        closed_at(s, lab, w, h, x, y),
        0 <= k <= 8,
    ensures
        joins_upto(s, lab, c, true, w, h, x, y, k) == linked_upto(s, w, h, x, y, k),
    decreases k,
{
    if k > 0 {
        lemma_joins_are_links(s, lab, c, w, h, x, y, k - 1);
        lemma_joins_in_component(s, lab, c, w, h, x, y, k - 1);
    }
}

/// A pixel of the component, with its neighbours counted as in the skeleton.
fn component_neighbours(s: &[bool], lab: &Vec<usize>, c: usize, w: i32, h: i32, x: i32, y: i32) -> (r: Vec<(i32, i32)>)
    requires
        grid_ok(s@, lab@, w, h),
        labels_closed(s@, lab@, w as int, h as int),
        c > 0,
        0 <= x < w,
        0 <= y < h,
        lit(s@, w as int, h as int, x as int, y as int),
        cell(lab@, w as int, x as int, y as int) == c,
    ensures
        r.len() == link_degree(s@, w as int, h as int, x as int, y as int),
        forall|j: int| 0 <= j < r.len() ==> links(s@, w as int, h as int, x as int, y as int, (#[trigger] r@[j]).0 as int, r@[j].1 as int)
            && 0 <= r@[j].0 < w && 0 <= r@[j].1 < h
            && cell(lab@, w as int, r@[j].0 as int, r@[j].1 as int) == c,
        r@ == linked(s@, w as int, h as int, (x, y)),
{
    let r = neighbour_list(s, lab, c, true, w, h, x, y);
    proof {
        let wi = w as int;
        let hi = h as int;
        assert(closed_at(s@, lab@, wi, hi, x as int, y as int));
        lemma_joins_are_links(s@, lab@, c, wi, hi, x as int, y as int, 8);
        let f = |k: int| joins(s@, lab@, c, true, wi, hi, x as int, y as int, x + off_x(k), y + off_y(k));
        let g = |k: int| links(s@, wi, hi, x as int, y as int, x + off_x(k), y + off_y(k));
        assert forall|k: int| 0 <= k < 8 implies #[trigger] f(k) == g(k) by {
            lemma_joins_in_component(s@, lab@, c, wi, hi, x as int, y as int, k);
        }
        lemma_count_ext(f, g, 0, 8);
        assert forall|j: int| 0 <= j < r.len() implies links(s@, wi, hi, x as int, y as int, (#[trigger] r@[j]).0 as int, r@[j].1 as int)
            && 0 <= r@[j].0 < w && 0 <= r@[j].1 < h && cell(lab@, wi, r@[j].0 as int, r@[j].1 as int) == c by {
            assert(joins(s@, lab@, c, true, wi, hi, x as int, y as int, r@[j].0 as int, r@[j].1 as int));
            let k = lemma_offset_of(x as int, y as int, r@[j].0 as int, r@[j].1 as int);
            lemma_joins_in_component(s@, lab@, c, wi, hi, x as int, y as int, k);
        }
    }
    r
}

/// The pixel run that follows `path` from `curr`, reached from `prev`: while
/// `fuel` lasts and `curr` has two or more links, step to its first linked
/// pixel (row-major) other than `prev`, stopping once that pixel is one of
/// `nodes`.
pub open spec fn run_from(
    s: Seq<bool>,
    w: int,
    h: int,
    nodes: Seq<(i32, i32)>,
    path: Seq<(i32, i32)>,
    prev: (i32, i32),
    curr: (i32, i32),
    fuel: nat,
) -> Seq<(i32, i32)>
    decreases fuel,
{
    if fuel == 0 {
        path
    } else {
        let cn = linked(s, w, h, curr);
        if cn.len() < 2 {
            path
        } else {
            let next = if cn[0] == prev { cn[1] } else { cn[0] };
            if nodes.contains(next) {
                path.push(next)
            } else {
                run_from(s, w, h, nodes, path.push(next), curr, next, (fuel - 1) as nat)
            }
        }
    }
}

/// Follows the stroke from `start` through `first`, always away from the
/// pixel it came from, until it reaches a node or a pixel with fewer than
/// two neighbours. A walk between nodes visits each pixel at most once, so
/// `fuel` set to the component's size never cuts it short.
fn walk_run(
    s: &[bool],
    lab: &Vec<usize>,
    c: usize,
    w: i32,
    h: i32,
    coords: &Vec<(i32, i32)>,
    start: (i32, i32),
    first: (i32, i32),
    fuel: usize,
) -> (path: Vec<(i32, i32)>)
    requires
        grid_ok(s@, lab@, w, h),
        labels_closed(s@, lab@, w as int, h as int),
        c > 0,
        0 <= start.0 < w && 0 <= start.1 < h,
        lit(s@, w as int, h as int, start.0 as int, start.1 as int),
        0 <= first.0 < w && 0 <= first.1 < h,
        lit(s@, w as int, h as int, first.0 as int, first.1 as int),
        cell(lab@, w as int, first.0 as int, first.1 as int) == c,
        links(s@, w as int, h as int, start.0 as int, start.1 as int, first.0 as int, first.1 as int),
    ensures
        path.len() >= 2,
        path@[0] == start,
        path@[1] == first,
        forall|k: int| 0 <= k < path.len() ==> lit(s@, w as int, h as int, (#[trigger] path@[k]).0 as int, path@[k].1 as int),
        forall|k: int| 0 <= k < path.len() - 1 ==> links(s@, w as int, h as int, (#[trigger] path@[k]).0 as int, path@[k].1 as int, path@[k + 1].0 as int, path@[k + 1].1 as int),
        path@ == run_from(s@, w as int, h as int, coords@, seq![start, first], start, first, fuel as nat),
{
    let ghost wi = w as int;
    let ghost hi = h as int;
    let ghost target = run_from(s@, wi, hi, coords@, seq![start, first], start, first, fuel as nat);
    let mut path: Vec<(i32, i32)> = Vec::new();
    path.push(start);
    path.push(first);
    let mut prev = start;
    let mut curr = first;
    let mut left = fuel;
    assert(path@ == seq![start, first]);
    while left > 0
        invariant_except_break
            curr == path@[path.len() - 1],
            0 <= curr.0 < w && 0 <= curr.1 < h,
            cell(lab@, wi, curr.0 as int, curr.1 as int) == c,
            run_from(s@, wi, hi, coords@, path@, prev, curr, left as nat) == target,
        invariant
            grid_ok(s@, lab@, w, h),
            labels_closed(s@, lab@, wi, hi),
            wi == w as int,
            hi == h as int,
            c > 0,
            path.len() >= 2,
            path@[0] == start,
            path@[1] == first,
            forall|k: int| 0 <= k < path.len() ==> lit(s@, wi, hi, (#[trigger] path@[k]).0 as int, path@[k].1 as int),
            forall|k: int| 0 <= k < path.len() - 1 ==> links(s@, wi, hi, (#[trigger] path@[k]).0 as int, path@[k].1 as int, path@[k + 1].0 as int, path@[k + 1].1 as int),
        ensures
            path@ == target,
        decreases left,
    {
        let cn = component_neighbours(s, lab, c, w, h, curr.0, curr.1);
        if cn.len() < 2 {
            break;
        }
        let next = if cn[0].0 == prev.0 && cn[0].1 == prev.1 { cn[1] } else { cn[0] };
        let ghost before = path@;
        path.push(next);
        proof {
            assert forall|k: int| 0 <= k < path.len() - 1 implies links(s@, wi, hi, (#[trigger] path@[k]).0 as int, path@[k].1 as int, path@[k + 1].0 as int, path@[k + 1].1 as int) by {
                if k < path.len() - 2 {
                    assert(path@[k] == before[k] && path@[k + 1] == before[k + 1]);
                }
            }
            assert forall|k: int| 0 <= k < path.len() implies lit(s@, wi, hi, (#[trigger] path@[k]).0 as int, path@[k].1 as int) by {
                if k < path.len() - 1 {
                    assert(path@[k] == before[k]);
                }
            }
        }
        if find_pixel(coords, next).is_some() {
            break;
        }
        prev = curr;
        curr = next;
        left = left - 1;
    }
    path
}


/// The node pixels of a component: those whose link degree is not two, in
/// row-major order; a component with none (a closed loop) gets its first
/// pixel in row-major order.
fn component_nodes(s: &[bool], lab: &Vec<usize>, c: usize, w: i32, h: i32, comp: &Vec<(i32, i32)>) -> (coords: Vec<(i32, i32)>)
    requires
        component_of(s@, lab@, c, w, h, comp@),
    ensures
        coords.len() > 0,
        forall|i: int, j: int| 0 <= i < j < coords.len() ==> raster_before(#[trigger] coords@[i], #[trigger] coords@[j]),
        forall|i: int| 0 <= i < coords.len() ==> comp@.contains(#[trigger] coords@[i]),
        forall|i: int| 0 <= i < coords.len() ==> link_degree(s@, w as int, h as int, (#[trigger] coords@[i]).0 as int, coords@[i].1 as int) != 2
            || coords.len() == 1,
        forall|k: int| 0 <= k < comp.len() && link_degree(s@, w as int, h as int, (#[trigger] comp@[k]).0 as int, comp@[k].1 as int) != 2
            ==> coords@.contains(comp@[k]),
        coords.len() == 1 && link_degree(s@, w as int, h as int, coords@[0].0 as int, coords@[0].1 as int) == 2 ==> forall|k: int|
            0 <= k < comp.len() ==> #[trigger] comp@[k] == coords@[0] || raster_before(coords@[0], comp@[k]),
{
    let ghost wi = w as int;
    let ghost hi = h as int;
    let mut list: Vec<(i32, i32)> = Vec::new();
    let mut k: usize = 0;
    while k < comp.len()
        invariant
            component_of(s@, lab@, c, w, h, comp@),
            wi == w as int,
            hi == h as int,
            k <= comp.len(),
            forall|i: int| 0 <= i < list.len() ==> exists|j: int| 0 <= j < k && (#[trigger] list@[i]) == comp@[j],
            forall|i: int| 0 <= i < list.len() ==> link_degree(s@, wi, hi, (#[trigger] list@[i]).0 as int, list@[i].1 as int) != 2,
            forall|i: int, j: int| 0 <= i < j < list.len() ==> #[trigger] list@[i] != #[trigger] list@[j],
            forall|j: int| 0 <= j < k && link_degree(s@, wi, hi, (#[trigger] comp@[j]).0 as int, comp@[j].1 as int) != 2
                ==> list@.contains(comp@[j]),
        decreases comp.len() - k,
    {
        let (x, y) = comp[k];
        let nb = component_neighbours(s, lab, c, w, h, x, y);
        let ghost before = list@;
        if nb.len() != 2 {
            list.push((x, y));
            proof {
                assert forall|a: int, b: int| 0 <= a < b < list.len() implies #[trigger] list@[a] != #[trigger] list@[b] by {
                    if b == list.len() - 1 {
                        let j = choose|j: int| 0 <= j < k && before[a] == comp@[j];
                        assert(comp@[j] != comp@[k as int]);
                    } else {
                        assert(before[a] != before[b]);
                    }
                }
            }
        }
        proof {
            assert forall|i: int| 0 <= i < list.len() implies exists|j: int| 0 <= j < k + 1 && (#[trigger] list@[i]) == comp@[j] by {
                if i < before.len() {
                    assert(list@[i] == before[i]);
                    let j = choose|j: int| 0 <= j < k && before[i] == comp@[j];
                } else {
                    assert(list@[i] == comp@[k as int]);
                }
            }
            assert forall|i: int| 0 <= i < list.len() implies link_degree(s@, wi, hi, (#[trigger] list@[i]).0 as int, list@[i].1 as int) != 2 by {
                if i < before.len() {
                    assert(list@[i] == before[i]);
                }
            }
            assert forall|j: int| 0 <= j < k + 1 && link_degree(s@, wi, hi, (#[trigger] comp@[j]).0 as int, comp@[j].1 as int) != 2
                implies list@.contains(comp@[j]) by {
                if j < k {
                    assert(before.contains(comp@[j]));
                    let i = choose|i: int| 0 <= i < before.len() && before[i] == comp@[j];
                    assert(list@[i] == before[i]);
                } else {
                    assert(list@[list.len() - 1] == comp@[j]);
                }
            }
        }
        k = k + 1;
    }
    let ghost found = list.len() > 0;
    if list.len() == 0 {
        let mut best = comp[0];
        let mut k: usize = 1;
        while k < comp.len()
            invariant
                1 <= k <= comp.len(),
                comp@.contains(best),
                forall|j: int| 0 <= j < k ==> #[trigger] comp@[j] == best || raster_before(best, comp@[j]),
            decreases comp.len() - k,
        {
            if raster_before_exec(comp[k], best) {
                best = comp[k];
            }
            k = k + 1;
        }
        list.push(best);
    }
    proof {
        assert forall|i: int| 0 <= i < list.len() implies comp@.contains(#[trigger] list@[i]) by {
            if exists|j: int| 0 <= j < comp.len() && list@[i] == comp@[j] {
                let j = choose|j: int| 0 <= j < comp.len() && list@[i] == comp@[j];
            }
        }
    }
    let coords = sort_raster(&list);
    proof {
        assert forall|i: int| 0 <= i < coords.len() implies comp@.contains(#[trigger] coords@[i]) by {
            assert(coords@.contains(coords@[i]));
            let j = choose|j: int| 0 <= j < list.len() && list@[j] == coords@[i];
            assert(comp@.contains(list@[j]));
        }
        assert forall|i: int| 0 <= i < coords.len() implies link_degree(s@, wi, hi, (#[trigger] coords@[i]).0 as int, coords@[i].1 as int) != 2
            || coords.len() == 1 by {
            assert(coords@.contains(coords@[i]));
            let j = choose|j: int| 0 <= j < list.len() && list@[j] == coords@[i];
        }
        assert forall|k: int| 0 <= k < comp.len() && link_degree(s@, wi, hi, (#[trigger] comp@[k]).0 as int, comp@[k].1 as int) != 2
            implies coords@.contains(comp@[k]) by {
            assert(list@.contains(comp@[k]));
        }
        if coords.len() == 1 && link_degree(s@, wi, hi, coords@[0].0 as int, coords@[0].1 as int) == 2 {
            assert(coords@.contains(coords@[0]));
            let j = choose|j: int| 0 <= j < list.len() && list@[j] == coords@[0];
            if found {
                assert(link_degree(s@, wi, hi, list@[j].0 as int, list@[j].1 as int) != 2);
            }
        }
    }
    coords
}


/// The position of pixel `p` among `nodes`.
pub open spec fn node_index(nodes: Seq<(i32, i32)>, p: (i32, i32)) -> int {
    choose|i: int| 0 <= i < nodes.len() && nodes[i] == p
}

/// The pixels of a graph's nodes, in node order.
pub open spec fn node_pixels(nodes: Seq<GraphNode>) -> Seq<(i32, i32)> {
    nodes.map_values(|n: GraphNode| node_px(n))
}

/// The edge (as `from`, `to`, pixels) that node `from` of `nodes` starts
/// through its linked pixel `nb`, if it is kept: to an adjacent node, kept
/// from the lower-numbered end; otherwise the run through `nb`, kept when it
/// ends at a node numbered higher than `from`, or at `from` itself when it
/// leaves `from` ahead (row-major) of the way it comes back.
pub open spec fn edge_at(s: Seq<bool>, w: int, h: int, nodes: Seq<(i32, i32)>, from: int, nb: (i32, i32), fuel: nat) -> Seq<(int, int, Seq<(i32, i32)>)> {
    let u = nodes[from];
    if nodes.contains(nb) {
        if from < node_index(nodes, nb) {
            seq![(from, node_index(nodes, nb), seq![u, nb])]
        } else {
            Seq::empty()
        }
    } else {
        let path = run_from(s, w, h, nodes, seq![u, nb], u, nb, fuel);
        let end = path[path.len() - 1];
        let to = node_index(nodes, end);
        if nodes.contains(end) && (from < to || (from == to && raster_before(path[1], path[path.len() - 2]))) {
            seq![(from, to, path)]
        } else {
            Seq::empty()
        }
    }
}

/// The edges node `from` starts through its first `j` linked pixels.
pub open spec fn edges_of_node(s: Seq<bool>, w: int, h: int, nodes: Seq<(i32, i32)>, from: int, j: int, fuel: nat) -> Seq<(int, int, Seq<(i32, i32)>)>
    decreases j,
{
    if j <= 0 {
        Seq::empty()
    } else {
        edges_of_node(s, w, h, nodes, from, j - 1, fuel) + edge_at(s, w, h, nodes, from, linked(s, w, h, nodes[from])[j - 1], fuel)
    }
}

/// The edges of a traced graph with node pixels `nodes`, from its first `f`
/// nodes, each node's in the row-major order of its linked pixels.
pub open spec fn traced_edges(s: Seq<bool>, w: int, h: int, nodes: Seq<(i32, i32)>, f: int, fuel: nat) -> Seq<(int, int, Seq<(i32, i32)>)>
    decreases f,
{
    if f <= 0 {
        Seq::empty()
    } else {
        traced_edges(s, w, h, nodes, f - 1, fuel) + edges_of_node(s, w, h, nodes, f - 1, linked(s, w, h, nodes[f - 1]).len() as int, fuel)
    }
}

/// The edges of `g` are exactly the runs traced from its nodes, in order,
/// each run followed for at most `fuel` steps.
pub open spec fn edges_traced(g: &StrokeGraph, s: Seq<bool>, w: int, h: int, fuel: nat) -> bool {
    let t = traced_edges(s, w, h, node_pixels(g.nodes@), g.nodes@.len() as int, fuel);
    &&& g.edges@.len() == t.len()
    &&& forall|e: int| 0 <= e < t.len() ==> #[trigger] edge_view(g.edges@[e]) == t[e]
}

/// Among distinct pixels, the found position is the one `node_index` names.
proof fn lemma_node_index(nodes: Seq<(i32, i32)>, i: int)
    requires
        0 <= i < nodes.len(),
        forall|a: int, b: int| 0 <= a < b < nodes.len() ==> raster_before(#[trigger] nodes[a], #[trigger] nodes[b]),
    ensures
        node_index(nodes, nodes[i]) == i,
{
    let j = node_index(nodes, nodes[i]);
    assert(0 <= i < nodes.len() && nodes[i] == nodes[i]);
    if j < i {
        assert(raster_before(nodes[j], nodes[i]));
    } else if i < j {
        assert(raster_before(nodes[i], nodes[j]));
    }
}

/// The stroke graph of one component: its nodes, and for each node and each
/// neighbour in row-major order, the run to the next node (kept once, from
/// the lower-numbered node; a loop back to the same node is kept in the
/// direction that leaves it first in row-major order).
fn build_component_graph(s: &[bool], lab: &Vec<usize>, c: usize, w: i32, h: i32, comp: &Vec<(i32, i32)>) -> (g: StrokeGraph)
    requires
        component_of(s@, lab@, c, w, h, comp@),
    ensures
        graph_traced(&g, s@, w as int, h as int),
        forall|i: int| 0 <= i < g.nodes.len() ==> cell(lab@, w as int, (#[trigger] g.nodes@[i]).x as int, g.nodes@[i].y as int) == c,
        forall|x: int, y: int|
            0 <= x < w && 0 <= y < h && #[trigger] cell(lab@, w as int, x, y) == c && link_degree(s@, w as int, h as int, x, y) != 2
                ==> exists|i: int| 0 <= i < g.nodes.len() && node_px(#[trigger] g.nodes@[i]) == (x as i32, y as i32),
        edges_traced(&g, s@, w as int, h as int, ((w as int) * (h as int)) as nat),
        g.nodes.len() == 1 && link_degree(s@, w as int, h as int, g.nodes@[0].x as int, g.nodes@[0].y as int) == 2 ==> forall|k: int|
            0 <= k < comp.len() ==> #[trigger] comp@[k] == node_px(g.nodes@[0]) || raster_before(node_px(g.nodes@[0]), comp@[k]),
{
    let ghost wi = w as int;
    let ghost hi = h as int;
    let n = (w * h) as usize;
    let ghost fuel = n as nat;
    let coords = component_nodes(s, lab, c, w, h, comp);
    let mut nodes: Vec<GraphNode> = Vec::new();
    let mut i: usize = 0;
    while i < coords.len()
        invariant
            i <= coords.len(),
            nodes.len() == i,
            forall|k: int| 0 <= k < i ==> node_px(#[trigger] nodes@[k]) == coords@[k],
        decreases coords.len() - i,
    {
        nodes.push(GraphNode { x: coords[i].0, y: coords[i].1 });
        i = i + 1;
    }
    let mut edges: Vec<GraphEdge> = Vec::new();
    let mut from: usize = 0;
    while from < coords.len()
        invariant
            component_of(s@, lab@, c, w, h, comp@),
            wi == w as int,
            hi == h as int,
            nodes.len() == coords.len(),
            forall|k: int| 0 <= k < coords.len() ==> node_px(#[trigger] nodes@[k]) == coords@[k],
            forall|k: int| 0 <= k < coords.len() ==> comp@.contains(#[trigger] coords@[k]),
            from <= coords.len(),
            forall|e: int| 0 <= e < edges.len() ==> edge_ok(#[trigger] edges@[e], nodes@, s@, wi, hi),
            forall|a: int, b: int| 0 <= a < b < coords.len() ==> raster_before(#[trigger] coords@[a], #[trigger] coords@[b]),
            n == wi * hi,
            fuel == n as nat,
            edges@.len() == traced_edges(s@, wi, hi, coords@, from as int, fuel).len(),
            forall|e: int| 0 <= e < edges@.len() ==> #[trigger] edge_view(edges@[e]) == traced_edges(s@, wi, hi, coords@, from as int, fuel)[e],
        decreases coords.len() - from,
    {
        let (sx, sy) = coords[from];
        proof {
            assert(comp@.contains(coords@[from as int]));
            let k = choose|k: int| 0 <= k < comp.len() && comp@[k] == coords@[from as int];
            assert(0 <= comp@[k].0 < w);
        }
        let nbrs = component_neighbours(s, lab, c, w, h, sx, sy);
        let mut j: usize = 0;
        while j < nbrs.len()
            invariant
                component_of(s@, lab@, c, w, h, comp@),
                wi == w as int,
                hi == h as int,
                nodes.len() == coords.len(),
                forall|k: int| 0 <= k < coords.len() ==> node_px(#[trigger] nodes@[k]) == coords@[k],
                from < coords.len(),
                coords@[from as int] == (sx, sy),
                0 <= sx < w && 0 <= sy < h,
                lit(s@, wi, hi, sx as int, sy as int),
                forall|q: int| 0 <= q < nbrs.len() ==> links(s@, wi, hi, sx as int, sy as int, (#[trigger] nbrs@[q]).0 as int, nbrs@[q].1 as int)
                    && 0 <= nbrs@[q].0 < w && 0 <= nbrs@[q].1 < h
                    && cell(lab@, wi, nbrs@[q].0 as int, nbrs@[q].1 as int) == c,
                j <= nbrs.len(),
                forall|e: int| 0 <= e < edges.len() ==> edge_ok(#[trigger] edges@[e], nodes@, s@, wi, hi),
                forall|a: int, b: int| 0 <= a < b < coords.len() ==> raster_before(#[trigger] coords@[a], #[trigger] coords@[b]),
                nbrs@ == linked(s@, wi, hi, coords@[from as int]),
                n == wi * hi,
                fuel == n as nat,
                edges@.len() == (traced_edges(s@, wi, hi, coords@, from as int, fuel) + edges_of_node(s@, wi, hi, coords@, from as int, j as int, fuel)).len(),
                forall|e: int| 0 <= e < edges@.len() ==> #[trigger] edge_view(edges@[e]) == (traced_edges(s@, wi, hi, coords@, from as int, fuel) + edges_of_node(s@, wi, hi, coords@, from as int, j as int, fuel))[e],
            decreases nbrs.len() - j,
        {
            let nb = nbrs[j];
            let ghost pre = traced_edges(s@, wi, hi, coords@, from as int, fuel) + edges_of_node(s@, wi, hi, coords@, from as int, j as int, fuel);
            let ghost step = edge_at(s@, wi, hi, coords@, from as int, nb, fuel);
            assert(edges_of_node(s@, wi, hi, coords@, from as int, j + 1, fuel) == edges_of_node(s@, wi, hi, coords@, from as int, j as int, fuel) + step);
            assert(links(s@, wi, hi, sx as int, sy as int, nbrs@[j as int].0 as int, nbrs@[j as int].1 as int));
            let ghost before = edges@;
            match find_pixel(&coords, nb) {
                Some(to) => {
                    proof {
                        lemma_node_index(coords@, to as int);
                    }
                    if from < to {
                        let mut px: Vec<(i32, i32)> = Vec::new();
                        px.push((sx, sy));
                        px.push(nb);
                        let ed = GraphEdge { from, to, pixels: px };
                        proof {
                            assert(edge_ok(ed, nodes@, s@, wi, hi));
                        }
                        edges.push(ed);
                    }
                },
                None => {
                    let path = walk_run(s, lab, c, w, h, &coords, (sx, sy), nb, n);
                    let end = path[path.len() - 1];
                    let first_step = path[1];
                    let last_step = path[path.len() - 2];
                    match find_pixel(&coords, end) {
                        Some(to) => {
                            proof {
                                lemma_node_index(coords@, to as int);
                            }
                            let keep = if from < to {
                                true
                            } else if from == to {
                                raster_before_exec(first_step, last_step)
                            } else {
                                false
                            };
                            if keep {
                                let ed = GraphEdge { from, to, pixels: path };
                                proof {
                                    assert(edge_ok(ed, nodes@, s@, wi, hi));
                                }
                                edges.push(ed);
                            }
                        },
                        None => {},
                    }
                },
            }
            proof {
                assert forall|e: int| 0 <= e < edges.len() implies edge_ok(#[trigger] edges@[e], nodes@, s@, wi, hi) by {
                    if e < before.len() {
                        assert(edges@[e] == before[e]);
                    }
                }
                assert(edges@.len() == (pre + step).len());
                assert forall|e: int| 0 <= e < edges@.len() implies #[trigger] edge_view(edges@[e]) == (pre + step)[e] by {
                    if e < before.len() {
                        assert(edges@[e] == before[e]);
                    }
                }
            }
            j = j + 1;
        }
        proof {
            assert(traced_edges(s@, wi, hi, coords@, from + 1, fuel) == traced_edges(s@, wi, hi, coords@, from as int, fuel)
                + edges_of_node(s@, wi, hi, coords@, from as int, nbrs.len() as int, fuel));
        }
        from = from + 1;
    }
    let g = StrokeGraph { nodes, edges };
    proof {
        assert(node_pixels(g.nodes@) =~= coords@);
        assert(node_px(g.nodes@[0]) == coords@[0]);
        assert(fuel == ((w as int) * (h as int)) as nat);
    }
    proof {
        assert forall|i: int| 0 <= i < g.nodes.len() implies lit(s@, wi, hi, (#[trigger] g.nodes@[i]).x as int, g.nodes@[i].y as int)
            && cell(lab@, wi, g.nodes@[i].x as int, g.nodes@[i].y as int) == c by {
            assert(node_px(g.nodes@[i]) == coords@[i]);
            assert(comp@.contains(coords@[i]));
            let k = choose|k: int| 0 <= k < comp.len() && comp@[k] == coords@[i];
        }
        assert forall|i: int, j: int| 0 <= i < j < g.nodes.len() implies raster_before(node_px(#[trigger] g.nodes@[i]), node_px(#[trigger] g.nodes@[j])) by {
            assert(node_px(g.nodes@[i]) == coords@[i]);
            assert(node_px(g.nodes@[j]) == coords@[j]);
        }
        assert forall|i: int| 0 <= i < g.nodes.len() implies link_degree(s@, wi, hi, (#[trigger] g.nodes@[i]).x as int, g.nodes@[i].y as int) != 2
            || g.nodes.len() == 1 by {
            assert(node_px(g.nodes@[i]) == coords@[i]);
        }
        assert forall|x: int, y: int|
            0 <= x < w && 0 <= y < h && #[trigger] cell(lab@, wi, x, y) == c && link_degree(s@, wi, hi, x, y) != 2
                implies exists|i: int| 0 <= i < g.nodes.len() && node_px(#[trigger] g.nodes@[i]) == (x as i32, y as i32) by {
            assert(comp@.contains((x as i32, y as i32)));
            let k = choose|k: int| 0 <= k < comp.len() && comp@[k] == (x as i32, y as i32);
            assert(coords@.contains(comp@[k]));
            let i = choose|i: int| 0 <= i < coords.len() && coords@[i] == comp@[k];
            assert(node_px(g.nodes@[i]) == coords@[i]);
        }
    }
    g
}


/// Pixel `(a, b)` comes before pixel `(c, d)` in row-major order.
pub open spec fn before(a: int, b: int, c: int, d: int) -> bool {
    b < d || (b == d && a < c)
}

/// What the row-major labelling scan keeps of the graphs it has built, up
/// to scan position `(px, py)`: one seed per graph, its component's first
/// pixel, carrying the graph's label, reaching every pixel of that label and
/// found in scan order; every node labelled with its graph; and a lone inner
/// node sitting on its seed.
#[verifier::opaque]
pub open spec fn seeds_ok(s: Seq<bool>, lab: Seq<usize>, w: int, h: int, graphs: Seq<StrokeGraph>, seeds: Seq<(int, int)>, px: int, py: int) -> bool {
    &&& seeds.len() == graphs.len()
    &&& forall|g: int| 0 <= g < seeds.len() ==> lit(s, w, h, (#[trigger] seeds[g]).0, seeds[g].1) && cell(lab, w, seeds[g].0, seeds[g].1) == g + 1
    &&& forall|g: int, a: int, b: int|
        #![trigger seeds[g], cell(lab, w, a, b)]
        0 <= g < seeds.len() && 0 <= a < w && 0 <= b < h && cell(lab, w, a, b) == g + 1 ==> connected(s, w, h, seeds[g].0, seeds[g].1, a, b)
    &&& forall|g: int, a: int, b: int|
        #![trigger seeds[g], lit(s, w, h, a, b)]
        0 <= g < seeds.len() && lit(s, w, h, a, b) && before(a, b, seeds[g].0, seeds[g].1) ==> cell(lab, w, a, b) != g + 1
    &&& forall|g1: int, g2: int| #![trigger seeds[g1], seeds[g2]] 0 <= g1 < g2 < seeds.len() ==> before(seeds[g1].0, seeds[g1].1, seeds[g2].0, seeds[g2].1)
    &&& forall|g: int| 0 <= g < seeds.len() ==> before((#[trigger] seeds[g]).0, seeds[g].1, px, py)
    &&& forall|g: int, i: int| 0 <= g < graphs.len() && 0 <= i < graphs[g].nodes.len()
        ==> cell(lab, w, (#[trigger] graphs[g].nodes@[i]).x as int, graphs[g].nodes@[i].y as int) == g + 1
    &&& forall|g: int| 0 <= g < graphs.len() && (#[trigger] graphs[g]).nodes.len() == 1
        && link_degree(s, w, h, graphs[g].nodes@[0].x as int, graphs[g].nodes@[0].y as int) == 2
        ==> graphs[g].nodes@[0].x == seeds[g].0 && graphs[g].nodes@[0].y == seeds[g].1
}

proof fn lemma_seeds_empty(s: Seq<bool>, lab: Seq<usize>, w: int, h: int, px: int, py: int)
    ensures
        seeds_ok(s, lab, w, h, Seq::empty(), Seq::empty(), px, py),
{
    reveal(seeds_ok);
}

/// Passing a pixel that starts no new graph.
proof fn lemma_seeds_advance(s: Seq<bool>, lab: Seq<usize>, w: int, h: int, graphs: Seq<StrokeGraph>, seeds: Seq<(int, int)>, px: int, py: int)
    requires
        seeds_ok(s, lab, w, h, graphs, seeds, px, py),
    ensures
        seeds_ok(s, lab, w, h, graphs, seeds, px + 1, py),
{
    reveal(seeds_ok);
}

/// Moving on to the next row.
proof fn lemma_seeds_row(s: Seq<bool>, lab: Seq<usize>, w: int, h: int, graphs: Seq<StrokeGraph>, seeds: Seq<(int, int)>, py: int)
    requires
        seeds_ok(s, lab, w, h, graphs, seeds, w, py),
    ensures
        seeds_ok(s, lab, w, h, graphs, seeds, 0, py + 1),
{
    reveal(seeds_ok);
}

/// A new graph, traced from the component flooded from `(x, y)`, keeps the
/// scan's facts.
proof fn lemma_seeds_push(
    s: Seq<bool>,
    lab0: Seq<usize>,
    lab: Seq<usize>,
    w: int,
    h: int,
    graphs: Seq<StrokeGraph>,
    g: StrokeGraph,
    seeds: Seq<(int, int)>,
    x: int,
    y: int,
    comp: Seq<(i32, i32)>,
)
    requires
        seeds_ok(s, lab0, w, h, graphs, seeds, x, y),
        0 < w <= i32::MAX,
        0 < h <= i32::MAX,
        forall|k: int| 0 <= k < graphs.len() ==> graph_traced(#[trigger] &graphs[k], s, w, h),
        lab0.len() == w * h,
        lab.len() == w * h,
        0 <= x < w,
        0 <= y < h,
        comp.len() > 0,
        comp[0] == (x as i32, y as i32),
        forall|k: int| 0 <= k < comp.len() ==> connected(s, w, h, x, y, (#[trigger] comp[k]).0 as int, comp[k].1 as int),
        forall|k: int| 0 <= k < comp.len() ==> lit(s, w, h, (#[trigger] comp[k]).0 as int, comp[k].1 as int)
            && cell(lab, w, comp[k].0 as int, comp[k].1 as int) == graphs.len() + 1,
        forall|i: int| 0 <= i < lab.len() ==> #[trigger] lab[i] == lab0[i] || (lab0[i] == 0 && lab[i] == graphs.len() + 1),
        forall|a: int, b: int| 0 <= a < w && 0 <= b < h && #[trigger] cell(lab, w, a, b) == graphs.len() + 1 ==> comp.contains((a as i32, b as i32)),
        forall|a: int, b: int| 0 <= a < w && 0 <= b < h && before(a, b, x, y) && #[trigger] lit(s, w, h, a, b) ==> cell(lab0, w, a, b) != 0,
        forall|i: int| 0 <= i < lab0.len() ==> #[trigger] lab0[i] <= graphs.len(),
        graph_traced(&g, s, w, h),
        forall|i: int| 0 <= i < g.nodes.len() ==> cell(lab, w, (#[trigger] g.nodes@[i]).x as int, g.nodes@[i].y as int) == graphs.len() + 1,
        g.nodes.len() == 1 && link_degree(s, w, h, g.nodes@[0].x as int, g.nodes@[0].y as int) == 2 ==> forall|k: int|
            0 <= k < comp.len() ==> #[trigger] comp[k] == node_px(g.nodes@[0]) || raster_before(node_px(g.nodes@[0]), comp[k]),
    ensures
        seeds_ok(s, lab, w, h, graphs.push(g), seeds.push((x, y)), x + 1, y),
{
    reveal(seeds_ok);
    let c = graphs.len() + 1;
    let gs = graphs.push(g);
    let ss = seeds.push((x, y));
    assert(lit(s, w, h, x, y) && cell(lab, w, x, y) == c) by {
        assert(comp[0] == (x as i32, y as i32));
    }
    assert forall|k: int| 0 <= k < ss.len() implies lit(s, w, h, (#[trigger] ss[k]).0, ss[k].1) && cell(lab, w, ss[k].0, ss[k].1) == k + 1 by {
        if k < seeds.len() {
            assert(ss[k] == seeds[k]);
            lemma_index_in(w, h, ss[k].0, ss[k].1);
            assert(cell(lab0, w, ss[k].0, ss[k].1) == k + 1);
        }
    }
    assert forall|k: int, a: int, b: int|
        #![trigger ss[k], cell(lab, w, a, b)]
        0 <= k < ss.len() && 0 <= a < w && 0 <= b < h && cell(lab, w, a, b) == k + 1 implies connected(s, w, h, ss[k].0, ss[k].1, a, b) by {
        lemma_index_in(w, h, a, b);
        if k < seeds.len() {
            assert(ss[k] == seeds[k]);
            assert(cell(lab0, w, a, b) == k + 1);
            let _ = seeds[k];
        } else {
            assert(comp.contains((a as i32, b as i32)));
            let j = choose|j: int| 0 <= j < comp.len() && comp[j] == (a as i32, b as i32);
            assert(connected(s, w, h, x, y, comp[j].0 as int, comp[j].1 as int));
        }
    }
    assert forall|k: int, a: int, b: int|
        #![trigger ss[k], lit(s, w, h, a, b)]
        0 <= k < ss.len() && lit(s, w, h, a, b) && before(a, b, ss[k].0, ss[k].1) implies cell(lab, w, a, b) != k + 1 by {
        lemma_index_in(w, h, a, b);
        if k < seeds.len() {
            assert(ss[k] == seeds[k]);
            let _ = seeds[k];
            assert(cell(lab0, w, a, b) != k + 1);
        } else {
            assert(cell(lab0, w, a, b) != 0);
            assert(lab0[b * w + a] <= graphs.len());
        }
    }
    assert forall|k1: int, k2: int| #![trigger ss[k1], ss[k2]] 0 <= k1 < k2 < ss.len() implies before(ss[k1].0, ss[k1].1, ss[k2].0, ss[k2].1) by {
        assert(ss[k1] == seeds[k1]);
        let _ = seeds[k1];
        if k2 < seeds.len() {
            assert(ss[k2] == seeds[k2]);
        }
    }
    assert forall|k: int| 0 <= k < ss.len() implies before((#[trigger] ss[k]).0, ss[k].1, x + 1, y) by {
        if k < seeds.len() {
            assert(ss[k] == seeds[k]);
            let _ = seeds[k];
        }
    }
    assert forall|k: int, i: int| 0 <= k < gs.len() && 0 <= i < gs[k].nodes.len()
        implies cell(lab, w, (#[trigger] gs[k].nodes@[i]).x as int, gs[k].nodes@[i].y as int) == k + 1 by {
        if k < graphs.len() {
            assert(gs[k] == graphs[k]);
            let nd = graphs[k].nodes@[i];
            assert(cell(lab0, w, nd.x as int, nd.y as int) == k + 1);
            assert(graph_traced(&graphs[k], s, w, h));
            assert(lit(s, w, h, nd.x as int, nd.y as int));
            lemma_index_in(w, h, nd.x as int, nd.y as int);
        }
    }
    assert forall|k: int| 0 <= k < gs.len() && (#[trigger] gs[k]).nodes.len() == 1
        && link_degree(s, w, h, gs[k].nodes@[0].x as int, gs[k].nodes@[0].y as int) == 2
        implies gs[k].nodes@[0].x == ss[k].0 && gs[k].nodes@[0].y == ss[k].1 by {
        if k < graphs.len() {
            assert(gs[k] == graphs[k]);
            assert(ss[k] == seeds[k]);
        } else {
            assert(gs[k] == g);
            let nd = g.nodes@[0];
            assert(comp[0] == node_px(nd) || raster_before(node_px(nd), comp[0]));
            if raster_before(node_px(nd), comp[0]) {
                assert(lit(s, w, h, nd.x as int, nd.y as int));
                lemma_index_in(w, h, nd.x as int, nd.y as int);
                assert(cell(lab0, w, nd.x as int, nd.y as int) != 0);
                assert(lab0[nd.y * w + nd.x] <= graphs.len());
                assert(cell(lab, w, nd.x as int, nd.y as int) == c);
            }
        }
    }
}

/// The component of `g` has a first pixel.
pub open spec fn has_first_pixel(g: &StrokeGraph, s: Seq<bool>, w: int, h: int) -> bool {
    exists|a: int, b: int| #[trigger] component_first(g, s, w, h, a, b)
}

/// A component has one first pixel.
proof fn lemma_first_unique(g: &StrokeGraph, s: Seq<bool>, w: int, h: int, a: int, b: int, c: int, d: int)
    requires
        component_first(g, s, w, h, a, b),
        component_first(g, s, w, h, c, d),
    ensures
        a == c && b == d,
{
    if before(a, b, c, d) {
        assert(!in_component(g, s, w, h, a, b));
    } else if before(c, d, a, b) {
        assert(!in_component(g, s, w, h, c, d));
    }
}

/// What the labelling scan leaves behind makes each graph exactly one
/// component, every component some graph, the graphs in the order of their
/// components' first pixels, and a lone inner node its component's first
/// pixel.
proof fn lemma_graphs_are_components(
    s: Seq<bool>,
    lab: Seq<usize>,
    w: int,
    h: int,
    graphs: Seq<StrokeGraph>,
    seeds: Seq<(int, int)>,
)
    requires
        w > 0,
        h > 0,
        lab.len() == w * h,
        labels_closed(s, lab, w, h),
        seeds_ok(s, lab, w, h, graphs, seeds, 0, h),
        forall|g: int| 0 <= g < graphs.len() ==> graph_traced(#[trigger] &graphs[g], s, w, h),
        forall|a: int, b: int| #[trigger] lit(s, w, h, a, b) ==> cell(lab, w, a, b) != 0,
        forall|i: int| 0 <= i < lab.len() ==> #[trigger] lab[i] <= graphs.len(),
    ensures
        forall|g: int, i: int, j: int|
            #![trigger graphs[g].nodes@[i], graphs[g].nodes@[j]]
            0 <= g < graphs.len() && 0 <= i < graphs[g].nodes.len() && 0 <= j < graphs[g].nodes.len() ==> connected(
                s, w, h, graphs[g].nodes@[i].x as int, graphs[g].nodes@[i].y as int, graphs[g].nodes@[j].x as int, graphs[g].nodes@[j].y as int),
        forall|g1: int, g2: int, a: int, b: int|
            0 <= g1 < g2 < graphs.len() ==> !(#[trigger] in_component(&graphs[g1], s, w, h, a, b) && #[trigger] in_component(&graphs[g2], s, w, h, a, b)),
        forall|a: int, b: int| #[trigger] lit(s, w, h, a, b) ==> exists|g: int| 0 <= g < graphs.len() && #[trigger] in_component(&graphs[g], s, w, h, a, b),
        seeds.len() == graphs.len(),
        forall|g: int| 0 <= g < graphs.len() ==> #[trigger] component_first(&graphs[g], s, w, h, seeds[g].0, seeds[g].1),
        forall|g: int| 0 <= g < graphs.len() ==> #[trigger] has_first_pixel(&graphs[g], s, w, h),
        forall|g1: int, g2: int, a1: int, b1: int, a2: int, b2: int|
            0 <= g1 < g2 < graphs.len() && #[trigger] component_first(&graphs[g1], s, w, h, a1, b1)
                && #[trigger] component_first(&graphs[g2], s, w, h, a2, b2) ==> before(a1, b1, a2, b2),
        forall|g: int| 0 <= g < graphs.len() && (#[trigger] graphs[g]).nodes.len() == 1
            && link_degree(s, w, h, graphs[g].nodes@[0].x as int, graphs[g].nodes@[0].y as int) == 2
            ==> component_first(&graphs[g], s, w, h, graphs[g].nodes@[0].x as int, graphs[g].nodes@[0].y as int),
{
    reveal(seeds_ok);
    // Every node reaches its graph's seed, and back.
    assert forall|g: int, i: int| 0 <= g < graphs.len() && 0 <= i < graphs[g].nodes.len() implies connected(
        s, w, h, (#[trigger] graphs[g].nodes@[i]).x as int, graphs[g].nodes@[i].y as int, seeds[g].0, seeds[g].1)
        && connected(s, w, h, seeds[g].0, seeds[g].1, graphs[g].nodes@[i].x as int, graphs[g].nodes@[i].y as int) by {
        assert(graph_traced(&graphs[g], s, w, h));
        let nd = graphs[g].nodes@[i];
        assert(lit(s, w, h, nd.x as int, nd.y as int));
        assert(cell(lab, w, nd.x as int, nd.y as int) == g + 1);
        let _ = seeds[g];
        assert(connected(s, w, h, seeds[g].0, seeds[g].1, nd.x as int, nd.y as int));
        lemma_connected_back(s, w, h, seeds[g].0, seeds[g].1, nd.x as int, nd.y as int);
    }
    // A pixel in a graph's component carries that graph's label.
    assert forall|g: int, a: int, b: int| 0 <= g < graphs.len() && #[trigger] in_component(&graphs[g], s, w, h, a, b) implies lit(s, w, h, a, b)
        && cell(lab, w, a, b) == g + 1 by {
        let i = choose|i: int| 0 <= i < graphs[g].nodes@.len() && #[trigger] connected(s, w, h, graphs[g].nodes@[i].x as int, graphs[g].nodes@[i].y as int, a, b);
        let nd = graphs[g].nodes@[i];
        assert(cell(lab, w, nd.x as int, nd.y as int) == g + 1);
        lemma_connected_label(s, lab, w, h, nd.x as int, nd.y as int, a, b);
    }
    assert forall|g: int, i: int, j: int|
        #![trigger graphs[g].nodes@[i], graphs[g].nodes@[j]]
        0 <= g < graphs.len() && 0 <= i < graphs[g].nodes.len() && 0 <= j < graphs[g].nodes.len() implies connected(
            s, w, h, graphs[g].nodes@[i].x as int, graphs[g].nodes@[i].y as int, graphs[g].nodes@[j].x as int, graphs[g].nodes@[j].y as int) by {
        lemma_connected_join(s, w, h, graphs[g].nodes@[i].x as int, graphs[g].nodes@[i].y as int, seeds[g].0, seeds[g].1,
            graphs[g].nodes@[j].x as int, graphs[g].nodes@[j].y as int);
    }
    assert forall|a: int, b: int| #[trigger] lit(s, w, h, a, b) implies exists|g: int| 0 <= g < graphs.len() && #[trigger] in_component(&graphs[g], s, w, h, a, b) by {
        lemma_index_in(w, h, a, b);
        let g = cell(lab, w, a, b) - 1;
        assert(lab[b * w + a] <= graphs.len());
        assert(0 <= g < graphs.len());
        let _ = seeds[g];
        assert(connected(s, w, h, seeds[g].0, seeds[g].1, a, b));
        assert(graph_traced(&graphs[g], s, w, h));
        let nd = graphs[g].nodes@[0];
        assert(connected(s, w, h, nd.x as int, nd.y as int, seeds[g].0, seeds[g].1));
        lemma_connected_join(s, w, h, nd.x as int, nd.y as int, seeds[g].0, seeds[g].1, a, b);
        assert(in_component(&graphs[g], s, w, h, a, b));
    }
    assert forall|g: int| 0 <= g < graphs.len() implies #[trigger] component_first(&graphs[g], s, w, h, seeds[g].0, seeds[g].1) by {
        assert(graph_traced(&graphs[g], s, w, h));
        let nd = graphs[g].nodes@[0];
        assert(connected(s, w, h, nd.x as int, nd.y as int, seeds[g].0, seeds[g].1));
        assert(in_component(&graphs[g], s, w, h, seeds[g].0, seeds[g].1));
        assert forall|p: int, q: int| (q < seeds[g].1 || (q == seeds[g].1 && p < seeds[g].0)) implies !#[trigger] in_component(&graphs[g], s, w, h, p, q) by {
            if in_component(&graphs[g], s, w, h, p, q) {
                assert(lit(s, w, h, p, q) && cell(lab, w, p, q) == g + 1);
                assert(before(p, q, seeds[g].0, seeds[g].1));
            }
        }
    }
    assert forall|g: int| 0 <= g < graphs.len() implies #[trigger] has_first_pixel(&graphs[g], s, w, h) by {
        assert(component_first(&graphs[g], s, w, h, seeds[g].0, seeds[g].1));
    }
    assert forall|g1: int, g2: int, a1: int, b1: int, a2: int, b2: int|
        0 <= g1 < g2 < graphs.len() && #[trigger] component_first(&graphs[g1], s, w, h, a1, b1)
            && #[trigger] component_first(&graphs[g2], s, w, h, a2, b2) implies before(a1, b1, a2, b2) by {
        assert(component_first(&graphs[g1], s, w, h, seeds[g1].0, seeds[g1].1));
        assert(component_first(&graphs[g2], s, w, h, seeds[g2].0, seeds[g2].1));
        lemma_first_unique(&graphs[g1], s, w, h, a1, b1, seeds[g1].0, seeds[g1].1);
        lemma_first_unique(&graphs[g2], s, w, h, a2, b2, seeds[g2].0, seeds[g2].1);
    }
    assert forall|g: int| 0 <= g < graphs.len() && (#[trigger] graphs[g]).nodes.len() == 1
        && link_degree(s, w, h, graphs[g].nodes@[0].x as int, graphs[g].nodes@[0].y as int) == 2
        implies component_first(&graphs[g], s, w, h, graphs[g].nodes@[0].x as int, graphs[g].nodes@[0].y as int) by {
        assert(component_first(&graphs[g], s, w, h, seeds[g].0, seeds[g].1));
    }
}

/// Builds one stroke graph per connected component of skeleton pixels,
/// components taken in row-major order of their first pixel. A node is a
/// skeleton pixel whose link degree is not two; a component made only of
/// such inner pixels (a closed loop) gets its first pixel as its one node.
#[verifier::spinoff_prover]
#[verifier::rlimit(40)]
pub fn build_stroke_graphs(skeleton: &[bool], width: u32, height: u32) -> (graphs: Vec<StrokeGraph>)
    requires
        (width as int) * (height as int) <= i32::MAX,
        skeleton@.len() >= (width as int) * (height as int),
    ensures
        forall|g: int| 0 <= g < graphs.len() ==> graph_traced(#[trigger] &graphs@[g], skeleton@, width as int, height as int),
        forall|g: int| 0 <= g < graphs.len() ==> edges_traced(
            #[trigger] &graphs@[g],
            skeleton@,
            width as int,
            height as int,
            ((width as int) * (height as int)) as nat,
        ),
        forall|x: int, y: int|
            #[trigger] lit(skeleton@, width as int, height as int, x, y) && link_degree(skeleton@, width as int, height as int, x, y) != 2
                ==> exists|g: int, i: int| 0 <= g < graphs.len() && 0 <= i < graphs@[g].nodes.len()
                    && node_px(#[trigger] graphs@[g].nodes@[i]) == (x as i32, y as i32),
        forall|g1: int, g2: int, i: int, j: int|
            0 <= g1 < graphs.len() && 0 <= g2 < graphs.len() && g1 != g2 && 0 <= i < graphs@[g1].nodes.len()
                && 0 <= j < graphs@[g2].nodes.len() ==> node_px(#[trigger] graphs@[g1].nodes@[i]) != node_px(
                #[trigger] graphs@[g2].nodes@[j],
            ),
        graphs.len() == 0 <==> forall|x: int, y: int| !#[trigger] lit(skeleton@, width as int, height as int, x, y),
        forall|g: int, i: int, j: int|
            #![trigger graphs@[g].nodes@[i], graphs@[g].nodes@[j]]
            0 <= g < graphs.len() && 0 <= i < graphs@[g].nodes.len() && 0 <= j < graphs@[g].nodes.len() ==> connected(
                skeleton@,
                width as int,
                height as int,
                graphs@[g].nodes@[i].x as int,
                graphs@[g].nodes@[i].y as int,
                graphs@[g].nodes@[j].x as int,
                graphs@[g].nodes@[j].y as int,
            ),
        forall|g1: int, g2: int, a: int, b: int|
            0 <= g1 < g2 < graphs.len() ==> !(#[trigger] in_component(&graphs@[g1], skeleton@, width as int, height as int, a, b)
                && #[trigger] in_component(&graphs@[g2], skeleton@, width as int, height as int, a, b)),
        forall|a: int, b: int|
            #[trigger] lit(skeleton@, width as int, height as int, a, b) ==> exists|g: int|
                0 <= g < graphs.len() && #[trigger] in_component(&graphs@[g], skeleton@, width as int, height as int, a, b),
        forall|g: int| 0 <= g < graphs.len() ==> #[trigger] has_first_pixel(&graphs@[g], skeleton@, width as int, height as int),
        forall|g1: int, g2: int, a1: int, b1: int, a2: int, b2: int|
            0 <= g1 < g2 < graphs.len() && #[trigger] component_first(&graphs@[g1], skeleton@, width as int, height as int, a1, b1)
                && #[trigger] component_first(&graphs@[g2], skeleton@, width as int, height as int, a2, b2) ==> before(a1, b1, a2, b2),
        forall|g: int|
            0 <= g < graphs.len() && (#[trigger] graphs@[g]).nodes.len() == 1 && link_degree(
                skeleton@,
                width as int,
                height as int,
                graphs@[g].nodes@[0].x as int,
                graphs@[g].nodes@[0].y as int,
            ) == 2 ==> component_first(&graphs@[g], skeleton@, width as int, height as int, graphs@[g].nodes@[0].x as int, graphs@[g].nodes@[0].y as int),
{
    let mut graphs: Vec<StrokeGraph> = Vec::new();
    if width == 0 || height == 0 {
        return graphs;
    }
    proof {
        assert(width <= i32::MAX && height <= i32::MAX) by (nonlinear_arith)
            requires (width as int) * (height as int) <= i32::MAX, width >= 1, height >= 1;
    }
    let w = width as i32;
    let h = height as i32;
    let ghost wi = w as int;
    let ghost hi = h as int;
    let n = (w * h) as usize;
    let mut lab: Vec<usize> = Vec::new();
    let mut k: usize = 0;
    while k < n
        invariant
            k <= n,
            lab.len() == k,
            forall|i: int| 0 <= i < k ==> #[trigger] lab@[i] == 0,
        decreases n - k,
    {
        lab.push(0);
        k = k + 1;
    }
    proof {
        assert forall|px: int, py: int| 0 <= px < w && 0 <= py < h implies #[trigger] cell(lab@, wi, px, py) == 0 by {
            lemma_index_in(wi, hi, px, py);
        }
        lemma_count_bounds(|t: int| lab@[t] != 0, 0, lab.len() as int);
    }
    let ghost mut seeds: Seq<(int, int)> = Seq::empty();
    proof {
        assert(graphs@ =~= Seq::<StrokeGraph>::empty());
        lemma_seeds_empty(skeleton@, lab@, wi, hi, 0, 0);
    }
    let mut y: i32 = 0;
    while y < h
        invariant
            grid_ok(skeleton@, lab@, w, h),
            wi == w as int,
            hi == h as int,
            wi == width as int,
            hi == height as int,
            0 <= y <= h,
            seeds_ok(skeleton@, lab@, wi, hi, graphs@, seeds, 0, y as int),
            labels_closed(skeleton@, lab@, wi, hi),
            forall|i: int| 0 <= i < lab.len() ==> #[trigger] lab@[i] <= graphs.len(),
            graphs.len() <= count_in(|t: int| lab@[t] != 0, 0, lab.len() as int),
            forall|px: int, py: int| 0 <= px < w && 0 <= py < y && #[trigger] lit(skeleton@, wi, hi, px, py) ==> cell(lab@, wi, px, py) != 0,
            forall|g: int| 0 <= g < graphs.len() ==> graph_traced(#[trigger] &graphs@[g], skeleton@, wi, hi),
            forall|g: int| 0 <= g < graphs.len() ==> edges_traced(#[trigger] &graphs@[g], skeleton@, wi, hi, (wi * hi) as nat),
            forall|g: int, i: int| 0 <= g < graphs.len() && 0 <= i < graphs@[g].nodes.len()
                ==> cell(lab@, wi, (#[trigger] graphs@[g].nodes@[i]).x as int, graphs@[g].nodes@[i].y as int) == g + 1,
            forall|px: int, py: int| 0 <= px < w && 0 <= py < h && #[trigger] cell(lab@, wi, px, py) != 0
                && link_degree(skeleton@, wi, hi, px, py) != 2
                ==> exists|g: int, i: int| 0 <= g < graphs.len() && 0 <= i < graphs@[g].nodes.len()
                    && node_px(#[trigger] graphs@[g].nodes@[i]) == (px as i32, py as i32),
        decreases h - y,
    {
        let mut x: i32 = 0;
        while x < w
            invariant
                grid_ok(skeleton@, lab@, w, h),
                wi == w as int,
                hi == h as int,
                0 <= y < h,
                0 <= x <= w,
                seeds_ok(skeleton@, lab@, wi, hi, graphs@, seeds, x as int, y as int),
                labels_closed(skeleton@, lab@, wi, hi),
                forall|i: int| 0 <= i < lab.len() ==> #[trigger] lab@[i] <= graphs.len(),
                graphs.len() <= count_in(|t: int| lab@[t] != 0, 0, lab.len() as int),
                forall|px: int, py: int| 0 <= px < w && 0 <= py < h && (py < y || (py == y && px < x)) && #[trigger] lit(skeleton@, wi, hi, px, py)
                    ==> cell(lab@, wi, px, py) != 0,
                forall|g: int| 0 <= g < graphs.len() ==> graph_traced(#[trigger] &graphs@[g], skeleton@, wi, hi),
                forall|g: int| 0 <= g < graphs.len() ==> edges_traced(#[trigger] &graphs@[g], skeleton@, wi, hi, (wi * hi) as nat),
                forall|g: int, i: int| 0 <= g < graphs.len() && 0 <= i < graphs@[g].nodes.len()
                    ==> cell(lab@, wi, (#[trigger] graphs@[g].nodes@[i]).x as int, graphs@[g].nodes@[i].y as int) == g + 1,
                forall|px: int, py: int| 0 <= px < w && 0 <= py < h && #[trigger] cell(lab@, wi, px, py) != 0
                    && link_degree(skeleton@, wi, hi, px, py) != 2
                    ==> exists|g: int, i: int| 0 <= g < graphs.len() && 0 <= i < graphs@[g].nodes.len()
                        && node_px(#[trigger] graphs@[g].nodes@[i]) == (px as i32, py as i32),
            decreases w - x,
        {
            let idx = index_of(w, h, x, y);
            if skeleton[idx] && lab[idx] == 0 {
                proof {
                    lemma_count_bounds(|t: int| lab@[t] != 0, 0, lab.len() as int);
                }
                let c = graphs.len() + 1;
                let ghost lab_before = lab@;
                let ghost graphs_before = graphs@;
                proof {
                    assert forall|i: int| 0 <= i < lab.len() implies #[trigger] lab@[i] < c by {}
                }
                let comp = flood(skeleton, &mut lab, c, w, h, x, y);
                proof {
                    assert(lab@[idx as int] != 0 && lab_before[idx as int] == 0) by {
                        assert(comp@[0] == (x, y));
                    }
                    let f = |t: int| lab_before[t] != 0;
                    let g2 = |t: int| lab@[t] != 0;
                    assert forall|t: int| 0 <= t < lab.len() && #[trigger] f(t) implies g2(t) by {
                        assert(lab@[t] == lab_before[t] || (lab_before[t] == 0 && lab@[t] == c));
                    }
                    assert(0 <= idx < lab.len() && g2(idx as int) && !f(idx as int));
                    lemma_count_mono(f, g2, 0, lab.len() as int);
                }
                let g = build_component_graph(skeleton, &lab, c, w, h, &comp);
                graphs.push(g);
                proof {
                    let seeds_before = seeds;
                    seeds = seeds.push((x as int, y as int));
                    assert forall|a: int, b: int| 0 <= a < wi && 0 <= b < hi && before(a, b, x as int, y as int) && #[trigger] lit(skeleton@, wi, hi, a, b)
                        implies cell(lab_before, wi, a, b) != 0 by {}
                    assert forall|k: int| 0 <= k < comp.len() implies lit(skeleton@, wi, hi, (#[trigger] comp@[k]).0 as int, comp@[k].1 as int)
                        && cell(lab@, wi, comp@[k].0 as int, comp@[k].1 as int) == graphs_before.len() + 1 by {}
                    lemma_seeds_push(skeleton@, lab_before, lab@, wi, hi, graphs_before, g, seeds_before, x as int, y as int, comp@);
                    assert(graphs@ == graphs_before.push(g));
                    assert forall|g2: int| 0 <= g2 < graphs.len() implies graph_traced(#[trigger] &graphs@[g2], skeleton@, wi, hi) by {
                        if g2 < graphs_before.len() {
                            assert(graphs@[g2] == graphs_before[g2]);
                        }
                    }
                    assert forall|g2: int| 0 <= g2 < graphs.len() implies edges_traced(#[trigger] &graphs@[g2], skeleton@, wi, hi, (wi * hi) as nat) by {
                        if g2 < graphs_before.len() {
                            assert(graphs@[g2] == graphs_before[g2]);
                        }
                    }
                    assert forall|g2: int, i: int| 0 <= g2 < graphs.len() && 0 <= i < graphs@[g2].nodes.len()
                        implies cell(lab@, wi, (#[trigger] graphs@[g2].nodes@[i]).x as int, graphs@[g2].nodes@[i].y as int) == g2 + 1 by {
                        if g2 < graphs_before.len() {
                            assert(graphs@[g2] == graphs_before[g2]);
                            let nd = graphs_before[g2].nodes@[i];
                            assert(lit(skeleton@, wi, hi, nd.x as int, nd.y as int));
                            lemma_index_in(wi, hi, nd.x as int, nd.y as int);
                            assert(cell(lab_before, wi, nd.x as int, nd.y as int) == g2 + 1);
                        }
                    }
                    assert forall|px: int, py: int| 0 <= px < w && 0 <= py < h && #[trigger] cell(lab@, wi, px, py) != 0
                        && link_degree(skeleton@, wi, hi, px, py) != 2
                        implies exists|g2: int, i: int| 0 <= g2 < graphs.len() && 0 <= i < graphs@[g2].nodes.len()
                            && node_px(#[trigger] graphs@[g2].nodes@[i]) == (px as i32, py as i32) by {
                        lemma_index_in(wi, hi, px, py);
                        if cell(lab@, wi, px, py) == c {
                            let i = choose|i: int| 0 <= i < g.nodes.len() && node_px(#[trigger] g.nodes@[i]) == (px as i32, py as i32);
                            assert(graphs@[graphs.len() - 1] == g);
                            assert(node_px(graphs@[graphs.len() - 1].nodes@[i]) == (px as i32, py as i32));
                        } else {
                            assert(cell(lab_before, wi, px, py) == cell(lab@, wi, px, py));
                            let (g2, i) = choose|g2: int, i: int| 0 <= g2 < graphs_before.len() && 0 <= i < graphs_before[g2].nodes.len()
                                && node_px(#[trigger] graphs_before[g2].nodes@[i]) == (px as i32, py as i32);
                            assert(graphs@[g2] == graphs_before[g2]);
                            assert(node_px(graphs@[g2].nodes@[i]) == (px as i32, py as i32));
                        }
                    }
                    assert forall|px: int, py: int| 0 <= px < w && 0 <= py < h && (py < y || (py == y && px < x + 1)) && #[trigger] lit(skeleton@, wi, hi, px, py)
                        implies cell(lab@, wi, px, py) != 0 by {
                        lemma_index_in(wi, hi, px, py);
                        if py == y && px == x {
                            assert(comp@[0] == (x, y));
                        } else {
                            assert(cell(lab_before, wi, px, py) != 0);
                        }
                    }
                }
            } else {
                proof {
                    assert forall|px: int, py: int| 0 <= px < w && 0 <= py < h && (py < y || (py == y && px < x + 1)) && #[trigger] lit(skeleton@, wi, hi, px, py)
                        implies cell(lab@, wi, px, py) != 0 by {
                        if py == y && px == x {
                        }
                    }
                    lemma_seeds_advance(skeleton@, lab@, wi, hi, graphs@, seeds, x as int, y as int);
                }
            }
            x = x + 1;
        }
        proof {
            lemma_seeds_row(skeleton@, lab@, wi, hi, graphs@, seeds, y as int);
        }
        y = y + 1;
    }
    proof {
        assert forall|a: int, b: int| #[trigger] lit(skeleton@, wi, hi, a, b) implies cell(lab@, wi, a, b) != 0 by {}
        lemma_graphs_are_components(skeleton@, lab@, wi, hi, graphs@, seeds);
        assert forall|px: int, py: int| #[trigger] lit(skeleton@, wi, hi, px, py) && link_degree(skeleton@, wi, hi, px, py) != 2
            implies exists|g: int, i: int| 0 <= g < graphs.len() && 0 <= i < graphs@[g].nodes.len()
                && node_px(#[trigger] graphs@[g].nodes@[i]) == (px as i32, py as i32) by {
            assert(cell(lab@, wi, px, py) != 0);
        }
        assert forall|g1: int, g2: int, i: int, j: int|
            0 <= g1 < graphs.len() && 0 <= g2 < graphs.len() && g1 != g2 && 0 <= i < graphs@[g1].nodes.len()
                && 0 <= j < graphs@[g2].nodes.len() implies node_px(#[trigger] graphs@[g1].nodes@[i]) != node_px(#[trigger] graphs@[g2].nodes@[j]) by {
            assert(cell(lab@, wi, graphs@[g1].nodes@[i].x as int, graphs@[g1].nodes@[i].y as int) == g1 + 1);
            assert(cell(lab@, wi, graphs@[g2].nodes@[j].x as int, graphs@[g2].nodes@[j].y as int) == g2 + 1);
        }
        if graphs.len() == 0 {
            assert forall|px: int, py: int| !#[trigger] lit(skeleton@, wi, hi, px, py) by {
                if lit(skeleton@, wi, hi, px, py) {
                    lemma_index_in(wi, hi, px, py);
                    assert(cell(lab@, wi, px, py) != 0);
                    assert(lab@[py * wi + px] <= 0);
                }
            }
        } else {
            assert(graph_traced(&graphs@[0], skeleton@, wi, hi));
            let nd = graphs@[0].nodes@[0];
            assert(lit(skeleton@, wi, hi, nd.x as int, nd.y as int));
        }
    }
    graphs
}

} // verus!
