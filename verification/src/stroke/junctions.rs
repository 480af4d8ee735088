//! Merging junction nodes that sit closer together than the stroke is wide.
//! Nodes tied together by the edges marked for merging collapse into one
//! node at their rounded centroid; the marked edges disappear, and the other
//! edges are re-anchored on the merged nodes.

use vstd::prelude::*;
use crate::counting::{count_in, lemma_count_bounds, lemma_count_mono, lemma_sum_point, sum_in};
use crate::stroke::chain::{push_new, push_run};
use crate::stroke::graph::{GraphEdge, GraphNode, StrokeGraph};
use crate::stroke::traverse::{degree, degree_upto, incidence};

verus! {

/// Marked edge `e` joins nodes `a` and `b`, either way round.
pub open spec fn ties(g: &StrokeGraph, m: Seq<bool>, e: int, a: int, b: int) -> bool {
    &&& 0 <= e < g.edges@.len()
    &&& e < m.len()
    &&& m[e]
    &&& ((g.edges@[e].from == a && g.edges@[e].to == b) || (g.edges@[e].from == b && g.edges@[e].to == a))
}

/// A walk of `n` marked edges from node `a` to node `b`.
pub open spec fn tied_walk(g: &StrokeGraph, m: Seq<bool>, a: int, b: int, n: nat) -> bool
    decreases n,
{
    if n == 0 {
        a == b
    } else {
        exists|c: int, e: int| tied_walk(g, m, a, c, (n - 1) as nat) && #[trigger] ties(g, m, e, c, b)
    }
}

/// Nodes `a` and `b` are tied together through marked edges.
pub open spec fn tied(g: &StrokeGraph, m: Seq<bool>, a: int, b: int) -> bool {
    exists|n: nat| #[trigger] tied_walk(g, m, a, b, n)
}

/// `r` is the least node tied to `a`.
pub open spec fn least_tied(g: &StrokeGraph, m: Seq<bool>, a: int, r: int) -> bool {
    &&& 0 <= r
    &&& tied(g, m, a, r)
    &&& forall|k: int| 0 <= k < r ==> !#[trigger] tied(g, m, a, k)
}

/// The node that represents `a` after merging: the least node tied to it.
pub open spec fn rep(g: &StrokeGraph, m: Seq<bool>, a: int) -> int {
    choose|r: int| least_tied(g, m, a, r)
}

proof fn lemma_walk_join(g: &StrokeGraph, m: Seq<bool>, a: int, b: int, c: int, n: nat, k: nat)
    requires
        tied_walk(g, m, a, b, n),
        tied_walk(g, m, b, c, k),
    ensures
        tied_walk(g, m, a, c, n + k),
    decreases k,
{
    if k > 0 {
        let (d, e) = choose|d: int, e: int| tied_walk(g, m, b, d, (k - 1) as nat) && #[trigger] ties(g, m, e, d, c);
        lemma_walk_join(g, m, a, b, d, n, (k - 1) as nat);
        assert(tied_walk(g, m, a, d, (n + k - 1) as nat) && ties(g, m, e, d, c));
    }
}

proof fn lemma_one_tie(g: &StrokeGraph, m: Seq<bool>, e: int, a: int, b: int)
    requires
        ties(g, m, e, a, b),
    ensures
        tied_walk(g, m, a, b, 1),
        tied_walk(g, m, b, a, 1),
{
    assert(tied_walk(g, m, a, a, 0));
    assert(ties(g, m, e, a, b));
    assert(tied_walk(g, m, b, b, 0));
    assert(ties(g, m, e, b, a));
}

/// Labels that agree across every marked edge agree along every walk.
proof fn lemma_labels_agree(g: &StrokeGraph, m: Seq<bool>, lab: Seq<usize>, a: int, b: int, n: nat)
    requires
        g.wf(),
        lab.len() == g.nodes@.len(),
        0 <= a < lab.len(),
        tied_walk(g, m, a, b, n),
        forall|e: int|
            0 <= e < g.edges@.len() && e < m.len() && m[e] ==> #[trigger] lab[g.edges@[e].from as int]
                == lab[g.edges@[e].to as int],
    ensures
        0 <= b < lab.len(),
        lab[b] == lab[a],
    decreases n,
{
    if n > 0 {
        let (c, e) = choose|c: int, e: int| tied_walk(g, m, a, c, (n - 1) as nat) && #[trigger] ties(g, m, e, c, b);
        lemma_labels_agree(g, m, lab, a, c, (n - 1) as nat);
        assert(lab[g.edges@[e].from as int] == lab[g.edges@[e].to as int]);
    }
}

/// A labelling in which every node carries a node tied to it, no larger than
/// itself, and which agrees across every marked edge, labels each node with
/// its representative.
proof fn lemma_labels_are_reps(g: &StrokeGraph, m: Seq<bool>, lab: Seq<usize>)
    requires
        g.wf(),
        lab.len() == g.nodes@.len(),
        forall|i: int| 0 <= i < lab.len() ==> #[trigger] lab[i] <= i,
        forall|i: int| 0 <= i < lab.len() ==> tied(g, m, i, #[trigger] lab[i] as int),
        forall|e: int|
            0 <= e < g.edges@.len() && e < m.len() && m[e] ==> #[trigger] lab[g.edges@[e].from as int]
                == lab[g.edges@[e].to as int],
    ensures
        forall|i: int| 0 <= i < lab.len() ==> least_tied(g, m, i, #[trigger] lab[i] as int),
        forall|i: int| 0 <= i < lab.len() ==> rep(g, m, i) == #[trigger] lab[i],
{
    assert forall|i: int| 0 <= i < lab.len() implies least_tied(g, m, i, #[trigger] lab[i] as int) by {
        assert(tied(g, m, i, lab[i] as int));
        assert forall|k: int| 0 <= k < lab[i] implies !#[trigger] tied(g, m, i, k) by {
            if tied(g, m, i, k) {
                let n = choose|n: nat| #[trigger] tied_walk(g, m, i, k, n);
                lemma_labels_agree(g, m, lab, i, k, n);
                assert(lab[k] <= k);
            }
        }
    }
    assert forall|i: int| 0 <= i < lab.len() implies rep(g, m, i) == #[trigger] lab[i] by {
        let r = rep(g, m, i);
        assert(least_tied(g, m, i, lab[i] as int));
        assert(least_tied(g, m, i, r));
        if r < lab[i] {
            assert(!tied(g, m, i, r));
        } else if r > lab[i] {
            assert(!tied(g, m, i, lab[i] as int));
        }
    }
}

/// Sum of the labels, which every change lowers.
pub open spec fn label_sum(lab: Seq<usize>) -> nat {
    sum_in(|i: int| lab[i] as nat, 0, lab.len() as int)
}

/// The representative of every node: the least node it is tied to through
/// marked edges.
pub fn tie_labels(g: &StrokeGraph, m: &[bool]) -> (lab: Vec<usize>)
    requires
        g.wf(),
        m@.len() == g.edges@.len(),
    ensures
        lab@.len() == g.nodes@.len(),
        forall|i: int| 0 <= i < lab@.len() ==> #[trigger] lab@[i] == rep(g, m@, i),
        forall|i: int| 0 <= i < lab@.len() ==> least_tied(g, m@, i, #[trigger] lab@[i] as int),
        forall|i: int| 0 <= i < lab@.len() ==> #[trigger] lab@[lab@[i] as int] == lab@[i],
        forall|i: int| 0 <= i < lab@.len() ==> #[trigger] lab@[i] <= i,
{
    let n = g.nodes.len();
    let ne = g.edges.len();
    let mut lab: Vec<usize> = Vec::new();
    let mut i: usize = 0;
    while i < n
        invariant
            n == g.nodes@.len(),
            i <= n,
            lab@.len() == i,
            forall|k: int| 0 <= k < i ==> #[trigger] lab@[k] == k,
        decreases n - i,
    {
        lab.push(i);
        i = i + 1;
    }
    proof {
        assert forall|k: int| 0 <= k < lab@.len() implies tied(g, m@, k, #[trigger] lab@[k] as int) by {
            assert(tied_walk(g, m@, k, k, 0));
        }
    }
    loop
        invariant
            g.wf(),
            n == g.nodes@.len(),
            ne == g.edges@.len(),
            m@.len() == ne,
            lab@.len() == n,
            forall|k: int| 0 <= k < n ==> #[trigger] lab@[k] <= k,
            forall|k: int| 0 <= k < n ==> tied(g, m@, k, #[trigger] lab@[k] as int),
        ensures
            lab@.len() == n,
            forall|k: int| 0 <= k < lab@.len() ==> #[trigger] lab@[k] == rep(g, m@, k),
            forall|k: int| 0 <= k < lab@.len() ==> least_tied(g, m@, k, #[trigger] lab@[k] as int),
            forall|k: int| 0 <= k < lab@.len() ==> #[trigger] lab@[lab@[k] as int] == lab@[k],
            forall|k: int| 0 <= k < lab@.len() ==> #[trigger] lab@[k] <= k,
        decreases label_sum(lab@),
    {
        let ghost start = lab@;
        let mut changed = false;
        let mut e: usize = 0;
        while e < ne
            invariant
                g.wf(),
                n == g.nodes@.len(),
                ne == g.edges@.len(),
                m@.len() == ne,
                lab@.len() == n,
                start.len() == n,
                e <= ne,
                forall|k: int| 0 <= k < n ==> #[trigger] lab@[k] <= k,
                forall|k: int| 0 <= k < n ==> tied(g, m@, k, #[trigger] lab@[k] as int),
                changed ==> label_sum(lab@) < label_sum(start),
                !changed ==> lab@ == start,
                !changed ==> forall|q: int|
                    0 <= q < e && m@[q] ==> #[trigger] lab@[g.edges@[q].from as int] == lab@[g.edges@[q].to as int],
                forall|k: int| 0 <= k < n ==> #[trigger] lab@[k] <= start[k],
            decreases ne - e,
        {
            if m[e] {
                let a = g.edges[e].from;
                let b = g.edges[e].to;
                let la = lab[a];
                let lb = lab[b];
                let ghost before = lab@;
                proof {
                    assert(ties(g, m@, e as int, a as int, b as int));
                    lemma_one_tie(g, m@, e as int, a as int, b as int);
                }
                if la < lb {
                    lab.set(b, la);
                    proof {
                        let nb = choose|t: nat| #[trigger] tied_walk(g, m@, a as int, la as int, t);
                        lemma_walk_join(g, m@, b as int, a as int, la as int, 1, nb);
                        assert(tied_walk(g, m@, b as int, la as int, 1 + nb));
                        assert forall|k: int| 0 <= k < n implies tied(g, m@, k, #[trigger] lab@[k] as int) by {
                            if k != b {
                                assert(lab@[k] == before[k]);
                            }
                        }
                        lemma_sum_point(|t: int| before[t] as nat, |t: int| lab@[t] as nat, 0, n as int, b as int);
                        assert(label_sum(lab@) < label_sum(before));
                    }
                    changed = true;
                } else if lb < la {
                    lab.set(a, lb);
                    proof {
                        let na = choose|t: nat| #[trigger] tied_walk(g, m@, b as int, lb as int, t);
                        lemma_walk_join(g, m@, a as int, b as int, lb as int, 1, na);
                        assert(tied_walk(g, m@, a as int, lb as int, 1 + na));
                        assert forall|k: int| 0 <= k < n implies tied(g, m@, k, #[trigger] lab@[k] as int) by {
                            if k != a {
                                assert(lab@[k] == before[k]);
                            }
                        }
                        lemma_sum_point(|t: int| before[t] as nat, |t: int| lab@[t] as nat, 0, n as int, a as int);
                        assert(label_sum(lab@) < label_sum(before));
                    }
                    changed = true;
                }
            }
            e = e + 1;
        }
        if !changed {
            proof {
                assert forall|q: int| 0 <= q < g.edges@.len() && q < m@.len() && m@[q] implies #[trigger] lab@[g.edges@[q].from as int]
                    == lab@[g.edges@[q].to as int] by {
                    assert(0 <= q < e && m@[q]);
                }
                lemma_labels_are_reps(g, m@, lab@);
                assert forall|k: int| 0 <= k < lab@.len() implies #[trigger] lab@[lab@[k] as int] == lab@[k] by {
                    let t = choose|t: nat| #[trigger] tied_walk(g, m@, k, lab@[k] as int, t);
                    lemma_labels_agree(g, m@, lab@, k, lab@[k] as int, t);
                }
            }
            break;
        }
    }
    lab
}

/// Sum of `f` over `lo..hi`.
pub open spec fn int_sum(f: spec_fn(int) -> int, lo: int, hi: int) -> int
    decreases hi - lo,
{
    if hi <= lo {
        0
    } else {
        int_sum(f, lo, hi - 1) + f(hi - 1)
    }
}

/// Number of nodes that `r` represents.
pub open spec fn group_size(g: &StrokeGraph, m: Seq<bool>, r: int) -> nat {
    count_in(|i: int| rep(g, m, i) == r, 0, g.nodes@.len() as int)
}

/// The `x` (or, with `vertical`, `y`) coordinate of node `k` when `r`
/// represents it, else 0.
pub open spec fn member_coord(g: &StrokeGraph, m: Seq<bool>, r: int, vertical: bool, k: int) -> int {
    if rep(g, m, k) == r {
        if vertical { g.nodes@[k].y as int } else { g.nodes@[k].x as int }
    } else {
        0
    }
}

/// Sum of the `x` (or, with `vertical`, `y`) coordinates of the nodes that
/// `r` represents.
pub open spec fn group_sum(g: &StrokeGraph, m: Seq<bool>, r: int, vertical: bool) -> int {
    int_sum(|k: int| member_coord(g, m, r, vertical, k), 0, g.nodes@.len() as int)
}

/// `s / c` rounded to the nearest integer, halves away from zero.
pub open spec fn round_div(s: int, c: int) -> int {
    if s >= 0 {
        (2 * s + c) / (2 * c)
    } else {
        -((-2 * s + c) / (2 * c))
    }
}

/// Where the node represented by `r` sits after merging: the rounded
/// centroid of its group when the group has two or more nodes, else where
/// it was.
pub open spec fn merged_pos(g: &StrokeGraph, m: Seq<bool>, r: int) -> (i32, i32) {
    let c = group_size(g, m, r) as int;
    if c >= 2 {
        (round_div(group_sum(g, m, r, false), c) as i32, round_div(group_sum(g, m, r, true), c) as i32)
    } else {
        (g.nodes@[r].x, g.nodes@[r].y)
    }
}

proof fn lemma_round_div_bounds(s: int, c: int)
    requires
        c >= 1,
        c * (i32::MIN as int) <= s <= c * (i32::MAX as int),
    ensures
        i32::MIN <= round_div(s, c) <= i32::MAX,
{
    if s >= 0 {
        assert((2 * s + c) / (2 * c) <= i32::MAX) by (nonlinear_arith)
            requires c >= 1, 0 <= s <= c * 2147483647;
    } else {
        assert((-2 * s + c) / (2 * c) <= 2147483648) by (nonlinear_arith)
            requires c >= 1, c * (-2147483648) <= s < 0;
        assert((-2 * s + c) / (2 * c) >= 0) by (nonlinear_arith)
            requires c >= 1, s < 0;
    }
}

fn round_div_exec(s: i128, c: i128) -> (q: i32)
    requires
        c >= 1,
        c <= 0x1_0000_0000_0000_0000,
        c * (i32::MIN as int) <= s <= c * (i32::MAX as int),
    ensures
        q == round_div(s as int, c as int),
{
    proof {
        lemma_round_div_bounds(s as int, c as int);
        assert(-0x1_0000_0000_0000_0000_0000_0000 <= s <= 0x1_0000_0000_0000_0000_0000_0000) by (nonlinear_arith)
            requires c * (i32::MIN as int) <= s <= c * (i32::MAX as int), 1 <= c <= 0x1_0000_0000_0000_0000;
    }
    if s >= 0 {
        ((2 * s + c) / (2 * c)) as i32
    } else {
        (-((-2 * s + c) / (2 * c))) as i32
    }
}

/// Where each representative sits after merging, indexed by node; entries
/// of other nodes are 0.
fn merged_positions(g: &StrokeGraph, m: &[bool], lab: &Vec<usize>) -> (pos: (Vec<i32>, Vec<i32>))
    requires
        g.wf(),
        m@.len() == g.edges@.len(),
        lab@.len() == g.nodes@.len(),
        forall|i: int| 0 <= i < lab@.len() ==> #[trigger] lab@[i] == rep(g, m@, i),
        forall|i: int| 0 <= i < lab@.len() ==> least_tied(g, m@, i, #[trigger] lab@[i] as int),
    ensures
        pos.0@.len() == g.nodes@.len(),
        pos.1@.len() == g.nodes@.len(),
        forall|r: int|
            0 <= r < g.nodes@.len() && rep(g, m@, r) == r ==> (#[trigger] pos.0@[r], pos.1@[r]) == merged_pos(g, m@, r),
{
    let n = g.nodes.len();
    let ghost mm = m@;
    let mut cnt: Vec<u64> = Vec::new();
    let mut sx: Vec<i128> = Vec::new();
    let mut sy: Vec<i128> = Vec::new();
    let mut i: usize = 0;
    while i < n
        invariant
            n == g.nodes@.len(),
            i <= n,
            cnt@.len() == i,
            sx@.len() == i,
            sy@.len() == i,
            forall|k: int| 0 <= k < i ==> #[trigger] cnt@[k] == 0,
            forall|k: int| 0 <= k < i ==> #[trigger] sx@[k] == 0,
            forall|k: int| 0 <= k < i ==> #[trigger] sy@[k] == 0,
        decreases n - i,
    {
        cnt.push(0);
        sx.push(0);
        sy.push(0);
        i = i + 1;
    }
    proof {
        assert forall|k: int| 0 <= k < n implies #[trigger] lab@[k] <= k by {
            assert(tied_walk(g, mm, k, k, 0));
            assert(least_tied(g, mm, k, lab@[k] as int));
            if k < lab@[k] {
                assert(!tied(g, mm, k, k));
            }
        }
    }
    i = 0;
    while i < n
        invariant
            g.wf(),
            n == g.nodes@.len(),
            mm == m@,
            lab@.len() == n,
            forall|k: int| 0 <= k < n ==> #[trigger] lab@[k] == rep(g, mm, k),
            forall|k: int| 0 <= k < n ==> #[trigger] lab@[k] <= k,
            i <= n,
            cnt@.len() == n,
            sx@.len() == n,
            sy@.len() == n,
            forall|r: int|
                0 <= r < n ==> #[trigger] cnt@[r] == count_in(|k: int| rep(g, mm, k) == r, 0, i as int),
            forall|r: int|
                0 <= r < n ==> #[trigger] sx@[r] == int_sum(|k: int| member_coord(g, mm, r, false, k), 0, i as int),
            forall|r: int|
                0 <= r < n ==> #[trigger] sy@[r] == int_sum(|k: int| member_coord(g, mm, r, true, k), 0, i as int),
            forall|r: int| 0 <= r < n ==> #[trigger] cnt@[r] <= i,
            forall|r: int|
                0 <= r < n ==> cnt@[r] * (i32::MIN as int) <= #[trigger] sx@[r] <= cnt@[r] * (i32::MAX as int),
            forall|r: int|
                0 <= r < n ==> cnt@[r] * (i32::MIN as int) <= #[trigger] sy@[r] <= cnt@[r] * (i32::MAX as int),
        decreases n - i,
    {
        let r = lab[i];
        let node = g.nodes[i];
        proof {
            assert(cnt@[r as int] <= i);
            assert(i < 0x1_0000_0000_0000_0000);
        }
        let c0 = cnt[r];
        let x0 = sx[r];
        let y0 = sy[r];
        proof {
            assert(-0x1_0000_0000_0000_0000_0000_0000 <= x0 <= 0x1_0000_0000_0000_0000_0000_0000) by (nonlinear_arith)
                requires c0 * (i32::MIN as int) <= x0 <= c0 * (i32::MAX as int), 0 <= c0 < 0x1_0000_0000_0000_0000;
            assert(-0x1_0000_0000_0000_0000_0000_0000 <= y0 <= 0x1_0000_0000_0000_0000_0000_0000) by (nonlinear_arith)
                requires c0 * (i32::MIN as int) <= y0 <= c0 * (i32::MAX as int), 0 <= c0 < 0x1_0000_0000_0000_0000;
        }
        cnt.set(r, c0 + 1);
        sx.set(r, x0 + node.x as i128);
        sy.set(r, y0 + node.y as i128);
        i = i + 1;
    }
    let mut px: Vec<i32> = Vec::new();
    let mut py: Vec<i32> = Vec::new();
    let mut r: usize = 0;
    while r < n
        invariant
            g.wf(),
            n == g.nodes@.len(),
            mm == m@,
            cnt@.len() == n,
            sx@.len() == n,
            sy@.len() == n,
            forall|q: int| 0 <= q < n ==> #[trigger] cnt@[q] == group_size(g, mm, q),
            forall|q: int| 0 <= q < n ==> #[trigger] sx@[q] == group_sum(g, mm, q, false),
            forall|q: int| 0 <= q < n ==> #[trigger] sy@[q] == group_sum(g, mm, q, true),
            forall|q: int| 0 <= q < n ==> #[trigger] cnt@[q] <= n,
            forall|q: int|
                0 <= q < n ==> cnt@[q] * (i32::MIN as int) <= #[trigger] sx@[q] <= cnt@[q] * (i32::MAX as int),
            forall|q: int|
                0 <= q < n ==> cnt@[q] * (i32::MIN as int) <= #[trigger] sy@[q] <= cnt@[q] * (i32::MAX as int),
            r <= n,
            px@.len() == r,
            py@.len() == r,
            forall|q: int| 0 <= q < r ==> (#[trigger] px@[q], py@[q]) == merged_pos(g, mm, q),
        decreases n - r,
    {
        let c = cnt[r];
        if c >= 2 {
            let qx = round_div_exec(sx[r], c as i128);
            let qy = round_div_exec(sy[r], c as i128);
            px.push(qx);
            py.push(qy);
        } else {
            px.push(g.nodes[r].x);
            py.push(g.nodes[r].y);
        }
        r = r + 1;
    }
    (px, py)
}

/// Node `r` represents its group.
pub open spec fn is_root(g: &StrokeGraph, m: Seq<bool>, r: int) -> bool {
    0 <= r < g.nodes@.len() && rep(g, m, r) == r
}

/// Merged node `a` comes before merged node `b`: by position row-major,
/// ties by index.
pub open spec fn root_before(g: &StrokeGraph, m: Seq<bool>, a: int, b: int) -> bool {
    let pa = merged_pos(g, m, a);
    let pb = merged_pos(g, m, b);
    pa.1 < pb.1 || (pa.1 == pb.1 && (pa.0 < pb.0 || (pa.0 == pb.0 && a < b)))
}

/// Index of representative `r` among the merged nodes.
pub open spec fn root_rank(g: &StrokeGraph, m: Seq<bool>, r: int) -> nat {
    count_in(|k: int| is_root(g, m, k) && root_before(g, m, k, r), 0, g.nodes@.len() as int)
}

/// Number of merged nodes.
pub open spec fn root_count(g: &StrokeGraph, m: Seq<bool>) -> nat {
    count_in(|k: int| is_root(g, m, k), 0, g.nodes@.len() as int)
}

proof fn lemma_rank_below_count(g: &StrokeGraph, m: Seq<bool>, r: int)
    requires
        is_root(g, m, r),
    ensures
        root_rank(g, m, r) < root_count(g, m),
{
    let f = |k: int| is_root(g, m, k) && root_before(g, m, k, r);
    let h = |k: int| is_root(g, m, k);
    assert(h(r) && !f(r));
    lemma_count_mono(f, h, 0, g.nodes@.len() as int);
}

proof fn lemma_rank_order(g: &StrokeGraph, m: Seq<bool>, a: int, b: int)
    requires
        is_root(g, m, a),
        is_root(g, m, b),
        root_before(g, m, a, b),
    ensures
        root_rank(g, m, a) < root_rank(g, m, b),
{
    let f = |k: int| is_root(g, m, k) && root_before(g, m, k, a);
    let h = |k: int| is_root(g, m, k) && root_before(g, m, k, b);
    assert forall|k: int| 0 <= k < g.nodes@.len() && #[trigger] f(k) implies h(k) by {}
    assert(h(a) && !f(a));
    lemma_count_mono(f, h, 0, g.nodes@.len() as int);
}

/// Representatives get distinct ranks.
proof fn lemma_rank_injective(g: &StrokeGraph, m: Seq<bool>, a: int, b: int)
    requires
        is_root(g, m, a),
        is_root(g, m, b),
        a != b,
    ensures
        root_rank(g, m, a) != root_rank(g, m, b),
{
    if root_before(g, m, a, b) {
        lemma_rank_order(g, m, a, b);
    } else {
        assert(root_before(g, m, b, a));
        lemma_rank_order(g, m, b, a);
    }
}

/// The merged nodes, in order: each representative's merged position at its
/// rank. Also returns the rank of every representative, indexed by node.
fn place_nodes(g: &StrokeGraph, m: &[bool], lab: &Vec<usize>, px: &Vec<i32>, py: &Vec<i32>) -> (r: (Vec<GraphNode>, Vec<usize>))
    requires
        g.wf(),
        m@.len() == g.edges@.len(),
        lab@.len() == g.nodes@.len(),
        forall|i: int| 0 <= i < lab@.len() ==> #[trigger] lab@[i] == rep(g, m@, i),
        px@.len() == g.nodes@.len(),
        py@.len() == g.nodes@.len(),
        forall|q: int| 0 <= q < g.nodes@.len() && rep(g, m@, q) == q ==> (#[trigger] px@[q], py@[q]) == merged_pos(g, m@, q),
    ensures
        r.0@.len() == root_count(g, m@),
        r.1@.len() == g.nodes@.len(),
        forall|q: int| #[trigger] is_root(g, m@, q) ==> r.1@[q] == root_rank(g, m@, q),
        forall|q: int|
            #[trigger] is_root(g, m@, q) ==> r.0@[root_rank(g, m@, q) as int] == (GraphNode {
                x: merged_pos(g, m@, q).0,
                y: merged_pos(g, m@, q).1,
            }),
{
    let n = g.nodes.len();
    let ghost mm = m@;
    let mut ranks: Vec<usize> = Vec::new();
    let mut total: usize = 0;
    let mut q: usize = 0;
    while q < n
        invariant
            g.wf(),
            n == g.nodes@.len(),
            mm == m@,
            lab@.len() == n,
            forall|i: int| 0 <= i < n ==> #[trigger] lab@[i] == rep(g, mm, i),
            px@.len() == n,
            py@.len() == n,
            forall|t: int| 0 <= t < n && rep(g, mm, t) == t ==> (#[trigger] px@[t], py@[t]) == merged_pos(g, mm, t),
            q <= n,
            ranks@.len() == q,
            forall|t: int| 0 <= t < q && #[trigger] is_root(g, mm, t) ==> ranks@[t] == root_rank(g, mm, t),
            total == count_in(|k: int| is_root(g, mm, k), 0, q as int),
            total <= q,
        decreases n - q,
    {
        let mut rank: usize = 0;
        if lab[q] == q {
            let mut k: usize = 0;
            while k < n
                invariant
                    g.wf(),
                    n == g.nodes@.len(),
                    mm == m@,
                    lab@.len() == n,
                    forall|i: int| 0 <= i < n ==> #[trigger] lab@[i] == rep(g, mm, i),
                    px@.len() == n,
                    py@.len() == n,
                    forall|t: int| 0 <= t < n && rep(g, mm, t) == t ==> (#[trigger] px@[t], py@[t]) == merged_pos(g, mm, t),
                    q < n,
                    lab@[q as int] == q,
                    k <= n,
                    rank == count_in(|t: int| is_root(g, mm, t) && root_before(g, mm, t, q as int), 0, k as int),
                    rank <= k,
                decreases n - k,
            {
                proof {
                    lemma_count_bounds(|t: int| is_root(g, mm, t) && root_before(g, mm, t, q as int), 0, k as int + 1);
                }
                if lab[k] == k {
                    let (kx, ky) = (px[k], py[k]);
                    let (qx, qy) = (px[q], py[q]);
                    if ky < qy || (ky == qy && (kx < qx || (kx == qx && k < q))) {
                        rank = rank + 1;
                    }
                }
                k = k + 1;
            }
        }
        ranks.push(rank);
        if lab[q] == q {
            total = total + 1;
        }
        q = q + 1;
    }
    let mut nodes: Vec<GraphNode> = Vec::new();
    let mut t: usize = 0;
    while t < total
        invariant
            t <= total,
            nodes@.len() == t,
        decreases total - t,
    {
        nodes.push(GraphNode { x: 0, y: 0 });
        t = t + 1;
    }
    q = 0;
    while q < n
        invariant
            g.wf(),
            n == g.nodes@.len(),
            mm == m@,
            lab@.len() == n,
            forall|i: int| 0 <= i < n ==> #[trigger] lab@[i] == rep(g, mm, i),
            px@.len() == n,
            py@.len() == n,
            forall|t: int| 0 <= t < n && rep(g, mm, t) == t ==> (#[trigger] px@[t], py@[t]) == merged_pos(g, mm, t),
            ranks@.len() == n,
            forall|t: int| #[trigger] is_root(g, mm, t) ==> ranks@[t] == root_rank(g, mm, t),
            total == root_count(g, mm),
            nodes@.len() == total,
            q <= n,
            forall|t: int|
                0 <= t < q && #[trigger] is_root(g, mm, t) ==> nodes@[root_rank(g, mm, t) as int] == (GraphNode {
                    x: merged_pos(g, mm, t).0,
                    y: merged_pos(g, mm, t).1,
                }),
        decreases n - q,
    {
        if lab[q] == q {
            proof {
                assert(is_root(g, mm, q as int));
                lemma_rank_below_count(g, mm, q as int);
            }
            let ghost before = nodes@;
            nodes.set(ranks[q], GraphNode { x: px[q], y: py[q] });
            proof {
                assert forall|t: int|
                    0 <= t < q + 1 && #[trigger] is_root(g, mm, t) implies nodes@[root_rank(g, mm, t) as int] == (GraphNode {
                        x: merged_pos(g, mm, t).0,
                        y: merged_pos(g, mm, t).1,
                    }) by {
                    if t != q {
                        lemma_rank_injective(g, mm, t, q as int);
                        lemma_rank_below_count(g, mm, t);
                    }
                }
            }
        }
        q = q + 1;
    }
    (nodes, ranks)
}

/// Index of node `i`'s merged node.
pub open spec fn new_index(g: &StrokeGraph, m: Seq<bool>, i: int) -> nat {
    root_rank(g, m, rep(g, m, i))
}

/// `p` anchored at `fc` and `tc`: `fc` put in front unless it is already
/// first, `tc` appended unless it is already last, then every run of equal
/// pixels written once.
pub open spec fn anchored(p: Seq<(i32, i32)>, fc: (i32, i32), tc: (i32, i32)) -> Seq<(i32, i32)> {
    let p1 = if p.len() > 0 && p[0] == fc { p } else { seq![fc] + p };
    let p2 = if p1.last() == tc { p1 } else { p1.push(tc) };
    push_run(Seq::empty(), p2)
}

/// Edge `e` after merging, as `(from, to, pixels)`: re-anchored on the merged
/// nodes of its ends and turned round when that puts the larger index first.
pub open spec fn merged_edge(g: &StrokeGraph, m: Seq<bool>, e: int) -> (int, int, Seq<(i32, i32)>) {
    let ed = g.edges@[e];
    let f = new_index(g, m, ed.from as int) as int;
    let t = new_index(g, m, ed.to as int) as int;
    let p = anchored(
        ed.pixels@,
        merged_pos(g, m, rep(g, m, ed.from as int)),
        merged_pos(g, m, rep(g, m, ed.to as int)),
    );
    if f > t {
        (t, f, p.reverse())
    } else {
        (f, t, p)
    }
}

/// The unmarked edges among the first `k`, merged, in order.
pub open spec fn merged_edges(g: &StrokeGraph, m: Seq<bool>, k: int) -> Seq<(int, int, Seq<(i32, i32)>)>
    decreases k,
{
    if k <= 0 {
        Seq::empty()
    } else if m[k - 1] {
        merged_edges(g, m, k - 1)
    } else {
        merged_edges(g, m, k - 1).push(merged_edge(g, m, k - 1))
    }
}

/// An edge as `(from, to, pixels)`.
pub open spec fn edge_view(ed: GraphEdge) -> (int, int, Seq<(i32, i32)>) {
    (ed.from as int, ed.to as int, ed.pixels@)
}

fn anchor_pixels(p: &Vec<(i32, i32)>, fc: (i32, i32), tc: (i32, i32)) -> (out: Vec<(i32, i32)>)
    ensures
        out@ == anchored(p@, fc, tc),
{
    let ghost p1 = if p@.len() > 0 && p@[0] == fc { p@ } else { seq![fc] + p@ };
    let mut full: Vec<(i32, i32)> = Vec::new();
    let starts = p.len() > 0 && p[0].0 == fc.0 && p[0].1 == fc.1;
    if !starts {
        full.push(fc);
    }
    let ghost head = full@;
    let mut i: usize = 0;
    while i < p.len()
        invariant
            i <= p@.len(),
            full@ == head + p@.take(i as int),
        decreases p@.len() - i,
    {
        full.push(p[i]);
        i = i + 1;
        assert(full@ =~= head + p@.take(i as int));
    }
    assert(p@.take(p@.len() as int) == p@);
    assert(full@ =~= p1);
    let last = full[full.len() - 1];
    if !(last.0 == tc.0 && last.1 == tc.1) {
        full.push(tc);
    }
    let ghost p2 = full@;
    let mut out: Vec<(i32, i32)> = Vec::new();
    let mut j: usize = 0;
    while j < full.len()
        invariant
            full@ == p2,
            j <= p2.len(),
            out@ == push_run(Seq::empty(), p2.take(j as int)),
        decreases p2.len() - j,
    {
        let q = full[j];
        let mut repeat = false;
        if out.len() > 0 {
            let l = out[out.len() - 1];
            repeat = l.0 == q.0 && l.1 == q.1;
        }
        if !repeat {
            out.push(q);
        }
        proof {
            assert(p2.take(j + 1).drop_last() == p2.take(j as int));
            assert(p2.take(j + 1).last() == q);
        }
        j = j + 1;
    }
    assert(p2.take(p2.len() as int) == p2);
    out
}

fn reversed(p: Vec<(i32, i32)>) -> (out: Vec<(i32, i32)>)
    ensures
        out@ == p@.reverse(),
{
    let mut out: Vec<(i32, i32)> = Vec::new();
    let n = p.len();
    let mut i: usize = 0;
    while i < n
        invariant
            n == p@.len(),
            i <= n,
            out@.len() == i,
            forall|k: int| 0 <= k < i ==> #[trigger] out@[k] == p@[n - 1 - k],
        decreases n - i,
    {
        out.push(p[n - 1 - i]);
        i = i + 1;
    }
    assert(out@ =~= p@.reverse());
    out
}

/// A count held only up to 3.
pub open spec fn capped(d: nat) -> nat {
    if d >= 3 { 3 } else { d }
}

/// Whether each edge joins two distinct junctions, a junction being a node
/// with three or more edge ends (a loop counting twice).
pub fn junction_edges(graph: &StrokeGraph) -> (r: Vec<bool>)
    requires
        graph.wf(),
    ensures
        r@.len() == graph.edges@.len(),
        forall|e: int|
            0 <= e < graph.edges@.len() ==> #[trigger] r@[e] == (graph.edges@[e].from != graph.edges@[e].to
                && degree(graph.ends(), graph.edges@[e].from) >= 3 && degree(graph.ends(), graph.edges@[e].to) >= 3),
{
    let ghost ends = graph.ends();
    let n = graph.nodes.len();
    let mut deg: Vec<u8> = Vec::new();
    let mut u: usize = 0;
    while u < n
        invariant
            u <= n,
            deg@.len() == u,
            forall|x: int| 0 <= x < u ==> #[trigger] deg@[x] == 0,
        decreases n - u,
    {
        deg.push(0);
        u = u + 1;
    }
    let mut e: usize = 0;
    while e < graph.edges.len()
        invariant
            graph.wf(),
            n == graph.nodes.len(),
            ends == graph.ends(),
            e <= graph.edges.len(),
            deg@.len() == n,
            forall|x: int| 0 <= x < n ==> #[trigger] deg@[x] == capped(degree_upto(ends, x as usize, e as int)),
        decreases graph.edges.len() - e,
    {
        let a = graph.edges[e].from;
        let b = graph.edges[e].to;
        let ghost before = deg@;
        proof {
            assert(ends[e as int] == (a, b));
        }
        if deg[a] < 3 {
            let d = deg[a];
            deg.set(a, d + 1);
        }
        if deg[b] < 3 {
            let d = deg[b];
            deg.set(b, d + 1);
        }
        proof {
            assert forall|x: int| 0 <= x < n implies #[trigger] deg@[x] == capped(degree_upto(ends, x as usize, e + 1)) by {
                assert(degree_upto(ends, x as usize, e + 1) == degree_upto(ends, x as usize, e as int) + incidence(ends, e as int, x as usize));
                assert(before[x] == capped(degree_upto(ends, x as usize, e as int)));
            }
        }
        e = e + 1;
    }
    let mut r: Vec<bool> = Vec::new();
    let mut k: usize = 0;
    while k < graph.edges.len()
        invariant
            graph.wf(),
            n == graph.nodes.len(),
            ends == graph.ends(),
            k <= graph.edges.len(),
            deg@.len() == n,
            forall|x: int| 0 <= x < n ==> #[trigger] deg@[x] == capped(degree(ends, x as usize)),
            r@.len() == k,
            forall|f: int|
                0 <= f < k ==> #[trigger] r@[f] == (graph.edges@[f].from != graph.edges@[f].to
                    && degree(ends, graph.edges@[f].from) >= 3 && degree(ends, graph.edges@[f].to) >= 3),
        decreases graph.edges.len() - k,
    {
        let a = graph.edges[k].from;
        let b = graph.edges[k].to;
        r.push(a != b && deg[a] >= 3 && deg[b] >= 3);
        k = k + 1;
    }
    r
}

/// Merges the groups of nodes tied together by the edges marked in `merge`:
/// each group becomes one node at its rounded centroid (a lone node stays
/// where it is), the merged nodes are ordered row-major by position (ties by
/// their least member), the marked edges are dropped, and every other edge
/// is re-anchored on the merged nodes of its ends, with its pixel run
/// extended to reach them, runs of equal pixels written once, and its
/// direction turned so that it runs from the smaller index. A graph without
/// nodes or without marked edges is returned as it is.
pub fn merge_junctions(graph: StrokeGraph, merge: &[bool]) -> (out: StrokeGraph)
    requires
        graph.wf(),
        merge@.len() == graph.edges@.len(),
    ensures
        (graph.nodes@.len() == 0 || forall|e: int| 0 <= e < merge@.len() ==> !#[trigger] merge@[e]) ==> out == graph,
        !(graph.nodes@.len() == 0 || forall|e: int| 0 <= e < merge@.len() ==> !#[trigger] merge@[e]) ==> {
            &&& out.nodes@.len() == root_count(&graph, merge@)
            &&& forall|r: int|
                #[trigger] is_root(&graph, merge@, r) ==> out.nodes@[root_rank(&graph, merge@, r) as int] == (GraphNode {
                    x: merged_pos(&graph, merge@, r).0,
                    y: merged_pos(&graph, merge@, r).1,
                })
            &&& out.edges@.len() == merged_edges(&graph, merge@, merge@.len() as int).len()
            &&& forall|j: int|
                0 <= j < out.edges@.len() ==> edge_view(#[trigger] out.edges@[j]) == merged_edges(
                    &graph,
                    merge@,
                    merge@.len() as int,
                )[j]
        },
        out.wf(),
{
    let n = graph.nodes.len();
    let ne = graph.edges.len();
    if n == 0 {
        return graph;
    }
    let mut any = false;
    let mut e: usize = 0;
    while e < ne
        invariant
            ne == merge@.len(),
            e <= ne,
            any <==> exists|q: int| 0 <= q < e && #[trigger] merge@[q],
        decreases ne - e,
    {
        if merge[e] {
            any = true;
        }
        e = e + 1;
    }
    if !any {
        return graph;
    }
    let ghost g = graph;
    let ghost mm = merge@;
    let lab = tie_labels(&graph, merge);
    let (px, py) = merged_positions(&graph, merge, &lab);
    let (nodes, ranks) = place_nodes(&graph, merge, &lab, &px, &py);
    let mut edges: Vec<GraphEdge> = Vec::new();
    e = 0;
    while e < ne
        invariant
            g == graph,
            mm == merge@,
            graph.wf(),
            n == graph.nodes@.len(),
            ne == graph.edges@.len(),
            ne == mm.len(),
            lab@.len() == n,
            forall|i: int| 0 <= i < n ==> #[trigger] lab@[i] == rep(&g, mm, i),
            forall|i: int| 0 <= i < n ==> #[trigger] lab@[lab@[i] as int] == lab@[i],
            forall|i: int| 0 <= i < n ==> #[trigger] lab@[i] <= i,
            px@.len() == n,
            py@.len() == n,
            forall|q: int| 0 <= q < n && rep(&g, mm, q) == q ==> (#[trigger] px@[q], py@[q]) == merged_pos(&g, mm, q),
            nodes@.len() == root_count(&g, mm),
            ranks@.len() == n,
            forall|q: int| #[trigger] is_root(&g, mm, q) ==> ranks@[q] == root_rank(&g, mm, q),
            e <= ne,
            edges@.len() == merged_edges(&g, mm, e as int).len(),
            forall|j: int| 0 <= j < edges@.len() ==> edge_view(#[trigger] edges@[j]) == merged_edges(&g, mm, e as int)[j],
            forall|j: int| 0 <= j < edges@.len() ==> (#[trigger] edges@[j]).from < nodes@.len() && edges@[j].to < nodes@.len(),
        decreases ne - e,
    {
        if !merge[e] {
            let a = graph.edges[e].from;
            let b = graph.edges[e].to;
            let ra = lab[a];
            let rb = lab[b];
            proof {
                assert(lab@[a as int] <= a && lab@[b as int] <= b);
                assert(lab@[ra as int] == ra && lab@[rb as int] == rb);
                assert(is_root(&g, mm, ra as int));
                assert(is_root(&g, mm, rb as int));
                lemma_rank_below_count(&g, mm, ra as int);
                lemma_rank_below_count(&g, mm, rb as int);
            }
            let f = ranks[ra];
            let t = ranks[rb];
            let p = anchor_pixels(&graph.edges[e].pixels, (px[ra], py[ra]), (px[rb], py[rb]));
            let ed = if f > t {
                GraphEdge { from: t, to: f, pixels: reversed(p) }
            } else {
                GraphEdge { from: f, to: t, pixels: p }
            };
            let ghost before = edges@;
            edges.push(ed);
            proof {
                assert(edge_view(ed) == merged_edge(&g, mm, e as int));
                assert forall|j: int| 0 <= j < edges@.len() implies edge_view(#[trigger] edges@[j]) == merged_edges(
                    &g,
                    mm,
                    e as int + 1,
                )[j] by {
                    if j < before.len() {
                        assert(edges@[j] == before[j]);
                    }
                }
            }
        }
        e = e + 1;
    }
    StrokeGraph { nodes, edges }
}

proof fn lemma_push_run_ends(acc: Seq<(i32, i32)>, run: Seq<(i32, i32)>)
    requires
        run.len() > 0,
    ensures
        push_run(acc, run).len() > 0,
        push_run(acc, run).last() == run.last(),
        acc.len() == 0 ==> push_run(acc, run)[0] == run[0],
    decreases run.len(),
{
    let pre = push_run(acc, run.drop_last());
    if run.len() > 1 {
        lemma_push_run_ends(acc, run.drop_last());
        assert(run.drop_last()[0] == run[0]);
        if acc.len() == 0 {
            assert(push_new(pre, run.last())[0] == pre[0]);
        }
    } else {
        assert(run.drop_last().len() == 0);
        assert(pre == acc);
    }
}

/// Every edge left after merging runs from the smaller node index to the
/// larger, and its pixel run starts on the merged node it leaves and ends on
/// the merged node it reaches.
pub proof fn law_merged_edge_ends(g: &StrokeGraph, m: Seq<bool>, e: int)
    requires
        g.wf(),
        m.len() == g.edges@.len(),
        0 <= e < g.edges@.len(),
    ensures
        ({
            let x = merged_edge(g, m, e);
            let a = rep(g, m, g.edges@[e].from as int);
            let b = rep(g, m, g.edges@[e].to as int);
            &&& x.0 <= x.1
            &&& x.2.len() > 0
            &&& if root_rank(g, m, a) <= root_rank(g, m, b) {
                x.0 == root_rank(g, m, a) && x.1 == root_rank(g, m, b) && x.2[0] == merged_pos(g, m, a)
                    && x.2.last() == merged_pos(g, m, b)
            } else {
                x.0 == root_rank(g, m, b) && x.1 == root_rank(g, m, a) && x.2[0] == merged_pos(g, m, b)
                    && x.2.last() == merged_pos(g, m, a)
            }
        }),
{
    let ed = g.edges@[e];
    let fc = merged_pos(g, m, rep(g, m, ed.from as int));
    let tc = merged_pos(g, m, rep(g, m, ed.to as int));
    let p = ed.pixels@;
    let p1 = if p.len() > 0 && p[0] == fc { p } else { seq![fc] + p };
    let p2 = if p1.last() == tc { p1 } else { p1.push(tc) };
    assert(p1.len() > 0 && p1[0] == fc);
    assert(p2.len() > 0 && p2[0] == fc && p2.last() == tc);
    lemma_push_run_ends(Seq::empty(), p2);
    let q = anchored(p, fc, tc);
    assert(q == push_run(Seq::empty(), p2));
    assert(q.reverse()[0] == q.last());
    assert(q.reverse().last() == q[0]);
}

/// Merging keeps exactly the unmarked edges.
pub proof fn law_merge_keeps_unmarked_edges(g: &StrokeGraph, m: Seq<bool>, k: int)
    requires
        0 <= k <= m.len(),
    ensures
        merged_edges(g, m, k).len() == count_in(|e: int| !m[e], 0, k),
    decreases k,
{
    if k > 0 {
        law_merge_keeps_unmarked_edges(g, m, k - 1);
    }
}

proof fn lemma_count_is_card(f: spec_fn(int) -> bool, n: int)
    requires
        n >= 0,
    ensures
        Set::new(|i: int| 0 <= i < n && f(i)).finite(),
        Set::new(|i: int| 0 <= i < n && f(i)).len() == count_in(f, 0, n),
    decreases n,
{
    broadcast use vstd::set::group_set_axioms;

    let s1 = Set::new(|i: int| 0 <= i < n && f(i));
    if n == 0 {
        assert(s1 =~= Set::empty());
    } else {
        lemma_count_is_card(f, n - 1);
        let s0 = Set::new(|i: int| 0 <= i < n - 1 && f(i));
        if f(n - 1) {
            assert(s1 =~= s0.insert(n - 1));
            assert(!s0.contains(n - 1));
        } else {
            assert(s1 =~= s0);
        }
    }
}

/// Every index of the merged node list is the rank of some representative,
/// so `merge_junctions` fills every merged node.
pub proof fn law_merged_nodes_cover(g: &StrokeGraph, m: Seq<bool>, k: int)
    requires
        0 <= k < root_count(g, m),
    ensures
        exists|r: int| #[trigger] is_root(g, m, r) && root_rank(g, m, r) == k,
{
    broadcast use vstd::set::group_set_axioms;

    let n = g.nodes@.len() as int;
    let f = |r: int| is_root(g, m, r);
    lemma_count_is_card(f, n);
    let x = Set::new(|i: int| 0 <= i < n && f(i));
    let rank = |r: int| root_rank(g, m, r) as int;
    let total = root_count(g, m) as int;
    assert(vstd::relations::injective_on(rank, x)) by {
        assert forall|a: int, b: int| x.contains(a) && x.contains(b) && #[trigger] rank(a) == #[trigger] rank(b) implies a == b by {
            if a != b {
                lemma_rank_injective(g, m, a, b);
            }
        }
    }
    let y = x.map(rank);
    vstd::set_lib::lemma_map_size(x, y, rank);
    let range = vstd::set_lib::set_int_range(0, total);
    vstd::set_lib::lemma_int_range(0, total);
    assert(y.subset_of(range)) by {
        assert forall|v: int| y.contains(v) implies range.contains(v) by {
            let r = choose|r: int| x.contains(r) && rank(r) == v;
            lemma_rank_below_count(g, m, r);
        }
    }
    vstd::set_lib::lemma_subset_equality(y, range);
    assert(range.contains(k));
    assert(y.contains(k));
    let r = choose|r: int| x.contains(r) && rank(r) == k;
    assert(is_root(g, m, r) && root_rank(g, m, r) == k);
}

/// The merged nodes are in row-major order of their positions.
pub proof fn law_merged_nodes_sorted(g: &StrokeGraph, m: Seq<bool>, a: int, b: int)
    requires
        is_root(g, m, a),
        is_root(g, m, b),
        root_rank(g, m, a) < root_rank(g, m, b),
    ensures
        merged_pos(g, m, a).1 < merged_pos(g, m, b).1 || (merged_pos(g, m, a).1 == merged_pos(g, m, b).1
            && merged_pos(g, m, a).0 <= merged_pos(g, m, b).0),
{
    if !root_before(g, m, a, b) {
        if a == b {
        } else {
            assert(root_before(g, m, b, a));
            lemma_rank_order(g, m, b, a);
        }
    }
}

/// A node tied to `a` at or below `k` means a least such node exists.
proof fn lemma_least_tied_exists(g: &StrokeGraph, m: Seq<bool>, a: int, k: int)
    requires
        0 <= k,
        tied(g, m, a, k),
    ensures
        exists|r: int| least_tied(g, m, a, r),
    decreases k,
{
    if exists|j: int| 0 <= j < k && #[trigger] tied(g, m, a, j) {
        let j = choose|j: int| 0 <= j < k && #[trigger] tied(g, m, a, j);
        lemma_least_tied_exists(g, m, a, j);
    } else {
        assert(least_tied(g, m, a, k));
    }
}

/// The representative of a node is a merged node (its own representative),
/// no larger than the node.
proof fn lemma_rep_is_root(g: &StrokeGraph, m: Seq<bool>, x: int)
    requires
        0 <= x < g.nodes@.len(),
    ensures
        is_root(g, m, rep(g, m, x)),
        rep(g, m, x) <= x,
{
    assert(tied_walk(g, m, x, x, 0));
    lemma_least_tied_exists(g, m, x, x);
    let r = rep(g, m, x);
    assert(least_tied(g, m, x, r));
    assert(r <= x) by {
        if r > x {
            assert(!tied(g, m, x, x));
        }
    }
    let n0 = choose|n: nat| #[trigger] tied_walk(g, m, x, r, n);
    assert(tied_walk(g, m, r, r, 0));
    assert forall|k: int| 0 <= k < r implies !#[trigger] tied(g, m, r, k) by {
        if tied(g, m, r, k) {
            let n1 = choose|n: nat| #[trigger] tied_walk(g, m, r, k, n);
            lemma_walk_join(g, m, x, r, k, n0, n1);
            assert(tied(g, m, x, k));
        }
    }
    assert(least_tied(g, m, r, r));
    let q = rep(g, m, r);
    assert(least_tied(g, m, r, q));
    if q < r {
        assert(!tied(g, m, r, q));
    } else if q > r {
        assert(!tied(g, m, r, r));
    }
}

/// Each merged edge is the merge of some unmarked edge.
proof fn lemma_merged_edges_from(g: &StrokeGraph, m: Seq<bool>, k: int, j: int)
    requires
        0 <= k <= m.len(),
        0 <= j < merged_edges(g, m, k).len(),
    ensures
        exists|e: int| 0 <= e < k && !m[e] && merged_edges(g, m, k)[j] == #[trigger] merged_edge(g, m, e),
    decreases k,
{
    if k > 0 {
        if m[k - 1] {
            lemma_merged_edges_from(g, m, k - 1, j);
        } else if j < merged_edges(g, m, k - 1).len() {
            lemma_merged_edges_from(g, m, k - 1, j);
            let e = choose|e: int| 0 <= e < k - 1 && !m[e] && merged_edges(g, m, k - 1)[j] == #[trigger] merged_edge(g, m, e);
            assert(merged_edges(g, m, k)[j] == merged_edge(g, m, e));
        } else {
            assert(merged_edges(g, m, k)[j] == merged_edge(g, m, k - 1));
        }
    }
}

/// Merged edge `x` runs from merged node `a` to merged node `b`: its ends are
/// their ranks, in order, and its pixel run starts at `a`'s position and ends
/// at `b`'s.
pub open spec fn runs_between(g: &StrokeGraph, m: Seq<bool>, x: (int, int, Seq<(i32, i32)>), a: int, b: int) -> bool {
    &&& is_root(g, m, a)
    &&& is_root(g, m, b)
    &&& x.0 == root_rank(g, m, a)
    &&& x.1 == root_rank(g, m, b)
    &&& x.0 <= x.1 < root_count(g, m)
    &&& x.2.len() > 0
    &&& x.2[0] == merged_pos(g, m, a)
    &&& x.2.last() == merged_pos(g, m, b)
}

/// Merging never adds nodes or edges.
pub proof fn law_merge_adds_nothing(g: &StrokeGraph, m: Seq<bool>)
    requires
        m.len() == g.edges@.len(),
    ensures
        root_count(g, m) <= g.nodes@.len(),
        merged_edges(g, m, m.len() as int).len() <= g.edges@.len(),
{
    lemma_count_bounds(|i: int| is_root(g, m, i), 0, g.nodes@.len() as int);
    law_merge_keeps_unmarked_edges(g, m, m.len() as int);
    lemma_count_bounds(|e: int| !m[e], 0, m.len() as int);
}

/// Every merged edge runs from its lower-ranked merged node to its
/// higher-ranked one, with a pixel run that starts at the first's position
/// and ends at the second's.
pub proof fn law_merged_edge_anchored(g: &StrokeGraph, m: Seq<bool>, j: int)
    requires
        g.wf(),
        m.len() == g.edges@.len(),
        0 <= j < merged_edges(g, m, m.len() as int).len(),
    ensures
        exists|a: int, b: int| #[trigger] runs_between(g, m, merged_edges(g, m, m.len() as int)[j], a, b),
{
    let k = m.len() as int;
    lemma_merged_edges_from(g, m, k, j);
    let e = choose|e: int| 0 <= e < k && !m[e] && merged_edges(g, m, k)[j] == #[trigger] merged_edge(g, m, e);
    law_merged_edge_ends(g, m, e);
    let ed = g.edges@[e];
    let a = rep(g, m, ed.from as int);
    let b = rep(g, m, ed.to as int);
    lemma_rep_is_root(g, m, ed.from as int);
    lemma_rep_is_root(g, m, ed.to as int);
    lemma_rank_below_count(g, m, a);
    lemma_rank_below_count(g, m, b);
    let x = merged_edges(g, m, k)[j];
    if root_rank(g, m, a) <= root_rank(g, m, b) {
        assert(runs_between(g, m, x, a, b));
    } else {
        assert(runs_between(g, m, x, b, a));
    }
}

} // verus!
