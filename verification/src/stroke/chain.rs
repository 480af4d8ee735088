//! From traversals to pixel chains: the order in which a trace visits its
//! graphs, and the pixel run that one traversal path walks.

use vstd::prelude::*;
use crate::stroke::graph::StrokeGraph;
use crate::stroke::traverse::TraversedEdge;

verus! {

/// The pixels of the edge that step `t` walks, in walking order.
pub open spec fn step_pixels(g: &StrokeGraph, t: TraversedEdge) -> Seq<(i32, i32)> {
    let px = g.edges@[t.2 as int].pixels@;
    if t.3 {
        px.reverse()
    } else {
        px
    }
}

/// `a` may come before `b` in a trace: graphs without nodes come first, the
/// others go by their first node, row-major.
pub open spec fn graph_before(a: StrokeGraph, b: StrokeGraph) -> bool {
    ||| a.nodes.len() == 0
    ||| (b.nodes.len() > 0 && (a.nodes@[0].y < b.nodes@[0].y || (a.nodes@[0].y == b.nodes@[0].y
        && a.nodes@[0].x <= b.nodes@[0].x)))
}

/// The graphs of `s` are in trace order.
pub open spec fn graphs_sorted(s: Seq<StrokeGraph>) -> bool {
    forall|i: int, j: int| 0 <= i < j < s.len() ==> graph_before(#[trigger] s[i], #[trigger] s[j])
}

/// `a` must come strictly before `b`.
fn graph_first(a: &StrokeGraph, b: &StrokeGraph) -> (r: bool)
    ensures
        r == !graph_before(*b, *a),
{
    if b.nodes.len() == 0 {
        false
    } else if a.nodes.len() == 0 {
        true
    } else {
        let p = a.nodes[0];
        let q = b.nodes[0];
        p.y < q.y || (p.y == q.y && p.x < q.x)
    }
}

/// `a` and `b` tie: neither has to come before the other.
pub open spec fn graphs_tie(a: StrokeGraph, b: StrokeGraph) -> bool {
    graph_before(a, b) && graph_before(b, a)
}

/// `sorted` takes graph `order[a]` of `graphs` at each position `a`, each
/// graph once, and graphs that tie stay in their original order.
pub open spec fn stable_order(graphs: Seq<StrokeGraph>, sorted: Seq<StrokeGraph>, order: Seq<int>) -> bool {
    &&& order.len() == sorted.len()
    &&& sorted.len() == graphs.len()
    &&& forall|a: int| 0 <= a < order.len() ==> 0 <= #[trigger] order[a] < graphs.len() && sorted[a] == graphs[order[a]]
    &&& forall|a: int, b: int| 0 <= a < b < order.len() ==> #[trigger] order[a] != #[trigger] order[b]
    &&& forall|a: int, b: int|
        0 <= a < b < order.len() && graphs_tie(#[trigger] sorted[a], #[trigger] sorted[b]) ==> order[a] < order[b]
}

/// The graphs in trace order; graphs whose keys tie keep their order.
pub fn sort_graphs(graphs: Vec<StrokeGraph>) -> (sorted: Vec<StrokeGraph>)
    ensures
        graphs_sorted(sorted@),
        sorted@.to_multiset() == graphs@.to_multiset(),
        exists|order: Seq<int>| stable_order(graphs@, sorted@, order),
{
    let ghost all = graphs@;
    let mut rest = graphs;
    let mut r: Vec<StrokeGraph> = Vec::new();
    let ghost mut k: int = 0;
    let ghost mut order: Seq<int> = Seq::empty();
    assert(r@ =~= all.subrange(0, 0));
    assert(rest@ =~= all.subrange(0, all.len() as int));
    while rest.len() > 0
        invariant
            0 <= k <= all.len(),
            rest@ == all.subrange(k, all.len() as int),
            graphs_sorted(r@),
            r@.to_multiset() == all.subrange(0, k).to_multiset(),
            order.len() == r@.len(),
            r@.len() == k,
            forall|a: int| 0 <= a < order.len() ==> 0 <= #[trigger] order[a] < k && r@[a] == all[order[a]],
            forall|a: int, b: int| 0 <= a < b < order.len() ==> #[trigger] order[a] != #[trigger] order[b],
            forall|a: int, b: int|
                0 <= a < b < order.len() && graphs_tie(#[trigger] r@[a], #[trigger] r@[b]) ==> order[a] < order[b],
        decreases rest.len(),
    {
        let g = rest.remove(0);
        let mut i: usize = 0;
        while i < r.len() && !graph_first(&g, &r[i])
            invariant
                i <= r.len(),
                forall|a: int| 0 <= a < i ==> graph_before(#[trigger] r@[a], g),
            decreases r.len() - i,
        {
            i = i + 1;
        }
        let ghost pre = r@;
        r.insert(i, g);
        proof {
            assert(r@ == pre.insert(i as int, g));
            assert forall|a: int, b: int| 0 <= a < b < r.len() implies graph_before(#[trigger] r@[a], #[trigger] r@[b]) by {
                if b < i {
                } else if b == i {
                } else if a < i {
                    assert(graph_before(pre[i as int], pre[b - 1]) || b - 1 == i);
                } else if a == i {
                    assert(graph_before(pre[i as int], pre[b - 1]) || b - 1 == i);
                } else {
                    assert(graph_before(pre[a - 1], pre[b - 1]));
                }
            }
            assert(g == all[k]);
            assert(all.subrange(0, k + 1) == all.subrange(0, k).push(g));
            vstd::seq_lib::to_multiset_insert(pre, i as int, g);
            vstd::seq_lib::to_multiset_build(all.subrange(0, k), g);
            assert(rest@ =~= all.subrange(k + 1, all.len() as int));
            let old_order = order;
            order = order.insert(i as int, k);
            assert forall|a: int| 0 <= a < order.len() implies 0 <= #[trigger] order[a] < k + 1 && r@[a] == all[order[a]] by {
                if a < i {
                    assert(order[a] == old_order[a]);
                } else if a > i {
                    assert(order[a] == old_order[a - 1]);
                }
            }
            assert forall|a: int, b: int| 0 <= a < b < order.len() implies #[trigger] order[a] != #[trigger] order[b] by {
                if a < i && b < i {
                    assert(old_order[a] != old_order[b]);
                } else if a < i && b > i {
                    assert(old_order[a] != old_order[b - 1]);
                } else if a > i {
                    assert(old_order[a - 1] != old_order[b - 1]);
                } else if a < i {
                    assert(old_order[a] < k);
                } else {
                    assert(old_order[b - 1] < k);
                }
            }
            assert forall|a: int, b: int|
                0 <= a < b < order.len() && graphs_tie(#[trigger] r@[a], #[trigger] r@[b]) implies order[a] < order[b] by {
                if b < i {
                    assert(r@[a] == pre[a] && r@[b] == pre[b]);
                } else if b == i {
                    assert(old_order[a] < k);
                } else if a < i {
                    assert(r@[a] == pre[a] && r@[b] == pre[b - 1]);
                } else if a == i {
                    assert(r@[b] == pre[b - 1]);
                    assert(i < pre.len());
                    if b - 1 > i {
                        assert(graph_before(pre[i as int], pre[b - 1]));
                    }
                    assert(!graph_before(pre[i as int], g));
                } else {
                    assert(r@[a] == pre[a - 1] && r@[b] == pre[b - 1]);
                }
            }
            k = k + 1;
        }
    }
    assert(all.subrange(0, k) == all);
    assert(stable_order(all, r@, order));
    r
}

/// `acc` followed by `p`, unless `p` repeats the last pixel of `acc`.
pub open spec fn push_new(acc: Seq<(i32, i32)>, p: (i32, i32)) -> Seq<(i32, i32)> {
    if acc.len() > 0 && acc.last() == p {
        acc
    } else {
        acc.push(p)
    }
}

/// `acc` extended by the pixels of `run`, one by one, through `push_new`.
pub open spec fn push_run(acc: Seq<(i32, i32)>, run: Seq<(i32, i32)>) -> Seq<(i32, i32)>
    decreases run.len(),
{
    if run.len() == 0 {
        acc
    } else {
        push_new(push_run(acc, run.drop_last()), run.last())
    }
}

/// The pixel chain of a traversal path: the pixels of its edges in walking
/// order, where a pixel equal to the one before it is written once.
pub open spec fn chain_of(g: &StrokeGraph, path: Seq<TraversedEdge>) -> Seq<(i32, i32)>
    decreases path.len(),
{
    if path.len() == 0 {
        Seq::empty()
    } else {
        push_run(chain_of(g, path.drop_last()), step_pixels(g, path.last()))
    }
}

/// No pixel of `s` equals the one right after it.
pub open spec fn no_stutter(s: Seq<(i32, i32)>) -> bool {
    forall|i: int| 0 <= i < s.len() - 1 ==> #[trigger] s[i] != s[i + 1]
}

/// The pixel chain that `path` walks through `graph`.
pub fn chain_pixels(graph: &StrokeGraph, path: &[TraversedEdge]) -> (chain: Vec<(i32, i32)>)
    requires
        forall|k: int| 0 <= k < path@.len() ==> (#[trigger] path@[k]).2 < graph.edges.len(),
    ensures
        chain@ == chain_of(graph, path@),
{
    let mut chain: Vec<(i32, i32)> = Vec::new();
    let mut k: usize = 0;
    while k < path.len()
        invariant
            k <= path@.len(),
            forall|q: int| 0 <= q < path@.len() ==> (#[trigger] path@[q]).2 < graph.edges.len(),
            chain@ == chain_of(graph, path@.take(k as int)),
        decreases path@.len() - k,
    {
        let t = path[k];
        let px = &graph.edges[t.2].pixels;
        let n = px.len();
        let ghost base = chain@;
        let ghost run = step_pixels(graph, t);
        let mut j: usize = 0;
        while j < n
            invariant
                j <= n,
                n == px@.len(),
                t == path@[k as int],
                t.2 < graph.edges.len(),
                px@ == graph.edges@[t.2 as int].pixels@,
                run == step_pixels(graph, t),
                chain@ == push_run(base, run.take(j as int)),
            decreases n - j,
        {
            let p = if t.3 {
                px[n - 1 - j]
            } else {
                px[j]
            };
            assert(p == run[j as int]);
            let mut repeat = false;
            if chain.len() > 0 {
                let q = chain[chain.len() - 1];
                repeat = q.0 == p.0 && q.1 == p.1;
            }
            if !repeat {
                chain.push(p);
            }
            proof {
                assert(run.take(j + 1).drop_last() == run.take(j as int));
                assert(run.take(j + 1).last() == p);
            }
            j = j + 1;
        }
        proof {
            assert(run.take(n as int) == run);
            assert(path@.take(k + 1).drop_last() == path@.take(k as int));
            assert(path@.take(k + 1).last() == t);
        }
        k = k + 1;
    }
    assert(path@.take(path@.len() as int) == path@);
    chain
}

proof fn lemma_push_run_no_stutter(acc: Seq<(i32, i32)>, run: Seq<(i32, i32)>)
    requires
        no_stutter(acc),
    ensures
        no_stutter(push_run(acc, run)),
    decreases run.len(),
{
    if run.len() > 0 {
        lemma_push_run_no_stutter(acc, run.drop_last());
        let pre = push_run(acc, run.drop_last());
        let p = run.last();
        if !(pre.len() > 0 && pre.last() == p) {
            assert forall|i: int| 0 <= i < pre.push(p).len() - 1 implies #[trigger] pre.push(p)[i] != pre.push(p)[i + 1] by {
                if i + 1 < pre.len() {
                    assert(pre[i] != pre[i + 1]);
                }
            }
        }
    }
}

/// A chain never writes the same pixel twice in a row.
pub proof fn law_chain_no_stutter(g: &StrokeGraph, path: Seq<TraversedEdge>)
    ensures
        no_stutter(chain_of(g, path)),
    decreases path.len(),
{
    if path.len() > 0 {
        law_chain_no_stutter(g, path.drop_last());
        lemma_push_run_no_stutter(chain_of(g, path.drop_last()), step_pixels(g, path.last()));
    }
}

} // verus!
