//! Eulerian traversal of stroke graphs (Hierholzer), with a greedy fallback
//! that emits one path per run when no Eulerian path exists.

use vstd::prelude::*;
use crate::counting::{count_in, count_true, sum_in, lemma_count_bounds, lemma_count_ext, lemma_count_pos,
    lemma_count_point, lemma_sum_pos, lemma_sum_ext, lemma_sum_point};
use crate::stroke::graph::StrokeGraph;

verus! {

/// One step of a traversal: (from node, to node, edge index, walked backwards).
pub type TraversedEdge = (usize, usize, usize, bool);

/// An adjacency entry: (neighbour, edge index, walked backwards).
pub type AdjEntry = (usize, usize, bool);

/// `t` walks edge `t.2` of `ends` from `t.0` to `t.1`, backwards when `t.3`.
pub open spec fn step_ok(ends: Seq<(usize, usize)>, t: TraversedEdge) -> bool {
    &&& t.2 < ends.len()
    &&& if t.3 {
        t.0 == ends[t.2 as int].1 && t.1 == ends[t.2 as int].0
    } else {
        t.0 == ends[t.2 as int].0 && t.1 == ends[t.2 as int].1
    }
}

/// Incidences of edge `e` at node `x`: two for a loop at `x`.
pub open spec fn incidence(ends: Seq<(usize, usize)>, e: int, x: usize) -> nat {
    (if ends[e].0 == x { 1nat } else { 0nat }) + (if ends[e].1 == x { 1nat } else { 0nat })
}

/// Degree of node `x`, a loop counting twice.
pub open spec fn degree(ends: Seq<(usize, usize)>, x: usize) -> nat {
    sum_in(|e: int| incidence(ends, e, x), 0, ends.len() as int)
}

/// Degree of `x` counting only edges not yet marked in `used`.
pub open spec fn open_degree(ends: Seq<(usize, usize)>, used: Seq<bool>, x: usize) -> nat {
    sum_in(|e: int| if used[e] { 0nat } else { incidence(ends, e, x) }, 0, ends.len() as int)
}

/// Number of nodes of odd degree.
pub open spec fn odd_count(g: &StrokeGraph) -> nat {
    count_in(|x: int| degree(g.ends(), x as usize) % 2 == 1, 0, g.nodes.len() as int)
}

/// Adjacency order: by neighbour, then edge index, forward before backward.
pub open spec fn entry_before(a: AdjEntry, b: AdjEntry) -> bool {
    a.0 < b.0 || (a.0 == b.0 && (a.1 < b.1 || (a.1 == b.1 && !a.2 && b.2)))
}

pub open spec fn entries_sorted(s: Seq<AdjEntry>) -> bool {
    forall|i: int, j: int| 0 <= i < j < s.len() ==> entry_before(#[trigger] s[i], #[trigger] s[j])
}

/// `adj` lists, for each of `n` nodes, every walk out of it along `ends`, in
/// adjacency order.
pub open spec fn adjacency_of(adj: Seq<Vec<AdjEntry>>, ends: Seq<(usize, usize)>, n: usize) -> bool {
    &&& adj.len() == n
    &&& ends.len() <= usize::MAX
    &&& forall|e: int| 0 <= e < ends.len() ==> (#[trigger] ends[e]).0 < n && ends[e].1 < n
    &&& forall|u: int, j: int|
        0 <= u < n && 0 <= j < adj[u].len() ==> step_ok(
            ends,
            (u as usize, (#[trigger] adj[u][j]).0, adj[u][j].1, adj[u][j].2),
        )
    &&& forall|e: int|
        0 <= e < ends.len() ==> adj[(#[trigger] ends[e]).0 as int]@.contains((ends[e].1, e as usize, false))
            && adj[ends[e].1 as int]@.contains((ends[e].0, e as usize, true))
    &&& forall|u: int| 0 <= u < n ==> entries_sorted(#[trigger] adj[u]@)
}

fn entry_lt(a: AdjEntry, b: AdjEntry) -> (r: bool)
    ensures
        r == entry_before(a, b),
{
    a.0 < b.0 || (a.0 == b.0 && (a.1 < b.1 || (a.1 == b.1 && !a.2 && b.2)))
}

/// Inserts `t` into a sorted list, keeping it sorted.
fn sorted_insert(v: &mut Vec<AdjEntry>, t: AdjEntry)
    requires
        entries_sorted(old(v)@),
        !old(v)@.contains(t),
    ensures
        entries_sorted(final(v)@),
        final(v)@.len() == old(v)@.len() + 1,
        forall|x: AdjEntry| #[trigger] final(v)@.contains(x) <==> (x == t || old(v)@.contains(x)),
{
    let mut i: usize = 0;
    while i < v.len() && !entry_lt(t, v[i])
        invariant
            i <= v.len(),
            entries_sorted(v@),
            !v@.contains(t),
            forall|k: int| 0 <= k < i ==> entry_before(#[trigger] v@[k], t),
        decreases v.len() - i,
    {
        i = i + 1;
    }
    proof {
        if i < v.len() {
            assert(entry_before(t, v@[i as int]));
        }
    }
    let ghost pre = v@;
    v.insert(i, t);
    proof {
        assert(v@ == pre.insert(i as int, t));
        assert forall|a: int, b: int| 0 <= a < b < v@.len() implies entry_before(
            #[trigger] v@[a],
            #[trigger] v@[b],
        ) by {
            if b < i {
            } else if b == i {
            } else if a < i {
                assert(entry_before(v@[a], t));
                assert(entry_before(t, pre[i as int]));
                if b - 1 > i {
                    assert(entry_before(pre[i as int], pre[b - 1]));
                }
            } else if a == i {
                if b - 1 > i {
                    assert(entry_before(pre[i as int], pre[b - 1]));
                }
            } else {
                assert(entry_before(pre[a - 1], pre[b - 1]));
            }
        }
        assert forall|x: AdjEntry| #[trigger] v@.contains(x) <==> (x == t || pre.contains(x)) by {
            if v@.contains(x) {
                let k = choose|k: int| 0 <= k < v@.len() && v@[k] == x;
                if k < i {
                    assert(pre[k] == x);
                } else if k > i {
                    assert(pre[k - 1] == x);
                }
            }
            if x == t {
                assert(v@[i as int] == t);
            } else if pre.contains(x) {
                let k = choose|k: int| 0 <= k < pre.len() && pre[k] == x;
                if k < i {
                    assert(v@[k] == x);
                } else {
                    assert(v@[k + 1] == x);
                }
            }
        }
    }
}


/// The walks out of node `u`, in adjacency order.
fn adjacency_list(ends: &Vec<(usize, usize)>, u: usize) -> (list: Vec<AdjEntry>)
    ensures
        entries_sorted(list@),
        forall|j: int| 0 <= j < list.len() ==> step_ok(ends@, (u, (#[trigger] list[j]).0, list[j].1, list[j].2)),
        forall|e: int| 0 <= e < ends.len() && (#[trigger] ends@[e]).0 == u ==> list@.contains((ends@[e].1, e as usize, false)),
        forall|e: int| 0 <= e < ends.len() && (#[trigger] ends@[e]).1 == u ==> list@.contains((ends@[e].0, e as usize, true)),
{
    let mut list: Vec<AdjEntry> = Vec::new();
    let mut e: usize = 0;
    while e < ends.len()
        invariant
            e <= ends.len(),
            entries_sorted(list@),
            forall|j: int| 0 <= j < list.len() ==> step_ok(ends@, (u, (#[trigger] list[j]).0, list[j].1, list[j].2)),
            forall|j: int| 0 <= j < list.len() ==> (#[trigger] list[j]).1 < e,
            forall|f: int| 0 <= f < e && (#[trigger] ends@[f]).0 == u ==> list@.contains((ends@[f].1, f as usize, false)),
            forall|f: int| 0 <= f < e && (#[trigger] ends@[f]).1 == u ==> list@.contains((ends@[f].0, f as usize, true)),
        decreases ends.len() - e,
    {
        let (a, b) = ends[e];
        let ghost before = list@;
        if a == u {
            proof {
                if list@.contains((b, e, false)) {
                    let j = choose|j: int| 0 <= j < list.len() && list@[j] == (b, e, false);
                    assert(list[j].1 < e);
                }
            }
            sorted_insert(&mut list, (b, e, false));
        }
        let ghost mid = list@;
        assert forall|j: int| 0 <= j < list.len() implies (#[trigger] list[j]).1 < e || (list[j] == (b, e, false) && a == u) by {
            assert(mid.contains(list@[j]));
            if list@[j] != (b, e, false) || a != u {
                assert(before.contains(list@[j]));
                let k = choose|k: int| 0 <= k < before.len() && before[k] == list@[j];
            }
        }
        if b == u {
            proof {
                if list@.contains((a, e, true)) {
                    let j = choose|j: int| 0 <= j < list.len() && list@[j] == (a, e, true);
                    assert(list[j].1 < e || (list[j] == (b, e, false) && a == u));
                }
            }
            sorted_insert(&mut list, (a, e, true));
        }
        proof {
            assert forall|j: int| 0 <= j < list.len() implies step_ok(ends@, (u, (#[trigger] list[j]).0, list[j].1, list[j].2)) && list[j].1 < e + 1 by {
                assert(list@.contains(list@[j]));
                if list@[j] != (a, e, true) || b != u {
                    assert(mid.contains(list@[j]));
                    let k = choose|k: int| 0 <= k < mid.len() && mid[k] == list@[j];
                    assert(mid[k].1 < e || (mid[k] == (b, e, false) && a == u));
                    if mid[k] != (b, e, false) || a != u {
                        assert(before.contains(mid[k]));
                        let k2 = choose|k2: int| 0 <= k2 < before.len() && before[k2] == mid[k];
                    }
                }
            }
            assert forall|f: int| 0 <= f < e + 1 && (#[trigger] ends@[f]).0 == u implies list@.contains((ends@[f].1, f as usize, false)) by {
                if f < e {
                    assert(before.contains((ends@[f].1, f as usize, false)));
                    assert(mid.contains((ends@[f].1, f as usize, false)));
                } else {
                    assert(mid.contains((b, e, false)));
                }
            }
            assert forall|f: int| 0 <= f < e + 1 && (#[trigger] ends@[f]).1 == u implies list@.contains((ends@[f].0, f as usize, true)) by {
                if f < e {
                    assert(before.contains((ends@[f].0, f as usize, true)));
                    assert(mid.contains((ends@[f].0, f as usize, true)));
                }
            }
        }
        e = e + 1;
    }
    list
}

/// The adjacency lists of nodes `0..n`.
fn build_adjacency(ends: &Vec<(usize, usize)>, n: usize) -> (adj: Vec<Vec<AdjEntry>>)
    requires
        forall|e: int| 0 <= e < ends.len() ==> (#[trigger] ends@[e]).0 < n && ends@[e].1 < n,
    ensures
        adjacency_of(adj@, ends@, n),
{
    let mut adj: Vec<Vec<AdjEntry>> = Vec::new();
    let mut u: usize = 0;
    while u < n
        invariant
            u <= n,
            adj.len() == u,
            forall|e: int| 0 <= e < ends.len() ==> (#[trigger] ends@[e]).0 < n && ends@[e].1 < n,
            forall|v: int, j: int|
                0 <= v < u && 0 <= j < adj[v].len() ==> step_ok(
                    ends@,
                    (v as usize, (#[trigger] adj[v][j]).0, adj[v][j].1, adj[v][j].2),
                ),
            forall|e: int| 0 <= e < ends.len() && (#[trigger] ends@[e]).0 < u ==> adj[ends@[e].0 as int]@.contains((ends@[e].1, e as usize, false)),
            forall|e: int| 0 <= e < ends.len() && (#[trigger] ends@[e]).1 < u ==> adj[ends@[e].1 as int]@.contains((ends@[e].0, e as usize, true)),
            forall|v: int| 0 <= v < u ==> entries_sorted(#[trigger] adj[v]@),
        decreases n - u,
    {
        let list = adjacency_list(ends, u);
        adj.push(list);
        u = u + 1;
    }
    assert(ends@.len() == ends.len());
    adj
}


/// Steps of a walk, each along an edge of `ends`.
pub open spec fn steps_ok(ends: Seq<(usize, usize)>, w: Seq<TraversedEdge>) -> bool {
    forall|i: int| 0 <= i < w.len() ==> step_ok(ends, #[trigger] w[i])
}

/// Each step starts where the previous one ended.
pub open spec fn chained(w: Seq<TraversedEdge>) -> bool {
    forall|i: int| 0 <= i < w.len() - 1 ==> (#[trigger] w[i]).1 == w[i + 1].0
}

/// No edge is walked twice.
pub open spec fn edges_distinct(w: Seq<TraversedEdge>) -> bool {
    forall|i: int, j: int| 0 <= i < j < w.len() ==> (#[trigger] w[i]).2 != (#[trigger] w[j]).2
}

pub open spec fn walk_uses(w: Seq<TraversedEdge>, e: int) -> bool {
    exists|i: int| 0 <= i < w.len() && (#[trigger] w[i]).2 == e
}

/// The node a walk from `s` ends at.
pub open spec fn walk_end(w: Seq<TraversedEdge>, s: usize) -> usize {
    if w.len() == 0 { s } else { w[w.len() - 1].1 }
}

/// Every entry of an adjacency list is along a used edge.
pub open spec fn exhausted(list: Seq<AdjEntry>, used: Seq<bool>) -> bool {
    forall|j: int| 0 <= j < list.len() ==> used[(#[trigger] list[j]).1 as int]
}

/// Every node of `0..n` has an even number of unused incidences.
pub open spec fn all_even(ends: Seq<(usize, usize)>, used: Seq<bool>, n: usize) -> bool {
    forall|x: usize| x < n ==> #[trigger] open_degree(ends, used, x) % 2 == 0
}

proof fn lemma_open_degree_use(ends: Seq<(usize, usize)>, used: Seq<bool>, e: int, x: usize)
    requires
        used.len() == ends.len(),
        0 <= e < ends.len(),
        !used[e],
    ensures
        open_degree(ends, used.update(e, true), x) + incidence(ends, e, x) == open_degree(ends, used, x),
{
    let u2 = used.update(e, true);
    let f = |i: int| if used[i] { 0nat } else { incidence(ends, i, x) };
    let g = |i: int| if u2[i] { 0nat } else { incidence(ends, i, x) };
    lemma_sum_point(f, g, 0, ends.len() as int, e);
}

proof fn lemma_open_degree_unused(ends: Seq<(usize, usize)>, used: Seq<bool>, x: usize)
    requires
        used.len() == ends.len(),
        forall|e: int| 0 <= e < used.len() ==> !used[e],
    ensures
        open_degree(ends, used, x) == degree(ends, x),
{
    let f = |i: int| if used[i] { 0nat } else { incidence(ends, i, x) };
    let g = |i: int| incidence(ends, i, x);
    lemma_sum_ext(f, g, 0, ends.len() as int);
}

/// An unused incidence at `x` shows up as an unused entry of `x`'s list.
proof fn lemma_open_entry(adj: Seq<Vec<AdjEntry>>, ends: Seq<(usize, usize)>, n: usize, used: Seq<bool>, x: usize)
    requires
        adjacency_of(adj, ends, n),
        used.len() == ends.len(),
        x < n,
        open_degree(ends, used, x) > 0,
    ensures
        !exhausted(adj[x as int]@, used),
{
    let f = |i: int| if used[i] { 0nat } else { incidence(ends, i, x) };
    lemma_sum_pos(f, 0, ends.len() as int);
    let e = choose|i: int| 0 <= i < ends.len() && #[trigger] f(i) > 0;
    assert(!used[e]);
    let _ = ends[e];
    if ends[e].0 == x {
        let t = (ends[e].1, e as usize, false);
        assert(adj[x as int]@.contains(t));
        let j = choose|j: int| 0 <= j < adj[x as int]@.len() && adj[x as int]@[j] == t;
        assert(!used[adj[x as int][j].1 as int]);
    } else {
        let t = (ends[e].0, e as usize, true);
        assert(adj[x as int]@.contains(t));
        let j = choose|j: int| 0 <= j < adj[x as int]@.len() && adj[x as int]@[j] == t;
        assert(!used[adj[x as int][j].1 as int]);
    }
}

/// `lists` holds, for each of `n` nodes, exactly the walks out of it along
/// `ends`, in adjacency order.
pub open spec fn lists_ok(lists: Seq<Seq<AdjEntry>>, ends: Seq<(usize, usize)>, n: usize) -> bool {
    &&& lists.len() == n
    &&& forall|u: int, j: int|
        0 <= u < n && 0 <= j < lists[u].len() ==> step_ok(
            ends,
            (u as usize, (#[trigger] lists[u][j]).0, lists[u][j].1, lists[u][j].2),
        )
    &&& forall|e: int|
        0 <= e < ends.len() ==> lists[(#[trigger] ends[e]).0 as int].contains((ends[e].1, e as usize, false))
            && lists[ends[e].1 as int].contains((ends[e].0, e as usize, true))
    &&& forall|u: int| 0 <= u < n ==> entries_sorted(#[trigger] lists[u])
}

/// The adjacency lists of nodes `0..n` along `ends`: one list per node, of
/// every walk out of it, by neighbour, then edge index, forward first.
pub open spec fn adjacency_lists(ends: Seq<(usize, usize)>, n: usize) -> Seq<Seq<AdjEntry>> {
    choose|lists: Seq<Seq<AdjEntry>>| lists_ok(lists, ends, n)
}

/// Two lists in adjacency order with the same entries are equal.
proof fn lemma_sorted_same(s1: Seq<AdjEntry>, s2: Seq<AdjEntry>)
    requires
        entries_sorted(s1),
        entries_sorted(s2),
        forall|x: AdjEntry| s1.contains(x) <==> s2.contains(x),
    ensures
        s1 == s2,
    decreases s1.len(),
{
    if s1.len() == 0 {
        if s2.len() > 0 {
            assert(s2.contains(s2[0]));
        }
        assert(s1 =~= s2);
    } else {
        assert(s1.contains(s1[0]));
        assert(s2.len() > 0);
        assert(s2.contains(s2[0]));
        let j = choose|j: int| 0 <= j < s2.len() && s2[j] == s1[0];
        let k = choose|k: int| 0 <= k < s1.len() && s1[k] == s2[0];
        if j > 0 && k > 0 {
            assert(entry_before(s2[0], s2[j]));
            assert(entry_before(s1[0], s1[k]));
        }
        assert(s1[0] == s2[0]);
        let t1 = s1.drop_first();
        let t2 = s2.drop_first();
        assert forall|x: AdjEntry| t1.contains(x) <==> t2.contains(x) by {
            if t1.contains(x) {
                let i = choose|i: int| 0 <= i < t1.len() && t1[i] == x;
                assert(entry_before(s1[0], s1[i + 1]));
                assert(s1.contains(x));
                let i2 = choose|i2: int| 0 <= i2 < s2.len() && s2[i2] == x;
                assert(i2 != 0);
                assert(t2[i2 - 1] == x);
            }
            if t2.contains(x) {
                let i = choose|i: int| 0 <= i < t2.len() && t2[i] == x;
                assert(entry_before(s2[0], s2[i + 1]));
                assert(s2.contains(x));
                let i1 = choose|i1: int| 0 <= i1 < s1.len() && s1[i1] == x;
                assert(i1 != 0);
                assert(t1[i1 - 1] == x);
            }
        }
        assert forall|a: int, b: int| 0 <= a < b < t1.len() implies entry_before(#[trigger] t1[a], #[trigger] t1[b]) by {
            assert(entry_before(s1[a + 1], s1[b + 1]));
        }
        assert forall|a: int, b: int| 0 <= a < b < t2.len() implies entry_before(#[trigger] t2[a], #[trigger] t2[b]) by {
            assert(entry_before(s2[a + 1], s2[b + 1]));
        }
        lemma_sorted_same(t1, t2);
        assert(s1 =~= s2) by {
            assert forall|i: int| 0 <= i < s1.len() implies s1[i] == s2[i] by {
                if i > 0 {
                    assert(t1[i - 1] == t2[i - 1]);
                }
            }
        }
    }
}

/// Adjacency lists are determined by the edges: the lists built for them are
/// `adjacency_lists`.
proof fn lemma_adjacency_lists(adj: Seq<Vec<AdjEntry>>, ends: Seq<(usize, usize)>, n: usize)
    requires
        adjacency_of(adj, ends, n),
    ensures
        lists_of(adj) == adjacency_lists(ends, n),
{
    let l1 = lists_of(adj);
    assert(lists_ok(l1, ends, n)) by {
        assert forall|u: int, j: int| 0 <= u < n && 0 <= j < l1[u].len() implies step_ok(
            ends,
            (u as usize, (#[trigger] l1[u][j]).0, l1[u][j].1, l1[u][j].2),
        ) by {
            assert(l1[u] == adj[u]@);
            assert(step_ok(ends, (u as usize, adj[u][j].0, adj[u][j].1, adj[u][j].2)));
        }
        assert forall|e: int| 0 <= e < ends.len() implies l1[(#[trigger] ends[e]).0 as int].contains((ends[e].1, e as usize, false))
            && l1[ends[e].1 as int].contains((ends[e].0, e as usize, true)) by {
            assert(l1[ends[e].0 as int] == adj[ends[e].0 as int]@);
            assert(l1[ends[e].1 as int] == adj[ends[e].1 as int]@);
        }
        assert forall|u: int| 0 <= u < n implies entries_sorted(#[trigger] l1[u]) by {
            assert(l1[u] == adj[u]@);
        }
    }
    let l2 = adjacency_lists(ends, n);
    assert(lists_ok(l2, ends, n));
    assert forall|u: int| 0 <= u < n implies #[trigger] l1[u] == l2[u] by {
        assert forall|x: AdjEntry| l1[u].contains(x) implies l2[u].contains(x) by {
            let j = choose|j: int| 0 <= j < l1[u].len() && l1[u][j] == x;
            assert(step_ok(ends, (u as usize, l1[u][j].0, l1[u][j].1, l1[u][j].2)));
            let _ = ends[x.1 as int];
        }
        assert forall|x: AdjEntry| l2[u].contains(x) implies l1[u].contains(x) by {
            let j = choose|j: int| 0 <= j < l2[u].len() && l2[u][j] == x;
            assert(step_ok(ends, (u as usize, l2[u][j].0, l2[u][j].1, l2[u][j].2)));
            let _ = ends[x.1 as int];
        }
        lemma_sorted_same(l1[u], l2[u]);
    }
    assert(l1 =~= l2);
}

/// The contents of each adjacency list.
pub open spec fn lists_of(adj: Seq<Vec<AdjEntry>>) -> Seq<Seq<AdjEntry>> {
    adj.map_values(|l: Vec<AdjEntry>| l@)
}

/// The first entry of `list`, from position `j` on, along an unused edge.
pub open spec fn first_open_from(list: Seq<AdjEntry>, used: Seq<bool>, j: int) -> Option<AdjEntry>
    decreases list.len() - j,
{
    if j < 0 || j >= list.len() {
        None
    } else if !used[list[j].1 as int] {
        Some(list[j])
    } else {
        first_open_from(list, used, j + 1)
    }
}

/// The greedy walk from `cur`: repeatedly along the first entry over an
/// unused edge, marking it, until the current node has none (or `fuel` steps
/// were taken). Gives the steps and the marks afterwards.
pub open spec fn greedy_walk(adj: Seq<Seq<AdjEntry>>, used: Seq<bool>, cur: usize, fuel: nat) -> (Seq<TraversedEdge>, Seq<bool>)
    decreases fuel,
{
    if fuel == 0 {
        (seq![], used)
    } else {
        match first_open_from(adj[cur as int], used, 0) {
            None => (seq![], used),
            Some(t) => {
                let rest = greedy_walk(adj, used.update(t.1 as int, true), t.0, (fuel - 1) as nat);
                (seq![(cur, t.0, t.1, t.2)] + rest.0, rest.1)
            },
        }
    }
}

/// The first entry of `list` along an unused edge.
fn first_open(list: &Vec<AdjEntry>, used: &Vec<bool>) -> (r: Option<AdjEntry>)
    requires
        forall|j: int| 0 <= j < list.len() ==> (#[trigger] list[j]).1 < used.len(),
    ensures
        r == first_open_from(list@, used@, 0),
        r.is_none() ==> exhausted(list@, used@),
        r matches Some(t) ==> list@.contains(t) && !used@[t.1 as int],
{
    let mut j: usize = 0;
    while j < list.len()
        invariant
            j <= list.len(),
            forall|k: int| 0 <= k < list.len() ==> (#[trigger] list[k]).1 < used.len(),
            forall|k: int| 0 <= k < j ==> used@[(#[trigger] list[k]).1 as int],
            first_open_from(list@, used@, 0) == first_open_from(list@, used@, j as int),
        decreases list.len() - j,
    {
        let t = list[j];
        if !used[t.1] {
            assert(list@[j as int] == t);
            return Some(t);
        }
        j = j + 1;
    }
    None
}

/// Walks from `start`, always along the first unused entry, until the
/// current node has none left; marks each edge walked.
fn trace_walk(
    adj: &Vec<Vec<AdjEntry>>,
    Ghost(ends): Ghost<Seq<(usize, usize)>>,
    used: &mut Vec<bool>,
    start: usize,
) -> (walk: Vec<TraversedEdge>)
    requires
        adjacency_of(adj@, ends, adj.len()),
        old(used).len() == ends.len(),
        start < adj.len(),
    ensures
        final(used).len() == ends.len(),
        steps_ok(ends, walk@),
        chained(walk@),
        edges_distinct(walk@),
        walk.len() > 0 ==> walk[0].0 == start,
        walk_end(walk@, start) < adj.len(),
        forall|i: int| 0 <= i < walk.len() ==> !old(used)@[(#[trigger] walk[i]).2 as int],
        forall|e: int| 0 <= e < ends.len() ==> #[trigger] final(used)@[e] == (old(used)@[e] || walk_uses(walk@, e)),
        count_true(final(used)@) == count_true(old(used)@) + walk.len(),
        exhausted(adj[walk_end(walk@, start) as int]@, final(used)@),
        !exhausted(adj[start as int]@, old(used)@) ==> walk.len() > 0,
        all_even(ends, old(used)@, adj.len()) ==> walk_end(walk@, start) == start && all_even(ends, final(used)@, adj.len()),
        (walk@, final(used)@) == greedy_walk(lists_of(adj@), old(used)@, start, ends.len() as nat),
{
    let ghost n = adj.len();
    let ghost used0 = used@;
    let ghost fuel0 = ends.len() as nat;
    let ghost even0 = all_even(ends, used0, n);
    let mut walk: Vec<TraversedEdge> = Vec::new();
    let mut cur = start;
    proof {
        lemma_count_bounds(|i: int| used@[i], 0, used@.len() as int);
        assert(Seq::<TraversedEdge>::empty() + greedy_walk(lists_of(adj@), used@, cur, fuel0).0 =~= greedy_walk(lists_of(adj@), used@, cur, fuel0).0);
    }
    loop
        invariant
            adjacency_of(adj@, ends, adj.len()),
            n == adj.len(),
            used.len() == ends.len(),
            used0.len() == ends.len(),
            cur < n,
            cur == walk_end(walk@, start),
            steps_ok(ends, walk@),
            chained(walk@),
            edges_distinct(walk@),
            walk.len() > 0 ==> walk[0].0 == start,
            forall|i: int| 0 <= i < walk.len() ==> !used0[(#[trigger] walk[i]).2 as int],
            forall|e: int| 0 <= e < ends.len() ==> #[trigger] used@[e] == (used0[e] || walk_uses(walk@, e)),
            count_true(used@) == count_true(used0) + walk.len(),
            count_true(used@) <= used.len(),
            walk.len() == 0 ==> used@ == used0,
            even0 == all_even(ends, used0, n),
            even0 ==> forall|x: usize| x < n && x != start && x != cur ==> #[trigger] open_degree(ends, used@, x) % 2 == 0,
            even0 && start != cur ==> open_degree(ends, used@, start) % 2 == 1 && open_degree(ends, used@, cur) % 2 == 1,
            even0 && start == cur ==> open_degree(ends, used@, start) % 2 == 0,
            fuel0 == ends.len(),
            walk.len() <= fuel0,
            greedy_walk(lists_of(adj@), used0, start, fuel0) == (
                walk@ + greedy_walk(lists_of(adj@), used@, cur, (fuel0 - walk.len()) as nat).0,
                greedy_walk(lists_of(adj@), used@, cur, (fuel0 - walk.len()) as nat).1,
            ),
        ensures
            exhausted(adj[cur as int]@, used@),
            greedy_walk(lists_of(adj@), used0, start, fuel0) == (walk@, used@),
        decreases used.len() - count_true(used@),
    {
        proof {
            assert forall|j: int| 0 <= j < adj[cur as int].len() implies (#[trigger] adj[cur as int][j]).1 < used.len() by {
                assert(step_ok(ends, (cur, adj[cur as int][j].0, adj[cur as int][j].1, adj[cur as int][j].2)));
            }
        }
        match first_open(&adj[cur], used) {
            None => {
                proof {
                    let f = (fuel0 - walk.len()) as nat;
                    assert(greedy_walk(lists_of(adj@), used@, cur, f) == (Seq::<TraversedEdge>::empty(), used@));
                    assert(walk@ + Seq::<TraversedEdge>::empty() =~= walk@);
                }
                break;
            },
            Some(t) => {
                let (v, e, r) = t;
                let ghost old_used = used@;
                let ghost old_walk = walk@;
                let ghost f = (fuel0 - walk.len()) as nat;
                proof {
                    let j = choose|j: int| 0 <= j < adj[cur as int]@.len() && adj[cur as int]@[j] == t;
                    assert(step_ok(ends, (cur, adj[cur as int][j].0, adj[cur as int][j].1, adj[cur as int][j].2)));
                }
                used.set(e, true);
                walk.push((cur, v, e, r));
                proof {
                    assert(used@ == old_used.update(e as int, true));
                    lemma_count_point(|i: int| old_used[i], |i: int| used@[i], 0, used@.len() as int, e as int);
                    lemma_count_bounds(|i: int| used@[i], 0, used@.len() as int);
                    assert(walk@[walk.len() - 1] == (cur, v, e, r));
                    assert forall|i: int| 0 <= i < walk.len() implies step_ok(ends, #[trigger] walk@[i]) by {
                        if i < walk.len() - 1 {
                            assert(walk@[i] == old_walk[i]);
                        }
                    }
                    assert forall|i: int| 0 <= i < walk.len() - 1 implies (#[trigger] walk@[i]).1 == walk@[i + 1].0 by {
                        assert(walk@[i] == old_walk[i]);
                        if i + 1 < walk.len() - 1 {
                            assert(walk@[i + 1] == old_walk[i + 1]);
                        }
                    }
                    assert(!walk_uses(old_walk, e as int)) by {
                        if walk_uses(old_walk, e as int) {
                            let i = choose|i: int| 0 <= i < old_walk.len() && (#[trigger] old_walk[i]).2 == e;
                            assert(old_used[e as int]);
                        }
                    }
                    assert forall|i: int, k: int| 0 <= i < k < walk.len() implies (#[trigger] walk@[i]).2 != (#[trigger] walk@[k]).2 by {
                        assert(walk@[i] == old_walk[i]);
                        if k < walk.len() - 1 {
                            assert(walk@[k] == old_walk[k]);
                        } else {
                            assert(old_walk[i].2 != e);
                        }
                    }
                    assert(!used0[e as int]);
                    assert forall|i: int| 0 <= i < walk.len() implies !used0[(#[trigger] walk@[i]).2 as int] by {
                        if i < walk.len() - 1 {
                            assert(walk@[i] == old_walk[i]);
                        }
                    }
                    assert forall|f: int| 0 <= f < ends.len() implies #[trigger] used@[f] == (used0[f] || walk_uses(walk@, f)) by {
                        if walk_uses(old_walk, f) {
                            let i = choose|i: int| 0 <= i < old_walk.len() && (#[trigger] old_walk[i]).2 == f;
                            assert(walk@[i] == old_walk[i]);
                        }
                        if walk_uses(walk@, f) {
                            let i = choose|i: int| 0 <= i < walk.len() && (#[trigger] walk@[i]).2 == f;
                            if i < walk.len() - 1 {
                                assert(walk@[i] == old_walk[i]);
                            }
                        }
                    }
                    if even0 {
                        assert forall|x: usize| x < n implies #[trigger] open_degree(ends, used@, x) + incidence(ends, e as int, x) == open_degree(ends, old_used, x) by {
                            lemma_open_degree_use(ends, old_used, e as int, x);
                        }
                        assert forall|x: usize| x < n && x != start && x != v implies #[trigger] open_degree(ends, used@, x) % 2 == 0 by {
                            assert(open_degree(ends, used@, x) + incidence(ends, e as int, x) == open_degree(ends, old_used, x));
                        }
                        assert(open_degree(ends, used@, start) + incidence(ends, e as int, start) == open_degree(ends, old_used, start));
                        assert(open_degree(ends, used@, v) + incidence(ends, e as int, v) == open_degree(ends, old_used, v));
                        assert(open_degree(ends, used@, cur) + incidence(ends, e as int, cur) == open_degree(ends, old_used, cur));
                    }
                    assert(f > 0);
                    let rest = greedy_walk(lists_of(adj@), used@, v, (f - 1) as nat);
                    assert(greedy_walk(lists_of(adj@), old_used, cur, f) == (seq![(cur, v, e, r)] + rest.0, rest.1));
                    assert(old_walk + (seq![(cur, v, e, r)] + rest.0) =~= walk@ + rest.0);
                }
                cur = v;
            },
        }
    }
    proof {
        if !exhausted(adj[start as int]@, used0) && walk.len() == 0 {
            assert(used@ == used0);
        }
        if even0 {
            if cur != start {
                lemma_open_entry(adj@, ends, n as usize, used@, cur);
            }
            assert forall|x: usize| x < n implies #[trigger] open_degree(ends, used@, x) % 2 == 0 by {}
        }
    }
    walk
}


/// Node `x` is the start or end of some step of `w`.
pub open spec fn walk_touches(w: Seq<TraversedEdge>, x: usize) -> bool {
    exists|i: int| 0 <= i < w.len() && ((#[trigger] w[i]).0 == x || w[i].1 == x)
}

/// The first position from `i` on whose step starts at a node with an entry
/// along an unused edge.
pub open spec fn first_open_step(adj: Seq<Seq<AdjEntry>>, used: Seq<bool>, c: Seq<TraversedEdge>, i: int) -> Option<int>
    decreases c.len() - i,
{
    if i < 0 || i >= c.len() {
        None
    } else if first_open_from(adj[c[i].0 as int], used, 0) is Some {
        Some(i)
    } else {
        first_open_step(adj, used, c, i + 1)
    }
}

/// Where Hierholzer's loop splices in the next sub-walk, and from which
/// node: the first step of `c` that starts at a node with an unused edge,
/// else the end of `c` when its last node has one.
pub open spec fn splice_point(adj: Seq<Seq<AdjEntry>>, used: Seq<bool>, c: Seq<TraversedEdge>) -> Option<(int, usize)> {
    match first_open_step(adj, used, c, 0) {
        Some(i) => Some((i, c[i].0)),
        None => if c.len() > 0 && first_open_from(adj[c[c.len() - 1].1 as int], used, 0) is Some {
            Some((c.len() as int, c[c.len() - 1].1))
        } else {
            None
        },
    }
}

/// Hierholzer's loop from walk `c` and marks `used`: splice a greedy walk in
/// at each splice point until there is none (or `fuel` splices were made).
pub open spec fn spliced(adj: Seq<Seq<AdjEntry>>, used: Seq<bool>, c: Seq<TraversedEdge>, fuel: nat) -> Seq<TraversedEdge>
    decreases fuel,
{
    if fuel == 0 {
        c
    } else {
        match splice_point(adj, used, c) {
            None => c,
            Some((idx, u)) => {
                let w = greedy_walk(adj, used, u, used.len());
                spliced(adj, w.1, c.subrange(0, idx) + w.0 + c.subrange(idx, c.len() as int), (fuel - 1) as nat)
            },
        }
    }
}

/// The closed walk Hierholzer's algorithm makes over `m` edges from
/// `start`: a greedy walk, then splices until every reachable edge is used.
pub open spec fn hierholzer(adj: Seq<Seq<AdjEntry>>, m: nat, start: usize) -> Seq<TraversedEdge> {
    let unused = Seq::new(m, |e: int| false);
    let w = greedy_walk(adj, unused, start, m);
    spliced(adj, w.1, w.0, m)
}

/// The index of a step whose start node still has an unused entry.
fn find_open_step(adj: &Vec<Vec<AdjEntry>>, Ghost(ends): Ghost<Seq<(usize, usize)>>, c: &Vec<TraversedEdge>, used: &Vec<bool>) -> (r: Option<usize>)
    requires
        adjacency_of(adj@, ends, adj.len()),
        used.len() == ends.len(),
        steps_ok(ends, c@),
    ensures
        r.is_none() ==> forall|i: int| 0 <= i < c.len() ==> exhausted(adj[(#[trigger] c[i]).0 as int]@, used@),
        r matches Some(i) ==> i < c.len() && !exhausted(adj[c[i as int].0 as int]@, used@),
        first_open_step(lists_of(adj@), used@, c@, 0) == match r { Some(i) => Some(i as int), None => None::<int> },
{
    let mut i: usize = 0;
    while i < c.len()
        invariant
            adjacency_of(adj@, ends, adj.len()),
            used.len() == ends.len(),
            steps_ok(ends, c@),
            i <= c.len(),
            first_open_step(lists_of(adj@), used@, c@, 0) == first_open_step(lists_of(adj@), used@, c@, i as int),
            forall|k: int| 0 <= k < i ==> exhausted(adj[(#[trigger] c[k]).0 as int]@, used@),
        decreases c.len() - i,
    {
        let u = c[i].0;
        proof {
            assert(step_ok(ends, c@[i as int]));
            let _ = ends[c@[i as int].2 as int];
            assert forall|j: int| 0 <= j < adj[u as int].len() implies (#[trigger] adj[u as int][j]).1 < used.len() by {
                assert(step_ok(ends, (u, adj[u as int][j].0, adj[u as int][j].1, adj[u as int][j].2)));
            }
        }
        if first_open(&adj[u], used).is_some() {
            return Some(i);
        }
        i = i + 1;
    }
    None
}

/// `c` with `sub` inserted before position `idx`.
fn splice_walk(c: &Vec<TraversedEdge>, idx: usize, sub: &Vec<TraversedEdge>) -> (r: Vec<TraversedEdge>)
    requires
        idx <= c.len(),
    ensures
        r@ == c@.subrange(0, idx as int) + sub@ + c@.subrange(idx as int, c.len() as int),
{
    let mut r: Vec<TraversedEdge> = Vec::new();
    let mut i: usize = 0;
    while i < idx
        invariant
            idx <= c.len(),
            i <= idx,
            r@ == c@.subrange(0, i as int),
        decreases idx - i,
    {
        r.push(c[i]);
        i = i + 1;
    }
    let mut j: usize = 0;
    while j < sub.len()
        invariant
            idx <= c.len(),
            j <= sub.len(),
            r@ == c@.subrange(0, idx as int) + sub@.subrange(0, j as int),
        decreases sub.len() - j,
    {
        r.push(sub[j]);
        j = j + 1;
    }
    assert(sub@.subrange(0, sub.len() as int) == sub@);
    let mut k: usize = idx;
    while k < c.len()
        invariant
            idx <= k <= c.len(),
            r@ == c@.subrange(0, idx as int) + sub@ + c@.subrange(idx as int, k as int),
        decreases c.len() - k,
    {
        r.push(c[k]);
        k = k + 1;
    }
    r
}

/// Inserting a walk that leaves and returns to `u` at a point of `c` where
/// `c` is at `u` keeps every step on an edge and every step chained.
proof fn lemma_splice(ends: Seq<(usize, usize)>, c: Seq<TraversedEdge>, idx: int, sub: Seq<TraversedEdge>, u: usize)
    requires
        0 <= idx <= c.len(),
        steps_ok(ends, c),
        chained(c),
        steps_ok(ends, sub),
        chained(sub),
        sub.len() > 0,
        sub[0].0 == u,
        sub[sub.len() - 1].1 == u,
        idx < c.len() ==> c[idx].0 == u,
        idx == c.len() && idx > 0 ==> c[idx - 1].1 == u,
    ensures
        steps_ok(ends, c.subrange(0, idx) + sub + c.subrange(idx, c.len() as int)),
        chained(c.subrange(0, idx) + sub + c.subrange(idx, c.len() as int)),
        forall|e: int| walk_uses(c.subrange(0, idx) + sub + c.subrange(idx, c.len() as int), e)
            <==> (walk_uses(c, e) || walk_uses(sub, e)),
        (c.subrange(0, idx) + sub + c.subrange(idx, c.len() as int)).len() == c.len() + sub.len(),
{
    let r = c.subrange(0, idx) + sub + c.subrange(idx, c.len() as int);
    let a = sub.len();
    assert forall|i: int| 0 <= i < r.len() implies r[i] == if i < idx { c[i] } else if i < idx + a { sub[i - idx] } else { c[i - a] } by {}
    assert forall|i: int| 0 <= i < r.len() implies step_ok(ends, #[trigger] r[i]) by {
        if i < idx {
            assert(step_ok(ends, c[i]));
        } else if i < idx + a {
            assert(step_ok(ends, sub[i - idx]));
        } else {
            assert(step_ok(ends, c[i - a]));
        }
    }
    assert forall|i: int| 0 <= i < r.len() - 1 implies (#[trigger] r[i]).1 == r[i + 1].0 by {
        if i < idx - 1 {
            assert(c[i].1 == c[i + 1].0);
        } else if i == idx - 1 {
            if idx < c.len() {
                assert(c[i].1 == c[i + 1].0);
            }
        } else if i < idx + a - 1 {
            assert(sub[i - idx].1 == sub[i - idx + 1].0);
        } else if i == idx + a - 1 {
        } else {
            assert(c[i - a].1 == c[i - a + 1].0);
        }
    }
    assert forall|e: int| walk_uses(r, e) <==> (walk_uses(c, e) || walk_uses(sub, e)) by {
        if walk_uses(r, e) {
            let i = choose|i: int| 0 <= i < r.len() && (#[trigger] r[i]).2 == e;
            if i < idx {
                assert(c[i].2 == e);
            } else if i < idx + a {
                assert(sub[i - idx].2 == e);
            } else {
                assert(c[i - a].2 == e);
            }
        }
        if walk_uses(c, e) {
            let i = choose|i: int| 0 <= i < c.len() && (#[trigger] c[i]).2 == e;
            if i < idx {
                assert(r[i].2 == e);
            } else {
                assert(r[i + a].2 == e);
            }
        }
        if walk_uses(sub, e) {
            let i = choose|i: int| 0 <= i < sub.len() && (#[trigger] sub[i]).2 == e;
            assert(r[i + idx].2 == e);
        }
    }
}

/// The steps of two walks with no edge in common, spliced, repeat no edge.
proof fn lemma_splice_distinct(c: Seq<TraversedEdge>, idx: int, sub: Seq<TraversedEdge>)
    requires
        0 <= idx <= c.len(),
        edges_distinct(c),
        edges_distinct(sub),
        forall|i: int, j: int| 0 <= i < c.len() && 0 <= j < sub.len() ==> (#[trigger] c[i]).2 != (#[trigger] sub[j]).2,
    ensures
        edges_distinct(c.subrange(0, idx) + sub + c.subrange(idx, c.len() as int)),
{
    let r = c.subrange(0, idx) + sub + c.subrange(idx, c.len() as int);
    let a = sub.len();
    assert forall|i: int, j: int| 0 <= i < j < r.len() implies (#[trigger] r[i]).2 != (#[trigger] r[j]).2 by {
        let ci = i < idx || i >= idx + a;
        let cj = j < idx || j >= idx + a;
        let ii = if i < idx { i } else if i < idx + a { i - idx } else { i - a };
        let jj = if j < idx { j } else if j < idx + a { j - idx } else { j - a };
        if ci && cj {
            assert(c[ii].2 != c[jj].2);
        } else if ci && !cj {
            assert(c[ii].2 != sub[jj].2);
        } else if !ci && cj {
            assert(c[jj].2 != sub[ii].2);
        } else {
            assert(sub[ii].2 != sub[jj].2);
        }
    }
}

/// Where to splice the next sub-walk into `c`: the first step whose start
/// node has an unused entry, else the end of `c` if its last node has one.
fn next_splice(adj: &Vec<Vec<AdjEntry>>, Ghost(ends): Ghost<Seq<(usize, usize)>>, c: &Vec<TraversedEdge>, used: &Vec<bool>) -> (r: Option<(usize, usize)>)
    requires
        adjacency_of(adj@, ends, adj.len()),
        used.len() == ends.len(),
        steps_ok(ends, c@),
    ensures
        r.is_none() ==> forall|i: int| 0 <= i < c.len() ==> exhausted(adj[(#[trigger] c[i]).0 as int]@, used@),
        r.is_none() && c.len() > 0 ==> exhausted(adj[c[c.len() - 1].1 as int]@, used@),
        r matches Some((idx, u)) ==> {
            &&& idx <= c.len()
            &&& u < adj.len()
            &&& !exhausted(adj[u as int]@, used@)
            &&& idx < c.len() ==> c[idx as int].0 == u
            &&& idx == c.len() ==> idx > 0 && c[idx - 1].1 == u
        },
        splice_point(lists_of(adj@), used@, c@) == match r { Some((idx, u)) => Some((idx as int, u)), None => None::<(int, usize)> },
{
    match find_open_step(adj, Ghost(ends), c, used) {
        Some(i) => {
            proof {
                assert(step_ok(ends, c@[i as int]));
                let _ = ends[c@[i as int].2 as int];
            }
            Some((i, c[i].0))
        },
        None => {
            if c.len() > 0 {
                let u = c[c.len() - 1].1;
                proof {
                    assert(step_ok(ends, c@[c.len() - 1]));
                    let _ = ends[c@[c.len() - 1].2 as int];
                    assert forall|j: int| 0 <= j < adj[u as int].len() implies (#[trigger] adj[u as int][j]).1 < used.len() by {
                        assert(step_ok(ends, (u, adj[u as int][j].0, adj[u as int][j].1, adj[u as int][j].2)));
                    }
                }
                if first_open(&adj[u], used).is_some() {
                    return Some((c.len(), u));
                }
            }
            None
        },
    }
}

/// The closed-walk invariant of Hierholzer's loop.
#[verifier::opaque]
pub open spec fn circuit_state(
    adj: Seq<Vec<AdjEntry>>,
    ends: Seq<(usize, usize)>,
    start: usize,
    c: Seq<TraversedEdge>,
    used: Seq<bool>,
) -> bool {
    &&& used.len() == ends.len()
    &&& steps_ok(ends, c)
    &&& chained(c)
    &&& edges_distinct(c)
    &&& c.len() > 0 ==> c[0].0 == start && c[c.len() - 1].1 == start
    &&& forall|e: int| 0 <= e < ends.len() ==> #[trigger] used[e] == walk_uses(c, e)
    &&& count_true(used) == c.len()
    &&& all_even(ends, used, adj.len() as usize)
}

/// Splicing a closed sub-walk at a point of the circuit keeps the invariant.
proof fn lemma_circuit_splice(
    adj: Seq<Vec<AdjEntry>>,
    ends: Seq<(usize, usize)>,
    start: usize,
    c: Seq<TraversedEdge>,
    used: Seq<bool>,
    idx: int,
    u: usize,
    sub: Seq<TraversedEdge>,
    used2: Seq<bool>,
)
    requires
        adjacency_of(adj, ends, adj.len() as usize),
        circuit_state(adj, ends, start, c, used),
        0 <= idx <= c.len(),
        idx < c.len() ==> c[idx].0 == u,
        idx == c.len() ==> idx > 0 && c[idx - 1].1 == u,
        used2.len() == ends.len(),
        steps_ok(ends, sub),
        chained(sub),
        edges_distinct(sub),
        sub.len() > 0,
        sub[0].0 == u,
        walk_end(sub, u) == u,
        all_even(ends, used2, adj.len() as usize),
        forall|i: int| 0 <= i < sub.len() ==> !used[(#[trigger] sub[i]).2 as int],
        forall|e: int| 0 <= e < ends.len() ==> #[trigger] used2[e] == (used[e] || walk_uses(sub, e)),
        count_true(used2) == count_true(used) + sub.len(),
    ensures
        circuit_state(adj, ends, start, c.subrange(0, idx) + sub + c.subrange(idx, c.len() as int), used2),
        steps_ok(ends, c.subrange(0, idx) + sub + c.subrange(idx, c.len() as int)),
        c.len() + sub.len() <= used2.len(),
{
    reveal(circuit_state);
    lemma_count_bounds(|i: int| used2[i], 0, used2.len() as int);
    let r = c.subrange(0, idx) + sub + c.subrange(idx, c.len() as int);
    assert forall|i: int, j: int| 0 <= i < c.len() && 0 <= j < sub.len() implies (#[trigger] c[i]).2 != (#[trigger] sub[j]).2 by {
        assert(walk_uses(c, c[i].2 as int));
        assert(step_ok(ends, c[i]));
        assert(used[c[i].2 as int]);
    }
    if idx > 0 && idx < c.len() {
        assert(c[idx - 1].1 == c[idx].0);
    }
    lemma_splice(ends, c, idx, sub, u);
    lemma_splice_distinct(c, idx, sub);
    if idx == 0 {
        assert(r[0] == sub[0]);
    } else {
        assert(r[0] == c[0]);
    }
    if idx < c.len() {
        assert(r[r.len() - 1] == c[c.len() - 1]);
    } else {
        assert(r[r.len() - 1] == sub[sub.len() - 1]);
    }
}

/// The first walk of Hierholzer's loop sets up its invariant.
proof fn lemma_circuit_start(
    adj: Seq<Vec<AdjEntry>>,
    ends: Seq<(usize, usize)>,
    start: usize,
    used0: Seq<bool>,
    c: Seq<TraversedEdge>,
    used: Seq<bool>,
)
    requires
        used0.len() == ends.len(),
        used.len() == ends.len(),
        forall|e: int| 0 <= e < used0.len() ==> !(#[trigger] used0[e]),
        count_true(used0) == 0,
        all_even(ends, used0, adj.len() as usize),
        steps_ok(ends, c),
        chained(c),
        edges_distinct(c),
        c.len() > 0 ==> c[0].0 == start,
        forall|e: int| 0 <= e < ends.len() ==> #[trigger] used[e] == (used0[e] || walk_uses(c, e)),
        count_true(used) == count_true(used0) + c.len(),
        walk_end(c, start) == start,
        all_even(ends, used, adj.len() as usize),
    ensures
        circuit_state(adj, ends, start, c, used),
        c.len() <= used.len(),
{
    reveal(circuit_state);
    lemma_count_bounds(|i: int| used[i], 0, used.len() as int);
}

/// When no node of the circuit has an unused entry left, every edge at a
/// node the circuit visits is in the circuit.
proof fn lemma_circuit_closure(
    adj: Seq<Vec<AdjEntry>>,
    ends: Seq<(usize, usize)>,
    start: usize,
    c: Seq<TraversedEdge>,
    used: Seq<bool>,
)
    requires
        adjacency_of(adj, ends, adj.len() as usize),
        circuit_state(adj, ends, start, c, used),
        forall|i: int| 0 <= i < c.len() ==> exhausted(adj[(#[trigger] c[i]).0 as int]@, used),
        c.len() > 0 ==> exhausted(adj[c[c.len() - 1].1 as int]@, used),
    ensures
        steps_ok(ends, c),
        chained(c),
        edges_distinct(c),
        c.len() > 0 ==> c[0].0 == start && c[c.len() - 1].1 == start,
        forall|e: int|
            0 <= e < ends.len() && (walk_touches(c, (#[trigger] ends[e]).0) || walk_touches(c, ends[e].1))
                ==> walk_uses(c, e),
{
    reveal(circuit_state);
    assert forall|e: int|
        0 <= e < ends.len() && (walk_touches(c, (#[trigger] ends[e]).0) || walk_touches(c, ends[e].1))
            implies walk_uses(c, e) by {
        let x = if walk_touches(c, ends[e].0) { ends[e].0 } else { ends[e].1 };
        assert(walk_touches(c, x));
        let i = choose|i: int| 0 <= i < c.len() && ((#[trigger] c[i]).0 == x || c[i].1 == x);
        assert(exhausted(adj[x as int]@, used)) by {
            if c[i].0 == x {
                assert(exhausted(adj[c[i].0 as int]@, used));
            } else if i < c.len() - 1 {
                assert(c[i].1 == c[i + 1].0);
                assert(exhausted(adj[c[i + 1].0 as int]@, used));
            }
        }
        let t = if x == ends[e].0 { (ends[e].1, e as usize, false) } else { (ends[e].0, e as usize, true) };
        assert(adj[x as int]@.contains(t));
        let j = choose|j: int| 0 <= j < adj[x as int]@.len() && adj[x as int]@[j] == t;
        assert(used[adj[x as int][j].1 as int]);
    }
}

/// Hierholzer's algorithm on a graph whose nodes all have even degree: a
/// closed walk from `start` over every edge reachable from it, each once.
fn closed_walk(adj: &Vec<Vec<AdjEntry>>, Ghost(ends): Ghost<Seq<(usize, usize)>>, m_edges: usize, start: usize) -> (c: Vec<TraversedEdge>)
    requires
        adjacency_of(adj@, ends, adj.len()),
        m_edges == ends.len(),
        start < adj.len(),
        forall|x: usize| x < adj.len() ==> #[trigger] degree(ends, x) % 2 == 0,
    ensures
        steps_ok(ends, c@),
        chained(c@),
        edges_distinct(c@),
        c.len() > 0 ==> c[0].0 == start && c[c.len() - 1].1 == start,
        adj[start as int].len() > 0 ==> c.len() > 0,
        forall|e: int|
            0 <= e < ends.len() && (walk_touches(c@, (#[trigger] ends[e]).0) || walk_touches(c@, ends[e].1))
                ==> walk_uses(c@, e),
        c@ == hierholzer(lists_of(adj@), ends.len() as nat, start),
{
    let ghost n = adj.len();
    let mut used: Vec<bool> = Vec::new();
    let mut k: usize = 0;
    while k < m_edges
        invariant
            k <= m_edges,
            m_edges == ends.len(),
            used.len() == k,
            forall|e: int| 0 <= e < k ==> !(#[trigger] used@[e]),
        decreases m_edges - k,
    {
        used.push(false);
        k = k + 1;
    }
    proof {
        assert forall|x: usize| x < n implies #[trigger] open_degree(ends, used@, x) % 2 == 0 by {
            lemma_open_degree_unused(ends, used@, x);
            assert(degree(ends, x) % 2 == 0);
        }
        lemma_count_ext(|i: int| used@[i], |i: int| false, 0, used@.len() as int);
        lemma_count_pos(|i: int| false, 0, used@.len() as int);
        if adj[start as int].len() > 0 {
            assert(!used@[adj[start as int][0].1 as int]) by {
                assert(step_ok(ends, (start, adj[start as int][0].0, adj[start as int][0].1, adj[start as int][0].2)));
            }
        }
    }
    let ghost used0 = used@;
    let mut c = trace_walk(adj, Ghost(ends), &mut used, start);
    let ghost lists = lists_of(adj@);
    let ghost fuel0 = ends.len() as nat;
    let ghost plan0 = hierholzer(lists, fuel0, start);
    let ghost mut iters: nat = 0;
    proof {
        lemma_circuit_start(adj@, ends, start, used0, c@, used@);
        assert(used0 =~= Seq::new(fuel0, |e: int| false));
    }
    loop
        invariant
            lists == lists_of(adj@),
            fuel0 == ends.len(),
            iters <= c.len(),
            plan0 == spliced(lists, used@, c@, (fuel0 - iters) as nat),
            adjacency_of(adj@, ends, adj.len()),
            n == adj.len(),
            start < n,
            circuit_state(adj@, ends, start, c@, used@),
            used.len() == ends.len(),
            c.len() <= used.len(),
            steps_ok(ends, c@),
            all_even(ends, used@, adj.len()),
            adj[start as int].len() > 0 ==> c.len() > 0,
        ensures
            forall|i: int| 0 <= i < c.len() ==> exhausted(adj[(#[trigger] c[i]).0 as int]@, used@),
            c.len() > 0 ==> exhausted(adj[c[c.len() - 1].1 as int]@, used@),
            plan0 == c@,
        decreases used.len() - c.len(),
    {
        match next_splice(adj, Ghost(ends), &c, &used) {
            None => {
                proof {
                    assert(spliced(lists, used@, c@, (fuel0 - iters) as nat) == c@);
                }
                break;
            },
            Some((idx, u)) => {
                let ghost used_before = used@;
                let ghost c_before = c@;
                let sub = trace_walk(adj, Ghost(ends), &mut used, u);
                proof {
                    lemma_circuit_splice(adj@, ends, start, c@, used_before, idx as int, u, sub@, used@);
                }
                c = splice_walk(&c, idx, &sub);
                proof {
                    assert(c.len() <= used.len());
                    let f = (fuel0 - iters) as nat;
                    assert(f > 0);
                    assert(spliced(lists, used_before, c_before, f) == spliced(lists, used@, c@, (f - 1) as nat));
                    iters = iters + 1;
                }
            },
        }
    }
    proof {
        lemma_circuit_closure(adj@, ends, start, c@, used@);
    }
    c
}


/// Edge `e` is walked by some path.
pub open spec fn paths_use(paths: Seq<Vec<TraversedEdge>>, e: int) -> bool {
    exists|p: int, i: int| 0 <= p < paths.len() && 0 <= i < paths[p].len() && (#[trigger] paths[p]@[i]).2 == e
}

/// Node `x` is the start or end of some step of some path.
pub open spec fn paths_touch(paths: Seq<Vec<TraversedEdge>>, x: usize) -> bool {
    exists|p: int, i: int|
        0 <= p < paths.len() && 0 <= i < paths[p].len() && ((#[trigger] paths[p]@[i]).0 == x || paths[p]@[i].1 == x)
}

/// No edge is walked twice, within a path or across paths.
pub open spec fn paths_distinct(paths: Seq<Vec<TraversedEdge>>) -> bool {
    forall|p: int, q: int, i: int, j: int|
        0 <= p < paths.len() && 0 <= q < paths.len() && 0 <= i < paths[p].len() && 0 <= j < paths[q].len()
            && (p != q || i != j) ==> (#[trigger] paths[p]@[i]).2 != (#[trigger] paths[q]@[j]).2
}

/// Each path is a non-empty chain of steps along edges of `ends`.
pub open spec fn paths_ok(ends: Seq<(usize, usize)>, paths: Seq<Vec<TraversedEdge>>) -> bool {
    forall|p: int|
        0 <= p < paths.len() ==> (#[trigger] paths[p]).len() > 0 && steps_ok(ends, paths[p]@) && chained(paths[p]@)
}

/// The steps of each path.
pub open spec fn walks_of(paths: Seq<Vec<TraversedEdge>>) -> Seq<Seq<TraversedEdge>> {
    paths.map_values(|p: Vec<TraversedEdge>| p@)
}

/// Number of entries of `list` along unused edges.
pub open spec fn open_entries(list: Seq<AdjEntry>, used: Seq<bool>) -> nat {
    count_in(|j: int| !used[list[j].1 as int], 0, list.len() as int)
}

/// The first node from `u` on whose number of unused entries is odd (when
/// `odd`) or positive (otherwise).
pub open spec fn first_start_from(adj: Seq<Seq<AdjEntry>>, used: Seq<bool>, u: int, odd: bool) -> Option<usize>
    decreases adj.len() - u,
{
    if u < 0 || u >= adj.len() {
        None
    } else if (if odd { open_entries(adj[u], used) % 2 == 1 } else { open_entries(adj[u], used) > 0 }) {
        Some(u as usize)
    } else {
        first_start_from(adj, used, u + 1, odd)
    }
}

/// Where the next greedy run starts: the first node with an odd number of
/// unused entries, else the first with any.
pub open spec fn run_start(adj: Seq<Seq<AdjEntry>>, used: Seq<bool>) -> Option<usize> {
    match first_start_from(adj, used, 0, true) {
        Some(u) => Some(u),
        None => first_start_from(adj, used, 0, false),
    }
}

/// The greedy runs from marks `used`: a greedy walk from each run start in
/// turn, until no node has an unused entry (or `fuel` runs were made).
pub open spec fn greedy_plan(adj: Seq<Seq<AdjEntry>>, used: Seq<bool>, fuel: nat) -> Seq<Seq<TraversedEdge>>
    decreases fuel,
{
    if fuel == 0 {
        seq![]
    } else {
        match run_start(adj, used) {
            None => seq![],
            Some(s) => {
                let w = greedy_walk(adj, used, s, used.len());
                seq![w.0] + greedy_plan(adj, w.1, (fuel - 1) as nat)
            },
        }
    }
}

/// Number of entries of `list` along unused edges.
fn count_open(list: &Vec<AdjEntry>, used: &Vec<bool>) -> (r: usize)
    requires
        forall|j: int| 0 <= j < list.len() ==> (#[trigger] list[j]).1 < used.len(),
    ensures
        r == open_entries(list@, used@),
        r > 0 <==> !exhausted(list@, used@),
{
    let ghost f = |j: int| !used@[list@[j].1 as int];
    let mut r: usize = 0;
    let mut j: usize = 0;
    while j < list.len()
        invariant
            j <= list.len(),
            forall|k: int| 0 <= k < list.len() ==> (#[trigger] list[k]).1 < used.len(),
            f == (|j: int| !used@[list@[j].1 as int]),
            r == count_in(f, 0, j as int),
            r <= j,
        decreases list.len() - j,
    {
        if !used[list[j].1] {
            r = r + 1;
        }
        j = j + 1;
    }
    proof {
        lemma_count_pos(f, 0, list.len() as int);
        if r > 0 {
            let k = choose|k: int| 0 <= k < list.len() && #[trigger] f(k);
            assert(!used@[list@[k].1 as int]);
        } else {
            assert forall|k: int| 0 <= k < list.len() implies used@[(#[trigger] list@[k]).1 as int] by {
                assert(!f(k));
            }
        }
    }
    r
}

/// Start of the next greedy run: the first node with an odd number of unused
/// entries, else the first with any.
fn pick_run_start(adj: &Vec<Vec<AdjEntry>>, Ghost(ends): Ghost<Seq<(usize, usize)>>, used: &Vec<bool>) -> (r: Option<usize>)
    requires
        adjacency_of(adj@, ends, adj.len()),
        used.len() == ends.len(),
    ensures
        r == run_start(lists_of(adj@), used@),
        r.is_none() ==> forall|u: int| 0 <= u < adj.len() ==> exhausted(#[trigger] adj[u]@, used@),
        r matches Some(u) ==> u < adj.len() && !exhausted(adj[u as int]@, used@),
{
    let mut u: usize = 0;
    while u < adj.len()
        invariant
            adjacency_of(adj@, ends, adj.len()),
            used.len() == ends.len(),
            u <= adj.len(),
            first_start_from(lists_of(adj@), used@, 0, true) == first_start_from(lists_of(adj@), used@, u as int, true),
        decreases adj.len() - u,
    {
        proof {
            assert forall|j: int| 0 <= j < adj[u as int].len() implies (#[trigger] adj[u as int][j]).1 < used.len() by {
                assert(step_ok(ends, (u, adj[u as int][j].0, adj[u as int][j].1, adj[u as int][j].2)));
            }
        }
        let k = count_open(&adj[u], used);
        if k % 2 == 1 {
            return Some(u);
        }
        u = u + 1;
    }
    let mut u: usize = 0;
    while u < adj.len()
        invariant
            adjacency_of(adj@, ends, adj.len()),
            used.len() == ends.len(),
            u <= adj.len(),
            forall|v: int| 0 <= v < u ==> exhausted(#[trigger] adj[v]@, used@),
            first_start_from(lists_of(adj@), used@, 0, true).is_none(),
            first_start_from(lists_of(adj@), used@, 0, false) == first_start_from(lists_of(adj@), used@, u as int, false),
        decreases adj.len() - u,
    {
        proof {
            assert forall|j: int| 0 <= j < adj[u as int].len() implies (#[trigger] adj[u as int][j]).1 < used.len() by {
                assert(step_ok(ends, (u, adj[u as int][j].0, adj[u as int][j].1, adj[u as int][j].2)));
            }
        }
        let k = count_open(&adj[u], used);
        if k > 0 {
            return Some(u);
        }
        u = u + 1;
    }
    None
}

/// Appending a walk over unused edges keeps the greedy invariant.
proof fn lemma_runs_push(
    ends: Seq<(usize, usize)>,
    paths: Seq<Vec<TraversedEdge>>,
    used: Seq<bool>,
    run: Vec<TraversedEdge>,
    used2: Seq<bool>,
)
    requires
        paths_ok(ends, paths),
        paths_distinct(paths),
        used.len() == ends.len(),
        used2.len() == ends.len(),
        forall|e: int| 0 <= e < ends.len() ==> #[trigger] used[e] == paths_use(paths, e),
        run.len() > 0,
        steps_ok(ends, run@),
        chained(run@),
        edges_distinct(run@),
        forall|i: int| 0 <= i < run.len() ==> !used[(#[trigger] run[i]).2 as int],
        forall|e: int| 0 <= e < ends.len() ==> #[trigger] used2[e] == (used[e] || walk_uses(run@, e)),
    ensures
        paths_ok(ends, paths.push(run)),
        paths_distinct(paths.push(run)),
        forall|e: int| 0 <= e < ends.len() ==> #[trigger] used2[e] == paths_use(paths.push(run), e),
{
    let ps = paths.push(run);
    assert forall|p: int| 0 <= p < ps.len() implies (#[trigger] ps[p]).len() > 0 && steps_ok(ends, ps[p]@) && chained(ps[p]@) by {
        if p < paths.len() {
            assert(ps[p] == paths[p]);
        }
    }
    assert forall|p: int, q: int, i: int, j: int|
        0 <= p < ps.len() && 0 <= q < ps.len() && 0 <= i < ps[p].len() && 0 <= j < ps[q].len()
            && (p != q || i != j) implies (#[trigger] ps[p]@[i]).2 != (#[trigger] ps[q]@[j]).2 by {
        if p < paths.len() && q < paths.len() {
            assert(paths[p]@[i].2 != paths[q]@[j].2);
        } else if p < paths.len() {
            assert(step_ok(ends, paths[p]@[i]));
            assert(paths_use(paths, paths[p]@[i].2 as int));
            assert(!used[run@[j].2 as int]);
        } else if q < paths.len() {
            assert(step_ok(ends, paths[q]@[j]));
            assert(paths_use(paths, paths[q]@[j].2 as int));
            assert(!used[run@[i].2 as int]);
        } else {
            if i < j {
                assert(run@[i].2 != run@[j].2);
            } else {
                assert(run@[j].2 != run@[i].2);
            }
        }
    }
    assert forall|e: int| 0 <= e < ends.len() implies #[trigger] used2[e] == paths_use(ps, e) by {
        if paths_use(paths, e) {
            let (p, i) = choose|p: int, i: int| 0 <= p < paths.len() && 0 <= i < paths[p].len() && (#[trigger] paths[p]@[i]).2 == e;
            assert(ps[p]@[i].2 == e);
        }
        if walk_uses(run@, e) {
            let i = choose|i: int| 0 <= i < run.len() && (#[trigger] run@[i]).2 == e;
            assert(ps[paths.len() as int]@[i].2 == e);
        }
        if paths_use(ps, e) {
            let (p, i) = choose|p: int, i: int| 0 <= p < ps.len() && 0 <= i < ps[p].len() && (#[trigger] ps[p]@[i]).2 == e;
            if p < paths.len() {
                assert(paths[p]@[i].2 == e);
            } else {
                assert(run@[i].2 == e);
            }
        }
    }
}

/// The fallback when no Eulerian path exists: repeated greedy runs, each
/// started at a node with an odd number of unused edges when there is one,
/// until every edge is walked.
fn greedy_runs(adj: &Vec<Vec<AdjEntry>>, Ghost(ends): Ghost<Seq<(usize, usize)>>, m_edges: usize) -> (paths: Vec<Vec<TraversedEdge>>)
    requires
        adjacency_of(adj@, ends, adj.len()),
        m_edges == ends.len(),
    ensures
        paths_ok(ends, paths@),
        paths_distinct(paths@),
        forall|e: int| 0 <= e < ends.len() ==> paths_use(paths@, e),
        walks_of(paths@) == greedy_plan(lists_of(adj@), Seq::new(ends.len(), |e: int| false), ends.len() as nat),
{
    let mut used: Vec<bool> = Vec::new();
    let mut k: usize = 0;
    while k < m_edges
        invariant
            k <= m_edges,
            m_edges == ends.len(),
            used.len() == k,
            forall|e: int| 0 <= e < k ==> !(#[trigger] used@[e]),
        decreases m_edges - k,
    {
        used.push(false);
        k = k + 1;
    }
    let mut paths: Vec<Vec<TraversedEdge>> = Vec::new();
    let ghost lists = lists_of(adj@);
    let ghost fuel0 = ends.len() as nat;
    let ghost plan0 = greedy_plan(lists, Seq::new(ends.len(), |e: int| false), fuel0);
    proof {
        lemma_count_bounds(|i: int| used@[i], 0, used@.len() as int);
        assert(used@ =~= Seq::new(ends.len(), |e: int| false));
        assert(walks_of(paths@) + greedy_plan(lists, used@, fuel0) =~= plan0);
    }
    loop
        invariant
            adjacency_of(adj@, ends, adj.len()),
            used.len() == ends.len(),
            paths_ok(ends, paths@),
            paths_distinct(paths@),
            forall|e: int| 0 <= e < ends.len() ==> #[trigger] used@[e] == paths_use(paths@, e),
            count_true(used@) <= used.len(),
            lists == lists_of(adj@),
            fuel0 == ends.len(),
            paths.len() <= count_true(used@),
            plan0 == walks_of(paths@) + greedy_plan(lists, used@, (fuel0 - paths.len()) as nat),
        ensures
            forall|u: int| 0 <= u < adj.len() ==> exhausted(#[trigger] adj[u]@, used@),
            plan0 == walks_of(paths@),
        decreases used.len() - count_true(used@),
    {
        match pick_run_start(adj, Ghost(ends), &used) {
            None => {
                proof {
                    assert(greedy_plan(lists, used@, (fuel0 - paths.len()) as nat) =~= Seq::<Seq<TraversedEdge>>::empty());
                    assert(walks_of(paths@) + Seq::<Seq<TraversedEdge>>::empty() =~= walks_of(paths@));
                }
                break;
            },
            Some(s) => {
                let ghost used_before = used@;
                let ghost paths_before = paths@;
                let run = trace_walk(adj, Ghost(ends), &mut used, s);
                proof {
                    lemma_runs_push(ends, paths@, used_before, run, used@);
                    lemma_count_bounds(|i: int| used@[i], 0, used@.len() as int);
                }
                paths.push(run);
                proof {
                    let f = (fuel0 - paths_before.len()) as nat;
                    assert(f > 0);
                    let rest = greedy_plan(lists, used@, (f - 1) as nat);
                    assert(greedy_plan(lists, used_before, f) == seq![run@] + rest);
                    assert(paths@ == paths_before.push(run));
                    assert(walks_of(paths@) =~= walks_of(paths_before).push(run@));
                    assert(walks_of(paths_before) + (seq![run@] + rest) =~= walks_of(paths@) + rest);
                }
            },
        }
    }
    proof {
        assert forall|e: int| 0 <= e < ends.len() implies paths_use(paths@, e) by {
            let _ = ends[e];
            let x = ends[e].0;
            let t = (ends[e].1, e as usize, false);
            assert(adj[x as int]@.contains(t));
            let j = choose|j: int| 0 <= j < adj[x as int]@.len() && adj[x as int]@[j] == t;
            assert(exhausted(adj[x as int]@, used@));
            assert(used@[adj[x as int][j].1 as int]);
        }
    }
    paths
}


/// Degree of `x` over the first `k` edges.
pub open spec fn degree_upto(ends: Seq<(usize, usize)>, x: usize, k: int) -> nat {
    sum_in(|e: int| incidence(ends, e, x), 0, k)
}

/// Whether each node of `0..n` has odd degree.
fn odd_degrees(ends: &Vec<(usize, usize)>, n: usize) -> (odd: Vec<bool>)
    requires
        forall|e: int| 0 <= e < ends.len() ==> (#[trigger] ends@[e]).0 < n && ends@[e].1 < n,
    ensures
        odd.len() == n,
        forall|x: int| 0 <= x < n ==> #[trigger] odd@[x] == (degree(ends@, x as usize) % 2 == 1),
{
    let mut odd: Vec<bool> = Vec::new();
    let mut u: usize = 0;
    while u < n
        invariant
            u <= n,
            odd.len() == u,
            forall|x: int| 0 <= x < u ==> !(#[trigger] odd@[x]),
        decreases n - u,
    {
        odd.push(false);
        u = u + 1;
    }
    let mut e: usize = 0;
    while e < ends.len()
        invariant
            e <= ends.len(),
            odd.len() == n,
            forall|f: int| 0 <= f < ends.len() ==> (#[trigger] ends@[f]).0 < n && ends@[f].1 < n,
            forall|x: int| 0 <= x < n ==> #[trigger] odd@[x] == (degree_upto(ends@, x as usize, e as int) % 2 == 1),
        decreases ends.len() - e,
    {
        let (a, b) = ends[e];
        let ghost before = odd@;
        let fa = odd[a];
        odd.set(a, !fa);
        let fb = odd[b];
        odd.set(b, !fb);
        proof {
            assert forall|x: int| 0 <= x < n implies #[trigger] odd@[x] == (degree_upto(ends@, x as usize, e + 1) % 2 == 1) by {
                assert(degree_upto(ends@, x as usize, e + 1) == degree_upto(ends@, x as usize, e as int) + incidence(ends@, e as int, x as usize));
                assert(before[x] == (degree_upto(ends@, x as usize, e as int) % 2 == 1));
            }
        }
        e = e + 1;
    }
    odd
}

proof fn lemma_degree_push(ends: Seq<(usize, usize)>, t: (usize, usize), x: usize)
    ensures
        degree(ends.push(t), x) == degree(ends, x) + incidence(ends.push(t), ends.len() as int, x),
{
    let e2 = ends.push(t);
    let f = |e: int| incidence(ends, e, x);
    let g = |e: int| incidence(e2, e, x);
    lemma_sum_ext(f, g, 0, ends.len() as int);
}

/// `c` rotated to start just after position `pos`, with that step dropped.
fn rotate_out(c: &Vec<TraversedEdge>, pos: usize) -> (r: Vec<TraversedEdge>)
    requires
        pos < c.len(),
    ensures
        r@ == c@.subrange(pos + 1, c.len() as int) + c@.subrange(0, pos as int),
{
    let mut r: Vec<TraversedEdge> = Vec::new();
    let mut i: usize = pos + 1;
    while i < c.len()
        invariant
            pos < c.len(),
            pos + 1 <= i <= c.len(),
            r@ == c@.subrange(pos + 1, i as int),
        decreases c.len() - i,
    {
        r.push(c[i]);
        i = i + 1;
    }
    let mut j: usize = 0;
    while j < pos
        invariant
            pos < c.len(),
            j <= pos,
            r@ == c@.subrange(pos + 1, c.len() as int) + c@.subrange(0, j as int),
        decreases pos - j,
    {
        r.push(c[j]);
        j = j + 1;
    }
    r
}

/// Dropping the added edge from a closed walk leaves an open walk between
/// its two ends, over every other edge the closed walk had.
#[verifier::spinoff_prover]
#[verifier::rlimit(40)]
proof fn lemma_open_up(ends: Seq<(usize, usize)>, c: Seq<TraversedEdge>, pos: int, a: usize, b: usize)
    requires
        ends.len() > 0,
        ends[ends.len() - 1] == (a, b),
        0 <= pos < c.len(),
        c[pos].2 == ends.len() - 1,
        steps_ok(ends, c),
        chained(c),
        edges_distinct(c),
        c[0].0 == c[c.len() - 1].1,
    ensures
        ({
            let r = c.subrange(pos + 1, c.len() as int) + c.subrange(0, pos);
            &&& r.len() == c.len() - 1
            &&& steps_ok(ends.drop_last(), r)
            &&& chained(r)
            &&& edges_distinct(r)
            &&& r.len() > 0 ==> ((r[0].0 == a && r[r.len() - 1].1 == b) || (r[0].0 == b && r[r.len() - 1].1 == a))
            &&& forall|x: usize| walk_touches(r, x) ==> walk_touches(c, x)
            &&& forall|e: int| 0 <= e < ends.len() - 1 && walk_uses(c, e) ==> walk_uses(r, e)
        }),
{
    let r = c.subrange(pos + 1, c.len() as int) + c.subrange(0, pos);
    let k = c.len() - pos - 1;
    let m = ends.len() - 1;
    assert forall|i: int| 0 <= i < r.len() implies r[i] == if i < k { c[pos + 1 + i] } else { c[i - k] } by {}
    assert forall|i: int| 0 <= i < r.len() implies step_ok(ends.drop_last(), #[trigger] r[i]) by {
        let ci = if i < k { pos + 1 + i } else { i - k };
        assert(step_ok(ends, c[ci]));
        if ci < pos {
            assert(c[ci].2 != c[pos].2);
        } else {
            assert(c[pos].2 != c[ci].2);
        }
    }
    assert forall|i: int| 0 <= i < r.len() - 1 implies (#[trigger] r[i]).1 == r[i + 1].0 by {
        if i < k - 1 {
            assert(c[pos + 1 + i].1 == c[pos + 1 + i + 1].0);
        } else if i == k - 1 {
        } else {
            assert(c[i - k].1 == c[i - k + 1].0);
        }
    }
    assert forall|i: int, j: int| 0 <= i < j < r.len() implies (#[trigger] r[i]).2 != (#[trigger] r[j]).2 by {
        let ci = if i < k { pos + 1 + i } else { i - k };
        let cj = if j < k { pos + 1 + j } else { j - k };
        if ci < cj {
            assert(c[ci].2 != c[cj].2);
        } else {
            assert(c[cj].2 != c[ci].2);
        }
    }
    assert(step_ok(ends, c[pos]));
    if r.len() > 0 {
        if pos + 1 < c.len() {
            assert(c[pos].1 == c[pos + 1].0);
        }
        if pos > 0 {
            assert(c[pos - 1].1 == c[pos].0);
        }
    }
    assert forall|x: usize| walk_touches(r, x) implies walk_touches(c, x) by {
        let i = choose|i: int| 0 <= i < r.len() && ((#[trigger] r[i]).0 == x || r[i].1 == x);
        let ci = if i < k { pos + 1 + i } else { i - k };
        assert(c[ci] == r[i]);
    }
    assert forall|e: int| 0 <= e < ends.len() - 1 && walk_uses(c, e) implies walk_uses(r, e) by {
        let ci = choose|ci: int| 0 <= ci < c.len() && (#[trigger] c[ci]).2 == e;
        assert(ci != pos);
        if ci > pos {
            assert(r[ci - pos - 1] == c[ci]);
        } else {
            assert(r[ci + k] == c[ci]);
        }
    }
}


/// A single walk seen as a list of one path.
proof fn lemma_one_path(ends: Seq<(usize, usize)>, w: Vec<TraversedEdge>)
    requires
        w.len() > 0,
        steps_ok(ends, w@),
        chained(w@),
        edges_distinct(w@),
    ensures
        paths_ok(ends, seq![w]),
        paths_distinct(seq![w]),
        forall|e: int| #[trigger] paths_use(seq![w], e) <==> walk_uses(w@, e),
        forall|x: usize| #[trigger] paths_touch(seq![w], x) <==> walk_touches(w@, x),
{
    let ps = seq![w];
    assert(ps[0] == w);
    assert forall|p: int, q: int, i: int, j: int|
        0 <= p < ps.len() && 0 <= q < ps.len() && 0 <= i < ps[p].len() && 0 <= j < ps[q].len()
            && (p != q || i != j) implies (#[trigger] ps[p]@[i]).2 != (#[trigger] ps[q]@[j]).2 by {
        if i < j {
            assert(w@[i].2 != w@[j].2);
        } else {
            assert(w@[j].2 != w@[i].2);
        }
    }
    assert forall|e: int| #[trigger] paths_use(ps, e) <==> walk_uses(w@, e) by {
        if walk_uses(w@, e) {
            let i = choose|i: int| 0 <= i < w.len() && (#[trigger] w@[i]).2 == e;
            assert(ps[0]@[i].2 == e);
        }
    }
    assert forall|x: usize| #[trigger] paths_touch(ps, x) <==> walk_touches(w@, x) by {
        if walk_touches(w@, x) {
            let i = choose|i: int| 0 <= i < w.len() && ((#[trigger] w@[i]).0 == x || w@[i].1 == x);
            assert(ps[0]@[i] == w@[i]);
        }
    }
}

/// The endpoints of every edge, as an executable list.
#[verifier::spinoff_prover]
fn edge_ends(graph: &StrokeGraph) -> (ends: Vec<(usize, usize)>)
    requires
        graph.wf(),
    ensures
        ends@ == graph.ends(),
        forall|e: int| 0 <= e < ends.len() ==> (#[trigger] ends@[e]).0 < graph.nodes.len() && ends@[e].1 < graph.nodes.len(),
{
    let mut ends: Vec<(usize, usize)> = Vec::new();
    let mut e: usize = 0;
    while e < graph.edges.len()
        invariant
            e <= graph.edges.len(),
            ends.len() == e,
            forall|f: int| 0 <= f < e ==> #[trigger] ends@[f] == (graph.edges@[f].from, graph.edges@[f].to),
        decreases graph.edges.len() - e,
    {
        ends.push((graph.edges[e].from, graph.edges[e].to));
        e = e + 1;
    }
    assert(ends@ =~= graph.ends());
    proof {
        assert forall|f: int| 0 <= f < ends.len() implies (#[trigger] ends@[f]).0 < graph.nodes.len() && ends@[f].1 < graph.nodes.len() by {
            assert(0 <= f < graph.edges.len());
            assert(graph.wf());
            assert(graph.edges@[f] == graph.edges[f]);
            assert(graph.edges[f].from < graph.nodes.len() && graph.edges[f].to < graph.nodes.len());
        }
    }
    ends
}

/// Node `s` is the first node with an entry in `lists`.
pub open spec fn first_busy(lists: Seq<Seq<AdjEntry>>, s: int) -> bool {
    &&& 0 <= s < lists.len()
    &&& lists[s].len() > 0
    &&& forall|v: int| 0 <= v < s ==> #[trigger] lists[v].len() == 0
}

/// The first position from `i` on of a step of `c` along edge `e`, or the
/// length of `c` when there is none.
pub open spec fn first_step_on(c: Seq<TraversedEdge>, e: int, i: int) -> int
    decreases c.len() - i,
{
    if i < 0 || i >= c.len() {
        c.len() as int
    } else if c[i].2 == e {
        i
    } else {
        first_step_on(c, e, i + 1)
    }
}

/// Closed walk `c` opened at its first step along edge `e`: the steps after
/// it, then those before it.
pub open spec fn opened(c: Seq<TraversedEdge>, e: int) -> Seq<TraversedEdge> {
    let p = first_step_on(c, e, 0);
    c.subrange(p + 1, c.len() as int) + c.subrange(0, p)
}

/// An Eulerian circuit when every node has even degree.
fn euler_circuit(ends: &Vec<(usize, usize)>, n: usize) -> (c: Vec<TraversedEdge>)
    requires
        ends.len() > 0,
        forall|e: int| 0 <= e < ends.len() ==> (#[trigger] ends@[e]).0 < n && ends@[e].1 < n,
        forall|x: usize| x < n ==> #[trigger] degree(ends@, x) % 2 == 0,
    ensures
        c.len() > 0,
        steps_ok(ends@, c@),
        chained(c@),
        edges_distinct(c@),
        c[0].0 == c[c.len() - 1].1,
        forall|e: int|
            0 <= e < ends.len() && (walk_touches(c@, (#[trigger] ends@[e]).0) || walk_touches(c@, ends@[e].1))
                ==> walk_uses(c@, e),
        forall|s: int| #[trigger] first_busy(adjacency_lists(ends@, n), s) ==> c@ == hierholzer(adjacency_lists(ends@, n), ends.len() as nat, s as usize),
{
    let adj = build_adjacency(ends, n);
    let mut s: usize = 0;
    while s < n && adj[s].len() == 0
        invariant
            adjacency_of(adj@, ends@, n),
            s <= n,
            forall|v: int| 0 <= v < s ==> (#[trigger] adj[v]).len() == 0,
        decreases n - s,
    {
        s = s + 1;
    }
    proof {
        let _ = ends@[0];
        let x = ends@[0].0;
        assert(adj[x as int]@.contains((ends@[0].1, 0usize, false)));
        if s == n {
            assert(adj[x as int].len() == 0);
        }
    }
    let c = closed_walk(&adj, Ghost(ends@), ends.len(), s);
    proof {
        lemma_adjacency_lists(adj@, ends@, n);
        let lists = adjacency_lists(ends@, n);
        assert(first_busy(lists, s as int)) by {
            assert(lists[s as int] == adj[s as int]@);
            assert forall|v: int| 0 <= v < s implies #[trigger] lists[v].len() == 0 by {
                assert(lists[v] == adj[v]@);
            }
        }
        assert forall|t: int| #[trigger] first_busy(lists, t) implies t == s by {
            if t < s {
                assert(lists[t].len() == 0);
            } else if t > s {
                assert(lists[s as int].len() == 0);
            }
        }
    }
    c
}

/// Opening the circuit through the added edge gives the Eulerian path.
proof fn lemma_euler_path(ends: Seq<(usize, usize)>, all: Seq<(usize, usize)>, c: Seq<TraversedEdge>, pos: int, a: usize, b: usize)
    requires
        all == ends.push((a, b)),
        degree(ends, a) % 2 == 1,
        c.len() > 0,
        steps_ok(all, c),
        chained(c),
        edges_distinct(c),
        c[0].0 == a && c[c.len() - 1].1 == a,
        forall|e: int|
            0 <= e < all.len() && (walk_touches(c, (#[trigger] all[e]).0) || walk_touches(c, all[e].1))
                ==> walk_uses(c, e),
        0 <= pos < c.len(),
        c[pos].2 == ends.len(),
    ensures
        ({
            let w = c.subrange(pos + 1, c.len() as int) + c.subrange(0, pos);
            &&& w.len() > 0
            &&& steps_ok(ends, w)
            &&& chained(w)
            &&& edges_distinct(w)
            &&& (w[0].0 == a && w[w.len() - 1].1 == b) || (w[0].0 == b && w[w.len() - 1].1 == a)
            &&& forall|e: int|
                0 <= e < ends.len() && (walk_touches(w, (#[trigger] ends[e]).0) || walk_touches(w, ends[e].1))
                    ==> walk_uses(w, e)
        }),
{
    let m = ends.len();
    assert(all.drop_last() =~= ends);
    lemma_open_up(all, c, pos, a, b);
    let w = c.subrange(pos + 1, c.len() as int) + c.subrange(0, pos);
    // `a` has an edge of its own, which the circuit walks, so the path is not empty
    let f = |e: int| incidence(ends, e, a);
    lemma_sum_pos(f, 0, m as int);
    let e = choose|e: int| 0 <= e < m && #[trigger] f(e) > 0;
    assert(all[e] == ends[e]);
    assert(walk_touches(c, a)) by {
        assert(c[0].0 == a);
    }
    assert(walk_uses(c, e));
    let i = choose|i: int| 0 <= i < c.len() && (#[trigger] c[i]).2 == e;
    assert(i != pos);
    assert forall|e: int|
        0 <= e < ends.len() && (walk_touches(w, (#[trigger] ends[e]).0) || walk_touches(w, ends[e].1))
            implies walk_uses(w, e) by {
        assert(all[e] == ends[e]);
        assert(walk_touches(c, all[e].0) || walk_touches(c, all[e].1));
    }
}

/// An Eulerian path between the only two odd-degree nodes `a` and `b`: a
/// circuit through an added edge from `a` to `b`, opened at that edge.
fn euler_path(ends: &Vec<(usize, usize)>, n: usize, a: usize, b: usize) -> (w: Vec<TraversedEdge>)
    requires
        ends.len() < usize::MAX,
        forall|e: int| 0 <= e < ends.len() ==> (#[trigger] ends@[e]).0 < n && ends@[e].1 < n,
        a < n,
        b < n,
        a != b,
        degree(ends@, a) % 2 == 1,
        degree(ends@, b) % 2 == 1,
        forall|x: usize| x < n && x != a && x != b ==> #[trigger] degree(ends@, x) % 2 == 0,
    ensures
        w.len() > 0,
        steps_ok(ends@, w@),
        chained(w@),
        edges_distinct(w@),
        (w[0].0 == a && w[w.len() - 1].1 == b) || (w[0].0 == b && w[w.len() - 1].1 == a),
        forall|e: int|
            0 <= e < ends.len() && (walk_touches(w@, (#[trigger] ends@[e]).0) || walk_touches(w@, ends@[e].1))
                ==> walk_uses(w@, e),
        w@ == opened(hierholzer(adjacency_lists(ends@.push((a, b)), n), (ends.len() + 1) as nat, a), ends.len() as int),
{
    let m = ends.len();
    let mut all = Vec::new();
    let mut k: usize = 0;
    while k < m
        invariant
            k <= m,
            m == ends.len(),
            all.len() == k,
            forall|f: int| 0 <= f < k ==> #[trigger] all@[f] == ends@[f],
        decreases m - k,
    {
        all.push(ends[k]);
        k = k + 1;
    }
    all.push((a, b));
    proof {
        assert(all@ =~= ends@.push((a, b)));
        assert forall|x: usize| x < n implies #[trigger] degree(all@, x) % 2 == 0 by {
            lemma_degree_push(ends@, (a, b), x);
        }
    }
    let adj = build_adjacency(&all, n);
    proof {
        assert(adj[a as int]@.contains((b, m, false))) by {
            let _ = all@[m as int];
        }
    }
    let c = closed_walk(&adj, Ghost(all@), m + 1, a);
    proof {
        let _ = all@[m as int];
        assert(walk_touches(c@, a)) by {
            assert(c@[0].0 == a);
        }
        assert(walk_uses(c@, m as int));
    }
    let mut pos: usize = 0;
    while pos < c.len() && c[pos].2 != m
        invariant
            pos <= c.len(),
            walk_uses(c@, m as int),
            forall|i: int| 0 <= i < pos ==> (#[trigger] c@[i]).2 != m,
            first_step_on(c@, m as int, 0) == first_step_on(c@, m as int, pos as int),
        decreases c.len() - pos,
    {
        pos = pos + 1;
    }
    proof {
        if pos == c.len() {
            let i = choose|i: int| 0 <= i < c.len() && (#[trigger] c@[i]).2 == m;
        }
    }
    let w = rotate_out(&c, pos);
    proof {
        lemma_euler_path(ends@, all@, c@, pos as int, a, b);
        lemma_adjacency_lists(adj@, all@, n);
        assert(first_step_on(c@, m as int, pos as int) == pos);
    }
    w
}

/// Traverses the stroke graph: a single Eulerian path or circuit when the
/// graph has none or two odd-degree nodes, else greedy runs that together
/// walk every edge. The circuit is Hierholzer's from the first node with an
/// edge; the path is the circuit from the smaller odd node after an added
/// edge to the other, opened at that edge. No edge is walked twice, and every edge at a node that
/// the traversal reaches is walked.
pub fn traverse_graph(graph: &StrokeGraph) -> (paths: Vec<Vec<TraversedEdge>>)
    requires
        graph.wf(),
        graph.edges.len() < usize::MAX,
    ensures
        graph.edges.len() == 0 <==> paths.len() == 0,
        paths_ok(graph.ends(), paths@),
        paths_distinct(paths@),
        forall|e: int|
            0 <= e < graph.edges.len() && (paths_touch(paths@, (#[trigger] graph.ends()[e]).0) || paths_touch(
                paths@,
                graph.ends()[e].1,
            )) ==> paths_use(paths@, e),
        odd_count(graph) == 0 || odd_count(graph) == 2 ==> paths.len() <= 1,
        odd_count(graph) == 0 && paths.len() == 1 ==> paths[0]@[0].0 == paths[0]@[paths[0].len() - 1].1,
        odd_count(graph) == 2 && paths.len() == 1 ==> ({
            let first = paths[0]@[0].0;
            let last = paths[0]@[paths[0].len() - 1].1;
            &&& first != last
            &&& degree(graph.ends(), first) % 2 == 1
            &&& degree(graph.ends(), last) % 2 == 1
        }),
        odd_count(graph) != 0 && odd_count(graph) != 2 ==> forall|e: int|
            0 <= e < graph.edges.len() ==> paths_use(paths@, e),
        graph.edges.len() > 0 && odd_count(graph) == 0 ==> forall|s: int|
            #[trigger] first_busy(adjacency_lists(graph.ends(), graph.nodes.len()), s) ==> paths.len() == 1 && paths[0]@
                == hierholzer(adjacency_lists(graph.ends(), graph.nodes.len()), graph.edges.len() as nat, s as usize),
        odd_count(graph) == 2 ==> forall|a: usize, b: usize|
            #![trigger degree(graph.ends(), a), degree(graph.ends(), b)]
            a < b < graph.nodes.len() && degree(graph.ends(), a) % 2 == 1 && degree(graph.ends(), b) % 2 == 1 ==> paths.len() == 1
                && paths[0]@ == opened(
                hierholzer(adjacency_lists(graph.ends().push((a, b)), graph.nodes.len()), (graph.edges.len() + 1) as nat, a),
                graph.edges.len() as int,
            ),
        odd_count(graph) != 0 && odd_count(graph) != 2 ==> walks_of(paths@) == greedy_plan(
            adjacency_lists(graph.ends(), graph.nodes.len()),
            Seq::new(graph.edges.len() as nat, |e: int| false),
            graph.edges.len() as nat,
        ),
{
    let n = graph.nodes.len();
    if graph.edges.len() == 0 {
        return Vec::new();
    }
    let ends = edge_ends(graph);
    let odd = odd_degrees(&ends, n);
    let ghost pred = |x: int| degree(ends@, x as usize) % 2 == 1;
    let mut odd_nodes: Vec<usize> = Vec::new();
    let mut u: usize = 0;
    while u < n
        invariant
            u <= n,
            odd.len() == n,
            forall|x: int| 0 <= x < n ==> #[trigger] odd@[x] == (degree(ends@, x as usize) % 2 == 1),
            pred == (|x: int| degree(ends@, x as usize) % 2 == 1),
            odd_nodes.len() == count_in(pred, 0, u as int),
            forall|k: int| 0 <= k < odd_nodes.len() ==> (#[trigger] odd_nodes@[k]) < u && odd@[odd_nodes@[k] as int],
            forall|k: int, l: int| 0 <= k < l < odd_nodes.len() ==> (#[trigger] odd_nodes@[k]) < (#[trigger] odd_nodes@[l]),
            forall|x: int| 0 <= x < u && #[trigger] odd@[x] ==> odd_nodes@.contains(x as usize),
        decreases n - u,
    {
        let ghost before = odd_nodes@;
        if odd[u] {
            odd_nodes.push(u);
        }
        proof {
            assert forall|x: int| 0 <= x < u + 1 && #[trigger] odd@[x] implies odd_nodes@.contains(x as usize) by {
                if x < u {
                    let k = choose|k: int| 0 <= k < before.len() && before[k] == x as usize;
                    assert(odd_nodes@[k] == x as usize);
                } else {
                    assert(odd_nodes@[odd_nodes.len() - 1] == u);
                }
            }
        }
        u = u + 1;
    }
    proof {
        assert(count_in(pred, 0, n as int) == odd_count(graph)) by {
            lemma_count_ext(pred, |x: int| degree(graph.ends(), x as usize) % 2 == 1, 0, n as int);
        }
        lemma_count_bounds(pred, 0, n as int);
    }
    if odd_nodes.len() == 0 {
        proof {
            assert forall|x: usize| x < n implies #[trigger] degree(ends@, x) % 2 == 0 by {
                lemma_count_pos(pred, 0, n as int);
                if degree(ends@, x) % 2 == 1 {
                    assert(pred(x as int));
                }
            }
        }
        let c = euler_circuit(&ends, n);
        proof {
            lemma_one_path(ends@, c);
        }
        let mut paths = Vec::new();
        paths.push(c);
        proof {
            assert(paths@ =~= seq![c]);
        }
        paths
    } else if odd_nodes.len() == 2 {
        let a = odd_nodes[0];
        let b = odd_nodes[1];
        proof {
            assert(odd_nodes@[0] < odd_nodes@[1]);
            assert(odd@[a as int] && odd@[b as int]);
            assert forall|x: usize| x < n && x != a && x != b implies #[trigger] degree(ends@, x) % 2 == 0 by {
                if degree(ends@, x) % 2 == 1 {
                    assert(odd@[x as int]);
                    assert(odd_nodes@.contains(x));
                }
            }
        }
        let w = euler_path(&ends, n, a, b);
        proof {
            lemma_one_path(ends@, w);
            assert forall|a2: usize, b2: usize|
                #![trigger degree(graph.ends(), a2), degree(graph.ends(), b2)]
                a2 < b2 < n && degree(graph.ends(), a2) % 2 == 1 && degree(graph.ends(), b2) % 2 == 1 implies a2 == a && b2 == b by {
                assert(odd@[a2 as int] && odd@[b2 as int]);
                assert(odd_nodes@.contains(a2) && odd_nodes@.contains(b2));
                let k1 = choose|k: int| 0 <= k < odd_nodes.len() && odd_nodes@[k] == a2;
                let k2 = choose|k: int| 0 <= k < odd_nodes.len() && odd_nodes@[k] == b2;
            }
        }
        let mut paths = Vec::new();
        paths.push(w);
        proof {
            assert(paths@ =~= seq![w]);
        }
        paths
    } else {
        let adj = build_adjacency(&ends, n);
        let paths = greedy_runs(&adj, Ghost(ends@), ends.len());
        proof {
            lemma_adjacency_lists(adj@, ends@, n);
            assert(paths_use(paths@, 0));
            lemma_count_pos(pred, 0, n as int);
            let x = choose|x: int| 0 <= x < n && #[trigger] pred(x);
            assert(odd@[x]);
            assert(odd_nodes@.contains(x as usize));
        }
        paths
    }
}

} // verus!
