//! Pruning dead-end spurs from a skeleton.
//!
//! A spur is the pixel chain from an endpoint (a set pixel with exactly one
//! link) to the first junction, other endpoint or loop it reaches. A spur is
//! removed when it is shorter than the limit recorded at its base pixel; the
//! passes repeat until one removes nothing.

use vstd::prelude::*;
use vstd::set_lib::{lemma_int_range, lemma_len_subset, set_int_range};
use crate::counting::{count_in, lemma_count_bounds, lemma_count_mono};
use crate::sheet::chroma::lemma_index_in;
use crate::sheet::cluster::lemma_index_inj;
use crate::stroke::graph::{index_of, links, lit, off_x, off_y};

verus! {

/// Linear index of pixel `p` in a grid of width `w`.
pub open spec fn pixel_index(w: int, p: (i32, i32)) -> int {
    p.1 * w + p.0
}

/// Pixel `p` lies inside the `w x h` grid and is set.
pub open spec fn lit_at(s: Seq<bool>, w: int, h: int, p: (i32, i32)) -> bool {
    lit(s, w, h, p.0 as int, p.1 as int)
}

/// The pixels linked to `(x, y)` among the first `k` neighbour offsets, in
/// row-major order.
pub open spec fn linked_upto(s: Seq<bool>, w: int, h: int, x: int, y: int, k: int) -> Seq<(i32, i32)>
    decreases k,
{
    if k <= 0 {
        Seq::empty()
    } else if links(s, w, h, x, y, x + off_x(k - 1), y + off_y(k - 1)) {
        linked_upto(s, w, h, x, y, k - 1).push(((x + off_x(k - 1)) as i32, (y + off_y(k - 1)) as i32))
    } else {
        linked_upto(s, w, h, x, y, k - 1)
    }
}

/// The pixels linked to `p`, in row-major order.
pub open spec fn linked(s: Seq<bool>, w: int, h: int, p: (i32, i32)) -> Seq<(i32, i32)> {
    linked_upto(s, w, h, p.0 as int, p.1 as int, 8)
}

/// Following a chain from `curr`, reached from `prev` along `path`: step on
/// while `curr` has exactly two links and the one not leading back is new
/// to the path. Yields the path and the pixel where it stopped (the base).
pub open spec fn walk(
    s: Seq<bool>,
    w: int,
    h: int,
    path: Seq<(i32, i32)>,
    prev: (i32, i32),
    curr: (i32, i32),
    fuel: nat,
) -> (Seq<(i32, i32)>, (i32, i32))
    decreases fuel,
{
    let nb = linked(s, w, h, curr);
    if fuel == 0 || nb.len() != 2 {
        (path, curr)
    } else {
        let next = if nb[0] == prev { nb[1] } else { nb[0] };
        if path.contains(next) {
            (path, curr)
        } else {
            walk(s, w, h, path.push(next), curr, next, (fuel - 1) as nat)
        }
    }
}

/// The spur that starts at `start`: its pixels from `start` on, and its base.
pub open spec fn spur(s: Seq<bool>, w: int, h: int, start: (i32, i32)) -> (Seq<(i32, i32)>, (i32, i32)) {
    let nb = linked(s, w, h, start);
    if nb.len() == 0 {
        (seq![start], start)
    } else {
        walk(s, w, h, seq![start, nb[0]], start, nb[0], (w * h) as nat)
    }
}

/// The grid facts the pixel routines rely on.
pub open spec fn grid(s: Seq<bool>, w: i32, h: i32) -> bool {
    &&& w >= 0
    &&& h >= 0
    &&& (w as int) * (h as int) <= i32::MAX
    &&& s.len() == (w as int) * (h as int)
}

/// The pixels linked to `(x, y)`, in row-major order.
fn linked_pixels(s: &Vec<bool>, w: i32, h: i32, x: i32, y: i32) -> (r: Vec<(i32, i32)>)
    requires
        grid(s@, w, h),
        0 <= x < w,
        0 <= y < h,
    ensures
        r@ == linked(s@, w as int, h as int, (x, y)),
        r@.len() <= 8,
{
    let dxs: [i32; 8] = [-1, 0, 1, -1, 1, -1, 0, 1];
    let dys: [i32; 8] = [-1, -1, -1, 0, 0, 1, 1, 1];
    let mut r: Vec<(i32, i32)> = Vec::new();
    let mut k: usize = 0;
    while k < 8
        invariant
            grid(s@, w, h),
            0 <= x < w,
            0 <= y < h,
            k <= 8,
            dxs@ == seq![-1i32, 0i32, 1i32, -1i32, 1i32, -1i32, 0i32, 1i32],
            dys@ == seq![-1i32, -1i32, -1i32, 0i32, 0i32, 1i32, 1i32, 1i32],
            r@ == linked_upto(s@, w as int, h as int, x as int, y as int, k as int),
            r@.len() <= k,
        decreases 8 - k,
    {
        let dx = dxs[k];
        let dy = dys[k];
        assert(dx == off_x(k as int) && dy == off_y(k as int));
        let a = x + dx;
        let b = y + dy;
        let on = set_at(s, w, h, a, b);
        let mut ok = on;
        if on && dx != 0 && dy != 0 {
            let m1 = set_at(s, w, h, a, y);
            let m2 = set_at(s, w, h, x, b);
            ok = !m1 && !m2;
        }
        assert(ok == links(s@, w as int, h as int, x as int, y as int, x + off_x(k as int), y + off_y(k as int)));
        if ok {
            r.push((a, b));
        }
        k = k + 1;
    }
    r
}

/// Whether `(x, y)` is a set pixel of the grid.
fn set_at(s: &Vec<bool>, w: i32, h: i32, x: i32, y: i32) -> (r: bool)
    requires
        grid(s@, w, h),
        -1 <= x <= w,
        -1 <= y <= h,
    ensures
        r == lit(s@, w as int, h as int, x as int, y as int),
{
    if x < 0 || x >= w || y < 0 || y >= h {
        false
    } else {
        s[index_of(w, h, x, y)]
    }
}

/// Linked pixels are set pixels of the grid, one step from `(x, y)`.
proof fn lemma_linked_lit(s: Seq<bool>, w: int, h: int, x: int, y: int, k: int)
    requires
        0 <= w <= i32::MAX,
        0 <= h <= i32::MAX,
    ensures
        forall|j: int| 0 <= j < linked_upto(s, w, h, x, y, k).len() ==> {
            let q = #[trigger] linked_upto(s, w, h, x, y, k)[j];
            &&& lit(s, w, h, q.0 as int, q.1 as int)
            &&& links(s, w, h, x, y, q.0 as int, q.1 as int)
        },
    decreases k,
{
    if k > 0 {
        lemma_linked_lit(s, w, h, x, y, k - 1);
        let a = x + off_x(k - 1);
        let b = y + off_y(k - 1);
        if links(s, w, h, x, y, a, b) {
            assert((a as i32) as int == a);
            assert((b as i32) as int == b);
            let prev = linked_upto(s, w, h, x, y, k - 1);
            let cur = linked_upto(s, w, h, x, y, k);
            assert forall|j: int| 0 <= j < cur.len() implies {
                let q = #[trigger] cur[j];
                &&& lit(s, w, h, q.0 as int, q.1 as int)
                &&& links(s, w, h, x, y, q.0 as int, q.1 as int)
            } by {
                if j < prev.len() {
                    assert(cur[j] == prev[j]);
                } else {
                    assert(cur[j] == (a as i32, b as i32));
                }
            }
        } else {
            assert(linked_upto(s, w, h, x, y, k) == linked_upto(s, w, h, x, y, k - 1));
        }
    }
}


/// Whether `p` occurs in `path`.
fn on_path(path: &Vec<(i32, i32)>, p: (i32, i32)) -> (r: bool)
    ensures
        r == path@.contains(p),
{
    let mut i: usize = 0;
    while i < path.len()
        invariant
            i <= path@.len(),
            forall|j: int| 0 <= j < i ==> path@[j] != p,
        decreases path@.len() - i,
    {
        if path[i].0 == p.0 && path[i].1 == p.1 {
            assert(path@[i as int] == p);
            return true;
        }
        i = i + 1;
    }
    false
}

/// Two set pixels with the same linear index are the same pixel.
proof fn lemma_same_index(s: Seq<bool>, w: int, h: int, p: (i32, i32), q: (i32, i32))
    requires
        lit_at(s, w, h, p),
        lit_at(s, w, h, q),
        pixel_index(w, p) == pixel_index(w, q),
    ensures
        p == q,
{
    lemma_index_inj(w, p.0 as int, p.1 as int, q.0 as int, q.1 as int);
}

/// The spur that starts at the set pixel `start`: its pixels and its base.
pub fn trace_spur(s: &Vec<bool>, w: i32, h: i32, start: (i32, i32)) -> (r: (Vec<(i32, i32)>, (i32, i32)))
    requires
        grid(s@, w, h),
        lit_at(s@, w as int, h as int, start),
    ensures
        (r.0@, r.1) == spur(s@, w as int, h as int, start),
        forall|j: int| 0 <= j < r.0@.len() ==> lit_at(s@, w as int, h as int, #[trigger] r.0@[j]),
{
    let ghost n = (w as int) * (h as int);
    proof {
        lemma_linked_lit(s@, w as int, h as int, start.0 as int, start.1 as int, 8);
    }
    let nb = linked_pixels(s, w, h, start.0, start.1);
    if nb.len() == 0 {
        return (vec![start], start);
    }
    let first = nb[0];
    assert(lit_at(s@, w as int, h as int, first));
    let mut path: Vec<(i32, i32)> = vec![start, first];
    let mut prev = start;
    let mut curr = first;
    let ghost mut fuel: nat = n as nat;
    let ghost mut seen: Set<int> = set![pixel_index(w as int, start), pixel_index(w as int, first)];
    proof {
        if pixel_index(w as int, start) == pixel_index(w as int, first) {
            lemma_same_index(s@, w as int, h as int, start, first);
        }
        lemma_index_in(w as int, h as int, start.0 as int, start.1 as int);
        lemma_index_in(w as int, h as int, first.0 as int, first.1 as int);
        assert(seen.len() == 2);
    }
    loop
        invariant
            grid(s@, w, h),
            n == (w as int) * (h as int),
            walk(s@, w as int, h as int, path@, prev, curr, fuel) == spur(s@, w as int, h as int, start),
            path@.len() >= 2,
            curr == path@.last(),
            lit_at(s@, w as int, h as int, curr),
            forall|j: int| 0 <= j < path@.len() ==> lit_at(s@, w as int, h as int, #[trigger] path@[j]),
            seen.finite(),
            seen.len() == path@.len(),
            forall|j: int| 0 <= j < path@.len() ==> seen.contains(pixel_index(w as int, #[trigger] path@[j])),
            forall|t: int| seen.contains(t) ==> exists|j: int| 0 <= j < path@.len() && pixel_index(w as int, #[trigger] path@[j]) == t,
            forall|t: int| seen.contains(t) ==> 0 <= t < n,
            fuel + path@.len() == n + 2,
        decreases n - path@.len(),
    {
        proof {
            lemma_int_range(0, n);
            lemma_len_subset(seen, set_int_range(0, n));
        }
        let nb = linked_pixels(s, w, h, curr.0, curr.1);
        if nb.len() != 2 {
            return (path, curr);
        }
        proof {
            lemma_linked_lit(s@, w as int, h as int, curr.0 as int, curr.1 as int, 8);
        }
        let next = if nb[0].0 == prev.0 && nb[0].1 == prev.1 { nb[1] } else { nb[0] };
        assert(next == if nb@[0] == prev { nb@[1] } else { nb@[0] });
        assert(lit_at(s@, w as int, h as int, next));
        if on_path(&path, next) {
            return (path, curr);
        }
        proof {
            if seen.contains(pixel_index(w as int, next)) {
                let j = choose|j: int| 0 <= j < path@.len() && pixel_index(w as int, #[trigger] path@[j]) == pixel_index(w as int, next);
                lemma_same_index(s@, w as int, h as int, path@[j], next);
                assert(path@.contains(next));
            }
            lemma_index_in(w as int, h as int, next.0 as int, next.1 as int);
        }
        let ghost old_path = path@;
        path.push(next);
        proof {
            seen = seen.insert(pixel_index(w as int, next));
            fuel = (fuel - 1) as nat;
            assert forall|t: int| seen.contains(t) implies exists|j: int| 0 <= j < path@.len() && pixel_index(w as int, #[trigger] path@[j]) == t by {
                if t == pixel_index(w as int, next) {
                    assert(path@[path@.len() - 1] == next);
                } else {
                    let j = choose|j: int| 0 <= j < old_path.len() && pixel_index(w as int, #[trigger] old_path[j]) == t;
                    assert(path@[j] == old_path[j]);
                }
            }
            assert forall|j: int| 0 <= j < path@.len() implies seen.contains(pixel_index(w as int, #[trigger] path@[j])) by {
                if j < old_path.len() {
                    assert(path@[j] == old_path[j]);
                }
            }
            lemma_len_subset(seen, set_int_range(0, n));
        }
        prev = curr;
        curr = next;
    }
}


/// The pixel with linear index `i` in a grid of width `w`.
pub open spec fn pixel_at(w: int, i: int) -> (i32, i32) {
    ((i % w) as i32, (i / w) as i32)
}

/// A set pixel with exactly one link.
pub open spec fn is_endpoint(s: Seq<bool>, w: int, h: int, p: (i32, i32)) -> bool {
    lit_at(s, w, h, p) && linked(s, w, h, p).len() == 1
}

/// The pixels that the spur from `start` removes: all of it, or all but its
/// base when the base is a junction (three or more links), provided that
/// many pixels are fewer than the limit at the base; else none.
pub open spec fn spur_cut(s: Seq<bool>, lim: Seq<usize>, w: int, h: int, start: (i32, i32)) -> Seq<(i32, i32)> {
    let (path, base) = spur(s, w, h, start);
    let len: int = if linked(s, w, h, base).len() >= 3 { path.len() - 1 } else { path.len() as int };
    if len < lim[pixel_index(w, base)] {
        path.take(len)
    } else {
        Seq::empty()
    }
}

/// `m` with the first `k` pixels of `cut` marked.
pub open spec fn mark_cut(m: Seq<bool>, w: int, cut: Seq<(i32, i32)>, k: int) -> Seq<bool>
    decreases k,
{
    if k <= 0 {
        m
    } else {
        mark_cut(m, w, cut, k - 1).update(pixel_index(w, cut[k - 1]), true)
    }
}

/// The pixels marked for removal once the endpoints among the first `i`
/// pixels, in row-major order, have been followed; an endpoint already
/// marked by an earlier spur is skipped.
pub open spec fn marks_upto(s: Seq<bool>, lim: Seq<usize>, w: int, h: int, i: int) -> Seq<bool>
    decreases i,
{
    if i <= 0 {
        Seq::new(s.len(), |j: int| false)
    } else {
        let m = marks_upto(s, lim, w, h, i - 1);
        let p = pixel_at(w, i - 1);
        if is_endpoint(s, w, h, p) && !m[i - 1] {
            mark_cut(m, w, spur_cut(s, lim, w, h, p), spur_cut(s, lim, w, h, p).len() as int)
        } else {
            m
        }
    }
}

/// The pixels one pruning pass removes.
pub open spec fn spur_marks(s: Seq<bool>, lim: Seq<usize>, w: int, h: int) -> Seq<bool> {
    marks_upto(s, lim, w, h, w * h)
}

/// The coordinates of linear index `i` of a `w x h` grid.
proof fn lemma_pixel_at(w: int, h: int, i: int)
    requires
        0 <= i < w * h,
        0 < w <= i32::MAX,
        0 < h <= i32::MAX,
    ensures
        0 <= pixel_at(w, i).0 < w,
        0 <= pixel_at(w, i).1 < h,
        (i % w) + (i / w) * w == i,
        0 <= i % w < w,
        0 <= i / w < h,
{
    assert(i == w * (i / w) + i % w && 0 <= i % w < w) by (nonlinear_arith)
        requires w > 0;
    assert(0 <= i / w) by (nonlinear_arith)
        requires w > 0, i >= 0;
    assert(i / w < h) by (nonlinear_arith)
        requires w > 0, 0 <= i < w * h, i == w * (i / w) + i % w, 0 <= i % w < w;
    assert((i / w) * w == w * (i / w)) by (nonlinear_arith);
    assert(((i % w) as i32) as int == i % w);
    assert(((i / w) as i32) as int == i / w);
}

/// The pixels one pruning pass removes, as flags over the grid.
fn pass_marks(s: &Vec<bool>, lim: &[usize], w: i32, h: i32) -> (m: Vec<bool>)
    requires
        grid(s@, w, h),
        lim@.len() == s@.len(),
    ensures
        m@ == spur_marks(s@, lim@, w as int, h as int),
        forall|j: int| 0 <= j < m@.len() && #[trigger] m@[j] ==> s@[j],
{
    let n = s.len();
    let mut m: Vec<bool> = vec![false; n];
    assert(m@ == marks_upto(s@, lim@, w as int, h as int, 0));
    let mut i: usize = 0;
    while i < n
        invariant
            grid(s@, w, h),
            lim@.len() == s@.len(),
            n == s@.len(),
            i <= n,
            m@ == marks_upto(s@, lim@, w as int, h as int, i as int),
            m@.len() == n,
            forall|j: int| 0 <= j < m@.len() && #[trigger] m@[j] ==> s@[j],
        decreases n - i,
    {
        proof {
            lemma_pixel_at(w as int, h as int, i as int);
        }
        let wu = w as usize;
        let x = (i % wu) as i32;
        let y = (i / wu) as i32;
        assert((x, y) == pixel_at(w as int, i as int));
        let ghost p = (x, y);
        if s[i] && !m[i] {
            let nb = linked_pixels(s, w, h, x, y);
            if nb.len() == 1 {
                let (path, base) = trace_spur(s, w, h, (x, y));
                proof {
                    lemma_spur_base(s@, w as int, h as int, (x, y));
                }
                let deg = linked_pixels(s, w, h, base.0, base.1).len();
                let len: usize = if deg >= 3 { path.len() - 1 } else { path.len() };
                let bi = index_of(w, h, base.0, base.1);
                let ghost cut = spur_cut(s@, lim@, w as int, h as int, p);
                if len < lim[bi] {
                    assert(cut == path@.take(len as int));
                    let ghost m0 = m@;
                    let mut k: usize = 0;
                    while k < len
                        invariant
                            grid(s@, w, h),
                            n == s@.len(),
                            len <= path@.len(),
                            cut == path@.take(len as int),
                            forall|j: int| 0 <= j < path@.len() ==> lit_at(s@, w as int, h as int, #[trigger] path@[j]),
                            k <= len,
                            m@ == mark_cut(m0, w as int, cut, k as int),
                            m@.len() == n,
                            forall|j: int| 0 <= j < m@.len() && #[trigger] m@[j] ==> s@[j],
                        decreases len - k,
                    {
                        let q = path[k];
                        assert(lit_at(s@, w as int, h as int, q));
                        let qi = index_of(w, h, q.0, q.1);
                        m.set(qi, true);
                        assert(cut[k as int] == q);
                        k = k + 1;
                    }
                } else {
                    assert(cut == Seq::<(i32, i32)>::empty());
                }
            }
        }
        i = i + 1;
    }
    m
}

/// The base of a spur is a set pixel, and the spur is not empty.
proof fn lemma_spur_base(s: Seq<bool>, w: int, h: int, start: (i32, i32))
    requires
        0 <= w <= i32::MAX,
        0 <= h <= i32::MAX,
        lit_at(s, w, h, start),
    ensures
        lit_at(s, w, h, spur(s, w, h, start).1),
        spur(s, w, h, start).0.len() >= 1,
        forall|j: int| 0 <= j < spur(s, w, h, start).0.len() ==> lit_at(s, w, h, #[trigger] spur(s, w, h, start).0[j]),
{
    lemma_linked_lit(s, w, h, start.0 as int, start.1 as int, 8);
    let nb = linked(s, w, h, start);
    if nb.len() > 0 {
        assert(lit_at(s, w, h, nb[0]));
        lemma_walk_lit(s, w, h, seq![start, nb[0]], start, nb[0], (w * h) as nat);
    }
}

/// A walk over set pixels stays on set pixels.
proof fn lemma_walk_lit(s: Seq<bool>, w: int, h: int, path: Seq<(i32, i32)>, prev: (i32, i32), curr: (i32, i32), fuel: nat)
    requires
        0 <= w <= i32::MAX,
        0 <= h <= i32::MAX,
        lit_at(s, w, h, curr),
        path.len() >= 1,
        forall|j: int| 0 <= j < path.len() ==> lit_at(s, w, h, #[trigger] path[j]),
    ensures
        lit_at(s, w, h, walk(s, w, h, path, prev, curr, fuel).1),
        walk(s, w, h, path, prev, curr, fuel).0.len() >= 1,
        forall|j: int| 0 <= j < walk(s, w, h, path, prev, curr, fuel).0.len() ==> lit_at(s, w, h, #[trigger] walk(s, w, h, path, prev, curr, fuel).0[j]),
    decreases fuel,
{
    let nb = linked(s, w, h, curr);
    if fuel > 0 && nb.len() == 2 {
        lemma_linked_lit(s, w, h, curr.0 as int, curr.1 as int, 8);
        let next = if nb[0] == prev { nb[1] } else { nb[0] };
        assert(lit_at(s, w, h, next));
        if !path.contains(next) {
            let p2 = path.push(next);
            assert forall|j: int| 0 <= j < p2.len() implies lit_at(s, w, h, #[trigger] p2[j]) by {
                if j < path.len() {
                    assert(p2[j] == path[j]);
                }
            }
            lemma_walk_lit(s, w, h, p2, curr, next, (fuel - 1) as nat);
        }
    }
}


/// `s` with the marked pixels cleared.
pub open spec fn cleared(s: Seq<bool>, m: Seq<bool>) -> Seq<bool> {
    Seq::new(s.len(), |i: int| s[i] && !m[i])
}

/// Some pixel is marked.
pub open spec fn any_marked(m: Seq<bool>) -> bool {
    exists|i: int| 0 <= i < m.len() && m[i]
}

/// Number of set pixels.
pub open spec fn set_count(s: Seq<bool>) -> nat {
    count_in(|i: int| s[i], 0, s.len() as int)
}

/// Pruning passes from `s`, at most `fuel` of them, until one removes nothing.
pub open spec fn prune_rounds(s: Seq<bool>, lim: Seq<usize>, w: int, h: int, fuel: nat) -> Seq<bool>
    decreases fuel,
{
    let m = spur_marks(s, lim, w, h);
    if fuel == 0 || !any_marked(m) {
        s
    } else {
        prune_rounds(cleared(s, m), lim, w, h, (fuel - 1) as nat)
    }
}

/// The skeleton `s` once pruning has settled. Every pass that removes
/// something removes a set pixel, so as many passes as `s` has pixels are
/// always enough.
pub open spec fn pruned(s: Seq<bool>, lim: Seq<usize>, w: int, h: int) -> Seq<bool> {
    prune_rounds(s, lim, w, h, s.len())
}

/// Clearing marked set pixels lowers the count of set pixels.
proof fn lemma_cleared_count(s: Seq<bool>, m: Seq<bool>)
    requires
        m.len() == s.len(),
        forall|j: int| 0 <= j < m.len() && #[trigger] m[j] ==> s[j],
    ensures
        cleared(s, m).len() == s.len(),
        set_count(cleared(s, m)) <= set_count(s),
        any_marked(m) ==> set_count(cleared(s, m)) < set_count(s),
        any_marked(m) ==> set_count(s) > 0,
{
    let c = cleared(s, m);
    let f = |i: int| c[i];
    let g = |i: int| s[i];
    lemma_count_mono(f, g, 0, s.len() as int);
    if any_marked(m) {
        let i = choose|i: int| 0 <= i < m.len() && m[i];
        assert(0 <= i < s.len() && g(i) && !f(i));
    }
}

/// One pass clears the whole spur it cuts, and only set pixels.
proof fn lemma_mark_cut(m: Seq<bool>, s: Seq<bool>, w: int, h: int, cut: Seq<(i32, i32)>, k: int)
    requires
        0 <= w <= i32::MAX,
        0 <= h <= i32::MAX,
        s.len() == w * h,
        m.len() == s.len(),
        0 <= k <= cut.len(),
        forall|t: int| 0 <= t < k ==> lit_at(s, w, h, #[trigger] cut[t]),
        forall|j: int| 0 <= j < m.len() && #[trigger] m[j] ==> s[j],
    ensures
        mark_cut(m, w, cut, k).len() == s.len(),
        forall|j: int| 0 <= j < s.len() && #[trigger] mark_cut(m, w, cut, k)[j] ==> s[j],
    decreases k,
{
    if k > 0 {
        lemma_mark_cut(m, s, w, h, cut, k - 1);
        let q = cut[k - 1];
        assert(lit_at(s, w, h, q));
        lemma_index_in(w, h, q.0 as int, q.1 as int);
    }
}

/// The pixels a pass marks are set pixels.
proof fn lemma_marks_lit(s: Seq<bool>, lim: Seq<usize>, w: int, h: int, i: int)
    requires
        0 <= w <= i32::MAX,
        0 <= h <= i32::MAX,
        s.len() == w * h,
    ensures
        marks_upto(s, lim, w, h, i).len() == s.len(),
        forall|j: int| 0 <= j < s.len() && #[trigger] marks_upto(s, lim, w, h, i)[j] ==> s[j],
    decreases i,
{
    if i > 0 {
        lemma_marks_lit(s, lim, w, h, i - 1);
        let m = marks_upto(s, lim, w, h, i - 1);
        let p = pixel_at(w, i - 1);
        if is_endpoint(s, w, h, p) && !m[i - 1] {
            lemma_spur_base(s, w, h, p);
            let cut = spur_cut(s, lim, w, h, p);
            let path = spur(s, w, h, p).0;
            assert forall|t: int| 0 <= t < cut.len() implies lit_at(s, w, h, #[trigger] cut[t]) by {
                assert(cut[t] == path[t]);
            }
            lemma_mark_cut(m, s, w, h, cut, cut.len() as int);
        }
    }
}

/// Removes dead-end spurs from `skeleton`, pass after pass, until a pass
/// removes nothing. A spur is cut when its length in pixels (without its
/// base when the base is a junction) is below `limits` at its base.
pub fn prune_spurs(skeleton: &mut Vec<bool>, limits: &[usize], width: u32, height: u32)
    requires
        (width as int) * (height as int) <= i32::MAX,
        old(skeleton)@.len() == (width as int) * (height as int),
        limits@.len() == (width as int) * (height as int),
    ensures
        final(skeleton)@ == pruned(old(skeleton)@, limits@, width as int, height as int),
{
    let ghost s0 = skeleton@;
    let n = skeleton.len();
    if n == 0 {
        proof {
            assert(spur_marks(s0, limits@, width as int, height as int).len() == 0);
        }
        return;
    }
    proof {
        assert(width <= i32::MAX && height <= i32::MAX) by (nonlinear_arith)
            requires
                (width as int) * (height as int) <= i32::MAX,
                (width as int) * (height as int) > 0,
        ;
        lemma_count_bounds(|i: int| s0[i], 0, n as int);
    }
    let w = width as i32;
    let h = height as i32;
    let ghost mut fuel: nat = n as nat;
    let mut cur: Vec<bool> = Vec::new();
    std::mem::swap(&mut cur, skeleton);
    let mut settled = false;
    while !settled
        invariant
            grid(cur@, w, h),
            w as int == width as int,
            h as int == height as int,
            n == cur@.len(),
            limits@.len() == n,
            prune_rounds(cur@, limits@, w as int, h as int, fuel) == pruned(s0, limits@, width as int, height as int),
            set_count(cur@) <= fuel,
            settled ==> cur@ == pruned(s0, limits@, width as int, height as int),
        decreases set_count(cur@) + if settled { 0int } else { 1int },
    {
        let m = pass_marks(&cur, limits, w, h);
        proof {
            lemma_marks_lit(cur@, limits@, w as int, h as int, (w as int) * (h as int));
        }
        let mut deleted = false;
        let mut next: Vec<bool> = Vec::new();
        let mut i: usize = 0;
        while i < n
            invariant
                n == cur@.len(),
                m@.len() == n,
                i <= n,
                next@.len() == i,
                forall|j: int| 0 <= j < i ==> next@[j] == (cur@[j] && !m@[j]),
                deleted == exists|j: int| 0 <= j < i && m@[j],
            decreases n - i,
        {
            let keep = cur[i] && !m[i];
            if m[i] {
                deleted = true;
            }
            next.push(keep);
            proof {
                if !deleted {
                    assert forall|j: int| 0 <= j < i + 1 implies !m@[j] by {}
                }
            }
            i = i + 1;
        }
        proof {
            lemma_cleared_count(cur@, m@);
            assert(next@ =~= cleared(cur@, m@));
            assert(deleted == any_marked(m@));
        }
        if deleted {
            cur = next;
            proof {
                fuel = (fuel - 1) as nat;
            }
        } else {
            settled = true;
        }
    }
    *skeleton = cur;
}

/// Pruning only removes pixels: every pixel set afterwards was set before.
pub proof fn law_prune_only_removes(s: Seq<bool>, lim: Seq<usize>, w: int, h: int, fuel: nat)
    ensures
        prune_rounds(s, lim, w, h, fuel).len() == s.len(),
        forall|i: int| 0 <= i < s.len() && #[trigger] prune_rounds(s, lim, w, h, fuel)[i] ==> s[i],
    decreases fuel,
{
    let m = spur_marks(s, lim, w, h);
    if fuel > 0 && any_marked(m) {
        law_prune_only_removes(cleared(s, m), lim, w, h, (fuel - 1) as nat);
    }
}

/// Pruning runs until it settles: on the pruned skeleton a further pass
/// finds nothing to remove, so pruning it again changes nothing.
pub proof fn law_prune_settles(s: Seq<bool>, lim: Seq<usize>, w: int, h: int)
    requires
        0 <= w <= i32::MAX,
        0 <= h <= i32::MAX,
        s.len() == w * h,
    ensures
        !any_marked(spur_marks(pruned(s, lim, w, h), lim, w, h)),
        pruned(pruned(s, lim, w, h), lim, w, h) == pruned(s, lim, w, h),
{
    lemma_count_bounds(|i: int| s[i], 0, s.len() as int);
    lemma_rounds_settle(s, lim, w, h, s.len());
    let r = pruned(s, lim, w, h);
    law_prune_only_removes(s, lim, w, h, s.len());
    if r.len() > 0 {
        assert(pruned(r, lim, w, h) == r);
    }
}

proof fn lemma_rounds_settle(s: Seq<bool>, lim: Seq<usize>, w: int, h: int, fuel: nat)
    requires
        0 <= w <= i32::MAX,
        0 <= h <= i32::MAX,
        s.len() == w * h,
        set_count(s) <= fuel,
    ensures
        !any_marked(spur_marks(prune_rounds(s, lim, w, h, fuel), lim, w, h)),
    decreases fuel,
{
    let m = spur_marks(s, lim, w, h);
    lemma_marks_lit(s, lim, w, h, w * h);
    lemma_cleared_count(s, m);
    if any_marked(m) {
        lemma_rounds_settle(cleared(s, m), lim, w, h, (fuel - 1) as nat);
    }
}

/// Whether a spur is cut, and how much of it, is decided by the limit at its
/// base alone, the pixel where its trace stops: the limits anywhere else
/// never matter; a spur is cut exactly when the pixels it would remove
/// (all of it, or all but a junction base) are fewer than that limit, and
/// then exactly those pixels, from its start on, are removed.
pub proof fn law_spur_cut_reads_its_base(s: Seq<bool>, lim: Seq<usize>, lim2: Seq<usize>, w: int, h: int, start: (i32, i32))
    ensures
        ({
            let path = spur(s, w, h, start).0;
            let base = spur(s, w, h, start).1;
            let len: int = if linked(s, w, h, base).len() >= 3 { path.len() - 1 } else { path.len() as int };
            &&& lim2[pixel_index(w, base)] == lim[pixel_index(w, base)] ==> spur_cut(s, lim2, w, h, start) == spur_cut(s, lim, w, h, start)
            &&& len < lim[pixel_index(w, base)] ==> spur_cut(s, lim, w, h, start) == path.subrange(0, len)
            &&& len >= lim[pixel_index(w, base)] ==> spur_cut(s, lim, w, h, start).len() == 0
        }),
{
}

} // verus!
