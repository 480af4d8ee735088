//! Dropping the skeleton of small ink components before graphs are built.

use vstd::prelude::*;
use crate::counting::lemma_count_ext;
use crate::sheet::chroma::cell;
use crate::sheet::cluster::{
    cluster_member, component_stats, flood8, joined8, labels_closed8, lemma_index_inj, lemma_walk_ends_lit,
    lemma_walk_join, member_count, step8, walk8,
};
use crate::stroke::graph::{index_of, lit};

verus! {

/// `(x, y)` is ink of `mask` whose 8-connected component has fewer than
/// `min` pixels.
pub open spec fn in_small_component(mask: Seq<bool>, w: int, h: int, x: int, y: int, min: int) -> bool {
    lit(mask, w, h, x, y) && member_count(mask, mask, w, h, x, y) < min
}

/// A walk can be taken backwards.
pub(crate) proof fn lemma_walk_back(d: Seq<bool>, w: int, h: int, x: int, y: int, a: int, b: int, n: nat)
    requires
        walk8(d, w, h, x, y, a, b, n),
    ensures
        walk8(d, w, h, a, b, x, y, n),
    decreases n,
{
    if n > 0 {
        let (p, q) = choose|p: int, q: int| walk8(d, w, h, x, y, p, q, (n - 1) as nat) && #[trigger] step8(d, w, h, p, q, a, b);
        lemma_walk_back(d, w, h, x, y, p, q, (n - 1) as nat);
        lemma_walk_ends_lit(d, w, h, x, y, p, q, (n - 1) as nat);
        assert(walk8(d, w, h, a, b, a, b, 0));
        assert(step8(d, w, h, a, b, p, q));
        assert(walk8(d, w, h, a, b, p, q, 1));
        lemma_walk_join(d, w, h, a, b, p, q, x, y, 1, (n - 1) as nat);
    }
}

/// Pixels of one component see the same component.
proof fn lemma_same_count(m: Seq<bool>, w: int, h: int, sx: int, sy: int, px: int, py: int)
    requires
        joined8(m, w, h, sx, sy, px, py),
    ensures
        member_count(m, m, w, h, px, py) == member_count(m, m, w, h, sx, sy),
{
    let f = |t: int| cluster_member(m, m, w, h, px, py, t % w, t / w);
    let g = |t: int| cluster_member(m, m, w, h, sx, sy, t % w, t / w);
    let n0 = choose|n: nat| #[trigger] walk8(m, w, h, sx, sy, px, py, n);
    lemma_walk_back(m, w, h, sx, sy, px, py, n0);
    assert forall|t: int| 0 <= t < w * h implies #[trigger] f(t) == g(t) by {
        let a = t % w;
        let b = t / w;
        if joined8(m, w, h, sx, sy, a, b) {
            let k = choose|k: nat| #[trigger] walk8(m, w, h, sx, sy, a, b, k);
            lemma_walk_join(m, w, h, px, py, sx, sy, a, b, n0, k);
            assert(walk8(m, w, h, px, py, a, b, n0 + k));
        }
        if joined8(m, w, h, px, py, a, b) {
            let k = choose|k: nat| #[trigger] walk8(m, w, h, px, py, a, b, k);
            lemma_walk_join(m, w, h, sx, sy, px, py, a, b, n0, k);
            assert(walk8(m, w, h, sx, sy, a, b, n0 + k));
        }
    }
    lemma_count_ext(f, g, 0, w * h);
}

/// Clears the skeleton pixels that lie on ink components of `mask` with fewer
/// than `min_pixels` pixels (8-connected); every other pixel keeps its value.
pub fn clear_small_components(skeleton: &mut Vec<bool>, mask: &Vec<bool>, width: u32, height: u32, min_pixels: usize)
    requires
        (width as int) * (height as int) <= i32::MAX,
        mask@.len() == (width as int) * (height as int),
        old(skeleton)@.len() == (width as int) * (height as int),
    ensures
        final(skeleton)@.len() == old(skeleton)@.len(),
        forall|x: int, y: int|
            0 <= x < width && 0 <= y < height ==> #[trigger] cell(final(skeleton)@, width as int, x, y) == (cell(
                old(skeleton)@,
                width as int,
                x,
                y,
            ) && !in_small_component(mask@, width as int, height as int, x, y, min_pixels as int)),
{
    let ghost orig = skeleton@;
    if width == 0 || height == 0 {
        return;
    }
    proof {
        assert(width <= i32::MAX && height <= i32::MAX) by (nonlinear_arith)
            requires (width as int) * (height as int) <= i32::MAX, width >= 1, height >= 1;
    }
    let w = width as i32;
    let h = height as i32;
    let ghost wi = w as int;
    let ghost hi = h as int;
    let n = (w * h) as usize;
    let ghost mn = min_pixels as int;
    let mut lab: Vec<usize> = Vec::new();
    let mut k: usize = 0;
    while k < n
        invariant
            k <= n,
            lab.len() == k,
            forall|i: int| 0 <= i < k ==> #[trigger] lab@[i] == 0,
        decreases n - k,
    {
        lab.push(0);
        k = k + 1;
    }
    let mut c: usize = 0;
    proof {
        assert forall|a: int, b: int| #[trigger] lit(mask@, wi, hi, a, b) && cell(lab@, wi, a, b) != 0
            implies crate::sheet::cluster::closed8_at(mask@, lab@, wi, hi, a, b) by {
            crate::sheet::chroma::lemma_index_in(wi, hi, a, b);
        }
        assert forall|a: int, b: int| 0 <= a < wi && 0 <= b < hi implies #[trigger] cell(lab@, wi, a, b) == 0 by {
            crate::sheet::chroma::lemma_index_in(wi, hi, a, b);
        }
    }
    let mut y: i32 = 0;
    while y < h
        invariant
            wi == w as int,
            hi == h as int,
            w == width,
            h == height,
            w > 0,
            h > 0,
            n == wi * hi,
            n <= i32::MAX,
            mn == min_pixels as int,
            mask@.len() == n,
            skeleton@.len() == n,
            orig.len() == n,
            lab@.len() == n,
            0 <= y <= h,
            c <= y * wi,
            labels_closed8(mask@, lab@, wi, hi),
            forall|i: int| 0 <= i < n ==> #[trigger] lab@[i] <= c,
            forall|i: int| 0 <= i < n && #[trigger] lab@[i] != 0 ==> mask@[i],
            forall|a: int, b: int|
                0 <= a < wi && 0 <= b < hi ==> #[trigger] cell(skeleton@, wi, a, b) == if cell(lab@, wi, a, b) == 0 {
                    cell(orig, wi, a, b)
                } else {
                    cell(orig, wi, a, b) && !in_small_component(mask@, wi, hi, a, b, mn)
                },
            forall|a: int, b: int| b < y && #[trigger] lit(mask@, wi, hi, a, b) ==> cell(lab@, wi, a, b) != 0,
        decreases h - y,
    {
        let mut x: i32 = 0;
        while x < w
            invariant
                wi == w as int,
                hi == h as int,
                w == width,
                h == height,
                w > 0,
                h > 0,
                n == wi * hi,
                n <= i32::MAX,
                mn == min_pixels as int,
                mask@.len() == n,
                skeleton@.len() == n,
                orig.len() == n,
                lab@.len() == n,
                0 <= y < h,
                0 <= x <= w,
                c <= y * wi + x,
                labels_closed8(mask@, lab@, wi, hi),
                forall|i: int| 0 <= i < n ==> #[trigger] lab@[i] <= c,
                forall|i: int| 0 <= i < n && #[trigger] lab@[i] != 0 ==> mask@[i],
                forall|a: int, b: int|
                    0 <= a < wi && 0 <= b < hi ==> #[trigger] cell(skeleton@, wi, a, b) == if cell(lab@, wi, a, b) == 0 {
                        cell(orig, wi, a, b)
                    } else {
                        cell(orig, wi, a, b) && !in_small_component(mask@, wi, hi, a, b, mn)
                    },
                forall|a: int, b: int|
                    (b < y || (b == y && a < x)) && #[trigger] lit(mask@, wi, hi, a, b) ==> cell(lab@, wi, a, b) != 0,
            decreases w - x,
        {
            let i = index_of(w, h, x, y);
            if mask[i] && lab[i] == 0 {
                let ghost lab0 = lab@;
                let ghost sk0 = skeleton@;
                proof {
                    assert(y * wi + x < n);
                }
                c = c + 1;
                let comp = flood8(mask, &mut lab, c, w, h, x, y);
                let cl = component_stats(mask, mask, &lab, c, w, h, &comp, Ghost(x as int), Ghost(y as int));
                let small = (cl.pixels as usize) < min_pixels;
                if small {
                    let mut j: usize = 0;
                    while j < comp.len()
                        invariant
                            wi == w as int,
                            hi == h as int,
                            w > 0,
                            h > 0,
                            n == wi * hi,
                            n <= i32::MAX,
                            skeleton@.len() == n,
                            sk0.len() == n,
                            j <= comp.len(),
                            forall|q: int| 0 <= q < comp.len() ==> 0 <= (#[trigger] comp@[q]).0 < w && 0 <= comp@[q].1 < h,
                            forall|a: int, b: int|
                                0 <= a < wi && 0 <= b < hi ==> #[trigger] cell(skeleton@, wi, a, b) == (cell(sk0, wi, a, b)
                                    && !comp@.take(j as int).contains((a as i32, b as i32))),
                        decreases comp.len() - j,
                    {
                        let p = comp[j];
                        let t = index_of(w, h, p.0, p.1);
                        let ghost before = skeleton@;
                        skeleton.set(t, false);
                        proof {
                            assert forall|a: int, b: int| 0 <= a < wi && 0 <= b < hi implies #[trigger] cell(skeleton@, wi, a, b)
                                == (cell(sk0, wi, a, b) && !comp@.take(j + 1).contains((a as i32, b as i32))) by {
                                crate::sheet::chroma::lemma_index_in(wi, hi, a, b);
                                assert(comp@.take(j + 1) == comp@.take(j as int).push(p));
                                if b * wi + a == t {
                                    lemma_index_inj(wi, a, b, p.0 as int, p.1 as int);
                                    assert(comp@.take(j + 1)[j as int] == (a as i32, b as i32));
                                } else {
                                    assert(cell(skeleton@, wi, a, b) == cell(before, wi, a, b));
                                    if comp@.take(j + 1).contains((a as i32, b as i32)) {
                                        let q = choose|q: int| 0 <= q < j + 1 && #[trigger] comp@.take(j + 1)[q] == (a as i32, b as i32);
                                        if q == j {
                                            assert(p == (a as i32, b as i32));
                                        } else {
                                            assert(comp@.take(j as int)[q] == (a as i32, b as i32));
                                        }
                                    }
                                }
                            }
                        }
                        j = j + 1;
                    }
                    assert(comp@.take(comp.len() as int) == comp@);
                }
                proof {
                    assert forall|a: int, b: int| 0 <= a < wi && 0 <= b < hi implies #[trigger] cell(skeleton@, wi, a, b)
                        == if cell(lab@, wi, a, b) == 0 {
                        cell(orig, wi, a, b)
                    } else {
                        cell(orig, wi, a, b) && !in_small_component(mask@, wi, hi, a, b, mn)
                    } by {
                        crate::sheet::chroma::lemma_index_in(wi, hi, a, b);
                        let ii = b * wi + a;
                        assert(lab@[ii] == lab0[ii] || (lab0[ii] == 0 && lab@[ii] == c));
                        if lab@[ii] == c && lab0[ii] == 0 {
                            assert(cell(lab@, wi, a, b) == c);
                            assert(comp@.contains((a as i32, b as i32)));
                            let q = choose|q: int| 0 <= q < comp.len() && #[trigger] comp@[q] == (a as i32, b as i32);
                            assert(joined8(mask@, wi, hi, x as int, y as int, comp@[q].0 as int, comp@[q].1 as int));
                            lemma_same_count(mask@, wi, hi, x as int, y as int, a, b);
                            assert(lit(mask@, wi, hi, comp@[q].0 as int, comp@[q].1 as int));
                        } else {
                            assert(lab@[ii] == lab0[ii]);
                            if comp@.contains((a as i32, b as i32)) {
                                let q = choose|q: int| 0 <= q < comp.len() && #[trigger] comp@[q] == (a as i32, b as i32);
                                assert(cell(lab@, wi, comp@[q].0 as int, comp@[q].1 as int) == c);
                            }
                        }
                    }
                    assert forall|ii: int| 0 <= ii < n && #[trigger] lab@[ii] != 0 implies mask@[ii] by {
                        if lab0[ii] == 0 {
                            let a = ii % wi;
                            let b = ii / wi;
                            vstd::arithmetic::div_mod::lemma_fundamental_div_mod(ii, wi);
                            assert(0 <= a < wi && 0 <= b < hi && ii == b * wi + a) by (nonlinear_arith)
                                requires a == ii % wi, b == ii / wi, 0 <= ii < wi * hi, wi > 0, hi > 0, ii == wi * b + a, 0 <= a < wi;
                            assert(cell(lab@, wi, a, b) == c);
                            assert(comp@.contains((a as i32, b as i32)));
                            let q = choose|q: int| 0 <= q < comp.len() && #[trigger] comp@[q] == (a as i32, b as i32);
                            assert(lit(mask@, wi, hi, comp@[q].0 as int, comp@[q].1 as int));
                        }
                    }
                    assert(comp@[0] == (x, y));
                    assert forall|a: int, b: int|
                        (b < y || (b == y && a < x + 1)) && #[trigger] lit(mask@, wi, hi, a, b) implies cell(lab@, wi, a, b) != 0 by {
                        crate::sheet::chroma::lemma_index_in(wi, hi, a, b);
                        let ii = b * wi + a;
                        assert(lab@[ii] == lab0[ii] || (lab0[ii] == 0 && lab@[ii] == c));
                        if b == y && a == x {
                            assert(cell(lab@, wi, comp@[0].0 as int, comp@[0].1 as int) == c);
                        }
                    }
                }
            } else {
                proof {
                    assert forall|a: int, b: int|
                        (b < y || (b == y && a < x + 1)) && #[trigger] lit(mask@, wi, hi, a, b) implies cell(lab@, wi, a, b) != 0 by {
                        if b == y && a == x {
                            assert(lit(mask@, wi, hi, x as int, y as int));
                        }
                    }
                }
            }
            x = x + 1;
        }
        proof {
            assert((y + 1) * wi == y * wi + wi) by (nonlinear_arith);
        }
        y = y + 1;
    }
    proof {
        assert forall|a: int, b: int| 0 <= a < width && 0 <= b < height implies #[trigger] cell(skeleton@, width as int, a, b)
            == (cell(orig, width as int, a, b) && !in_small_component(mask@, width as int, height as int, a, b, mn)) by {
            assert(cell(skeleton@, wi, a, b) == cell(skeleton@, width as int, a, b));
            crate::sheet::chroma::lemma_index_in(wi, hi, a, b);
            if lit(mask@, wi, hi, a, b) {
                assert(cell(lab@, wi, a, b) != 0);
            } else if cell(lab@, wi, a, b) != 0 {
                assert(mask@[b * wi + a]);
            }
        }
    }
}

} // verus!
