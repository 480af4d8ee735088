//! The 8-connected components of an ink mask, each listed from its first
//! pixel in row-major order.

use vstd::prelude::*;
use crate::sheet::chroma::{cell, lemma_index_in};
use crate::sheet::cluster::{
    flood8, is_seed, joined8, labels_closed8, lemma_closed_reach, lemma_fresh_is_seed, lemma_raster_order, lemma_walk_ends_lit,
    lemma_walk_join, walk8,
};
use crate::stroke::filter::lemma_walk_back;
use crate::stroke::graph::{index_of, lit, raster_before};

verus! {

/// `comp` lists, without repeats, exactly the set pixels reachable from
/// `seed`, starting with `seed` itself.
pub open spec fn is_component(mask: Seq<bool>, w: int, h: int, seed: (i32, i32), comp: Seq<(i32, i32)>) -> bool {
    &&& comp.len() > 0
    &&& comp[0] == seed
    &&& forall|j: int|
        0 <= j < comp.len() ==> 0 <= (#[trigger] comp[j]).0 < w && 0 <= comp[j].1 < h && lit(mask, w, h, comp[j].0 as int, comp[j].1 as int)
            && joined8(mask, w, h, seed.0 as int, seed.1 as int, comp[j].0 as int, comp[j].1 as int)
    &&& forall|i: int, j: int| 0 <= i < j < comp.len() ==> comp[i] != comp[j]
    &&& forall|a: int, b: int|
        0 <= a < w && 0 <= b < h && #[trigger] joined8(mask, w, h, seed.0 as int, seed.1 as int, a, b) ==> comp.contains(
            (a as i32, b as i32),
        )
}

/// What the row-major scan has established once it has passed the first
/// `t` pixels: the labels it has handed out, the components listed so far
/// and their seeds.
pub open spec fn scan_ok(
    mask: Seq<bool>,
    lab: Seq<usize>,
    w: int,
    h: int,
    comps: Seq<Vec<(i32, i32)>>,
    seeds: Seq<(int, int)>,
    t: int,
) -> bool {
    &&& lab.len() == w * h
    &&& comps.len() == seeds.len()
    &&& labels_closed8(mask, lab, w, h)
    &&& forall|i: int| 0 <= i < w * h ==> #[trigger] lab[i] <= seeds.len()
    &&& forall|i: int| 0 <= i < w * h && #[trigger] lab[i] != 0 ==> mask[i]
    &&& forall|px: int, py: int|
        0 <= px < w && 0 <= py < h && py * w + px < t && #[trigger] lit(mask, w, h, px, py) ==> cell(lab, w, px, py) != 0
    &&& forall|px: int, py: int|
        0 <= px < w && 0 <= py < h && #[trigger] cell(lab, w, px, py) != 0 ==> cell(lab, w, px, py) <= seeds.len()
            && joined8(mask, w, h, seeds[cell(lab, w, px, py) - 1].0, seeds[cell(lab, w, px, py) - 1].1, px, py)
    &&& forall|c: int| 0 <= c < seeds.len() ==> {
        let s = #[trigger] seeds[c];
        &&& 0 <= s.0 < w
        &&& 0 <= s.1 < h
        &&& cell(lab, w, s.0, s.1) == c + 1
        &&& s.1 * w + s.0 < t
        &&& is_seed(mask, w, h, s.0, s.1)
        &&& comps[c]@.len() > 0
        &&& comps[c]@[0] == (s.0 as i32, s.1 as i32)
    }
    &&& forall|c1: int, c2: int| #![trigger seeds[c1], seeds[c2]] 0 <= c1 < c2 < seeds.len() ==> seeds[c1].1 * w + seeds[c1].0 < seeds[c2].1 * w + seeds[c2].0
    &&& forall|c: int, j: int|
        0 <= c < seeds.len() && 0 <= j < comps[c]@.len() ==> {
            let p = #[trigger] comps[c]@[j];
            &&& 0 <= p.0 < w
            &&& 0 <= p.1 < h
            &&& lit(mask, w, h, p.0 as int, p.1 as int)
            &&& cell(lab, w, p.0 as int, p.1 as int) == c + 1
        }
    &&& forall|c: int, i: int, j: int| 0 <= c < seeds.len() && 0 <= i < j < comps[c]@.len() ==> #[trigger] comps[c]@[i] != #[trigger] comps[c]@[j]
    &&& forall|c: int, a: int, b: int|
        0 <= c < seeds.len() && 0 <= a < w && 0 <= b < h && #[trigger] cell(lab, w, a, b) == c + 1 ==> #[trigger] comps[c]@.contains(
            (a as i32, b as i32),
        )
}


/// Coordinates of a linear index of a `w x h` grid.
proof fn lemma_coords(w: int, h: int, i: int)
    requires
        w > 0,
        h > 0,
        0 <= i < w * h,
    ensures
        0 <= i % w < w,
        0 <= i / w < h,
        i == (i / w) * w + i % w,
{
    vstd::arithmetic::div_mod::lemma_fundamental_div_mod(i, w);
    assert(0 <= i % w < w && 0 <= i / w < h && i == (i / w) * w + i % w) by (nonlinear_arith)
        requires 0 <= i < w * h, w > 0, h > 0, i == w * (i / w) + i % w, 0 <= i % w < w;
}

/// A flood from a fresh seed at scan position `t` extends the scan by one
/// pixel, with one more component.
proof fn lemma_scan_flood(
    mask: Seq<bool>,
    lab0: Seq<usize>,
    lab1: Seq<usize>,
    w: int,
    h: int,
    comps: Seq<Vec<(i32, i32)>>,
    seeds: Seq<(int, int)>,
    comp: Vec<(i32, i32)>,
    x: int,
    y: int,
)
    requires
        0 < w <= i32::MAX,
        0 < h <= i32::MAX,
        w * h <= i32::MAX,
        mask.len() == w * h,
        0 <= x < w,
        0 <= y < h,
        scan_ok(mask, lab0, w, h, comps, seeds, y * w + x),
        lit(mask, w, h, x, y),
        cell(lab0, w, x, y) == 0,
        is_seed(mask, w, h, x, y),
        lab1.len() == lab0.len(),
        comp@.len() > 0,
        comp@[0] == (x as i32, y as i32),
        forall|k: int| 0 <= k < comp@.len() ==> 0 <= (#[trigger] comp@[k]).0 < w && 0 <= comp@[k].1 < h
            && lit(mask, w, h, comp@[k].0 as int, comp@[k].1 as int)
            && cell(lab1, w, comp@[k].0 as int, comp@[k].1 as int) == seeds.len() + 1
            && joined8(mask, w, h, x, y, comp@[k].0 as int, comp@[k].1 as int),
        forall|i: int, j: int| 0 <= i < j < comp@.len() ==> #[trigger] comp@[i] != #[trigger] comp@[j],
        forall|i: int| 0 <= i < lab1.len() ==> #[trigger] lab1[i] == lab0[i] || (lab0[i] == 0 && lab1[i] == seeds.len() + 1),
        forall|a: int, b: int| 0 <= a < w && 0 <= b < h && #[trigger] cell(lab1, w, a, b) == seeds.len() + 1 ==> comp@.contains((a as i32, b as i32)),
        labels_closed8(mask, lab1, w, h),
        forall|i: int| 0 <= i < lab1.len() ==> #[trigger] lab1[i] <= seeds.len() + 1,
    ensures
        scan_ok(mask, lab1, w, h, comps.push(comp), seeds.push((x, y)), y * w + x + 1),
{
    let t = y * w + x;
    let c = seeds.len() + 1;
    let comps1 = comps.push(comp);
    let seeds1 = seeds.push((x, y));
    lemma_index_in(w, h, x, y);
    assert forall|i: int| 0 <= i < w * h && #[trigger] lab1[i] != 0 implies mask[i] by {
        if lab0[i] == 0 {
            lemma_coords(w, h, i);
            let a = i % w;
            let b = i / w;
            assert(cell(lab1, w, a, b) == c);
            let k = choose|k: int| 0 <= k < comp@.len() && comp@[k] == (a as i32, b as i32);
            assert(lit(mask, w, h, comp@[k].0 as int, comp@[k].1 as int));
        }
    }
    assert forall|px: int, py: int|
        0 <= px < w && 0 <= py < h && py * w + px < t + 1 && #[trigger] lit(mask, w, h, px, py) implies cell(lab1, w, px, py) != 0 by {
        lemma_index_in(w, h, px, py);
        if py * w + px == t {
            lemma_cluster_index_inj(w, px, py, x, y);
            assert(cell(lab1, w, comp@[0].0 as int, comp@[0].1 as int) == c);
        } else {
            assert(cell(lab0, w, px, py) != 0);
            assert(lab1[py * w + px] == lab0[py * w + px] || lab0[py * w + px] == 0);
        }
    }
    assert forall|px: int, py: int|
        0 <= px < w && 0 <= py < h && #[trigger] cell(lab1, w, px, py) != 0 implies cell(lab1, w, px, py) <= seeds1.len()
            && joined8(mask, w, h, seeds1[cell(lab1, w, px, py) - 1].0, seeds1[cell(lab1, w, px, py) - 1].1, px, py) by {
        lemma_index_in(w, h, px, py);
        let ii = py * w + px;
        if lab1[ii] == lab0[ii] && lab0[ii] != 0 {
            assert(cell(lab0, w, px, py) != 0);
            assert(seeds1[cell(lab0, w, px, py) - 1] == seeds[cell(lab0, w, px, py) - 1]);
        } else {
            assert(cell(lab1, w, px, py) == c);
            assert(comp@.contains((px as i32, py as i32)));
            let k = choose|k: int| 0 <= k < comp@.len() && comp@[k] == (px as i32, py as i32);
            assert((px as i32) as int == px && (py as i32) as int == py);
            assert(joined8(mask, w, h, x, y, comp@[k].0 as int, comp@[k].1 as int));
            assert(seeds1[c - 1] == (x, y));
        }
    }
    assert forall|cc: int| 0 <= cc < seeds1.len() implies {
        let s = #[trigger] seeds1[cc];
        &&& 0 <= s.0 < w
        &&& 0 <= s.1 < h
        &&& cell(lab1, w, s.0, s.1) == cc + 1
        &&& s.1 * w + s.0 < t + 1
        &&& is_seed(mask, w, h, s.0, s.1)
        &&& comps1[cc]@.len() > 0
        &&& comps1[cc]@[0] == (s.0 as i32, s.1 as i32)
    } by {
        if cc < seeds.len() {
            let s = seeds[cc];
            assert(seeds1[cc] == s);
            assert(comps1[cc] == comps[cc]);
            lemma_index_in(w, h, s.0, s.1);
            assert(lab1[s.1 * w + s.0] == lab0[s.1 * w + s.0] || lab0[s.1 * w + s.0] == 0);
        } else {
            assert(seeds1[cc] == (x, y));
            assert(comps1[cc] == comp);
            assert(cell(lab1, w, comp@[0].0 as int, comp@[0].1 as int) == c);
        }
    }
    assert forall|c1: int, c2: int| #![trigger seeds1[c1], seeds1[c2]] 0 <= c1 < c2 < seeds1.len() implies seeds1[c1].1 * w
        + seeds1[c1].0 < seeds1[c2].1 * w + seeds1[c2].0 by {
        if c2 < seeds.len() {
            assert(seeds1[c1] == seeds[c1] && seeds1[c2] == seeds[c2]);
        } else {
            assert(seeds1[c1] == seeds[c1]);
            let s = seeds[c1];
            assert(s.1 * w + s.0 < t);
        }
    }
    assert forall|cc: int, j: int| 0 <= cc < seeds1.len() && 0 <= j < comps1[cc]@.len() implies {
        let p = #[trigger] comps1[cc]@[j];
        &&& 0 <= p.0 < w
        &&& 0 <= p.1 < h
        &&& lit(mask, w, h, p.0 as int, p.1 as int)
        &&& cell(lab1, w, p.0 as int, p.1 as int) == cc + 1
    } by {
        if cc < seeds.len() {
            assert(comps1[cc] == comps[cc]);
            let p = comps[cc]@[j];
            lemma_index_in(w, h, p.0 as int, p.1 as int);
            let ii = (p.1 as int) * w + (p.0 as int);
            assert(lab1[ii] == lab0[ii] || lab0[ii] == 0);
        } else {
            assert(comps1[cc] == comp);
        }
    }
    assert forall|cc: int, i: int, j: int| 0 <= cc < seeds1.len() && 0 <= i < j < comps1[cc]@.len() implies #[trigger] comps1[cc]@[i]
        != #[trigger] comps1[cc]@[j] by {
        if cc < seeds.len() {
            assert(comps1[cc] == comps[cc]);
        } else {
            assert(comps1[cc] == comp);
        }
    }
    assert forall|cc: int, a: int, b: int|
        0 <= cc < seeds1.len() && 0 <= a < w && 0 <= b < h && #[trigger] cell(lab1, w, a, b) == cc + 1 implies #[trigger] comps1[cc]@.contains(
        (a as i32, b as i32),
    ) by {
        lemma_index_in(w, h, a, b);
        let ii = b * w + a;
        if cc < seeds.len() {
            assert(comps1[cc] == comps[cc]);
            assert(lab1[ii] == lab0[ii] || (lab0[ii] == 0 && lab1[ii] == c));
            assert(cell(lab0, w, a, b) == cc + 1);
        } else {
            assert(comps1[cc] == comp);
        }
    }
}

proof fn lemma_cluster_index_inj(w: int, x1: int, y1: int, x2: int, y2: int)
    requires
        0 <= x1 < w,
        0 <= x2 < w,
        y1 * w + x1 == y2 * w + x2,
    ensures
        x1 == x2,
        y1 == y2,
{
    crate::sheet::cluster::lemma_index_inj(w, x1, y1, x2, y2);
}


/// The 8-connected components of the set pixels of `mask`, a row-major
/// `width x height` grid: each listed from its first pixel in row-major
/// order, components in the order of those first pixels, every set pixel in
/// one of them.
pub fn ink_components(mask: &Vec<bool>, width: u32, height: u32) -> (comps: Vec<Vec<(i32, i32)>>)
    requires
        (width as int) * (height as int) <= i32::MAX,
        mask@.len() == (width as int) * (height as int),
    ensures
        forall|k: int|
            0 <= k < comps@.len() ==> is_component(mask@, width as int, height as int, comps@[k]@[0], #[trigger] comps@[k]@)
                && is_seed(mask@, width as int, height as int, comps@[k]@[0].0 as int, comps@[k]@[0].1 as int),
        forall|k1: int, k2: int|
            0 <= k1 < k2 < comps@.len() ==> raster_before(#[trigger] comps@[k1]@[0], #[trigger] comps@[k2]@[0]),
        forall|a: int, b: int|
            #[trigger] lit(mask@, width as int, height as int, a, b) ==> exists|k: int|
                0 <= k < comps@.len() && comps@[k]@.contains((a as i32, b as i32)),
{
    if width == 0 || height == 0 {
        return Vec::new();
    }
    proof {
        assert(width <= i32::MAX && height <= i32::MAX) by (nonlinear_arith)
            requires (width as int) * (height as int) <= i32::MAX, width >= 1, height >= 1;
    }
    let w = width as i32;
    let h = height as i32;
    let ghost wi = w as int;
    let ghost hi = h as int;
    let n = (w * h) as usize;
    let mut lab: Vec<usize> = Vec::new();
    let mut k: usize = 0;
    while k < n
        invariant
            k <= n,
            lab@.len() == k,
            forall|i: int| 0 <= i < k ==> #[trigger] lab@[i] == 0,
        decreases n - k,
    {
        lab.push(0);
        k = k + 1;
    }
    let mut comps: Vec<Vec<(i32, i32)>> = Vec::new();
    let ghost mut seeds: Seq<(int, int)> = Seq::empty();
    let mut c: usize = 0;
    proof {
        assert forall|a: int, b: int| 0 <= a < wi && 0 <= b < hi implies #[trigger] cell(lab@, wi, a, b) == 0 by {
            lemma_index_in(wi, hi, a, b);
        }
        assert(scan_ok(mask@, lab@, wi, hi, comps@, seeds, 0));
    }
    let mut y: i32 = 0;
    while y < h
        invariant
            wi == w as int,
            hi == h as int,
            w as int == width as int,
            h as int == height as int,
            0 < w <= i32::MAX,
            0 < h <= i32::MAX,
            n == wi * hi,
            n <= i32::MAX,
            mask@.len() == n,
            0 <= y <= h,
            c == seeds.len(),
            c <= y * wi,
            scan_ok(mask@, lab@, wi, hi, comps@, seeds, y * wi),
        decreases h - y,
    {
        let mut x: i32 = 0;
        while x < w
            invariant
                wi == w as int,
                hi == h as int,
                0 < w <= i32::MAX,
                0 < h <= i32::MAX,
                n == wi * hi,
                n <= i32::MAX,
                mask@.len() == n,
                0 <= y < h,
                0 <= x <= w,
                c == seeds.len(),
                c <= y * wi + x,
                scan_ok(mask@, lab@, wi, hi, comps@, seeds, y * wi + x),
            decreases w - x,
        {
            proof {
                lemma_index_in(wi, hi, x as int, y as int);
            }
            let i = index_of(w, h, x, y);
            if mask[i] && lab[i] == 0 {
                proof {
                    lemma_fresh_is_seed(mask@, lab@, seeds, wi, hi, x as int, y as int);
                }
                let ghost lab0 = lab@;
                c = c + 1;
                let comp = flood8(mask, &mut lab, c, w, h, x, y);
                proof {
                    lemma_scan_flood(mask@, lab0, lab@, wi, hi, comps@, seeds, comp, x as int, y as int);
                    seeds = seeds.push((x as int, y as int));
                }
                comps.push(comp);
            } else {
                proof {
                    assert forall|px: int, py: int|
                        0 <= px < wi && 0 <= py < hi && py * wi + px < y * wi + x + 1 && #[trigger] lit(mask@, wi, hi, px, py)
                        implies cell(lab@, wi, px, py) != 0 by {
                        if py * wi + px == y * wi + x {
                            lemma_cluster_index_inj(wi, px, py, x as int, y as int);
                        }
                    }
                    assert forall|cc: int| 0 <= cc < seeds.len() implies (#[trigger] seeds[cc]).1 * wi + seeds[cc].0 < y * wi + x + 1 by {}
                }
            }
            x = x + 1;
        }
        proof {
            assert((y + 1) * wi == y * wi + wi) by (nonlinear_arith);
        }
        y = y + 1;
    }
    proof {
        assert(y * wi == wi * hi) by (nonlinear_arith)
            requires y == hi;
        lemma_scan_done(mask@, lab@, wi, hi, comps@, seeds);
    }
    comps
}

/// Once the scan has passed every pixel, the listed components are exactly
/// the components of the mask.
proof fn lemma_scan_done(mask: Seq<bool>, lab: Seq<usize>, w: int, h: int, comps: Seq<Vec<(i32, i32)>>, seeds: Seq<(int, int)>)
    requires
        0 < w <= i32::MAX,
        0 < h <= i32::MAX,
        mask.len() == w * h,
        scan_ok(mask, lab, w, h, comps, seeds, w * h),
    ensures
        forall|k: int|
            0 <= k < comps.len() ==> is_component(mask, w, h, comps[k]@[0], #[trigger] comps[k]@)
                && is_seed(mask, w, h, comps[k]@[0].0 as int, comps[k]@[0].1 as int),
        forall|k1: int, k2: int| 0 <= k1 < k2 < comps.len() ==> raster_before(#[trigger] comps[k1]@[0], #[trigger] comps[k2]@[0]),
        forall|a: int, b: int| #[trigger] lit(mask, w, h, a, b) ==> exists|k: int| 0 <= k < comps.len() && comps[k]@.contains((a as i32, b as i32)),
{
    assert forall|k: int| 0 <= k < comps.len() implies is_component(mask, w, h, comps[k]@[0], #[trigger] comps[k]@)
        && is_seed(mask, w, h, comps[k]@[0].0 as int, comps[k]@[0].1 as int) by {
        let s = seeds[k];
        let comp = comps[k]@;
        assert(comp[0] == (s.0 as i32, s.1 as i32));
        assert((s.0 as i32) as int == s.0 && (s.1 as i32) as int == s.1);
        assert forall|j: int| 0 <= j < comp.len() implies 0 <= (#[trigger] comp[j]).0 < w && 0 <= comp[j].1 < h
            && lit(mask, w, h, comp[j].0 as int, comp[j].1 as int)
            && joined8(mask, w, h, comp[0].0 as int, comp[0].1 as int, comp[j].0 as int, comp[j].1 as int) by {
            let p = comps[k]@[j];
            assert(cell(lab, w, p.0 as int, p.1 as int) == k + 1);
        }
        assert forall|i: int, j: int| 0 <= i < j < comp.len() implies comp[i] != comp[j] by {
            assert(comps[k]@[i] != comps[k]@[j]);
        }
        assert forall|a: int, b: int|
            0 <= a < w && 0 <= b < h && #[trigger] joined8(mask, w, h, comp[0].0 as int, comp[0].1 as int, a, b) implies comp.contains(
            (a as i32, b as i32),
        ) by {
            let m = choose|m: nat| #[trigger] walk8(mask, w, h, s.0, s.1, a, b, m);
            lemma_closed_reach(mask, lab, w, h, s.0, s.1, a, b, m);
            assert(cell(lab, w, a, b) == k + 1);
        }
    }
    assert forall|k1: int, k2: int| 0 <= k1 < k2 < comps.len() implies raster_before(#[trigger] comps[k1]@[0], #[trigger] comps[k2]@[0]) by {
        let s1 = seeds[k1];
        let s2 = seeds[k2];
        assert(s1.1 * w + s1.0 < s2.1 * w + s2.0);
        lemma_raster_order(w, s1.0, s1.1, s2.0, s2.1);
        assert(comps[k1]@[0] == (s1.0 as i32, s1.1 as i32));
        assert(comps[k2]@[0] == (s2.0 as i32, s2.1 as i32));
    }
    assert forall|a: int, b: int| #[trigger] lit(mask, w, h, a, b) implies exists|k: int| 0 <= k < comps.len() && comps[k]@.contains((a as i32, b as i32)) by {
        lemma_index_in(w, h, a, b);
        let l = cell(lab, w, a, b);
        assert(l != 0);
        assert(l <= seeds.len());
        assert(comps[l - 1]@.contains((a as i32, b as i32)));
    }
}


/// Components are disjoint: no pixel is reachable from two different
/// seeds, so every set pixel belongs to exactly one listed component.
pub proof fn law_components_disjoint(mask: Seq<bool>, w: int, h: int, s1: (int, int), s2: (int, int), a: int, b: int)
    requires
        w > 0,
        is_seed(mask, w, h, s1.0, s1.1),
        is_seed(mask, w, h, s2.0, s2.1),
        s1 != s2,
    ensures
        !(joined8(mask, w, h, s1.0, s1.1, a, b) && joined8(mask, w, h, s2.0, s2.1, a, b)),
{
    if joined8(mask, w, h, s1.0, s1.1, a, b) && joined8(mask, w, h, s2.0, s2.1, a, b) {
        let n1 = choose|n: nat| #[trigger] walk8(mask, w, h, s1.0, s1.1, a, b, n);
        let n2 = choose|n: nat| #[trigger] walk8(mask, w, h, s2.0, s2.1, a, b, n);
        lemma_walk_back(mask, w, h, s2.0, s2.1, a, b, n2);
        lemma_walk_join(mask, w, h, s1.0, s1.1, a, b, s2.0, s2.1, n1, n2);
        lemma_walk_back(mask, w, h, s1.0, s1.1, s2.0, s2.1, n1 + n2);
        lemma_walk_ends_lit(mask, w, h, s1.0, s1.1, s2.0, s2.1, n1 + n2);
        assert(joined8(mask, w, h, s1.0, s1.1, s2.0, s2.1));
        assert(joined8(mask, w, h, s2.0, s2.1, s1.0, s1.1));
        if s1.1 < s2.1 || (s1.1 == s2.1 && s1.0 < s2.0) {
            assert(lit(mask, w, h, s1.0, s1.1));
        } else {
            assert(lit(mask, w, h, s2.0, s2.1));
        }
    }
}

} // verus!
