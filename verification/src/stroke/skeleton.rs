//! Zhang-Suen thinning of a binary ink mask to a one-pixel-wide skeleton.

use vstd::prelude::*;
use crate::counting::{count_in, count_true, lemma_count_mono};
use crate::sheet::chroma::{cell, lemma_index_in};

verus! {

/// Value (0 or 1) of the grid at `(x, y)`; outside the grid reads 0.
pub open spec fn nb(s: Seq<bool>, w: int, h: int, x: int, y: int) -> int {
    if 0 <= x < w && 0 <= y < h && cell(s, w, x, y) { 1 } else { 0 }
}

/// 1 for a 0 -> 1 step from `a` to `b`.
pub open spec fn rise(a: int, b: int) -> int {
    if a == 0 && b == 1 { 1 } else { 0 }
}

/// The Zhang-Suen deletion test for pixel `(x, y)`, first (`first == true`)
/// or second sub-iteration. Neighbours run clockwise from north: p2 (N),
/// p3 (NE), p4 (E), p5 (SE), p6 (S), p7 (SW), p8 (W), p9 (NW).
pub open spec fn deletable(s: Seq<bool>, w: int, h: int, x: int, y: int, first: bool) -> bool {
    let p2 = nb(s, w, h, x, y - 1);
    let p3 = nb(s, w, h, x + 1, y - 1);
    let p4 = nb(s, w, h, x + 1, y);
    let p5 = nb(s, w, h, x + 1, y + 1);
    let p6 = nb(s, w, h, x, y + 1);
    let p7 = nb(s, w, h, x - 1, y + 1);
    let p8 = nb(s, w, h, x - 1, y);
    let p9 = nb(s, w, h, x - 1, y - 1);
    let b = p2 + p3 + p4 + p5 + p6 + p7 + p8 + p9;
    let a = rise(p2, p3) + rise(p3, p4) + rise(p4, p5) + rise(p5, p6) + rise(p6, p7) + rise(p7, p8)
        + rise(p8, p9) + rise(p9, p2);
    &&& 2 <= b <= 6
    &&& a == 1
    &&& if first {
        p2 * p4 * p6 == 0 && p4 * p6 * p8 == 0
    } else {
        p2 * p4 * p8 == 0 && p2 * p6 * p8 == 0
    }
}

/// One sub-iteration: every set pixel of the `w x h` grid that passes the
/// deletion test (evaluated on `s` as it was before the pass) is cleared.
/// Entries past `w * h` are untouched.
pub open spec fn thin_pass(s: Seq<bool>, w: int, h: int, first: bool) -> Seq<bool> {
    Seq::new(
        s.len(),
        |i: int|
            if 0 <= i < w * h && w > 0 {
                s[i] && !deletable(s, w, h, i % w, i / w, first)
            } else {
                s[i]
            },
    )
}

/// Both sub-iterations.
pub open spec fn thin_round(s: Seq<bool>, w: int, h: int) -> Seq<bool> {
    thin_pass(thin_pass(s, w, h, true), w, h, false)
}

pub proof fn lemma_round_shrinks(s: Seq<bool>, w: int, h: int)
    ensures
        thin_round(s, w, h).len() == s.len(),
        count_true(thin_round(s, w, h)) <= count_true(s),
        thin_round(s, w, h) != s ==> count_true(thin_round(s, w, h)) < count_true(s),
{
    let t = thin_round(s, w, h);
    let f = |i: int| t[i];
    let g = |i: int| s[i];
    assert forall|i: int| 0 <= i < s.len() && #[trigger] f(i) implies g(i) by {}
    lemma_count_mono(f, g, 0, s.len() as int);
    if t != s {
        if forall|i: int| 0 <= i < s.len() ==> t[i] == s[i] {
            assert(t =~= s);
        }
        let i = choose|i: int| 0 <= i < s.len() && t[i] != s[i];
        assert(g(i) && !f(i));
    }
}

/// Thinning to convergence: rounds repeat until one changes nothing.
pub open spec fn thinned(s: Seq<bool>, w: int, h: int) -> Seq<bool>
    decreases count_true(s),
{
    let t = thin_round(s, w, h);
    if t == s {
        s
    } else {
        proof {
            lemma_round_shrinks(s, w, h);
        }
        thinned(t, w, h)
    }
}

fn pix(grid: &Vec<bool>, w: i32, h: i32, x: i32, y: i32) -> (v: u8)
    requires
        w >= 0,
        h >= 0,
        (w as int) * (h as int) <= i32::MAX,
        grid@.len() >= (w as int) * (h as int),
        -1 <= x <= w,
        -1 <= y <= h,
    ensures
        v == nb(grid@, w as int, h as int, x as int, y as int),
{
    if x < 0 || x >= w || y < 0 || y >= h {
        0
    } else {
        proof {
            lemma_index_in(w as int, h as int, x as int, y as int);
        }
        if grid[(y * w + x) as usize] { 1 } else { 0 }
    }
}

fn deletable_at(grid: &Vec<bool>, w: i32, h: i32, x: i32, y: i32, first: bool) -> (d: bool)
    requires
        w >= 0,
        h >= 0,
        (w as int) * (h as int) <= i32::MAX,
        grid@.len() >= (w as int) * (h as int),
        0 <= x < w,
        0 <= y < h,
    ensures
        d == deletable(grid@, w as int, h as int, x as int, y as int, first),
{
    let p2 = pix(grid, w, h, x, y - 1);
    let p3 = pix(grid, w, h, x + 1, y - 1);
    let p4 = pix(grid, w, h, x + 1, y);
    let p5 = pix(grid, w, h, x + 1, y + 1);
    let p6 = pix(grid, w, h, x, y + 1);
    let p7 = pix(grid, w, h, x - 1, y + 1);
    let p8 = pix(grid, w, h, x - 1, y);
    let p9 = pix(grid, w, h, x - 1, y - 1);
    let b = p2 + p3 + p4 + p5 + p6 + p7 + p8 + p9;
    let neighbors = [p2, p3, p4, p5, p6, p7, p8, p9, p2];
    let mut a: u8 = 0;
    let mut i: usize = 0;
    while i < 8
        invariant
            i <= 8,
            a <= i,
            neighbors@ == seq![p2, p3, p4, p5, p6, p7, p8, p9, p2],
            a == {
                let n = neighbors@;
                (if i > 0 { rise(n[0] as int, n[1] as int) } else { 0 }) + (if i > 1 { rise(n[1] as int, n[2] as int) } else { 0 })
                    + (if i > 2 { rise(n[2] as int, n[3] as int) } else { 0 }) + (if i > 3 { rise(n[3] as int, n[4] as int) } else { 0 })
                    + (if i > 4 { rise(n[4] as int, n[5] as int) } else { 0 }) + (if i > 5 { rise(n[5] as int, n[6] as int) } else { 0 })
                    + (if i > 6 { rise(n[6] as int, n[7] as int) } else { 0 }) + (if i > 7 { rise(n[7] as int, n[8] as int) } else { 0 })
            },
        decreases 8 - i,
    {
        if neighbors[i] == 0 && neighbors[i + 1] == 1 {
            a = a + 1;
        }
        i = i + 1;
    }
    let c1 = 2 <= b && b <= 6 && a == 1;
    if first {
        c1 && (p2 == 0 || p4 == 0 || p6 == 0) && (p4 == 0 || p6 == 0 || p8 == 0)
    } else {
        c1 && (p2 == 0 || p4 == 0 || p8 == 0) && (p2 == 0 || p6 == 0 || p8 == 0)
    }
}

/// An owned copy of a slice of flags.
pub fn copy_flags(s: &[bool]) -> (v: Vec<bool>)
    ensures
        v@ == s@,
{
    let mut v: Vec<bool> = Vec::new();
    let mut i: usize = 0;
    while i < s.len()
        invariant
            i <= s@.len(),
            v@ == s@.subrange(0, i as int),
        decreases s@.len() - i,
    {
        v.push(s[i]);
        i = i + 1;
        assert(v@ =~= s@.subrange(0, i as int));
    }
    assert(v@ =~= s@);
    v
}

/// A round that changes nothing has a first sub-iteration that changes
/// nothing.
pub proof fn lemma_round_fixed_pass(s: Seq<bool>, w: int, h: int)
    ensures
        thin_round(s, w, h) == s ==> thin_pass(s, w, h, true) == s,
{
    let s1 = thin_pass(s, w, h, true);
    if thin_round(s, w, h) == s {
        assert forall|i: int| 0 <= i < s.len() implies s1[i] == s[i] by {
            assert(thin_round(s, w, h)[i] == s[i]);
        }
        assert(s1 =~= s);
    }
}

pub proof fn lemma_empty_grid_fixed(s: Seq<bool>, w: int, h: int)
    requires
        w * h == 0,
    ensures
        thinned(s, w, h) == s,
{
    assert(thin_pass(s, w, h, true) =~= s);
    assert(thin_pass(s, w, h, false) =~= s);
}

/// One sub-iteration: the next grid and whether any pixel was cleared.
fn run_pass(s: &Vec<bool>, w: i32, h: i32, first: bool) -> (res: (Vec<bool>, bool))
    requires
        w >= 0,
        h >= 0,
        (w as int) * (h as int) <= i32::MAX,
        s@.len() >= (w as int) * (h as int),
    ensures
        res.0@ == thin_pass(s@, w as int, h as int, first),
        res.1 <==> res.0@ != s@,
{
    let ghost target = thin_pass(s@, w as int, h as int, first);
    let ghost wi = w as int;
    let mut next: Vec<bool> = Vec::new();
    let mut changed = false;
    let mut y: i32 = 0;
    while y < h
        invariant
            w >= 0,
            wi == w,
            0 <= y <= h,
            (w as int) * (h as int) <= i32::MAX,
            s@.len() >= (w as int) * (h as int),
            target == thin_pass(s@, w as int, h as int, first),
            next@.len() == (y as int) * wi,
            forall|i: int| 0 <= i < next@.len() ==> #[trigger] next@[i] == target[i],
            changed <==> exists|i: int| 0 <= i < next@.len() && #[trigger] next@[i] != s@[i],
        decreases h - y,
    {
        let mut x: i32 = 0;
        while x < w
            invariant
                w >= 0,
                wi == w,
                0 <= y < h,
                0 <= x <= w,
                (w as int) * (h as int) <= i32::MAX,
                s@.len() >= (w as int) * (h as int),
                target == thin_pass(s@, w as int, h as int, first),
                next@.len() == (y as int) * wi + x,
                forall|i: int| 0 <= i < next@.len() ==> #[trigger] next@[i] == target[i],
                changed <==> exists|i: int| 0 <= i < next@.len() && #[trigger] next@[i] != s@[i],
            decreases w - x,
        {
            proof {
                lemma_index_in(w as int, h as int, x as int, y as int);
                vstd::arithmetic::div_mod::lemma_fundamental_div_mod_converse(
                    (y as int) * wi + x,
                    wi,
                    y as int,
                    x as int,
                );
            }
            let idx = (y * w + x) as usize;
            let cur = s[idx];
            let v = cur && !deletable_at(s, w, h, x, y, first);
            if cur && !v {
                changed = true;
            }
            let ghost before = next@;
            next.push(v);
            proof {
                assert(next@[idx as int] == target[idx as int]);
                assert forall|i: int| 0 <= i < next@.len() implies #[trigger] next@[i] == target[i] by {
                    if i < before.len() {
                        assert(before[i] == target[i]);
                    }
                }
                if changed {
                    if !(cur && !v) {
                        let i = choose|i: int| 0 <= i < before.len() && #[trigger] before[i] != s@[i];
                        assert(next@[i] != s@[i]);
                    } else {
                        assert(next@[idx as int] != s@[idx as int]);
                    }
                } else {
                    assert forall|i: int| 0 <= i < next@.len() implies #[trigger] next@[i] == s@[i] by {
                        if i < before.len() {
                            assert(before[i] == s@[i]);
                        }
                    }
                }
            }
            x = x + 1;
        }
        proof {
            assert((y as int) * wi + wi == (y as int + 1) * wi) by (nonlinear_arith);
        }
        y = y + 1;
    }
    let len = s.len();
    let mut i: usize = next.len();
    assert(i == (w as int) * (h as int)) by (nonlinear_arith)
        requires i == (y as int) * wi, y == h, wi == w;
    while i < len
        invariant
            len == s@.len(),
            (w as int) * (h as int) <= i <= len,
            next@.len() == i,
            target == thin_pass(s@, w as int, h as int, first),
            forall|k: int| 0 <= k < next@.len() ==> #[trigger] next@[k] == target[k],
            changed <==> exists|k: int| 0 <= k < next@.len() && #[trigger] next@[k] != s@[k],
        decreases len - i,
    {
        let ghost before = next@;
        next.push(s[i]);
        proof {
            assert forall|k: int| 0 <= k < next@.len() implies #[trigger] next@[k] == target[k] by {
                if k < before.len() {
                    assert(before[k] == target[k]);
                }
            }
            if changed {
                let k = choose|k: int| 0 <= k < before.len() && #[trigger] before[k] != s@[k];
                assert(next@[k] != s@[k]);
            } else {
                assert forall|k: int| 0 <= k < next@.len() implies #[trigger] next@[k] == s@[k] by {
                    if k < before.len() {
                        assert(before[k] == s@[k]);
                    }
                }
            }
        }
        i = i + 1;
    }
    proof {
        assert(next@ =~= target);
        if !changed {
            assert(next@ =~= s@);
        }
    }
    (next, changed)
}

/// Thin `ink_mask` (a `width x height` row-major grid) to a one-pixel-wide
/// skeleton with the Zhang-Suen algorithm, repeating both sub-iterations
/// until a round clears nothing.
pub fn zhang_suen_thinning(ink_mask: &[bool], width: u32, height: u32) -> (skeleton: Vec<bool>)
    requires
        (width as int) * (height as int) <= i32::MAX,
        ink_mask@.len() >= (width as int) * (height as int),
    ensures
        skeleton@ == thinned(ink_mask@, width as int, height as int),
{
    proof {
        if width > i32::MAX {
            assert(height == 0) by (nonlinear_arith)
                requires (width as int) * (height as int) <= i32::MAX, width > i32::MAX;
        }
        if height > i32::MAX {
            assert(width == 0) by (nonlinear_arith)
                requires (width as int) * (height as int) <= i32::MAX, height > i32::MAX;
        }
    }
    let w: i32 = if width <= i32::MAX as u32 { width as i32 } else { 0 };
    let h: i32 = if height <= i32::MAX as u32 { height as i32 } else { 0 };
    let ghost goal = thinned(ink_mask@, width as int, height as int);
    let mut skeleton = copy_flags(ink_mask);
    proof {
        assert(skeleton@ =~= ink_mask@);
        if !(width <= i32::MAX && height <= i32::MAX) {
            lemma_empty_grid_fixed(ink_mask@, width as int, height as int);
            lemma_empty_grid_fixed(ink_mask@, w as int, h as int);
        }
    }
    loop
        invariant
            w >= 0,
            h >= 0,
            (w as int) * (h as int) <= i32::MAX,
            skeleton@.len() == ink_mask@.len(),
            skeleton@.len() >= (w as int) * (h as int),
            thinned(skeleton@, w as int, h as int) == goal,
            goal == thinned(ink_mask@, width as int, height as int),
        decreases count_true(skeleton@),
    {
        let (s1, c1) = run_pass(&skeleton, w, h, true);
        let (s2, c2) = run_pass(&s1, w, h, false);
        proof {
            lemma_round_shrinks(skeleton@, w as int, h as int);
        }
        proof {
            lemma_round_fixed_pass(skeleton@, w as int, h as int);
        }
        if !c1 && !c2 {
            proof {
                assert(thin_round(skeleton@, w as int, h as int) == skeleton@);
                assert(thinned(skeleton@, w as int, h as int) == skeleton@);
            }
            return skeleton;
        }
        proof {
            assert(s2@ == thin_round(skeleton@, w as int, h as int));
            assert(s2@ != skeleton@);
            assert(thinned(skeleton@, w as int, h as int) == thinned(s2@, w as int, h as int));
        }
        skeleton = s2;
    }
}


/// Thinning only clears pixels: every pixel of the skeleton was set in the
/// input, and the lengths agree.
pub proof fn law_thinning_only_clears(s: Seq<bool>, w: int, h: int)
    ensures
        thinned(s, w, h).len() == s.len(),
        forall|i: int| 0 <= i < s.len() && #[trigger] thinned(s, w, h)[i] ==> s[i],
    decreases count_true(s),
{
    let t = thin_round(s, w, h);
    if t != s {
        lemma_round_shrinks(s, w, h);
        law_thinning_only_clears(t, w, h);
        assert forall|i: int| 0 <= i < s.len() && #[trigger] thinned(s, w, h)[i] implies s[i] by {
            assert(thinned(t, w, h)[i]);
            assert(t[i]);
        }
    }
}

/// A skeleton is left alone by thinning: thinning twice is thinning once.
pub proof fn law_thinning_idempotent(s: Seq<bool>, w: int, h: int)
    ensures
        thinned(thinned(s, w, h), w, h) == thinned(s, w, h),
    decreases count_true(s),
{
    let t = thin_round(s, w, h);
    if t != s {
        lemma_round_shrinks(s, w, h);
        law_thinning_idempotent(t, w, h);
    }
}

/// The `w x h` grid `s` turned half a turn; entries past `w * h` stay.
pub open spec fn half_turn(s: Seq<bool>, w: int, h: int) -> Seq<bool> {
    Seq::new(s.len(), |i: int| if 0 <= i < w * h { s[w * h - 1 - i] } else { s[i] })
}

/// Turning the grid half a turn moves the value at `(a, b)` to
/// `(w - 1 - a, h - 1 - b)`.
proof fn lemma_half_turn_nb(s: Seq<bool>, w: int, h: int, a: int, b: int)
    requires
        w > 0,
        h > 0,
        s.len() >= w * h,
    ensures
        nb(half_turn(s, w, h), w, h, w - 1 - a, h - 1 - b) == nb(s, w, h, a, b),
{
    if 0 <= a < w && 0 <= b < h {
        let a2 = w - 1 - a;
        let b2 = h - 1 - b;
        lemma_index_in(w, h, a2, b2);
        lemma_index_in(w, h, a, b);
        assert(w * h - 1 - (b2 * w + a2) == b * w + a) by (nonlinear_arith)
            requires a2 == w - 1 - a, b2 == h - 1 - b;
    }
}

/// The second sub-iteration is the first one turned half a turn: a pixel is
/// deletable in the second pass exactly when the opposite pixel of the
/// half-turned grid is deletable in the first. (So a shape that looks the
/// same after a half turn loses the same pixels on both sides of its
/// centre over a round.)
pub proof fn law_second_pass_mirrors_first(s: Seq<bool>, w: int, h: int, x: int, y: int)
    requires
        w > 0,
        h > 0,
        s.len() >= w * h,
    ensures
        deletable(s, w, h, x, y, false) == deletable(half_turn(s, w, h), w, h, w - 1 - x, h - 1 - y, true),
{
    let t = half_turn(s, w, h);
    let x2 = w - 1 - x;
    let y2 = h - 1 - y;
    lemma_half_turn_nb(s, w, h, x, y + 1);
    lemma_half_turn_nb(s, w, h, x - 1, y + 1);
    lemma_half_turn_nb(s, w, h, x - 1, y);
    lemma_half_turn_nb(s, w, h, x - 1, y - 1);
    lemma_half_turn_nb(s, w, h, x, y - 1);
    lemma_half_turn_nb(s, w, h, x + 1, y - 1);
    lemma_half_turn_nb(s, w, h, x + 1, y);
    lemma_half_turn_nb(s, w, h, x + 1, y + 1);
    assert(nb(t, w, h, x2, y2 - 1) == nb(s, w, h, x, y + 1));
    assert(nb(t, w, h, x2 + 1, y2 - 1) == nb(s, w, h, x - 1, y + 1));
    assert(nb(t, w, h, x2 + 1, y2) == nb(s, w, h, x - 1, y));
    assert(nb(t, w, h, x2 + 1, y2 + 1) == nb(s, w, h, x - 1, y - 1));
    assert(nb(t, w, h, x2, y2 + 1) == nb(s, w, h, x, y - 1));
    assert(nb(t, w, h, x2 - 1, y2 + 1) == nb(s, w, h, x + 1, y - 1));
    assert(nb(t, w, h, x2 - 1, y2) == nb(s, w, h, x + 1, y));
    assert(nb(t, w, h, x2 - 1, y2 - 1) == nb(s, w, h, x + 1, y + 1));
    let p2 = nb(s, w, h, x, y - 1);
    let p4 = nb(s, w, h, x + 1, y);
    let p6 = nb(s, w, h, x, y + 1);
    let p8 = nb(s, w, h, x - 1, y);
    assert(p6 * p8 * p2 == p2 * p6 * p8 && p8 * p2 * p4 == p2 * p4 * p8) by (nonlinear_arith);
}

/// Neither sub-iteration deletes an end of a stroke (a pixel with at most
/// one set neighbour) or a pixel inside the ink (all four of its edge
/// neighbours set).
pub proof fn law_thinning_keeps_ends_and_insides(s: Seq<bool>, w: int, h: int, x: int, y: int, first: bool)
    ensures
        nb(s, w, h, x, y - 1) + nb(s, w, h, x + 1, y - 1) + nb(s, w, h, x + 1, y) + nb(s, w, h, x + 1, y + 1)
            + nb(s, w, h, x, y + 1) + nb(s, w, h, x - 1, y + 1) + nb(s, w, h, x - 1, y) + nb(s, w, h, x - 1, y - 1) <= 1
            ==> !deletable(s, w, h, x, y, first),
        nb(s, w, h, x, y - 1) == 1 && nb(s, w, h, x + 1, y) == 1 && nb(s, w, h, x, y + 1) == 1 && nb(s, w, h, x - 1, y) == 1
            ==> !deletable(s, w, h, x, y, first),
{
}

} // verus!
