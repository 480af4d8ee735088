//! Softening the seams of 8x8 compression blocks: each colour byte on
//! either side of a block boundary becomes the 1-2-1 weighted mean of itself
//! and its two neighbours across the boundary, rounded half up; columns
//! first, then rows.

use vstd::prelude::*;
use crate::raster::RasterImage;

verus! {

/// Position `k` (a column or a row) touches a block boundary: it is the
/// first or the last of its block of 8.
pub open spec fn seam(k: int) -> bool {
    k % 8 == 0 || (k + 1) % 8 == 0
}

/// `(a + 2b + c) / 4`, rounded half up.
pub open spec fn smooth3(a: u8, b: u8, c: u8) -> u8 {
    ((a + 2 * b + c + 2) / 4) as u8
}

/// Byte `i` of a `w x h` RGBA buffer after smoothing across column seams.
pub open spec fn across_columns(p: Seq<u8>, w: int, h: int, i: int) -> u8 {
    let x = (i / 4) % w;
    if i < 4 * (w * h) && i % 4 < 3 && 1 <= x < w - 1 && seam(x) {
        smooth3(p[i - 4], p[i], p[i + 4])
    } else {
        p[i]
    }
}

/// Byte `i` of a `w x h` RGBA buffer after smoothing across row seams.
pub open spec fn across_rows(q: Seq<u8>, w: int, h: int, i: int) -> u8 {
    let y = (i / 4) / w;
    if i < 4 * (w * h) && i % 4 < 3 && 1 <= y < h - 1 && seam(y) {
        smooth3(q[i - 4 * w], q[i], q[i + 4 * w])
    } else {
        q[i]
    }
}

/// One pass over the whole buffer.
pub open spec fn deblock_pass(p: Seq<u8>, w: int, h: int, columns: bool) -> Seq<u8> {
    Seq::new(p.len(), |i: int| if columns { across_columns(p, w, h, i) } else { across_rows(p, w, h, i) })
}

/// The deblocked buffer; images of at most two columns or rows are left as
/// they are.
pub open spec fn deblocked(p: Seq<u8>, w: int, h: int) -> Seq<u8> {
    if w <= 2 || h <= 2 {
        p
    } else {
        deblock_pass(deblock_pass(p, w, h, true), w, h, false)
    }
}

fn smooth3_exec(a: u8, b: u8, c: u8) -> (v: u8)
    ensures
        v == smooth3(a, b, c),
{
    ((a as u32 + 2 * b as u32 + c as u32 + 2) / 4) as u8
}

fn pass(src: &Vec<u8>, w: usize, h: usize, columns: bool) -> (out: Vec<u8>)
    requires
        w > 2,
        h > 2,
        w * h <= u32::MAX,
        4 * (w * h) <= src@.len(),
    ensures
        out@ == deblock_pass(src@, w as int, h as int, columns),
{
    let ghost wi = w as int;
    let ghost hi = h as int;
    let ghost target = deblock_pass(src@, wi, hi, columns);
    let mut out = src.clone();
    assert(out@ =~= src@);
    let len = src.len();
    let n = w * h;
    let mut t: usize = 0;
    while t < n
        invariant
            wi == w as int,
            hi == h as int,
            w > 2,
            h > 2,
            n == w * h,
            n <= u32::MAX,
            4 * n <= len,
            len == src@.len(),
            target == deblock_pass(src@, wi, hi, columns),
            t <= n,
            out@.len() == len,
            forall|i: int| 0 <= i < 4 * t ==> out@[i] == #[trigger] target[i],
            forall|i: int| 4 * t <= i < len ==> out@[i] == src@[i],
        decreases n - t,
    {
        let x = t % w;
        let y = t / w;
        proof {
            vstd::arithmetic::div_mod::lemma_fundamental_div_mod(t as int, wi);
            assert(0 <= x < w);
            assert(t == y * w + x) by (nonlinear_arith)
                requires t == w * y + x;
            assert(y < h) by (nonlinear_arith)
                requires t == y * w + x, t < w * h, x >= 0, w > 0;
            assert(4 * w <= 4 * (w * h)) by (nonlinear_arith)
                requires h > 2;
        }
        let on = if columns {
            1 <= x && x + 1 < w && (x % 8 == 0 || (x + 1) % 8 == 0)
        } else {
            1 <= y && y + 1 < h && (y % 8 == 0 || (y + 1) % 8 == 0)
        };
        let base = 4 * t;
        if on {
            let step = if columns { 4 } else { 4 * w };
            proof {
                if columns {
                    assert(t >= 1 && t + 1 < n) by (nonlinear_arith)
                        requires t == y * w + x, x >= 1, x + 1 < w, y < h, n == w * h, y >= 0;
                }
                if !columns {
                    assert(t + w < n) by (nonlinear_arith)
                        requires t == y * w + x, y + 1 < h, x < w, n == w * h;
                    assert(t >= w) by (nonlinear_arith)
                        requires t == y * w + x, y >= 1, x >= 0;
                }
            }
            let mut c: usize = 0;
            while c < 3
                invariant
                    wi == w as int,
                    hi == h as int,
                    n == w * h,
                    4 * n <= len,
                    len == src@.len(),
                    target == deblock_pass(src@, wi, hi, columns),
                    t < n,
                    base == 4 * t,
                    x == t % w,
                    y == t / w,
                    on,
                    columns ==> step == 4 && 1 <= x && x + 1 < w && seam(x as int) && t >= 1 && t + 1 < n,
                    !columns ==> step == 4 * w && 1 <= y && y + 1 < h && seam(y as int) && t + w < n && t >= w,
                    c <= 3,
                    out@.len() == len,
                    forall|i: int| 0 <= i < base + c ==> out@[i] == #[trigger] target[i],
                    forall|i: int| base + c <= i < len ==> out@[i] == src@[i],
                decreases 3 - c,
            {
                let i = base + c;
                let v = smooth3_exec(src[i - step], src[i], src[i + step]);
                out.set(i, v);
                proof {
                    let ii = i as int;
                    assert(ii / 4 == t && ii % 4 == c);
                    assert(target[ii] == v);
                }
                c = c + 1;
            }
            proof {
                let ii = base as int + 3;
                assert(ii / 4 == t && ii % 4 == 3);
                assert(out@[ii] == target[ii]);
            }
        } else {
            proof {
                assert forall|i: int| base <= i < base + 4 implies out@[i] == #[trigger] target[i] by {
                    assert(i / 4 == t);
                }
            }
        }
        t = t + 1;
    }
    proof {
        assert forall|i: int| 0 <= i < len implies out@[i] == #[trigger] target[i] by {
            if i >= 4 * n {
                assert(i >= 4 * (wi * hi));
            }
        }
        assert(out@ =~= target);
    }
    out
}

/// Smooths the seams of 8x8 blocks that lossy compression leaves behind.
pub fn deblock(image: &RasterImage) -> (out: RasterImage)
    requires
        (image.width as int) * (image.height as int) <= u32::MAX,
        image.pixels@.len() >= 4 * ((image.width as int) * (image.height as int)),
    ensures
        out.width == image.width,
        out.height == image.height,
        out.pixels@ == deblocked(image.pixels@, image.width as int, image.height as int),
{
    let width = image.width;
    let height = image.height;
    if width <= 2 || height <= 2 {
        let p = image.pixels.clone();
        assert(p@ =~= image.pixels@);
        return RasterImage { width, height, pixels: p };
    }
    let w = width as usize;
    let h = height as usize;
    let across = pass(&image.pixels, w, h, true);
    let pixels = pass(&across, w, h, false);
    RasterImage { width, height, pixels }
}

proof fn lemma_flat_columns_at(p: Seq<u8>, w: int, h: int, i: int)
    requires
        w > 2,
        h > 2,
        0 <= i < p.len(),
        p.len() >= 4 * (w * h),
        forall|k: int| 0 <= k < p.len() ==> #[trigger] p[k] == p[k % 4],
    ensures
        across_columns(p, w, h, i) == p[i],
{
    let t = i / 4;
    let x = t % w;
    if i < 4 * (w * h) && i % 4 < 3 && 1 <= x < w - 1 && seam(x) {
        vstd::arithmetic::div_mod::lemma_fundamental_div_mod(t, w);
        let y = t / w;
        assert(t < w * h);
        assert(y < h) by (nonlinear_arith)
            requires t == w * y + x, x >= 0, t < w * h, w > 0;
        assert(t + 1 < w * (y + 1)) by (nonlinear_arith)
            requires t == w * y + x, x + 1 < w;
        assert(w * (y + 1) <= w * h) by (nonlinear_arith)
            requires y + 1 <= h, w > 0;
        assert(i >= 4 && i + 4 < p.len());
        assert((i - 4) % 4 == i % 4 && (i + 4) % 4 == i % 4);
        assert(p[i - 4] == p[i % 4] && p[i + 4] == p[i % 4]);
        assert(smooth3(p[i], p[i], p[i]) == p[i]);
    }
}

proof fn lemma_flat_rows_at(p: Seq<u8>, w: int, h: int, i: int)
    requires
        w > 2,
        h > 2,
        0 <= i < p.len(),
        p.len() >= 4 * (w * h),
        forall|k: int| 0 <= k < p.len() ==> #[trigger] p[k] == p[k % 4],
    ensures
        across_rows(p, w, h, i) == p[i],
{
    let t = i / 4;
    let y = t / w;
    if i < 4 * (w * h) && i % 4 < 3 && 1 <= y < h - 1 && seam(y) {
        vstd::arithmetic::div_mod::lemma_fundamental_div_mod(t, w);
        let x = t % w;
        assert(t >= w && t + w < w * h) by (nonlinear_arith)
            requires t == w * y + x, y >= 1, y + 1 < h, 0 <= x < w, w > 0;
        assert((i - 4 * w) % 4 == i % 4 && (i + 4 * w) % 4 == i % 4);
        assert(p[i - 4 * w] == p[(i - 4 * w) % 4] && p[i + 4 * w] == p[(i + 4 * w) % 4]);
        assert(smooth3(p[i], p[i], p[i]) == p[i]);
    }
}

proof fn lemma_flat_pass(p: Seq<u8>, w: int, h: int, columns: bool)
    requires
        w > 2,
        h > 2,
        p.len() >= 4 * (w * h),
        forall|k: int| 0 <= k < p.len() ==> #[trigger] p[k] == p[k % 4],
    ensures
        deblock_pass(p, w, h, columns) == p,
{
    let q = deblock_pass(p, w, h, columns);
    assert forall|i: int| 0 <= i < p.len() implies #[trigger] q[i] == p[i] by {
        if columns {
            lemma_flat_columns_at(p, w, h, i);
        } else {
            lemma_flat_rows_at(p, w, h, i);
        }
    }
    assert(q =~= p);
}

/// An image whose pixels all have one colour has nothing to smooth:
/// deblocking leaves it unchanged.
pub proof fn law_deblock_flat_is_identity(p: Seq<u8>, w: int, h: int)
    requires
        w > 2,
        h > 2,
        p.len() >= 4 * (w * h),
        forall|i: int| 0 <= i < p.len() ==> #[trigger] p[i] == p[i % 4],
    ensures
        deblocked(p, w, h) == p,
{
    lemma_flat_pass(p, w, h, true);
    lemma_flat_pass(p, w, h, false);
}


/// Deblocking keeps the buffer's length and every alpha byte exactly.
pub proof fn law_deblock_keeps_alpha(p: Seq<u8>, w: int, h: int, i: int)
    requires
        0 <= i < p.len(),
        i % 4 == 3,
    ensures
        deblocked(p, w, h).len() == p.len(),
        deblocked(p, w, h)[i] == p[i],
{
}

/// Deblocking touches only block seams: every byte of a pixel whose column
/// and row are both strictly inside their blocks of 8 (neither the first nor
/// the last of the block) keeps its value, as does every byte past the image.
pub proof fn law_deblock_keeps_block_interiors(p: Seq<u8>, w: int, h: int, i: int)
    requires
        w > 0,
        0 <= i < p.len(),
        i >= 4 * (w * h) || ({
            let x = (i / 4) % w;
            let y = (i / 4) / w;
            x % 8 != 0 && x % 8 != 7 && y % 8 != 0 && y % 8 != 7
        }),
    ensures
        deblocked(p, w, h)[i] == p[i],
{
    let x = (i / 4) % w;
    let y = (i / 4) / w;
    if w > 2 && h > 2 {
        assert(x >= 0 && y >= 0) by {
            vstd::arithmetic::div_mod::lemma_mod_pos_bound(i / 4, w);
            vstd::arithmetic::div_mod::lemma_div_pos_is_pos(i / 4, w);
        }
        if i < 4 * (w * h) {
            assert(!seam(x) && !seam(y));
        }
        let q = deblock_pass(p, w, h, true);
        assert(q[i] == p[i]);
    }
}

/// A colour byte of a pixel on a column seam (first or last column of its
/// block, not on the image's edge) whose row is inside its block becomes
/// the 1-2-1 mean, rounded half up, of itself and the same byte of its left
/// and right neighbours; across a row seam the same holds with the pixels
/// above and below.
pub proof fn law_deblock_smooths_seams(p: Seq<u8>, w: int, h: int, i: int)
    requires
        w > 2,
        h > 2,
        p.len() >= 4 * (w * h),
        0 <= i < 4 * (w * h),
        i % 4 < 3,
    ensures
        ({
            let x = (i / 4) % w;
            let y = (i / 4) / w;
            &&& (x % 8 == 0 || x % 8 == 7) && 1 <= x < w - 1 && y % 8 != 0 && y % 8 != 7 ==> deblocked(p, w, h)[i] as int
                == (p[i - 4] + 2 * p[i] + p[i + 4] + 2) / 4
            &&& (y % 8 == 0 || y % 8 == 7) && 1 <= y < h - 1 && x % 8 != 0 && x % 8 != 7 ==> deblocked(p, w, h)[i] as int
                == (p[i - 4 * w] + 2 * p[i] + p[i + 4 * w] + 2) / 4
        }),
{
    let t = i / 4;
    let x = t % w;
    let y = t / w;
    vstd::arithmetic::div_mod::lemma_fundamental_div_mod(t, w);
    assert(0 <= x < w) by {
        vstd::arithmetic::div_mod::lemma_mod_pos_bound(t, w);
    }
    assert(y >= 0) by {
        vstd::arithmetic::div_mod::lemma_div_pos_is_pos(t, w);
    }
    let q = deblock_pass(p, w, h, true);
    if (x % 8 == 0 || x % 8 == 7) && 1 <= x < w - 1 && y % 8 != 0 && y % 8 != 7 {
        assert(seam(x) && !seam(y));
        assert(i >= 4 && i + 4 < p.len()) by {
            assert(y < h) by (nonlinear_arith)
                requires t == w * y + x, x >= 0, t < w * h, w > 0;
            assert(t + 1 < w * (y + 1)) by (nonlinear_arith)
                requires t == w * y + x, x + 1 < w;
            assert(w * (y + 1) <= w * h) by (nonlinear_arith)
                requires y + 1 <= h, w > 0;
        }
        assert(q[i] == smooth3(p[i - 4], p[i], p[i + 4]));
    }
    if (y % 8 == 0 || y % 8 == 7) && 1 <= y < h - 1 && x % 8 != 0 && x % 8 != 7 {
        assert(seam(y) && !seam(x));
        assert(t >= w && t + w < w * h) by (nonlinear_arith)
            requires t == w * y + x, y >= 1, y + 1 < h, 0 <= x < w, w > 0;
        let ia = i - 4 * w;
        let ib = i + 4 * w;
        assert(ia / 4 == t - w && ib / 4 == t + w && ia % 4 == i % 4 && ib % 4 == i % 4);
        vstd::arithmetic::div_mod::lemma_mod_sub_multiples_vanish(t, w);
        vstd::arithmetic::div_mod::lemma_mod_add_multiples_vanish(t, w);
        assert(q[ia] == p[ia]);
        assert(q[ib] == p[ib]);
        assert(q[i] == p[i]);
    }
}

} // verus!
