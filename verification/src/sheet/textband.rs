//! Text rows of a contact sheet: removing them from a mask and finding the
//! caption row under an icon row.

use vstd::prelude::*;
use crate::counting::{count_in, sum_in};
use crate::sheet::chroma::{cell, lemma_index_in, Mask};
use crate::sheet::cluster::lemma_index_inj;
use crate::sheet::lattice::Band;

verus! {

/// Row bands of a sheet, classified.
#[derive(Debug)]
pub struct TextBands {
    /// Icon rows, sorted by `start`.
    pub icon: Vec<Band>,
    /// Text rows (short rows whose ink fell outside the icon columns).
    pub text: Vec<Band>,
    /// Short rows kept as icons because their ink was column-aligned.
    pub kept_short: Vec<Band>,
}

/// Row `y` lies in one of the first `k` text bands.
pub open spec fn in_text_bands(text: Seq<Band>, k: int, y: int) -> bool {
    exists|j: int| 0 <= j < k && #[trigger] text[j].start <= y < text[j].end
}

/// Linear index `i` of a width-`w` grid was cleared while processing band
/// `k` up to row `y` and column `x`.
pub open spec fn cleared_so_far(text: Seq<Band>, w: int, k: int, y: int, x: int, i: int) -> bool {
    w > 0 && (in_text_bands(text, k, i / w) || (k < text.len() && text[k].start <= i / w < y) || (
    i / w == y && i % w < x))
}

/// The bits of a width-`w` mask left after clearing every row that lies in
/// one of the text bands.
pub open spec fn stripped(bits: Seq<bool>, w: u32, text: Seq<Band>) -> Seq<bool> {
    Seq::new(bits.len(), |i: int| bits[i] && !(w > 0 && in_text_bands(text, text.len() as int, i / w as int)))
}

/// A copy of `mask` with every row of every text band cleared.
pub fn strip_text_rows(mask: &Mask, tb: &TextBands) -> (out: Mask)
    requires
        forall|j: int|
            0 <= j < tb.text@.len() ==> (#[trigger] tb.text@[j]).end as int * mask.width as int
                <= 0x1_0000_0000,
    ensures
        out.width == mask.width,
        out.height == mask.height,
        out.bits@.len() == mask.bits@.len(),
        out.bits@ == stripped(mask.bits@, mask.width, tb.text@),
{
    let mut bits = mask.bits.clone();
    assert(bits@ =~= mask.bits@);
    let w = mask.width;
    let ghost wi = w as int;
    let ghost text = tb.text@;
    let len = bits.len();
    let mut k: usize = 0;
    while k < tb.text.len()
        invariant
            text == tb.text@,
            wi == w,
            w == mask.width,
            len == mask.bits@.len(),
            bits@.len() == len,
            k <= text.len(),
            forall|j: int|
                0 <= j < text.len() ==> (#[trigger] text[j]).end as int * wi <= 0x1_0000_0000,
            forall|i: int|
                0 <= i < len ==> #[trigger] bits@[i] == (mask.bits@[i] && !(wi > 0 && in_text_bands(
                    text,
                    k as int,
                    i / wi,
                ))),
        decreases text.len() - k,
    {
        let band = tb.text[k];
        let mut y = band.start;
        while y < band.end
            invariant
                text == tb.text@,
                wi == w,
                w == mask.width,
                len == mask.bits@.len(),
                bits@.len() == len,
                k < text.len(),
                band == text[k as int],
                band.start <= y,
                y <= band.end || y == band.start,
                band.end as int * wi <= 0x1_0000_0000,
                forall|i: int|
                    0 <= i < len ==> #[trigger] bits@[i] == (mask.bits@[i] && !cleared_so_far(
                        text,
                        wi,
                        k as int,
                        y as int,
                        0,
                        i,
                    )),
            decreases band.end - y,
        {
            let mut x: u32 = 0;
            while x < w
                invariant
                    text == tb.text@,
                    wi == w,
                    len == mask.bits@.len(),
                    bits@.len() == len,
                    k < text.len(),
                    band == text[k as int],
                    band.start <= y < band.end,
                    band.end as int * wi <= 0x1_0000_0000,
                    x <= w,
                    forall|i: int|
                        0 <= i < len ==> #[trigger] bits@[i] == (mask.bits@[i] && !cleared_so_far(
                            text,
                            wi,
                            k as int,
                            y as int,
                            x as int,
                            i,
                        )),
                decreases w - x,
            {
                proof {
                    assert(y * wi + x < 0x1_0000_0000) by (nonlinear_arith)
                        requires y + 1 <= band.end, band.end * wi <= 0x1_0000_0000, x < wi;
                    assert(0 <= y * wi) by (nonlinear_arith)
                        requires y >= 0, wi >= 0;
                }
                let idx = (y * w + x) as usize;
                let ghost before = bits@;
                if idx < len {
                    bits.set(idx, false);
                }
                proof {
                    assert forall|i: int| 0 <= i < len implies #[trigger] bits@[i] == (mask.bits@[i]
                        && !cleared_so_far(text, wi, k as int, y as int, x as int + 1, i)) by {
                        vstd::arithmetic::div_mod::lemma_fundamental_div_mod(i, wi);
                        vstd::arithmetic::div_mod::lemma_fundamental_div_mod_converse(idx as int, wi, y as int, x as int);
                        if i == idx {
                            assert(i / wi == y && i % wi == x);
                        } else {
                            assert(before[i] == bits@[i]);
                            if i / wi == y && i % wi == x {
                                assert(i == wi * (i / wi) + i % wi);
                                assert(i == idx) by (nonlinear_arith)
                                    requires i == wi * (i / wi) + i % wi, i / wi == y, i % wi == x, idx == y * wi + x;
                            }
                        }
                    }
                }
                x = x + 1;
            }
            proof {
                assert forall|i: int| 0 <= i < len implies #[trigger] bits@[i] == (mask.bits@[i]
                    && !cleared_so_far(text, wi, k as int, y as int + 1, 0, i)) by {
                    if wi > 0 {
                        vstd::arithmetic::div_mod::lemma_fundamental_div_mod(i, wi);
                        assert(i % wi < wi);
                    }
                }
            }
            y = y + 1;
        }
        proof {
            assert(y == band.end || band.start >= band.end);
            assert forall|i: int| 0 <= i < len implies #[trigger] bits@[i] == (mask.bits@[i]
                && !(wi > 0 && in_text_bands(text, k as int + 1, i / wi))) by {
                if wi > 0 {
                    vstd::arithmetic::div_mod::lemma_fundamental_div_mod(i, wi);
                    assert(i % wi >= 0);
                    if in_text_bands(text, k as int + 1, i / wi) && !in_text_bands(text, k as int, i / wi) {
                        assert(text[k as int].start <= i / wi < text[k as int].end);
                    }
                    if in_text_bands(text, k as int, i / wi) {
                        let j = choose|j: int| 0 <= j < k && #[trigger] text[j].start <= i / wi < text[j].end;
                        assert(0 <= j < k + 1 && text[j].start <= i / wi < text[j].end);
                    }
                }
            }
        }
        k = k + 1;
    }
    assert(bits@ =~= stripped(mask.bits@, mask.width, tb.text@));
    Mask { width: mask.width, height: mask.height, bits }
}

/// Stripping text rows twice is stripping them once.
pub proof fn law_strip_idempotent(bits: Seq<bool>, w: u32, text: Seq<Band>)
    ensures
        stripped(stripped(bits, w, text), w, text) == stripped(bits, w, text),
{
    assert(stripped(stripped(bits, w, text), w, text) =~= stripped(bits, w, text));
}

/// `text[j]` starts at or below the icon band and within one and a half of
/// its heights of its end.
pub open spec fn caption_candidate(text: Seq<Band>, icon: Band, j: int) -> bool {
    text[j].start >= icon.end && 2 * (text[j].start - icon.end) <= 3 * icon.spec_len()
}

/// The nearest text band starting after `icon_band` ends, no farther than
/// one and a half of its heights; the earliest one wins a tie.
pub fn label_band_below(tb: &TextBands, icon_band: &Band) -> (r: Option<Band>)
    ensures
        r is None <==> !exists|j: int| 0 <= j < tb.text@.len() && #[trigger] caption_candidate(tb.text@, *icon_band, j),
        r matches Some(b) ==> exists|j: int|
            0 <= j < tb.text@.len() && #[trigger] caption_candidate(tb.text@, *icon_band, j) && tb.text@[j] == b
                && (forall|k: int| 0 <= k < tb.text@.len() && #[trigger] caption_candidate(tb.text@, *icon_band, k)
                    ==> tb.text@[j].start <= tb.text@[k].start)
                && (forall|k: int| 0 <= k < j && #[trigger] caption_candidate(tb.text@, *icon_band, k)
                    ==> tb.text@[k].start > tb.text@[j].start),
{
    let len3 = 3 * (icon_band.len() as u64);
    let ghost text = tb.text@;
    let mut best: Option<(Band, u32)> = None;
    let ghost mut bj: int = 0;
    let mut k: usize = 0;
    while k < tb.text.len()
        invariant
            text == tb.text@,
            len3 == 3 * icon_band.spec_len(),
            k <= text.len(),
            best is None <==> !exists|j: int| 0 <= j < k && #[trigger] caption_candidate(text, *icon_band, j),
            best matches Some(p) ==> {
                &&& 0 <= bj < k
                &&& caption_candidate(text, *icon_band, bj)
                &&& text[bj] == p.0
                &&& p.1 == text[bj].start - icon_band.end
                &&& forall|m: int| 0 <= m < k && #[trigger] caption_candidate(text, *icon_band, m)
                    ==> text[bj].start <= text[m].start
                &&& forall|m: int| 0 <= m < bj && #[trigger] caption_candidate(text, *icon_band, m)
                    ==> text[m].start > text[bj].start
            },
        decreases text.len() - k,
    {
        let tbnd = tb.text[k];
        if tbnd.start >= icon_band.end {
            let dist = tbnd.start - icon_band.end;
            if 2 * (dist as u64) <= len3 {
                assert(caption_candidate(text, *icon_band, k as int));
                match best {
                    None => {
                        best = Some((tbnd, dist));
                        proof { bj = k as int; }
                    },
                    Some((_, best_dist)) => {
                        if dist < best_dist {
                            best = Some((tbnd, dist));
                            proof { bj = k as int; }
                        }
                    },
                }
            } else {
                assert(!caption_candidate(text, *icon_band, k as int));
            }
        } else {
            assert(!caption_candidate(text, *icon_band, k as int));
        }
        k = k + 1;
    }
    match best {
        Some((b, _)) => Some(b),
        None => None,
    }
}


/// `v` lies in one of `bands`.
pub open spec fn in_bands(bands: Seq<Band>, v: int) -> bool {
    exists|k: int| 0 <= k < bands.len() && #[trigger] bands[k].start <= v < bands[k].end
}

/// Whether `v` lies in one of `bands`.
pub fn in_any_band(bands: &[Band], v: u32) -> (r: bool)
    ensures
        r == in_bands(bands@, v as int),
{
    let mut k: usize = 0;
    while k < bands.len()
        invariant
            k <= bands@.len(),
            forall|j: int| 0 <= j < k ==> !(#[trigger] bands@[j].start <= v < bands@[j].end),
        decreases bands@.len() - k,
    {
        if bands[k].start <= v && v < bands[k].end {
            assert(bands@[k as int].start <= v < bands@[k as int].end);
            return true;
        }
        k = k + 1;
    }
    false
}

/// A copy of `mask` keeping only the ink of the rows that lie in one of
/// `bands`; every other row of the grid is cleared.
pub fn keep_band_rows(mask: &Mask, bands: &[Band]) -> (out: Mask)
    requires
        mask.index_fits(),
        mask.bits@.len() >= (mask.width as int) * (mask.height as int),
    ensures
        out.width == mask.width,
        out.height == mask.height,
        out.bits@.len() == mask.bits@.len(),
        forall|x: int, y: int|
            0 <= x < mask.width && 0 <= y < mask.height ==> #[trigger] cell(out.bits@, mask.width as int, x, y) == (cell(
                mask.bits@,
                mask.width as int,
                x,
                y,
            ) && in_bands(bands@, y)),
        forall|i: int|
            (mask.width as int) * (mask.height as int) <= i < mask.bits@.len() ==> #[trigger] out.bits@[i] == mask.bits@[i],
{
    let mut bits = mask.bits.clone();
    assert(bits@ =~= mask.bits@);
    let w = mask.width;
    let h = mask.height;
    let ghost wi = w as int;
    let ghost hi = h as int;
    let ghost orig = mask.bits@;
    let mut y: u32 = 0;
    while y < h
        invariant
            wi == w,
            hi == h,
            w == mask.width,
            h == mask.height,
            wi * hi <= u32::MAX,
            orig == mask.bits@,
            bits@.len() == orig.len(),
            orig.len() >= wi * hi,
            y <= h,
            forall|a: int, b: int|
                0 <= a < wi && 0 <= b < hi ==> #[trigger] cell(bits@, wi, a, b) == (cell(orig, wi, a, b) && (b >= y || in_bands(
                    bands@,
                    b,
                ))),
            forall|i: int| wi * hi <= i < orig.len() ==> #[trigger] bits@[i] == orig[i],
        decreases h - y,
    {
        if !in_any_band(bands, y) {
            let mut x: u32 = 0;
            while x < w
                invariant
                    wi == w,
                    hi == h,
                    wi * hi <= u32::MAX,
                    y < h,
                    x <= w,
                    !in_bands(bands@, y as int),
                    bits@.len() == orig.len(),
                    orig.len() >= wi * hi,
                    forall|a: int, b: int|
                        0 <= a < wi && 0 <= b < hi ==> #[trigger] cell(bits@, wi, a, b) == (cell(orig, wi, a, b) && (b > y
                            || (b == y && a >= x) || in_bands(bands@, b))),
                    forall|i: int| wi * hi <= i < orig.len() ==> #[trigger] bits@[i] == orig[i],
                decreases w - x,
            {
                proof {
                    lemma_index_in(wi, hi, x as int, y as int);
                }
                let idx = (y * w + x) as usize;
                let ghost before = bits@;
                bits.set(idx, false);
                proof {
                    assert forall|a: int, b: int| 0 <= a < wi && 0 <= b < hi implies #[trigger] cell(bits@, wi, a, b) == (cell(
                        orig,
                        wi,
                        a,
                        b,
                    ) && (b > y || (b == y && a >= x + 1) || in_bands(bands@, b))) by {
                        lemma_index_in(wi, hi, a, b);
                        if b * wi + a == idx {
                            lemma_index_inj(wi, a, b, x as int, y as int);
                        } else {
                            assert(cell(bits@, wi, a, b) == cell(before, wi, a, b));
                        }
                    }
                }
                x = x + 1;
            }
        }
        y = y + 1;
    }
    Mask { width: mask.width, height: mask.height, bits }
}

/// Ink of row `y` of `mask`.
pub open spec fn row_ink_all(mask: &Mask, y: int) -> nat {
    count_in(|x: int| mask.bit(x, y), 0, mask.width as int)
}

/// Ink of row `y` of `mask` in none of the column bands `cols`.
pub open spec fn row_ink_outside(mask: &Mask, cols: Seq<Band>, y: int) -> nat {
    count_in(|x: int| mask.bit(x, y) && !in_bands(cols, x), 0, mask.width as int)
}

/// Ink of the rows of `band`.
pub open spec fn band_ink_all(mask: &Mask, band: Band) -> nat {
    sum_in(|y: int| row_ink_all(mask, y), band.start as int, band.end as int)
}

/// Ink of the rows of `band` in none of the column bands `cols`.
pub open spec fn band_ink_outside(mask: &Mask, band: Band, cols: Seq<Band>) -> nat {
    sum_in(|y: int| row_ink_outside(mask, cols, y), band.start as int, band.end as int)
}

/// The ink of the rows of `band`: all of it, and the part of it that lies
/// in none of the column bands `cols`.
pub fn band_ink(mask: &Mask, band: &Band, cols: &[Band]) -> (r: (u64, u64))
    requires
        mask.index_fits(),
    ensures
        r.0 == band_ink_all(mask, *band),
        r.1 == band_ink_outside(mask, *band, cols@),
        r.1 <= r.0,
{
    let mut total: u64 = 0;
    let mut outside: u64 = 0;
    let w = mask.width;
    let ghost wi = w as int;
    let mut y = band.start;
    while y < band.end
        invariant
            mask.index_fits(),
            wi == mask.width,
            w == mask.width,
            band.start <= y,
            y <= band.end || y == band.start,
            total == sum_in(|yy: int| row_ink_all(mask, yy), band.start as int, y as int),
            outside == sum_in(|yy: int| row_ink_outside(mask, cols@, yy), band.start as int, y as int),
            outside <= total,
            total <= (y - band.start) * wi,
        decreases band.end - y,
    {
        let ghost t0 = total as int;
        let ghost o0 = outside as int;
        proof {
            assert((y - band.start) * wi + wi <= 0xffff_ffff * 0xffff_ffff + 0xffff_ffff) by (nonlinear_arith)
                requires y < band.end, band.end <= 0xffff_ffff, band.start <= y, wi <= 0xffff_ffff, wi >= 0;
        }
        let mut x: u32 = 0;
        while x < w
            invariant
                mask.index_fits(),
                wi == mask.width,
                w == mask.width,
                x <= w,
                total == t0 + count_in(|x: int| mask.bit(x, y as int), 0, x as int),
                outside == o0 + count_in(|x: int| mask.bit(x, y as int) && !in_bands(cols@, x), 0, x as int),
                outside - o0 <= total - t0,
                total - t0 <= x,
                t0 + wi <= 0xffff_ffff * 0xffff_ffff + 0xffff_ffff,
                o0 <= t0,
            decreases w - x,
        {
            if mask.get(x, y) {
                total = total + 1;
                if !in_any_band(cols, x) {
                    outside = outside + 1;
                }
            }
            x = x + 1;
        }
        proof {
            assert((y - band.start) * wi + wi == (y + 1 - band.start) * wi) by (nonlinear_arith);
            assert(total == t0 + row_ink_all(mask, y as int));
            assert(outside == o0 + row_ink_outside(mask, cols@, y as int));
        }
        y = y + 1;
    }
    (total, outside)
}

} // verus!
