//! The dominant colour of an icon: the rounded mean colour of its saturated
//! core pixels.

use vstd::prelude::*;
use crate::counting::{count_in, sum_in};
use crate::raster::{RasterImage, Rgb};
use crate::sheet::cells::clip;
use crate::sheet::chroma::{max3, min3, saturation, Mask};
use crate::sheet::cluster::Bbox;

verus! {

/// Byte offset of pixel `(x, y)` of `image`.
pub open spec fn byte_at(image: &RasterImage, x: int, y: int) -> int {
    (y * image.width + x) * 4
}

/// Pixel `(x, y)` counts towards the core colour: set in the mask, inside
/// the image's buffer, and at least `min` saturated.
pub open spec fn core_pixel(image: &RasterImage, mask: &Mask, x: int, y: int, min: u8) -> bool {
    let i = byte_at(image, x, y);
    let p = image.pixels@;
    &&& mask.bit(x, y)
    &&& i + 3 < p.len()
    &&& max3(p[i], p[i + 1], p[i + 2]) - min3(p[i], p[i + 1], p[i + 2]) >= min
}

/// Channel `c` of pixel `(x, y)` when it counts, else 0.
pub open spec fn core_channel(image: &RasterImage, mask: &Mask, x: int, y: int, min: u8, c: int) -> nat {
    if core_pixel(image, mask, x, y, min) {
        image.pixels@[byte_at(image, x, y) + c] as nat
    } else {
        0
    }
}

/// Core pixels of row `y` of `rect` (the mask holds no ink past its edges).
pub open spec fn core_row_count(image: &RasterImage, mask: &Mask, rect: Bbox, min: u8, y: int) -> nat {
    count_in(|x: int| core_pixel(image, mask, x, y, min), rect.x1 as int, clip(rect.x2, mask.width) as int)
}

/// Number of core pixels in `rect`.
pub open spec fn core_count(image: &RasterImage, mask: &Mask, rect: Bbox, min: u8) -> nat {
    sum_in(|y: int| core_row_count(image, mask, rect, min, y), rect.y1 as int, clip(rect.y2, mask.height) as int)
}

/// Channel `c` of the core pixels of row `y` of `rect`, summed.
pub open spec fn core_row_sum(image: &RasterImage, mask: &Mask, rect: Bbox, min: u8, c: int, y: int) -> nat {
    sum_in(|x: int| core_channel(image, mask, x, y, min, c), rect.x1 as int, clip(rect.x2, mask.width) as int)
}

/// Channel `c` of the core pixels of `rect`, summed.
pub open spec fn core_sum(image: &RasterImage, mask: &Mask, rect: Bbox, min: u8, c: int) -> nat {
    sum_in(|y: int| core_row_sum(image, mask, rect, min, c, y), rect.y1 as int, clip(rect.y2, mask.height) as int)
}

/// `s / n` rounded to nearest, halves up.
pub open spec fn round_mean(s: nat, n: nat) -> int {
    ((2 * s + n) / (2 * n)) as int
}

/// The rounded mean colour of the pixels of `rect` that are set in `mask`
/// and at least `core_sat_min` saturated; `None` when there are none.
pub fn dominant_color(image: &RasterImage, mask: &Mask, rect: &Bbox, core_sat_min: u8) -> (c: Option<Rgb>)
    requires
        mask.index_fits(),
    ensures
        c is None <==> core_count(image, mask, *rect, core_sat_min) == 0,
        c matches Some(rgb) ==> {
            let n = core_count(image, mask, *rect, core_sat_min);
            &&& rgb.r == round_mean(core_sum(image, mask, *rect, core_sat_min, 0), n)
            &&& rgb.g == round_mean(core_sum(image, mask, *rect, core_sat_min, 1), n)
            &&& rgb.b == round_mean(core_sum(image, mask, *rect, core_sat_min, 2), n)
        },
{
    let ghost r = *rect;
    let x_hi = if rect.x2 <= mask.width { rect.x2 } else { mask.width };
    let y_hi = if rect.y2 <= mask.height { rect.y2 } else { mask.height };
    let ghost w_all = (mask.width as int) * (mask.height as int);
    let ghost ww: int = if rect.x1 <= x_hi { x_hi - rect.x1 } else { 0 };
    let len = image.pixels.len();
    let mut count: u64 = 0;
    let mut sum_r: u64 = 0;
    let mut sum_g: u64 = 0;
    let mut sum_b: u64 = 0;
    if rect.y1 >= y_hi {
        return None;
    }
    proof {
        assert(ww * (mask.height as int) <= w_all) by (nonlinear_arith)
            requires
                0 <= ww <= mask.width,
                w_all == (mask.width as int) * (mask.height as int),
        ;
    }
    let mut y = rect.y1;
    while y < y_hi
        invariant
            mask.index_fits(),
            r == *rect,
            x_hi == clip(r.x2, mask.width),
            y_hi == clip(r.y2, mask.height),
            y_hi <= mask.height,
            r.y1 <= y <= y_hi,
            len == image.pixels@.len(),
            ww == if r.x1 <= x_hi { x_hi - r.x1 } else { 0 },
            ww * (mask.height as int) <= w_all,
            w_all == (mask.width as int) * (mask.height as int),
            count == sum_in(|yy: int| core_row_count(image, mask, r, core_sat_min, yy), r.y1 as int, y as int),
            sum_r == sum_in(|yy: int| core_row_sum(image, mask, r, core_sat_min, 0, yy), r.y1 as int, y as int),
            sum_g == sum_in(|yy: int| core_row_sum(image, mask, r, core_sat_min, 1, yy), r.y1 as int, y as int),
            sum_b == sum_in(|yy: int| core_row_sum(image, mask, r, core_sat_min, 2, yy), r.y1 as int, y as int),
            count <= (y - r.y1) * ww,
            sum_r <= 255 * count,
            sum_g <= 255 * count,
            sum_b <= 255 * count,
        decreases y_hi - y,
    {
        let ghost c0 = count as int;
        let ghost r0 = sum_r as int;
        let ghost g0 = sum_g as int;
        let ghost b0 = sum_b as int;
        proof {
            assert((y - r.y1) * ww + ww <= w_all) by (nonlinear_arith)
                requires
                    y < y_hi,
                    y_hi <= mask.height,
                    r.y1 <= y,
                    ww * (mask.height as int) <= w_all,
                    ww >= 0,
            ;
        }
        if rect.x1 < x_hi {
            let mut x = rect.x1;
            while x < x_hi
                invariant
                    mask.index_fits(),
                    r == *rect,
                    x_hi == clip(r.x2, mask.width),
                    x_hi <= mask.width,
                    y < y_hi,
                    y_hi <= mask.height,
                    r.y1 <= y,
                    r.x1 <= x <= x_hi,
                    len == image.pixels@.len(),
                    ww == x_hi - r.x1,
                    c0 + ww <= w_all,
                    w_all <= u32::MAX,
                    count == c0 + count_in(|xx: int| core_pixel(image, mask, xx, y as int, core_sat_min), r.x1 as int, x as int),
                    sum_r == r0 + sum_in(|xx: int| core_channel(image, mask, xx, y as int, core_sat_min, 0), r.x1 as int, x as int),
                    sum_g == g0 + sum_in(|xx: int| core_channel(image, mask, xx, y as int, core_sat_min, 1), r.x1 as int, x as int),
                    sum_b == b0 + sum_in(|xx: int| core_channel(image, mask, xx, y as int, core_sat_min, 2), r.x1 as int, x as int),
                    count <= c0 + (x - r.x1),
                    sum_r <= 255 * count,
                    sum_g <= 255 * count,
                    sum_b <= 255 * count,
                decreases x_hi - x,
            {
                let ghost gi = byte_at(image, x as int, y as int);
                let mut hit = false;
                let mut pr: u8 = 0;
                let mut pg: u8 = 0;
                let mut pb: u8 = 0;
                if mask.get(x, y) {
                    proof {
                        assert((y as int) * (image.width as int) <= 0xffff_ffff * 0xffff_ffff) by (nonlinear_arith)
                            requires
                                y <= 0xffff_ffff,
                                image.width <= 0xffff_ffff,
                        ;
                    }
                    let idx: u128 = (y as u128 * image.width as u128 + x as u128) * 4;
                    assert(idx == gi);
                    if idx + 3 < len as u128 {
                        let i = idx as usize;
                        pr = image.pixels[i];
                        pg = image.pixels[i + 1];
                        pb = image.pixels[i + 2];
                        if saturation(pr, pg, pb) >= core_sat_min {
                            hit = true;
                        }
                    }
                }
                proof {
                    assert(hit == core_pixel(image, mask, x as int, y as int, core_sat_min));
                    if hit {
                        assert(pr == core_channel(image, mask, x as int, y as int, core_sat_min, 0));
                        assert(pg == core_channel(image, mask, x as int, y as int, core_sat_min, 1));
                        assert(pb == core_channel(image, mask, x as int, y as int, core_sat_min, 2));
                    } else {
                        assert(core_channel(image, mask, x as int, y as int, core_sat_min, 0) == 0);
                        assert(core_channel(image, mask, x as int, y as int, core_sat_min, 1) == 0);
                        assert(core_channel(image, mask, x as int, y as int, core_sat_min, 2) == 0);
                    }
                }
                if hit {
                    count = count + 1;
                    sum_r = sum_r + pr as u64;
                    sum_g = sum_g + pg as u64;
                    sum_b = sum_b + pb as u64;
                }
                x = x + 1;
            }
        }
        proof {
            assert((y - r.y1) * ww + ww == (y + 1 - r.y1) * ww) by (nonlinear_arith);
            if r.x1 >= x_hi {
                assert(core_row_count(image, mask, r, core_sat_min, y as int) == 0);
                assert(core_row_sum(image, mask, r, core_sat_min, 0, y as int) == 0);
                assert(core_row_sum(image, mask, r, core_sat_min, 1, y as int) == 0);
                assert(core_row_sum(image, mask, r, core_sat_min, 2, y as int) == 0);
            }
        }
        y = y + 1;
    }
    proof {
        assert((y - r.y1) * ww <= w_all) by (nonlinear_arith)
            requires
                r.y1 <= y <= mask.height,
                ww * (mask.height as int) <= w_all,
                ww >= 0,
        ;
    }
    if count == 0 {
        return None;
    }
    let n2 = 2 * count;
    proof {
        round_mean_fits(sum_r as nat, count as nat);
        round_mean_fits(sum_g as nat, count as nat);
        round_mean_fits(sum_b as nat, count as nat);
    }
    let red = ((2 * sum_r + count) / n2) as u8;
    let green = ((2 * sum_g + count) / n2) as u8;
    let blue = ((2 * sum_b + count) / n2) as u8;
    Some(Rgb { r: red, g: green, b: blue })
}

proof fn round_mean_fits(s: nat, n: nat)
    requires
        0 < n,
        s <= 255 * n,
    ensures
        0 <= round_mean(s, n) <= 255,
{
    assert((2 * s + n) / (2 * n) <= 255) by (nonlinear_arith)
        requires
            0 < n,
            s <= 255 * n,
    ;
}

} // verus!
