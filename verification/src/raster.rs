//! The RGBA raster type and the per-pixel operations on it that need no
//! floating point: cropping, alpha policies and pixel access.

use vstd::prelude::*;

verus! {

/// An 8-bit straight-alpha RGBA raster, row-major, four bytes per pixel.
#[derive(Debug, Clone)]
pub struct RasterImage {
    pub width: u32,
    pub height: u32,
    pub pixels: Vec<u8>,
}

/// An opaque sRGB colour.
#[derive(Debug, Clone, Copy, PartialEq, Eq, Structural)]
pub struct Rgb {
    pub r: u8,
    pub g: u8,
    pub b: u8,
}

/// How the alpha channel of a decoded image is treated before analysis.
#[derive(Debug, Clone, Copy, PartialEq, Eq, Structural)]
pub enum AlphaMode {
    /// Leave the image as decoded.
    Keep,
    /// Composite every pixel over this colour and make it opaque.
    Matte(Rgb),
    /// Snap alpha to 0 or 255: `alpha >= t` becomes opaque.
    Threshold(u8),
}

impl RasterImage {
    /// The buffer holds at least one RGBA quadruple per pixel.
    pub open spec fn covers(&self) -> bool {
        self.pixels.len() >= (self.width as int) * (self.height as int) * 4
    }
}

/// Byte offset of pixel `(x, y)` in a row-major RGBA buffer of the given width.
pub open spec fn pixel_offset(width: int, x: int, y: int) -> int {
    (y * width + x) * 4
}

/// Alpha of the pixel at `(x, y)`.
pub fn get_alpha(pixels: &[u8], width: u32, x: u32, y: u32) -> (a: u8)
    requires
        pixel_offset(width as int, x as int, y as int) <= u32::MAX,
        pixel_offset(width as int, x as int, y as int) + 3 < pixels@.len(),
    ensures
        a == pixels@[pixel_offset(width as int, x as int, y as int) + 3],
{
    proof {
        assert(0 <= y * width + x) by (nonlinear_arith);
        assert(0 <= y * width) by (nonlinear_arith);
    }
    let idx = ((y * width + x) * 4) as usize;
    pixels[idx + 3]
}

/// Colour of the pixel at `(x, y)`, ignoring alpha.
pub fn get_rgb(pixels: &[u8], width: u32, x: u32, y: u32) -> (c: Rgb)
    requires
        pixel_offset(width as int, x as int, y as int) <= u32::MAX,
        pixel_offset(width as int, x as int, y as int) + 3 < pixels@.len(),
    ensures
        c.r == pixels@[pixel_offset(width as int, x as int, y as int)],
        c.g == pixels@[pixel_offset(width as int, x as int, y as int) + 1],
        c.b == pixels@[pixel_offset(width as int, x as int, y as int) + 2],
{
    proof {
        assert(0 <= y * width + x) by (nonlinear_arith);
        assert(0 <= y * width) by (nonlinear_arith);
    }
    let idx = ((y * width + x) * 4) as usize;
    Rgb { r: pixels[idx], g: pixels[idx + 1], b: pixels[idx + 2] }
}

/// `src` composited over `bg` at straight alpha `alpha`, in sRGB, rounded
/// to the nearest integer: `round((src * alpha + bg * (255 - alpha)) / 255)`.
/// The exact quotient is never a half-integer (255 is odd), so the rounding
/// has no ties.
pub open spec fn composite_spec(src: u8, bg: u8, alpha: u8) -> int {
    (2 * (src * alpha + bg * (255 - alpha)) + 255) / 510
}

/// One channel of straight-alpha "over" compositing.
pub fn composite_channel(src: u8, bg: u8, alpha: u8) -> (v: u8)
    ensures
        v == composite_spec(src, bg, alpha),
        alpha == 255 ==> v == src,
        alpha == 0 ==> v == bg,
{
    if alpha == 255 {
        assert(composite_spec(src, bg, alpha) == src) by (nonlinear_arith)
            requires alpha == 255;
        return src;
    }
    if alpha == 0 {
        assert(composite_spec(src, bg, alpha) == bg) by (nonlinear_arith)
            requires alpha == 0;
        return bg;
    }
    let s = src as u32;
    let b = bg as u32;
    let a = alpha as u32;
    proof {
        assert(s * a + b * (255 - a) <= 255 * 255) by (nonlinear_arith)
            requires s <= 255, b <= 255, a <= 255;
    }
    let num = 2 * (s * a + b * (255 - a)) + 255;
    proof {
        assert(num / 510 <= 255) by (nonlinear_arith)
            requires num <= 2 * (255 * 255) + 255;
    }
    (num / 510) as u8
}

/// Number of whole RGBA quadruples in a buffer.
pub open spec fn quad_count(len: int) -> int {
    len / 4
}

/// The pixel bytes after matting: every whole quadruple composited over
/// `bg` and made opaque; trailing bytes of an incomplete quadruple kept.
pub open spec fn matted(src: Seq<u8>, bg: Rgb) -> Seq<u8> {
    Seq::new(
        src.len(),
        |i: int|
            if i >= quad_count(src.len() as int) * 4 {
                src[i]
            } else if i % 4 == 3 {
                255u8
            } else {
                let a = src[i - i % 4 + 3];
                let c = if i % 4 == 0 { bg.r } else if i % 4 == 1 { bg.g } else { bg.b };
                composite_spec(src[i], c, a) as u8
            },
    )
}

/// The pixel bytes after alpha thresholding at `t`.
pub open spec fn thresholded(src: Seq<u8>, t: u8) -> Seq<u8> {
    Seq::new(
        src.len(),
        |i: int|
            if i >= quad_count(src.len() as int) * 4 || i % 4 != 3 {
                src[i]
            } else if src[i] >= t {
                255u8
            } else {
                0u8
            },
    )
}

/// Apply an alpha policy to a decoded image. Dimensions never change.
pub fn apply_alpha_mode(image: RasterImage, mode: &AlphaMode) -> (out: RasterImage)
    ensures
        out.width == image.width,
        out.height == image.height,
        match *mode {
            AlphaMode::Keep => out.pixels@ == image.pixels@,
            AlphaMode::Matte(bg) => out.pixels@ == matted(image.pixels@, bg),
            AlphaMode::Threshold(t) => out.pixels@ == thresholded(image.pixels@, t),
        },
{
    match mode {
        AlphaMode::Keep => image,
        AlphaMode::Matte(bg) => matte(image, *bg),
        AlphaMode::Threshold(t) => threshold(image, *t),
    }
}

fn matte(image: RasterImage, bg: Rgb) -> (out: RasterImage)
    ensures
        out.width == image.width,
        out.height == image.height,
        out.pixels@ == matted(image.pixels@, bg),
{
    let mut image = image;
    let ghost src = image.pixels@;
    let ghost w0 = image.width;
    let ghost h0 = image.height;
    let total = image.pixels.len();
    let n = total / 4;
    let mut p: usize = 0;
    while p < n
        invariant
            total == src.len(),
            n == quad_count(src.len() as int),
            n * 4 <= src.len(),
            image.width == w0,
            image.height == h0,
            p <= n,
            image.pixels@.len() == src.len(),
            forall|i: int| 0 <= i < p * 4 ==> image.pixels@[i] == #[trigger] matted(src, bg)[i],
            forall|i: int| p * 4 <= i < src.len() ==> image.pixels@[i] == src[i],
        decreases n - p,
    {
        let base = p * 4;
        let a = image.pixels[base + 3];
        let r = composite_channel(image.pixels[base], bg.r, a);
        let g = composite_channel(image.pixels[base + 1], bg.g, a);
        let b = composite_channel(image.pixels[base + 2], bg.b, a);
        image.pixels.set(base, r);
        image.pixels.set(base + 1, g);
        image.pixels.set(base + 2, b);
        image.pixels.set(base + 3, 255);
        proof {
            assert forall|i: int| 0 <= i < (p + 1) * 4 implies image.pixels@[i]
                == #[trigger] matted(src, bg)[i] by {
                if i >= p * 4 {
                    assert(i - i % 4 == base);
                }
            }
        }
        p = p + 1;
    }
    proof {
        assert(image.pixels@ =~= matted(src, bg));
    }
    image
}

fn threshold(image: RasterImage, t: u8) -> (out: RasterImage)
    ensures
        out.width == image.width,
        out.height == image.height,
        out.pixels@ == thresholded(image.pixels@, t),
{
    let mut image = image;
    let ghost src = image.pixels@;
    let ghost w0 = image.width;
    let ghost h0 = image.height;
    let total = image.pixels.len();
    let n = total / 4;
    let mut p: usize = 0;
    while p < n
        invariant
            total == src.len(),
            n == quad_count(src.len() as int),
            n * 4 <= src.len(),
            image.width == w0,
            image.height == h0,
            p <= n,
            image.pixels@.len() == src.len(),
            forall|i: int| 0 <= i < p * 4 ==> image.pixels@[i] == #[trigger] thresholded(src, t)[i],
            forall|i: int| p * 4 <= i < src.len() ==> image.pixels@[i] == src[i],
        decreases n - p,
    {
        let k = p * 4 + 3;
        let v: u8 = if image.pixels[k] >= t { 255 } else { 0 };
        image.pixels.set(k, v);
        p = p + 1;
    }
    proof {
        assert(image.pixels@ =~= thresholded(src, t));
    }
    image
}

/// Width of a crop starting at `origin` and asking for `want` pixels along
/// an axis of length `size`, clamped to the image.
pub open spec fn clamp_extent(origin: u32, want: u32, size: u32) -> u32 {
    if origin < size {
        if want <= size - origin { want } else { (size - origin) as u32 }
    } else {
        0
    }
}

/// Byte `j` of row `r` in a buffer whose rows are `stride` bytes long.
pub open spec fn row_byte(s: Seq<u8>, stride: int, r: int, j: int) -> u8 {
    s[r * stride + j]
}

/// `out` is the rectangle `(x, y, w, h)` of `image`, clamped to its bounds:
/// a 0x0 raster when the clamped rectangle is empty, else its rows copied.
pub open spec fn cropped(image: RasterImage, x: u32, y: u32, w: u32, h: u32, out: RasterImage) -> bool {
    let cw = clamp_extent(x, w, image.width);
    let ch = clamp_extent(y, h, image.height);
    if cw == 0 || ch == 0 {
        out.width == 0 && out.height == 0 && out.pixels@.len() == 0
    } else {
        &&& out.width == cw
        &&& out.height == ch
        &&& out.pixels@.len() == (cw as int) * (ch as int) * 4
        &&& forall|r: int, j: int|
            0 <= r < ch && 0 <= j < cw * 4 ==> #[trigger] row_byte(out.pixels@, cw * 4, r, j) == row_byte(
                image.pixels@,
                image.width * 4,
                y + r,
                x * 4 + j,
            )
    }
}

/// Copy the rectangle `(x, y, w, h)` out of `image`, clamped to its bounds.
/// A rectangle that misses the image yields a 0x0 raster.
pub fn crop(image: &RasterImage, x: u32, y: u32, w: u32, h: u32) -> (out: RasterImage)
    requires
        image.covers(),
    ensures
        cropped(*image, x, y, w, h, out),
{
    let clamped_w = if x < image.width {
        if w < image.width - x { w } else { image.width - x }
    } else {
        0
    };
    let clamped_h = if y < image.height {
        if h < image.height - y { h } else { image.height - y }
    } else {
        0
    };
    if clamped_w == 0 || clamped_h == 0 {
        return RasterImage { width: 0, height: 0, pixels: Vec::new() };
    }
    let ghost big_w = image.width as int;
    let ghost big_h = image.height as int;
    let ghost cw = clamped_w as int;
    proof {
        assert(big_w * 4 <= big_w * big_h * 4) by (nonlinear_arith)
            requires big_h >= 1, big_w >= 0;
    }
    let total = image.pixels.len();
    let src_stride = image.width as usize * 4;
    let dst_stride = clamped_w as usize * 4;
    let mut pixels: Vec<u8> = Vec::new();
    let mut row: usize = 0;
    while row < clamped_h as usize
        invariant
            image.covers(),
            total == image.pixels@.len(),
            big_w == image.width,
            big_h == image.height,
            cw == clamped_w,
            clamped_w > 0,
            x + cw <= big_w,
            y + clamped_h <= big_h,
            src_stride == big_w * 4,
            dst_stride == cw * 4,
            row <= clamped_h,
            pixels@.len() == row * dst_stride,
            forall|r: int, j: int|
                0 <= r < row && 0 <= j < dst_stride ==> #[trigger] row_byte(
                    pixels@,
                    dst_stride as int,
                    r,
                    j,
                ) == row_byte(image.pixels@, src_stride as int, y + r, x * 4 + j),
        decreases clamped_h - row,
    {
        let ghost r0 = row as int;
        proof {
            assert((y + r0) * (big_w * 4) + x * 4 + cw * 4 <= big_w * big_h * 4) by (nonlinear_arith)
                requires y + r0 + 1 <= big_h, x + cw <= big_w, big_w >= 0;
        }
        let src_begin = (y as usize + row) * src_stride + x as usize * 4;
        let mut j: usize = 0;
        while j < dst_stride
            invariant
                j <= dst_stride,
                r0 == row,
                src_begin == (y + r0) * (big_w * 4) + x * 4,
                src_begin + dst_stride <= image.pixels@.len(),
                total == image.pixels@.len(),
                pixels@.len() == r0 * dst_stride + j,
                forall|r: int, jj: int|
                    0 <= r < r0 && 0 <= jj < dst_stride ==> #[trigger] row_byte(
                        pixels@,
                        dst_stride as int,
                        r,
                        jj,
                    ) == row_byte(image.pixels@, src_stride as int, y + r, x * 4 + jj),
                forall|i: int|
                    0 <= i < j ==> #[trigger] row_byte(pixels@, dst_stride as int, r0, i)
                        == image.pixels@[src_begin + i],
            decreases dst_stride - j,
        {
            let ghost before = pixels@;
            assert(src_begin + j < image.pixels@.len());
            let b = image.pixels[src_begin + j];
            pixels.push(b);
            assert(pixels@[r0 * dst_stride + j] == b);
            proof {
                assert forall|r: int, jj: int|
                    0 <= r < r0 && 0 <= jj < dst_stride implies #[trigger] row_byte(
                        pixels@,
                        dst_stride as int,
                        r,
                        jj,
                    ) == row_byte(image.pixels@, src_stride as int, y + r, x * 4 + jj) by {
                    assert(r * dst_stride + jj < r0 * dst_stride) by (nonlinear_arith)
                        requires r < r0, jj < dst_stride, r >= 0;
                    assert(row_byte(before, dst_stride as int, r, jj) == row_byte(
                        image.pixels@,
                        src_stride as int,
                        y + r,
                        x * 4 + jj,
                    ));
                }
                assert forall|i: int| 0 <= i < j + 1 implies #[trigger] row_byte(
                    pixels@,
                    dst_stride as int,
                    r0,
                    i,
                ) == image.pixels@[src_begin + i] by {
                    if i < j {
                        assert(row_byte(before, dst_stride as int, r0, i) == image.pixels@[src_begin
                            + i]);
                        assert(r0 * dst_stride + i < before.len());
                        assert(0 <= r0 * dst_stride) by (nonlinear_arith)
                            requires r0 >= 0, dst_stride >= 0;
                        assert(pixels@[r0 * dst_stride + i] == before[r0 * dst_stride + i]);
                    } else {
                        assert(i == j);
                    }
                }
            }
            j = j + 1;
        }
        proof {
            assert(r0 * dst_stride + dst_stride == (r0 + 1) * dst_stride) by (nonlinear_arith);
            assert forall|r: int, jj: int|
                0 <= r < r0 + 1 && 0 <= jj < dst_stride implies #[trigger] row_byte(
                    pixels@,
                    dst_stride as int,
                    r,
                    jj,
                ) == row_byte(image.pixels@, src_stride as int, y + r, x * 4 + jj) by {
                if r == r0 {
                    assert(row_byte(pixels@, dst_stride as int, r0, jj) == image.pixels@[src_begin
                        + jj]);
                    assert((y + r) * (src_stride as int) + (x * 4 + jj) == src_begin + jj) by (nonlinear_arith)
                        requires src_begin == (y + r0) * (big_w * 4) + x * 4, r == r0, src_stride == big_w * 4;
                }
            }
        }
        row = row + 1;
    }
    proof {
        assert(pixels@.len() == cw * (clamped_h as int) * 4) by (nonlinear_arith)
            requires pixels@.len() == row * dst_stride, row == clamped_h, dst_stride == cw * 4;
    }
    RasterImage { width: clamped_w, height: clamped_h, pixels }
}


/// Matting makes every whole pixel fully opaque.
pub proof fn law_matte_is_opaque(src: Seq<u8>, bg: Rgb, p: int)
    requires
        0 <= p < quad_count(src.len() as int),
    ensures
        matted(src, bg)[4 * p + 3] == 255,
{
    assert((4 * p + 3) % 4 == 3);
}

/// Matting leaves a fully opaque pixel's colour bit-exact and paints a fully
/// transparent pixel in the matte colour, whatever colour it carried.
pub proof fn law_matte_extremes(src: Seq<u8>, bg: Rgb, p: int)
    requires
        0 <= p < quad_count(src.len() as int),
    ensures
        src[4 * p + 3] == 255 ==> matted(src, bg)[4 * p] == src[4 * p] && matted(src, bg)[4 * p + 1] == src[4 * p + 1]
            && matted(src, bg)[4 * p + 2] == src[4 * p + 2],
        src[4 * p + 3] == 0 ==> matted(src, bg)[4 * p] == bg.r && matted(src, bg)[4 * p + 1] == bg.g
            && matted(src, bg)[4 * p + 2] == bg.b,
{
    let m = matted(src, bg);
    assert((4 * p) % 4 == 0 && (4 * p + 1) % 4 == 1 && (4 * p + 2) % 4 == 2);
    assert(4 * p + 1 - (4 * p + 1) % 4 + 3 == 4 * p + 3);
    assert(4 * p + 2 - (4 * p + 2) % 4 + 3 == 4 * p + 3);
    lemma_composite_ends(src[4 * p], bg.r, src[4 * p + 3]);
    lemma_composite_ends(src[4 * p + 1], bg.g, src[4 * p + 3]);
    lemma_composite_ends(src[4 * p + 2], bg.b, src[4 * p + 3]);
}

proof fn lemma_composite_ends(src: u8, bg: u8, a: u8)
    ensures
        a == 255 ==> composite_spec(src, bg, a) == src,
        a == 0 ==> composite_spec(src, bg, a) == bg,
        0 <= composite_spec(src, bg, a) <= 255,
{
    if a == 255 {
        assert(composite_spec(src, bg, a) == src) by (nonlinear_arith)
            requires a == 255;
    }
    if a == 0 {
        assert(composite_spec(src, bg, a) == bg) by (nonlinear_arith)
            requires a == 0;
    }
    assert(0 <= composite_spec(src, bg, a) <= 255) by (nonlinear_arith)
        requires src <= 255, bg <= 255, a <= 255;
}

/// Compositing a source channel over a background at least as light gets
/// no lighter as alpha rises.
pub proof fn law_composite_monotone_in_alpha(src: u8, bg: u8, a1: u8, a2: u8)
    requires
        src <= bg,
        a1 <= a2,
    ensures
        composite_spec(src, bg, a2) <= composite_spec(src, bg, a1),
{
    assert(src * a2 + bg * (255 - a2) <= src * a1 + bg * (255 - a1)) by (nonlinear_arith)
        requires src <= bg, a1 <= a2, a2 <= 255;
    let n1 = 2 * (src * a1 + bg * (255 - a1)) + 255;
    let n2 = 2 * (src * a2 + bg * (255 - a2)) + 255;
    assert(n2 / 510 <= n1 / 510) by (nonlinear_arith)
        requires n2 <= n1, n2 >= 0;
}

/// Matting twice is matting once.
pub proof fn law_matte_idempotent(src: Seq<u8>, bg: Rgb)
    ensures
        matted(matted(src, bg), bg) == matted(src, bg),
{
    let m = matted(src, bg);
    let mm = matted(m, bg);
    assert forall|i: int| 0 <= i < src.len() implies mm[i] == m[i] by {
        if i < quad_count(src.len() as int) * 4 && i % 4 != 3 {
            let a = m[i - i % 4 + 3];
            assert((i - i % 4 + 3) % 4 == 3);
            lemma_composite_ends(m[i], if i % 4 == 0 { bg.r } else if i % 4 == 1 { bg.g } else { bg.b }, a);
        }
    }
    assert(mm =~= m);
}

/// Thresholding twice is thresholding once.
pub proof fn law_threshold_idempotent(src: Seq<u8>, t: u8)
    ensures
        thresholded(thresholded(src, t), t) == thresholded(src, t),
{
    assert(thresholded(thresholded(src, t), t) =~= thresholded(src, t));
}

/// Thresholding keeps every colour byte and leaves only the alphas 0 and
/// 255, with alpha equal to the threshold counting as opaque.
pub proof fn law_threshold_binary(src: Seq<u8>, t: u8, p: int)
    requires
        0 <= p < quad_count(src.len() as int),
    ensures
        thresholded(src, t)[4 * p] == src[4 * p],
        thresholded(src, t)[4 * p + 1] == src[4 * p + 1],
        thresholded(src, t)[4 * p + 2] == src[4 * p + 2],
        thresholded(src, t)[4 * p + 3] == if src[4 * p + 3] >= t { 255u8 } else { 0u8 },
{
    assert((4 * p) % 4 == 0 && (4 * p + 1) % 4 == 1 && (4 * p + 2) % 4 == 2 && (4 * p + 3) % 4 == 3);
}

/// Two different matte colours give different output on a fully
/// transparent pixel.
pub proof fn law_matte_colour_matters(src: Seq<u8>, bg1: Rgb, bg2: Rgb, p: int)
    requires
        0 <= p < quad_count(src.len() as int),
        src[4 * p + 3] == 0,
        bg1 != bg2,
    ensures
        matted(src, bg1) != matted(src, bg2),
{
    law_matte_extremes(src, bg1, p);
    law_matte_extremes(src, bg2, p);
    if matted(src, bg1) == matted(src, bg2) {
        assert(bg1.r == bg2.r && bg1.g == bg2.g && bg1.b == bg2.b);
    }
}

/// Cropping the whole image gives the image back.
pub proof fn law_crop_whole_is_identity(image: RasterImage, out: RasterImage)
    requires
        image.pixels@.len() == (image.width as int) * (image.height as int) * 4,
        image.width > 0,
        image.height > 0,
        cropped(image, 0, 0, image.width, image.height, out),
    ensures
        out.width == image.width,
        out.height == image.height,
        out.pixels@ == image.pixels@,
{
    let w4 = image.width * 4;
    assert forall|i: int| 0 <= i < out.pixels@.len() implies out.pixels@[i] == image.pixels@[i] by {
        let r = i / w4;
        let j = i % w4;
        assert(i == r * w4 + j) by (nonlinear_arith)
            requires w4 > 0, r == i / w4, j == i % w4;
        assert(0 <= r < image.height) by (nonlinear_arith)
            requires w4 > 0, r == i / w4, 0 <= i < (image.width as int) * (image.height as int) * 4, w4 == image.width * 4;
        assert(row_byte(out.pixels@, w4, r, j) == row_byte(image.pixels@, w4, r, j));
    }
    assert(out.pixels@ =~= image.pixels@);
}

} // verus!
