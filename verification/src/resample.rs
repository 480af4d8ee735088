//! Resizing an RGBA raster in premultiplied alpha, so that the colour held
//! under transparent pixels never bleeds into visible ones.

use vstd::prelude::*;
use crate::raster::{quad_count, RasterImage};

verus! {

/// Resampling filter of a resize.
#[derive(Debug, Clone, Copy, PartialEq, Eq, Structural)]
pub enum Resample {
    Nearest,
    Triangle,
    CatmullRom,
    Gaussian,
    Lanczos3,
}

/// The filters whose kernels use only basic floating-point arithmetic (a box
/// and a tent), so that `image::imageops::resize` gives the same bytes for the
/// same arguments on every call and machine. The other kernels call `powi`,
/// `exp` or `sin`, whose precision std leaves unspecified.
pub open spec fn reproducible(filter: Resample) -> bool {
    filter == Resample::Nearest || filter == Resample::Triangle
}

/// The RGBA bytes that `image::imageops::resize` makes of a `width x height`
/// buffer `pixels` at `new_width x new_height` with a reproducible `filter`.
pub uninterp spec fn resampled(pixels: Seq<u8>, width: u32, height: u32, new_width: u32, new_height: u32, filter: Resample) -> Seq<u8>;

/// Pixel `k` of RGBA buffer `a` has the four bytes of pixel `j` of `b`.
pub open spec fn same_pixel(a: Seq<u8>, k: int, b: Seq<u8>, j: int) -> bool {
    a[4 * k] == b[4 * j] && a[4 * k + 1] == b[4 * j + 1] && a[4 * k + 2] == b[4 * j + 2] && a[4 * k + 3] == b[4 * j + 3]
}

/// Pixel `k` of `a` is a copy of one of the first `n` pixels of `b`.
pub open spec fn copied_pixel(a: Seq<u8>, k: int, b: Seq<u8>, n: int) -> bool {
    exists|j: int| 0 <= j < n && #[trigger] same_pixel(a, k, b, j)
}

/// `image::RgbaImage::from_raw` followed by `image::imageops::resize` and
/// `into_raw`. The crate's source shows `from_raw` refusing a buffer shorter
/// than `width * height * 4` bytes, and `resize` returning a buffer of
/// exactly `new_width * new_height * 4` bytes. For the reproducible filters
/// the bytes are named by `resampled`; for the others they are left unsaid,
/// since their kernels rest on `powi`, `exp` or `sin`. With the nearest filter the source gives every output
/// pixel a single source pixel of weight one (a box kernel of zero support),
/// so each output pixel is a copy of some pixel of a non-empty input; that
/// is the one fact about the bytes stated here. The intermediate buffers it
/// allocates (four `f32` per pixel) must fit in memory, hence the bounds.
#[verifier::external_body]
fn resample_rgba(pixels: Vec<u8>, width: u32, height: u32, new_width: u32, new_height: u32, filter: Resample) -> (out: Option<Vec<u8>>)
    requires
        (new_width as int) * (new_height as int) * 16 <= isize::MAX,
        (width as int) * (new_height as int) * 16 <= isize::MAX,
    ensures
        out is None <==> pixels@.len() < (width as int) * (height as int) * 4,
        out matches Some(v) ==> v@.len() == (new_width as int) * (new_height as int) * 4,
        out matches Some(v) ==> (reproducible(filter) ==> v@ == resampled(pixels@, width, height, new_width, new_height, filter)),
        out is Some && filter == Resample::Nearest && width > 0 && height > 0 ==> forall|k: int|
            0 <= k < (new_width as int) * (new_height as int) ==> #[trigger] copied_pixel(
                out->0@,
                k,
                pixels@,
                (width as int) * (height as int),
            ),
{
    let f = match filter {
        Resample::Nearest => image::imageops::FilterType::Nearest,
        Resample::Triangle => image::imageops::FilterType::Triangle,
        Resample::CatmullRom => image::imageops::FilterType::CatmullRom,
        Resample::Gaussian => image::imageops::FilterType::Gaussian,
        Resample::Lanczos3 => image::imageops::FilterType::Lanczos3,
    };
    image::RgbaImage::from_raw(width, height, pixels).map(|img| image::imageops::resize(&img, new_width, new_height, f).into_raw())
}

/// Channel `c` weighted by coverage `a`, rounded to nearest.
pub open spec fn premul(c: u8, a: u8) -> u8 {
    ((c * a + 127) / 255) as u8
}

/// Channel `c` of a premultiplied pixel divided back by coverage `a`,
/// rounded to nearest and capped at 255; 0 where `a` is 0.
pub open spec fn unpremul(c: u8, a: u8) -> u8 {
    if a == 0 {
        0
    } else {
        let v = (c * 255 + a / 2) / (a as int);
        if v > 255 { 255 } else { v as u8 }
    }
}

/// Every whole quadruple of `p` is fully opaque.
pub open spec fn all_opaque(p: Seq<u8>) -> bool {
    forall|q: int| 0 <= q < quad_count(p.len() as int) ==> #[trigger] p[4 * q + 3] == 255
}

/// `p` with the colour of each whole quadruple premultiplied by its alpha.
pub open spec fn premultiplied(p: Seq<u8>) -> Seq<u8> {
    Seq::new(
        p.len(),
        |i: int|
            if i >= quad_count(p.len() as int) * 4 || i % 4 == 3 {
                p[i]
            } else {
                premul(p[i], p[i - i % 4 + 3])
            },
    )
}

/// `p` with the colour of each whole quadruple divided back by its alpha.
pub open spec fn unpremultiplied(p: Seq<u8>) -> Seq<u8> {
    Seq::new(
        p.len(),
        |i: int|
            if i >= quad_count(p.len() as int) * 4 || i % 4 == 3 {
                p[i]
            } else {
                unpremul(p[i], p[i - i % 4 + 3])
            },
    )
}

fn premul_channel(c: u8, a: u8) -> (v: u8)
    ensures
        v == premul(c, a),
{
    proof {
        assert(c * a <= 255 * 255) by (nonlinear_arith)
            requires c <= 255, a <= 255;
    }
    let x = c as u32 * a as u32 + 127;
    (x / 255) as u8
}

fn unpremul_channel(c: u8, a: u8) -> (v: u8)
    ensures
        v == unpremul(c, a),
{
    if a == 0 {
        return 0;
    }
    let v = (c as u32 * 255 + a as u32 / 2) / a as u32;
    if v > 255 {
        255
    } else {
        v as u8
    }
}

fn is_all_opaque(p: &Vec<u8>) -> (b: bool)
    ensures
        b == all_opaque(p@),
{
    let total = p.len();
    let n = total / 4;
    let mut q: usize = 0;
    while q < n
        invariant
            total == p@.len(),
            n == quad_count(p@.len() as int),
            n * 4 <= p@.len(),
            q <= n,
            forall|r: int| 0 <= r < q ==> #[trigger] p@[4 * r + 3] == 255,
        decreases n - q,
    {
        if p[4 * q + 3] != 255 {
            return false;
        }
        q = q + 1;
    }
    true
}

/// Applies `premul` (`undo` false) or `unpremul` (`undo` true) to the colour
/// of every whole quadruple.
fn convert_colour(p: Vec<u8>, undo: bool) -> (out: Vec<u8>)
    ensures
        out@ == if undo { unpremultiplied(p@) } else { premultiplied(p@) },
{
    let ghost src = p@;
    let ghost target = if undo { unpremultiplied(src) } else { premultiplied(src) };
    let mut p = p;
    let total = p.len();
    let n = total / 4;
    let mut q: usize = 0;
    while q < n
        invariant
            total == src.len(),
            n == quad_count(src.len() as int),
            n * 4 <= src.len(),
            target == if undo { unpremultiplied(src) } else { premultiplied(src) },
            q <= n,
            p@.len() == src.len(),
            forall|i: int| 0 <= i < q * 4 ==> p@[i] == #[trigger] target[i],
            forall|i: int| q * 4 <= i < src.len() ==> p@[i] == src[i],
        decreases n - q,
    {
        let base = q * 4;
        let a = p[base + 3];
        let mut k: usize = 0;
        while k < 3
            invariant
                n == quad_count(src.len() as int),
                n * 4 <= src.len(),
                target == if undo { unpremultiplied(src) } else { premultiplied(src) },
                q < n,
                base == q * 4,
                a == src[base + 3],
                k <= 3,
                p@.len() == src.len(),
                forall|i: int| 0 <= i < base + k ==> p@[i] == #[trigger] target[i],
                forall|i: int| base + k <= i < src.len() ==> p@[i] == src[i],
            decreases 3 - k,
        {
            let c = p[base + k];
            let v = if undo {
                unpremul_channel(c, a)
            } else {
                premul_channel(c, a)
            };
            p.set(base + k, v);
            proof {
                let i = base + k;
                assert(i % 4 == k && i - i % 4 == base);
            }
            k = k + 1;
        }
        proof {
            let i = base + 3;
            assert(i % 4 == 3);
        }
        q = q + 1;
    }
    proof {
        assert forall|i: int| 0 <= i < src.len() implies p@[i] == #[trigger] target[i] by {
            if i >= n * 4 {
                assert(i >= quad_count(src.len() as int) * 4);
            }
        }
        assert(p@ =~= target);
    }
    p
}

/// What `resize_rgba_with` makes, with a reproducible filter, of an image
/// whose buffer covers it: the resampled bytes, resampled in premultiplied
/// alpha unless every pixel is opaque.
pub open spec fn resized_pixels(image: RasterImage, new_width: u32, new_height: u32, filter: Resample) -> Seq<u8> {
    let p = image.pixels@;
    if all_opaque(p) {
        resampled(p, image.width, image.height, new_width, new_height, filter)
    } else {
        unpremultiplied(resampled(premultiplied(p), image.width, image.height, new_width, new_height, filter))
    }
}

/// Transparent black for every pixel of `p` whose alpha is 0.
pub open spec fn clear_where_transparent(p: Seq<u8>) -> bool {
    forall|q: int|
        0 <= q < quad_count(p.len() as int) && #[trigger] p[4 * q + 3] == 0 ==> p[4 * q] == 0 && p[4 * q + 1] == 0 && p[4 * q + 2] == 0
}

/// Dividing back by alpha keeps alpha and clears the colour of every pixel
/// with none.
proof fn lemma_unpremultiplied_clears(p: Seq<u8>)
    ensures
        clear_where_transparent(unpremultiplied(p)),
{
    let u = unpremultiplied(p);
    assert forall|q: int| 0 <= q < quad_count(u.len() as int) && #[trigger] u[4 * q + 3] == 0 implies u[4 * q] == 0 && u[4 * q + 1] == 0
        && u[4 * q + 2] == 0 by {
        assert((4 * q + 3) % 4 == 3) by (nonlinear_arith) requires q >= 0;
        assert((4 * q) % 4 == 0 && (4 * q + 1) % 4 == 1 && (4 * q + 2) % 4 == 2) by (nonlinear_arith) requires q >= 0;
        assert(4 * q + 3 < quad_count(p.len() as int) * 4) by (nonlinear_arith)
            requires 0 <= q < quad_count(p.len() as int);
        assert(u[4 * q + 3] == p[4 * q + 3]);
    }
}

/// The resized image's bytes from the bytes `raw` that the resampler returned:
/// as they are when the source was opaque, else divided back by their alpha.
pub fn finish_resize(raw: Vec<u8>, opaque: bool) -> (out: Vec<u8>)
    ensures
        out@ == if opaque { raw@ } else { unpremultiplied(raw@) },
        out@.len() == raw@.len(),
{
    if opaque {
        raw
    } else {
        convert_colour(raw, true)
    }
}

/// Resizes an RGBA raster with `filter`, compositing in premultiplied alpha;
/// pixels left with no coverage come out as transparent black. A buffer too
/// short for the image's dimensions gives an image of those dimensions with
/// no pixels.
pub fn resize_rgba_with(image: RasterImage, new_width: u32, new_height: u32, filter: Resample) -> (out: RasterImage)
    requires
        (new_width as int) * (new_height as int) * 16 <= isize::MAX,
        (image.width as int) * (new_height as int) * 16 <= isize::MAX,
    ensures
        image.pixels@.len() < (image.width as int) * (image.height as int) * 4 ==> out.width == image.width
            && out.height == image.height && out.pixels@.len() == 0,
        image.pixels@.len() >= (image.width as int) * (image.height as int) * 4 ==> out.width == new_width
            && out.height == new_height && out.pixels@.len() == (new_width as int) * (new_height as int) * 4,
        image.pixels@.len() >= (image.width as int) * (image.height as int) * 4 && reproducible(filter)
            ==> out.pixels@ == resized_pixels(image, new_width, new_height, filter),
        image.pixels@.len() >= (image.width as int) * (image.height as int) * 4 && filter == Resample::Nearest
            && all_opaque(image.pixels@) && image.width > 0 && image.height > 0 ==> forall|k: int|
            0 <= k < (new_width as int) * (new_height as int) ==> #[trigger] copied_pixel(
                out.pixels@,
                k,
                image.pixels@,
                (image.width as int) * (image.height as int),
            ),
        image.pixels@.len() >= (image.width as int) * (image.height as int) * 4 && !all_opaque(image.pixels@)
            ==> clear_where_transparent(out.pixels@),
{
    let ghost orig = image;
    let opaque = is_all_opaque(&image.pixels);
    let width = image.width;
    let height = image.height;
    let pixels = if opaque {
        image.pixels
    } else {
        convert_colour(image.pixels, false)
    };
    assert(pixels@.len() == orig.pixels@.len());
    let ghost pin = pixels@;
    match resample_rgba(pixels, width, height, new_width, new_height, filter) {
        None => {
            assert(orig.pixels@.len() < (orig.width as int) * (orig.height as int) * 4);
            RasterImage { width, height, pixels: Vec::new() }
        },
        Some(out) => {
            let ghost raw = out@;
            let px = finish_resize(out, opaque);
            let ghost pv = px@;
            let r = RasterImage { width: new_width, height: new_height, pixels: px };
            proof {
                if !opaque {
                    lemma_unpremultiplied_clears(raw);
                }
                if orig.pixels@.len() >= (orig.width as int) * (orig.height as int) * 4 && filter == Resample::Nearest
                    && all_opaque(orig.pixels@) && orig.width > 0 && orig.height > 0 {
                    assert(r.pixels@ == raw);
                    assert(pin == orig.pixels@);
                }
            }
            r
        },
    }
}

/// Premultiplying and dividing back leaves an opaque channel unchanged.
pub proof fn law_opaque_round_trip(c: u8)
    ensures
        unpremul(premul(c, 255), 255) == c,
{
    assert(premul(c, 255) == c) by (nonlinear_arith)
        requires premul(c, 255) == ((c * 255 + 127) / 255) as u8, c <= 255;
    assert(unpremul(c, 255) == c) by (nonlinear_arith)
        requires unpremul(c, 255) == (if (c * 255 + 127) / 255 > 255 { 255 } else { ((c * 255 + 127) / 255) as u8 }), c <= 255;
}

/// Premultiplying never brightens a channel, and dividing back never yields
/// colour where there is no coverage.
pub proof fn law_premul_bounds(c: u8, a: u8)
    ensures
        premul(c, a) <= c,
        unpremul(c, 0) == 0,
{
    assert((c * a + 127) / 255 <= c) by (nonlinear_arith)
        requires c <= 255, a <= 255;
}

} // verus!
