//! The distinct colours around a pixel, the candidates an anti-aliasing
//! test weighs a pixel's colour against.

use vstd::prelude::*;
use crate::quant::rgb_at;
use crate::raster::{RasterImage, Rgb};
use crate::stroke::graph::{off_x, off_y};

verus! {

/// The colours of the in-image 8-neighbours of `(x, y)` among the first `k`
/// offsets (row-major), skipping the colour of `(x, y)` itself and repeats.
pub open spec fn neighbour_colours_upto(image: &RasterImage, x: int, y: int, k: int) -> Seq<Rgb>
    decreases k,
{
    if k <= 0 {
        Seq::empty()
    } else {
        let prev = neighbour_colours_upto(image, x, y, k - 1);
        let a = x + off_x(k - 1);
        let b = y + off_y(k - 1);
        let w = image.width as int;
        if 0 <= a < w && 0 <= b < image.height && rgb_at(image.pixels@, b * w + a) != rgb_at(image.pixels@, y * w + x)
            && !prev.contains(rgb_at(image.pixels@, b * w + a)) {
            prev.push(rgb_at(image.pixels@, b * w + a))
        } else {
            prev
        }
    }
}

/// Whether `c` occurs in `v`.
fn holds_colour(v: &Vec<Rgb>, c: Rgb) -> (r: bool)
    ensures
        r == v@.contains(c),
{
    let mut i: usize = 0;
    while i < v.len()
        invariant
            i <= v@.len(),
            forall|j: int| 0 <= j < i ==> v@[j] != c,
        decreases v@.len() - i,
    {
        if v[i] == c {
            assert(v@[i as int] == c);
            return true;
        }
        i = i + 1;
    }
    false
}

/// The colour of pixel `(x, y)`.
fn colour_at(image: &RasterImage, x: u32, y: u32) -> (c: Rgb)
    requires
        x < image.width,
        y < image.height,
        4 * ((image.width as int) * (image.height as int)) <= image.pixels@.len(),
    ensures
        c == rgb_at(image.pixels@, y * image.width + x),
{
    let ghost w = image.width as int;
    let ghost h = image.height as int;
    let len = image.pixels.len();
    proof {
        crate::sheet::chroma::lemma_index_in(w, h, x as int, y as int);
        assert((y as int) * w + (x as int) < w * h);
        assert(4 * ((y as int) * w + (x as int)) + 3 < image.pixels@.len());
    }
    let yw = y as usize * image.width as usize;
    assert(yw == (y as int) * w);
    let i = (yw + x as usize) * 4;
    Rgb { r: image.pixels[i], g: image.pixels[i + 1], b: image.pixels[i + 2] }
}

/// The distinct colours of the 8-neighbours of `(x, y)` that differ from its
/// own colour, in row-major order of first occurrence.
pub fn neighbour_colours(image: &RasterImage, x: u32, y: u32) -> (r: Vec<Rgb>)
    requires
        x < image.width,
        y < image.height,
        4 * ((image.width as int) * (image.height as int)) <= image.pixels@.len(),
    ensures
        r@ == neighbour_colours_upto(image, x as int, y as int, 8),
        r@.len() <= 8,
{
    let dxs: [i64; 8] = [-1, 0, 1, -1, 1, -1, 0, 1];
    let dys: [i64; 8] = [-1, -1, -1, 0, 0, 1, 1, 1];
    let centre = colour_at(image, x, y);
    let mut r: Vec<Rgb> = Vec::new();
    let mut k: usize = 0;
    while k < 8
        invariant
            x < image.width,
            y < image.height,
            4 * ((image.width as int) * (image.height as int)) <= image.pixels@.len(),
            centre == rgb_at(image.pixels@, y * image.width + x),
            k <= 8,
            dxs@ == seq![-1i64, 0i64, 1i64, -1i64, 1i64, -1i64, 0i64, 1i64],
            dys@ == seq![-1i64, -1i64, -1i64, 0i64, 0i64, 1i64, 1i64, 1i64],
            r@ == neighbour_colours_upto(image, x as int, y as int, k as int),
            r@.len() <= k,
        decreases 8 - k,
    {
        let a = x as i64 + dxs[k];
        let b = y as i64 + dys[k];
        assert(a == x + off_x(k as int) && b == y + off_y(k as int));
        if a >= 0 && a < image.width as i64 && b >= 0 && b < image.height as i64 {
            let c = colour_at(image, a as u32, b as u32);
            if c != centre && !holds_colour(&r, c) {
                r.push(c);
            }
        }
        k = k + 1;
    }
    r
}

} // verus!
