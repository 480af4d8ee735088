//! The integer core of input classification and colour quantization: the
//! seeded generator behind k-means++, colour and alpha statistics of a
//! raster, exact-palette detection, and stacked layer composition.

pub mod layers;
pub mod neighbours;

use vstd::prelude::*;
use crate::raster::{RasterImage, Rgb};

verus! {

/// xorshift64* generator with a fixed seed, for reproducible k-means++
/// initialisation.
#[derive(Debug)]
pub struct SeededRng {
    pub state: u64,
}

/// The xorshift64 state transition.
pub open spec fn xorshift(x: u64) -> u64 {
    let a = x ^ (x >> 12u64);
    let b = a ^ (a << 25u64);
    b ^ (b >> 27u64)
}

/// The xorshift64* output for a state already advanced by `xorshift`.
pub open spec fn scramble(x: u64) -> u64 {
    x.wrapping_mul(0x2545F4914F6CDD1D)
}

impl SeededRng {
    /// A generator seeded with `seed` (0 is replaced by 1), advanced once.
    pub fn new(seed: u64) -> (rng: SeededRng)
        ensures
            rng.state == xorshift(if seed == 0 { 1u64 } else { seed }),
    {
        let mut rng = SeededRng { state: if seed == 0 { 1 } else { seed } };
        rng.next_u64();
        rng
    }

    /// Advance the state and return the scrambled output.
    pub fn next_u64(&mut self) -> (v: u64)
        ensures
            final(self).state == xorshift(old(self).state),
            v == scramble(xorshift(old(self).state)),
    {
        let mut x = self.state;
        x = x ^ (x >> 12u64);
        x = x ^ (x << 25u64);
        x = x ^ (x >> 27u64);
        self.state = x;
        x.wrapping_mul(0x2545F4914F6CDD1D)
    }
}

/// Number of pixels the classifier scans: `width * height`.
pub open spec fn pixel_total(image: &RasterImage) -> int {
    (image.width as int) * (image.height as int)
}

/// The image is small enough for `width * height` to fit in a `u32`, and its
/// buffer holds that many RGBA quadruples.
pub open spec fn scannable(image: &RasterImage) -> bool {
    pixel_total(image) <= u32::MAX && image.pixels@.len() >= pixel_total(image) * 4
}

/// Colour of pixel `i`.
pub open spec fn rgb_at(p: Seq<u8>, i: int) -> Rgb {
    Rgb { r: p[4 * i], g: p[4 * i + 1], b: p[4 * i + 2] }
}

/// Some pixel is not fully opaque.
pub fn has_any_alpha(image: &RasterImage) -> (b: bool)
    requires
        scannable(image),
    ensures
        b == exists|i: int| 0 <= i < pixel_total(image) && #[trigger] image.pixels@[4 * i + 3] != 255,
{
    let total = (image.width * image.height) as usize;
    let plen = image.pixels.len();
    let mut i: usize = 0;
    while i < total
        invariant
            total == pixel_total(image),
            plen == image.pixels@.len(),
            scannable(image),
            i <= total,
            forall|k: int| 0 <= k < i ==> #[trigger] image.pixels@[4 * k + 3] == 255,
        decreases total - i,
    {
        if image.pixels[i * 4 + 3] != 255 {
            assert(image.pixels@[4 * (i as int) + 3] != 255);
            return true;
        }
        i = i + 1;
    }
    false
}

/// The colours of pixels `0..n`, as a set.
pub open spec fn colours_of(p: Seq<u8>, n: int) -> Set<Rgb> {
    Set::new(|c: Rgb| exists|i: int| 0 <= i < n && #[trigger] rgb_at(p, i) == c)
}

/// Number of distinct colours among the image's pixels.
pub fn count_unique_rgb(image: &RasterImage) -> (n: usize)
    requires
        scannable(image),
    ensures
        n == colours_of(image.pixels@, pixel_total(image)).len(),
{
    let total = (image.width * image.height) as usize;
    let plen = image.pixels.len();
    let mut colors: Vec<Rgb> = Vec::new();
    let mut i: usize = 0;
    while i < total
        invariant
            total == pixel_total(image),
            plen == image.pixels@.len(),
            scannable(image),
            i <= total,
            colors@.no_duplicates(),
            colors@.to_set() == colours_of(image.pixels@, i as int),
            colors@.len() <= i,
        decreases total - i,
    {
        let c = Rgb { r: image.pixels[i * 4], g: image.pixels[i * 4 + 1], b: image.pixels[i * 4 + 2] };
        assert(c == rgb_at(image.pixels@, i as int));
        let mut found = false;
        let mut k: usize = 0;
        while k < colors.len()
            invariant
                k <= colors@.len(),
                found <==> exists|j: int| 0 <= j < k && colors@[j] == c,
            decreases colors@.len() - k,
        {
            if colors[k] == c {
                found = true;
            }
            k = k + 1;
        }
        let ghost before = colors@;
        if !found {
            colors.push(c);
        }
        proof {
            assert(colors@.to_set() =~= colours_of(image.pixels@, i as int + 1)) by {
                assert forall|d: Rgb| colours_of(image.pixels@, i as int + 1).contains(d) implies colors@.to_set().contains(d) by {
                    let j = choose|j: int| 0 <= j < i + 1 && #[trigger] rgb_at(image.pixels@, j) == d;
                    if j < i {
                        assert(colours_of(image.pixels@, i as int).contains(d));
                        assert(before.to_set().contains(d));
                        let m = choose|m: int| 0 <= m < before.len() && before[m] == d;
                        assert(colors@[m] == d);
                    } else if found {
                        let m = choose|m: int| 0 <= m < k && colors@[m] == c;
                        assert(colors@[m] == d);
                    } else {
                        assert(colors@[colors@.len() - 1] == d);
                    }
                }
                assert forall|d: Rgb| colors@.to_set().contains(d) implies colours_of(image.pixels@, i as int + 1).contains(d) by {
                    let m = choose|m: int| 0 <= m < colors@.len() && colors@[m] == d;
                    if m < before.len() {
                        assert(before.to_set().contains(d));
                        assert(colours_of(image.pixels@, i as int).contains(d));
                        let j = choose|j: int| 0 <= j < i && #[trigger] rgb_at(image.pixels@, j) == d;
                        assert(0 <= j < i + 1 && rgb_at(image.pixels@, j) == d);
                    } else {
                        assert(rgb_at(image.pixels@, i as int) == d);
                    }
                }
            }
            if !found {
                assert forall|a: int, b: int| 0 <= a < colors@.len() && 0 <= b < colors@.len() && a != b implies colors@[a] != colors@[b] by {
                    if a < before.len() && b < before.len() {
                    } else if a == before.len() {
                        assert(colors@[a] == c);
                    } else {
                        assert(colors@[b] == c);
                    }
                }
            }
        }
        i = i + 1;
    }
    proof {
        colors@.unique_seq_to_set();
    }
    colors.len()
}

/// Number of pixels among `0..n` with colour `c`.
pub open spec fn occurrences(p: Seq<u8>, n: int, c: Rgb) -> nat {
    crate::counting::count_in(|i: int| rgb_at(p, i) == c, 0, n)
}

/// The colours of pixels `0..n` that occur at least `k` times.
pub open spec fn frequent_colours(p: Seq<u8>, n: int, k: int) -> Set<Rgb> {
    colours_of(p, n).filter(|c: Rgb| occurrences(p, n, c) >= k)
}

/// Number of distinct colours that occur on at least `min_count` pixels.
pub fn count_rgb_at_least(image: &RasterImage, min_count: usize) -> (n: usize)
    requires
        scannable(image),
    ensures
        n == frequent_colours(image.pixels@, pixel_total(image), min_count as int).len(),
{
    let total = (image.width * image.height) as usize;
    let ghost p = image.pixels@;
    let plen = image.pixels.len();
    let mut colors: Vec<Rgb> = Vec::new();
    let mut counts: Vec<usize> = Vec::new();
    let mut i: usize = 0;
    while i < total
        invariant
            total == pixel_total(image),
            plen == image.pixels@.len(),
            p == image.pixels@,
            scannable(image),
            i <= total,
            colors@.len() == counts@.len(),
            colors@.no_duplicates(),
            forall|c: Rgb| #[trigger] colours_of(p, i as int).contains(c) <==> colors@.contains(c),
            forall|j: int| 0 <= j < counts@.len() ==> #[trigger] counts@[j] == occurrences(p, i as int, colors@[j]),
            forall|j: int| 0 <= j < counts@.len() ==> #[trigger] counts@[j] <= i,
        decreases total - i,
    {
        let c = Rgb { r: image.pixels[i * 4], g: image.pixels[i * 4 + 1], b: image.pixels[i * 4 + 2] };
        assert(c == rgb_at(p, i as int));
        let mut pos: usize = 0;
        while pos < colors.len() && !(colors[pos].r == c.r && colors[pos].g == c.g && colors[pos].b == c.b)
            invariant
                pos <= colors@.len(),
                forall|j: int| 0 <= j < pos ==> colors@[j] != c,
            decreases colors@.len() - pos,
        {
            pos = pos + 1;
        }
        let ghost cb = colors@;
        let ghost nb = counts@;
        if pos < colors.len() {
            let v = counts[pos];
            counts.set(pos, v + 1);
        } else {
            colors.push(c);
            counts.push(1);
        }
        proof {
            let ip = i as int;
            assert forall|j: int| 0 <= j < counts@.len() implies #[trigger] counts@[j] == occurrences(p, ip + 1, colors@[j]) by {
                let d = colors@[j];
                assert(occurrences(p, ip + 1, d) == occurrences(p, ip, d) + if rgb_at(p, ip) == d { 1int } else { 0int });
                if j < nb.len() {
                    assert(d == cb[j]);
                } else {
                    assert(occurrences(p, ip, d) == 0) by {
                        crate::counting::lemma_count_pos(|t: int| rgb_at(p, t) == d, 0, ip);
                        if occurrences(p, ip, d) > 0 {
                            let t = choose|t: int| 0 <= t < ip && rgb_at(p, t) == d;
                            assert(colours_of(p, ip).contains(d));
                        }
                    }
                }
            }
            assert forall|d: Rgb| #[trigger] colours_of(p, ip + 1).contains(d) <==> colors@.contains(d) by {
                if colours_of(p, ip + 1).contains(d) {
                    let t = choose|t: int| 0 <= t < ip + 1 && #[trigger] rgb_at(p, t) == d;
                    if t < ip {
                        assert(colours_of(p, ip).contains(d));
                        let m = choose|m: int| 0 <= m < cb.len() && cb[m] == d;
                        assert(colors@[m] == d);
                    } else if pos < cb.len() {
                        assert(colors@[pos as int] == d);
                    } else {
                        assert(colors@[colors@.len() - 1] == d);
                    }
                }
                if colors@.contains(d) {
                    let m = choose|m: int| 0 <= m < colors@.len() && colors@[m] == d;
                    if m < cb.len() {
                        assert(cb.contains(d));
                        assert(colours_of(p, ip).contains(d));
                        let t = choose|t: int| 0 <= t < ip && #[trigger] rgb_at(p, t) == d;
                        assert(0 <= t < ip + 1 && rgb_at(p, t) == d);
                    } else {
                        assert(rgb_at(p, ip) == d);
                    }
                }
            }
            if pos == cb.len() {
                assert forall|a: int, b: int| 0 <= a < colors@.len() && 0 <= b < colors@.len() && a != b implies colors@[a] != colors@[b] by {
                    if a < cb.len() && b < cb.len() {
                    } else if a == cb.len() {
                        assert(colors@[a] == c);
                    } else {
                        assert(colors@[b] == c);
                    }
                }
            }
        }
        i = i + 1;
    }
    let ghost kk = min_count as int;
    let mut kept: Vec<Rgb> = Vec::new();
    let mut j: usize = 0;
    while j < colors.len()
        invariant
            total == pixel_total(image),
            colors@.len() == counts@.len(),
            colors@.no_duplicates(),
            forall|q: int| 0 <= q < counts@.len() ==> #[trigger] counts@[q] == occurrences(p, total as int, colors@[q]),
            j <= colors@.len(),
            kept@.no_duplicates(),
            forall|c: Rgb| #[trigger] kept@.contains(c) <==> exists|q: int| 0 <= q < j && colors@[q] == c && counts@[q] >= kk,
            kk == min_count as int,
        decreases colors@.len() - j,
    {
        let ghost kb = kept@;
        if counts[j] >= min_count {
            kept.push(colors[j]);
            proof {
                assert forall|a: int, b: int| 0 <= a < kept@.len() && 0 <= b < kept@.len() && a != b implies kept@[a] != kept@[b] by {
                    if a < kb.len() && b < kb.len() {
                    } else {
                        let other = if a == kb.len() { b } else { a };
                        if kept@[other] == colors@[j as int] {
                            assert(kb.contains(colors@[j as int]));
                            let q = choose|q: int| 0 <= q < j && colors@[q] == colors@[j as int] && counts@[q] >= kk;
                        }
                    }
                }
            }
        }
        proof {
            assert forall|c: Rgb| #[trigger] kept@.contains(c) <==> exists|q: int| 0 <= q < j + 1 && colors@[q] == c && counts@[q] >= kk by {
                if kept@.contains(c) && !kb.contains(c) {
                    assert(colors@[j as int] == c && counts@[j as int] >= kk);
                }
                if exists|q: int| 0 <= q < j + 1 && colors@[q] == c && counts@[q] >= kk {
                    let q = choose|q: int| 0 <= q < j + 1 && colors@[q] == c && counts@[q] >= kk;
                    if q < j {
                        assert(kb.contains(c));
                        let m = choose|m: int| 0 <= m < kb.len() && kb[m] == c;
                        assert(kept@[m] == c);
                    } else {
                        assert(kept@[kept@.len() - 1] == c);
                    }
                }
                if kb.contains(c) {
                    let m = choose|m: int| 0 <= m < kb.len() && kb[m] == c;
                    assert(kept@[m] == c);
                }
            }
        }
        j = j + 1;
    }
    proof {
        kept@.unique_seq_to_set();
        let fs = frequent_colours(p, total as int, kk);
        assert(kept@.to_set() =~= fs) by {
            assert forall|c: Rgb| kept@.to_set().contains(c) implies fs.contains(c) by {
                assert(kept@.contains(c));
                let q = choose|q: int| 0 <= q < colors@.len() && colors@[q] == c && counts@[q] >= kk;
                assert(colors@.contains(c));
            }
            assert forall|c: Rgb| fs.contains(c) implies kept@.to_set().contains(c) by {
                assert(colours_of(p, total as int).contains(c));
                assert(colors@.contains(c));
                let q = choose|q: int| 0 <= q < colors@.len() && colors@[q] == c;
                assert(counts@[q] == occurrences(p, total as int, c));
            }
        }
    }
    kept.len()
}

/// The alpha values other than 0 and 255 that occur among pixels `0..n`.
pub open spec fn partial_alphas(p: Seq<u8>, n: int) -> Set<u8> {
    Set::new(|a: u8| a != 0 && a != 255 && exists|i: int| 0 <= i < n && #[trigger] p[4 * i + 3] == a)
}

/// The image has transparency, and its fills are flat: at most two distinct
/// partial (neither 0 nor 255) alpha values occur.
pub fn has_flat_alpha_fills(image: &RasterImage) -> (b: bool)
    requires
        scannable(image),
    ensures
        b == ((exists|i: int| 0 <= i < pixel_total(image) && #[trigger] image.pixels@[4 * i + 3] != 255)
            && partial_alphas(image.pixels@, pixel_total(image)).len() <= 2),
{
    let total = (image.width * image.height) as usize;
    let plen = image.pixels.len();
    let mut has_alpha = false;
    let mut alpha_values: Vec<u8> = Vec::new();
    let mut i: usize = 0;
    while i < total
        invariant
            total == pixel_total(image),
            plen == image.pixels@.len(),
            scannable(image),
            i <= total,
            has_alpha <==> exists|k: int| 0 <= k < i && #[trigger] image.pixels@[4 * k + 3] != 255,
            alpha_values@.no_duplicates(),
            alpha_values@.to_set() == partial_alphas(image.pixels@, i as int),
            alpha_values@.len() <= i,
        decreases total - i,
    {
        let a = image.pixels[i * 4 + 3];
        let ghost before = alpha_values@;
        let mut found = false;
        if a != 255 {
            has_alpha = true;
            if a > 0 {
                let mut k: usize = 0;
                while k < alpha_values.len()
                    invariant
                        k <= alpha_values@.len(),
                        found <==> exists|j: int| 0 <= j < k && alpha_values@[j] == a,
                    decreases alpha_values@.len() - k,
                {
                    if alpha_values[k] == a {
                        found = true;
                    }
                    k = k + 1;
                }
                if !found {
                    alpha_values.push(a);
                }
            }
        }
        proof {
            let pa = partial_alphas(image.pixels@, i as int + 1);
            assert(alpha_values@.to_set() =~= pa) by {
                assert forall|d: u8| pa.contains(d) implies alpha_values@.to_set().contains(d) by {
                    let j = choose|j: int| 0 <= j < i + 1 && #[trigger] image.pixels@[4 * j + 3] == d;
                    if j < i {
                        assert(partial_alphas(image.pixels@, i as int).contains(d));
                        assert(before.to_set().contains(d));
                        let m = choose|m: int| 0 <= m < before.len() && before[m] == d;
                        assert(alpha_values@[m] == d);
                    } else if found {
                        let m = choose|m: int| 0 <= m < alpha_values@.len() && alpha_values@[m] == a;
                        assert(alpha_values@[m] == d);
                    } else {
                        assert(alpha_values@[alpha_values@.len() - 1] == d);
                    }
                }
                assert forall|d: u8| alpha_values@.to_set().contains(d) implies pa.contains(d) by {
                    let m = choose|m: int| 0 <= m < alpha_values@.len() && alpha_values@[m] == d;
                    if m < before.len() {
                        assert(before.to_set().contains(d));
                        assert(partial_alphas(image.pixels@, i as int).contains(d));
                        let j = choose|j: int| 0 <= j < i && #[trigger] image.pixels@[4 * j + 3] == d;
                        assert(0 <= j < i + 1 && image.pixels@[4 * j + 3] == d);
                    } else {
                        assert(image.pixels@[4 * (i as int) + 3] == d);
                    }
                }
            }
            if alpha_values@.len() > before.len() {
                assert forall|x: int, y: int| 0 <= x < alpha_values@.len() && 0 <= y < alpha_values@.len() && x != y implies alpha_values@[x] != alpha_values@[y] by {
                    if x < before.len() && y < before.len() {
                    } else if x == before.len() {
                        assert(alpha_values@[x] == a);
                    } else {
                        assert(alpha_values@[y] == a);
                    }
                }
            } else {
                assert(alpha_values@ == before);
            }
        }
        i = i + 1;
    }
    proof {
        alpha_values@.unique_seq_to_set();
    }
    if !has_alpha {
        return false;
    }
    alpha_values.len() <= 2
}

/// One quantized colour layer: a coverage mask (one byte per pixel), its
/// colour, and its paint order.
#[derive(Debug)]
pub struct Layer {
    pub mask: Vec<u8>,
    pub color: Rgb,
    pub z_order: usize,
}

/// Layers bottom (index 0) to top.
#[derive(Debug)]
pub struct LayerStack {
    pub layers: Vec<Layer>,
}

/// What becomes of the layer that matches a detected background colour.
#[derive(Debug, Clone, Copy, PartialEq, Eq, Structural)]
pub enum Background {
    /// Leave every layer in place.
    Keep,
    /// Remove the background layer.
    Drop,
    /// Remove the background layer and report its colour, to be painted as
    /// a rectangle behind the rest.
    Rect,
}

/// The background policy applied to `stack`, given the detected background
/// colour and `nearest`, the layer whose colour lies closest to it when it
/// lies close enough to count as the background. Under `Drop` and `Rect`,
/// with a colour detected and such a layer, that layer is removed; `Rect`
/// then returns the background colour. Otherwise nothing changes and the
/// result is `None`.
pub fn remove_background_layer(
    stack: &mut LayerStack,
    background_color: Option<Rgb>,
    nearest: Option<usize>,
    policy: Background,
) -> (r: Option<Rgb>)
    requires
        nearest matches Some(i) ==> i < old(stack).layers@.len(),
    ensures
        ({
            let removes = policy != Background::Keep && background_color is Some && nearest is Some;
            &&& removes ==> final(stack).layers@ == old(stack).layers@.remove(nearest->0 as int)
            &&& !removes ==> final(stack).layers@ == old(stack).layers@
            &&& r == if removes && policy == Background::Rect { background_color } else { None }
        }),
{
    match policy {
        Background::Keep => None,
        Background::Drop | Background::Rect => {
            match (background_color, nearest) {
                (Some(color), Some(i)) => {
                    let _removed = stack.layers.remove(i);
                    match policy {
                        Background::Rect => Some(color),
                        _ => None,
                    }
                },
                _ => None,
            }
        },
    }
}

pub open spec fn masks_of(layers: Seq<Layer>) -> Seq<Seq<u8>> {
    Seq::new(layers.len(), |i: int| layers[i].mask@)
}

/// Layer `i`'s mask after stacking: the pointwise maximum of its own mask
/// and the stacked mask of the layer above, over their common length.
pub open spec fn stacked_mask(ms: Seq<Seq<u8>>, i: int) -> Seq<u8>
    decreases ms.len() - i,
{
    if i < 0 || i >= ms.len() - 1 {
        if 0 <= i < ms.len() { ms[i] } else { Seq::empty() }
    } else {
        let above = stacked_mask(ms, i + 1);
        Seq::new(
            ms[i].len(),
            |j: int|
                if j < above.len() && above[j] > ms[i][j] {
                    above[j]
                } else {
                    ms[i][j]
                },
        )
    }
}


/// Stacked layering: every layer also covers everything painted above it,
/// so each mask becomes the union (maximum) of its own coverage and that of
/// all higher layers. Colours and paint order are unchanged.
pub fn apply_stacked_layering(stack: &mut LayerStack)
    ensures
        final(stack).layers@.len() == old(stack).layers@.len(),
        forall|i: int|
            0 <= i < old(stack).layers@.len() ==> {
                &&& (#[trigger] final(stack).layers@[i]).mask@ == stacked_mask(masks_of(old(stack).layers@), i)
                &&& final(stack).layers@[i].color == old(stack).layers@[i].color
                &&& final(stack).layers@[i].z_order == old(stack).layers@[i].z_order
            },
{
    let n = stack.layers.len();
    let ghost ms = masks_of(stack.layers@);
    let ghost orig = stack.layers@;
    if n <= 1 {
        proof {
            assert forall|i: int| 0 <= i < orig.len() implies (#[trigger] stack.layers@[i]).mask@ == stacked_mask(ms, i) by {}
        }
        return;
    }
    let mut i: usize = n - 1;
    while i > 0
        invariant
            0 <= i < n,
            n == orig.len(),
            ms == masks_of(orig),
            stack.layers@.len() == n,
            forall|k: int| i <= k < n ==> (#[trigger] stack.layers@[k]).mask@ == stacked_mask(ms, k),
            forall|k: int| 0 <= k < i ==> (#[trigger] stack.layers@[k]).mask@ == ms[k],
            forall|k: int|
                0 <= k < n ==> (#[trigger] stack.layers@[k]).color == orig[k].color
                    && stack.layers@[k].z_order == orig[k].z_order,
        decreases i,
    {
        let cur = i - 1;
        let ghost above = stack.layers@[i as int].mask@;
        let mut merged: Vec<u8> = Vec::new();
        let cur_len = stack.layers[cur].mask.len();
        let next_len = stack.layers[i].mask.len();
        let mut j: usize = 0;
        while j < cur_len
            invariant
                cur == i - 1,
                0 < i < n,
                stack.layers@.len() == n,
                cur_len == stack.layers@[cur as int].mask@.len(),
                next_len == stack.layers@[i as int].mask@.len(),
                above == stack.layers@[i as int].mask@,
                j <= cur_len,
                merged@.len() == j,
                forall|t: int|
                    0 <= t < j ==> #[trigger] merged@[t] == if t < above.len() && above[t]
                        > stack.layers@[cur as int].mask@[t] {
                        above[t]
                    } else {
                        stack.layers@[cur as int].mask@[t]
                    },
            decreases cur_len - j,
        {
            let c = stack.layers[cur].mask[j];
            let v = if j < next_len && stack.layers[i].mask[j] > c { stack.layers[i].mask[j] } else { c };
            merged.push(v);
            j = j + 1;
        }
        let color = stack.layers[cur].color;
        let z = stack.layers[cur].z_order;
        proof {
            assert(stack.layers@[cur as int].mask@ == ms[cur as int]);
            assert(above == stacked_mask(ms, i as int));
            assert(merged@ =~= stacked_mask(ms, cur as int));
        }
        stack.layers.set(cur, Layer { mask: merged, color, z_order: z });
        i = cur;
    }
}

/// The colours of `data` in order of first appearance, without repeats.
pub open spec fn first_appearance(data: Seq<Rgb>, n: int) -> Seq<Rgb>
    decreases n,
{
    if n <= 0 {
        Seq::empty()
    } else {
        let prev = first_appearance(data, n - 1);
        if prev.contains(data[n - 1]) {
            prev
        } else {
            prev.push(data[n - 1])
        }
    }
}

/// The distinct colours of `data` in first-appearance order, or `None` as
/// soon as more than `cap` distinct colours are seen.
pub fn unique_rgb_up_to(data: &[Rgb], cap: usize) -> (r: Option<Vec<Rgb>>)
    ensures
        r is None <==> first_appearance(data@, data@.len() as int).len() > cap,
        r matches Some(u) ==> u@ == first_appearance(data@, data@.len() as int),
{
    let mut unique: Vec<Rgb> = Vec::new();
    let mut i: usize = 0;
    while i < data.len()
        invariant
            i <= data@.len(),
            unique@ == first_appearance(data@, i as int),
            unique@.len() <= cap,
        decreases data@.len() - i,
    {
        let c = data[i];
        let mut found = false;
        let mut k: usize = 0;
        while k < unique.len()
            invariant
                k <= unique@.len(),
                found <==> exists|j: int| 0 <= j < k && unique@[j] == c,
            decreases unique@.len() - k,
        {
            if unique[k] == c {
                found = true;
            }
            k = k + 1;
        }
        proof {
            if found {
                let j = choose|j: int| 0 <= j < k && unique@[j] == c;
                assert(unique@.contains(c));
            } else {
                assert(!unique@.contains(c));
            }
        }
        if !found {
            if unique.len() >= cap {
                proof {
                    lemma_first_appearance_grows(data@, i as int + 1, data@.len() as int);
                }
                return None;
            }
            unique.push(c);
        }
        i = i + 1;
    }
    Some(unique)
}

pub proof fn lemma_first_appearance_grows(data: Seq<Rgb>, m: int, n: int)
    requires
        0 <= m <= n,
    ensures
        first_appearance(data, m).len() <= first_appearance(data, n).len(),
    decreases n - m,
{
    if m < n {
        lemma_first_appearance_grows(data, m, n - 1);
    }
}


/// After stacking, every layer covers at least what it covered before and
/// at least what the layer above it covers after stacking.
pub proof fn law_stacking_covers_layers_above(ms: Seq<Seq<u8>>, i: int, j: int)
    requires
        0 <= i < ms.len() - 1,
        0 <= j < ms[i].len(),
    ensures
        stacked_mask(ms, i)[j] >= ms[i][j],
        j < stacked_mask(ms, i + 1).len() ==> stacked_mask(ms, i)[j] >= stacked_mask(ms, i + 1)[j],
{
}

/// With masks of one length, each stacked mask is, pixel by pixel, the
/// largest coverage of its own layer and every layer above it.
pub proof fn law_stacking_is_max_above(ms: Seq<Seq<u8>>, k: int, i: int)
    requires
        0 <= k < ms.len(),
        forall|j: int| 0 <= j < ms.len() ==> (#[trigger] ms[j]).len() == ms[k].len(),
        0 <= i < ms[k].len(),
    ensures
        stacked_mask(ms, k).len() == ms[k].len(),
        forall|j: int| k <= j < ms.len() ==> stacked_mask(ms, k)[i] >= #[trigger] ms[j][i],
        exists|j: int| k <= j < ms.len() && stacked_mask(ms, k)[i] == #[trigger] ms[j][i],
    decreases ms.len() - k,
{
    if k == ms.len() - 1 {
        assert(stacked_mask(ms, k)[i] == ms[k][i]);
    } else {
        law_stacking_is_max_above(ms, k + 1, i);
        let above = stacked_mask(ms, k + 1);
        if above[i] > ms[k][i] {
            let j = choose|j: int| k + 1 <= j < ms.len() && above[i] == #[trigger] ms[j][i];
            assert(stacked_mask(ms, k)[i] == ms[j][i]);
        } else {
            assert(stacked_mask(ms, k)[i] == ms[k][i]);
        }
    }
}

} // verus!
