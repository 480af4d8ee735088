use spryteo::sheet::cluster::Bbox;
use spryteo::sheet::color::dominant_color;
use spryteo::{Mask, RasterImage, Rgb};

fn make_test_image_and_mask(
    width: u32,
    height: u32,
    pixel_fn: impl Fn(u32, u32) -> (u8, u8, u8, u8, bool),
) -> (RasterImage, Mask, Bbox) {
    let mut pixels = Vec::with_capacity((width * height * 4) as usize);
    let mut bits = Vec::with_capacity((width * height) as usize);
    for y in 0..height {
        for x in 0..width {
            let (r, g, b, a, bit) = pixel_fn(x, y);
            pixels.push(r);
            pixels.push(g);
            pixels.push(b);
            pixels.push(a);
            bits.push(bit);
        }
    }
    let image = RasterImage { width, height, pixels };
    let mask = Mask { width, height, bits };
    let rect = Bbox { x1: 0, y1: 0, x2: width, y2: height };
    (image, mask, rect)
}

#[test]
fn test_dominant_color_averages_core_pixels() {
    let (image, mask, rect) = make_test_image_and_mask(40, 40, |_, _| (200, 50, 50, 255, true));
    let dom = dominant_color(&image, &mask, &rect, 150).expect("should find dominant color");
    assert_eq!(dom, Rgb { r: 200, g: 50, b: 50 });
}

#[test]
fn test_dominant_color_none_when_no_core_pixels() {
    let (image, mask, rect) = make_test_image_and_mask(40, 40, |_, _| (200, 200, 200, 255, true));
    let dom = dominant_color(&image, &mask, &rect, 150);
    assert!(dom.is_none(), "low sat pixels should yield None");
}

#[test]
fn dominant_color_empty_and_outside_rects_are_none() {
    let image = RasterImage { width: 0, height: 0, pixels: vec![] };
    let mask = Mask { width: 0, height: 0, bits: vec![] };
    let rect = Bbox { x1: 0, y1: 0, x2: 0, y2: 0 };
    assert!(dominant_color(&image, &mask, &rect, 150).is_none());
    let outside = Bbox { x1: 10, y1: 10, x2: 10, y2: 10 };
    assert!(dominant_color(&image, &mask, &outside, 150).is_none());
}

#[test]
fn dominant_color_rounds_the_mean_half_up() {
    // Two core pixels: red 200 and 201 average to 200.5, which rounds to 201;
    // green 10 and 12 average to 11; blue 0 and 1 average to 0.5 -> 1.
    let (image, mask, rect) = make_test_image_and_mask(2, 1, |x, _| {
        if x == 0 {
            (200, 10, 0, 255, true)
        } else {
            (201, 12, 1, 255, true)
        }
    });
    assert_eq!(dominant_color(&image, &mask, &rect, 150), Some(Rgb { r: 201, g: 11, b: 1 }));
}

#[test]
fn dominant_color_ignores_unmasked_and_grey_pixels() {
    // Only the masked, saturated pixel at (1, 1) counts.
    let (image, mask, rect) = make_test_image_and_mask(3, 3, |x, y| {
        if x == 1 && y == 1 {
            (10, 200, 30, 255, true)
        } else if x == 0 {
            (250, 0, 0, 255, false)
        } else {
            (120, 120, 120, 255, true)
        }
    });
    assert_eq!(dominant_color(&image, &mask, &rect, 100), Some(Rgb { r: 10, g: 200, b: 30 }));
}

#[test]
fn dominant_color_reads_only_inside_the_rect() {
    let (image, mask, _) = make_test_image_and_mask(4, 1, |x, _| {
        if x < 2 {
            (255, 0, 0, 255, true)
        } else {
            (0, 0, 255, 255, true)
        }
    });
    let right = Bbox { x1: 2, y1: 0, x2: 9, y2: 5 };
    assert_eq!(dominant_color(&image, &mask, &right, 100), Some(Rgb { r: 0, g: 0, b: 255 }));
}
