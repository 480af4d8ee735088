use spryteo::resample::{finish_resize, resize_rgba_with, Resample};
use spryteo::RasterImage;

#[test]
fn opaque_image_resizes_without_premultiplying() {
    let img = RasterImage { width: 2, height: 2, pixels: [10u8, 20, 30, 255].repeat(4) };
    let out = resize_rgba_with(img, 1, 1, Resample::Nearest);
    assert_eq!((out.width, out.height), (1, 1));
    assert_eq!(out.pixels, vec![10, 20, 30, 255]);
}

#[test]
fn hidden_colour_does_not_bleed_into_visible_pixels() {
    let img = RasterImage { width: 2, height: 1, pixels: vec![255, 0, 0, 255, 0, 255, 0, 0] };
    let out = resize_rgba_with(img, 1, 1, Resample::Triangle);
    assert_eq!(out.pixels.len(), 4);
    assert_eq!(out.pixels[1], 0);
    assert_eq!(out.pixels[0], 255);
    assert!(out.pixels[3] > 0 && out.pixels[3] < 255);
}

#[test]
fn transparent_pixels_come_out_black() {
    let img = RasterImage { width: 2, height: 2, pixels: [200u8, 100, 50, 0].repeat(4) };
    let out = resize_rgba_with(img, 3, 3, Resample::Lanczos3);
    assert_eq!(out.pixels, vec![0u8; 36]);
}

#[test]
fn upscaling_keeps_dimensions_requested() {
    let img = RasterImage { width: 1, height: 1, pixels: vec![7, 8, 9, 255] };
    let out = resize_rgba_with(img, 2, 3, Resample::Nearest);
    assert_eq!((out.width, out.height), (2, 3));
    assert_eq!(out.pixels, [7u8, 8, 9, 255].repeat(6));
}

#[test]
fn short_buffer_gives_an_empty_image() {
    let img = RasterImage { width: 4, height: 4, pixels: vec![0; 10] };
    let out = resize_rgba_with(img, 2, 2, Resample::Triangle);
    assert_eq!((out.width, out.height), (4, 4));
    assert!(out.pixels.is_empty());
}

#[test]
fn nearest_resize_of_opaque_art_gains_no_colours() {
    let colours: [[u8; 4]; 4] = [[255, 0, 0, 255], [0, 255, 0, 255], [0, 0, 255, 255], [250, 250, 10, 255]];
    let pixels: Vec<u8> = colours.iter().flatten().copied().collect();
    for (nw, nh) in [(3u32, 3u32), (5, 2), (1, 1), (7, 4)] {
        let img = RasterImage { width: 2, height: 2, pixels: pixels.clone() };
        let out = resize_rgba_with(img, nw, nh, Resample::Nearest);
        assert_eq!(out.pixels.len(), (nw * nh * 4) as usize);
        for px in out.pixels.chunks_exact(4) {
            assert!(colours.iter().any(|c| c[..] == px[..]), "new colour {:?}", px);
        }
    }
}

#[test]
fn finish_resize_divides_translucent_pixels_back() {
    assert_eq!(finish_resize(vec![10, 20, 30, 255], true), vec![10, 20, 30, 255]);
    // 64 premultiplied at alpha 128 is 127.5 back, rounded half up: 128; zero alpha gives black.
    assert_eq!(finish_resize(vec![64, 0, 128, 128, 50, 50, 50, 0], false), vec![128, 0, 255, 128, 0, 0, 0, 0]);
}
