use spryteo::preprocess::deblock;
use spryteo::RasterImage;

fn grey(width: u32, height: u32, f: impl Fn(u32, u32) -> u8) -> RasterImage {
    let mut pixels = Vec::new();
    for y in 0..height {
        for x in 0..width {
            let v = f(x, y);
            pixels.extend_from_slice(&[v, v, v, 255]);
        }
    }
    RasterImage { width, height, pixels }
}

#[test]
fn deblock_leaves_a_flat_image_alone() {
    let img = grey(20, 20, |_, _| 77);
    let out = deblock(&img);
    assert_eq!(out.pixels, img.pixels);
}

#[test]
fn deblock_softens_a_step_on_a_block_boundary() {
    let img = grey(16, 3, |x, _| if x < 8 { 0 } else { 100 });
    let out = deblock(&img);
    for y in 0..3u32 {
        let row: Vec<u8> = (0..16u32).map(|x| out.pixels[((y * 16 + x) * 4) as usize]).collect();
        let mut want = vec![0u8; 7];
        want.extend_from_slice(&[25, 75]);
        want.extend_from_slice(&[100u8; 7]);
        assert_eq!(row, want);
    }
    assert!(out.pixels.chunks(4).all(|p| p[3] == 255));
}

#[test]
fn deblock_softens_rows_after_columns() {
    let img = grey(3, 16, |_, y| if y < 8 { 0 } else { 200 });
    let out = deblock(&img);
    let col: Vec<u8> = (0..16u32).map(|y| out.pixels[((y * 3 + 1) * 4) as usize]).collect();
    let mut want = vec![0u8; 7];
    want.extend_from_slice(&[50, 150]);
    want.extend_from_slice(&[200u8; 7]);
    assert_eq!(col, want);
}

#[test]
fn deblock_skips_images_two_pixels_thin() {
    let img = grey(2, 30, |x, y| (x * 7 + y * 3) as u8);
    let out = deblock(&img);
    assert_eq!(out.pixels, img.pixels);
    assert_eq!((out.width, out.height), (2, 30));
}

#[test]
fn deblock_keeps_every_alpha_byte() {
    let (w, h) = (16u32, 16u32);
    let mut pixels = Vec::new();
    for i in 0..(w * h) {
        pixels.extend_from_slice(&[(i * 7 % 256) as u8, (i * 13 % 256) as u8, (i * 29 % 256) as u8, (i * 31 % 256) as u8]);
    }
    let img = spryteo::RasterImage { width: w, height: h, pixels: pixels.clone() };
    let out = spryteo::preprocess::deblock(&img);
    assert_eq!(out.pixels.len(), pixels.len());
    for k in 0..(w * h) as usize {
        assert_eq!(out.pixels[4 * k + 3], pixels[4 * k + 3]);
    }
    assert_ne!(out.pixels, pixels);
}
