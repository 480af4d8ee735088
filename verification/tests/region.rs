use spryteo::{crop, RasterImage};

fn check_crop_full_rect_is_identity() {
    let pixels: Vec<u8> = (0..64).map(|i| (i * 17) as u8).collect();
    let img = RasterImage { width: 4, height: 4, pixels };
    let result = crop(&img, 0, 0, 4, 4);
    assert_eq!(result.width, 4);
    assert_eq!(result.height, 4);
    assert_eq!(result.pixels, img.pixels);
}

fn check_crop_clamps_out_of_bounds() {
    let pixels: Vec<u8> = vec![0u8; 4 * 4 * 4];
    let img = RasterImage { width: 4, height: 4, pixels };
    let result = crop(&img, 0, 0, 100, 100);
    assert_eq!(result.width, 4);
    assert_eq!(result.height, 4);
    let result = crop(&img, 5, 0, 10, 10);
    assert_eq!(result.width, 0);
    assert_eq!(result.height, 0);
    let result = crop(&img, 0, 5, 10, 10);
    assert_eq!(result.width, 0);
    assert_eq!(result.height, 0);
}

fn check_crop_subregion_pixels() {
    let mut pixels = Vec::with_capacity(4 * 4 * 4);
    for r in 0..4u8 {
        for c in 0..4u8 {
            let val = r * 4 + c;
            pixels.push(val);
            pixels.push(val);
            pixels.push(val);
            pixels.push(255);
        }
    }
    let img = RasterImage { width: 4, height: 4, pixels };
    let result = crop(&img, 1, 1, 2, 2);
    assert_eq!(result.width, 2);
    assert_eq!(result.height, 2);
    let expected: Vec<u8> = vec![5, 5, 5, 255, 6, 6, 6, 255, 9, 9, 9, 255, 10, 10, 10, 255];
    assert_eq!(result.pixels, expected);
}

fn check_crop_zero_size_image() {
    let img = RasterImage { width: 0, height: 0, pixels: Vec::new() };
    let result = crop(&img, 0, 0, 10, 10);
    assert_eq!(result.width, 0);
    assert_eq!(result.height, 0);
    assert!(result.pixels.is_empty());
}

#[test]
fn region_test_crop_full_rect_is_identity() {
    check_crop_full_rect_is_identity();
}

#[test]
fn region_tests_test_crop_full_rect_is_identity() {
    check_crop_full_rect_is_identity();
}

#[test]
fn region_test_crop_clamps_out_of_bounds() {
    check_crop_clamps_out_of_bounds();
}

#[test]
fn region_tests_test_crop_clamps_out_of_bounds() {
    check_crop_clamps_out_of_bounds();
}

#[test]
fn region_test_crop_subregion_pixels() {
    check_crop_subregion_pixels();
}

#[test]
fn region_tests_test_crop_subregion_pixels() {
    check_crop_subregion_pixels();
}

#[test]
fn region_test_crop_zero_size_image() {
    check_crop_zero_size_image();
}

#[test]
fn region_tests_test_crop_zero_size_image() {
    check_crop_zero_size_image();
}
