use std::io::Cursor;

use image::{DynamicImage, ImageFormat, RgbaImage};
use spryteo::decode::{convert_icc_to_srgb, decode, finish_decode, is_jpeg, DecodeError, DecodeLimits, Decoded, LimitKind, MAX_DIMENSION};

fn test_options() -> DecodeLimits {
    DecodeLimits { max_pixels: 16_000_000, max_input_bytes: 8_000_000 }
}

fn encode(img: &RgbaImage, fmt: ImageFormat) -> Vec<u8> {
    let dyn_img = DynamicImage::from(img.clone());
    let mut buf = Vec::new();
    dyn_img.write_to(&mut Cursor::new(&mut buf), fmt).expect("encoding should succeed");
    buf
}

fn make_4x4_rgba() -> RgbaImage {
    let mut img = RgbaImage::new(4, 4);
    for y in 0..4 {
        for x in 0..4 {
            let r = (x * 64) as u8;
            let g = (y * 64) as u8;
            let b = 128u8;
            let a = if (x + y) % 2 == 0 { 255 } else { 128 };
            img.put_pixel(x, y, image::Rgba([r, g, b, a]));
        }
    }
    img
}

#[test]
fn decode_png_roundtrip() {
    let opts = test_options();
    let original = make_4x4_rgba();
    let bytes = encode(&original, ImageFormat::Png);
    let result = decode(&bytes, &opts).unwrap();
    assert_eq!(result.width, 4);
    assert_eq!(result.height, 4);
    assert_eq!(result.pixels.len(), 4 * 4 * 4);
    assert_eq!(result.pixels, original.into_raw());
}

#[test]
fn decode_bmp_roundtrip() {
    let opts = test_options();
    let original = make_4x4_rgba();
    let bytes = encode(&original, ImageFormat::Bmp);
    let result = decode(&bytes, &opts).unwrap();
    assert_eq!(result.width, 4);
    assert_eq!(result.height, 4);
    assert_eq!(result.pixels.len(), 4 * 4 * 4);
    assert_eq!(result.pixels, original.into_raw());
}

#[test]
fn decode_jpeg_dimensions() {
    let opts = test_options();
    let original = make_4x4_rgba();
    let rgb = DynamicImage::from(original).to_rgb8();
    let mut bytes = Vec::new();
    DynamicImage::from(rgb).write_to(&mut Cursor::new(&mut bytes), ImageFormat::Jpeg).expect("encoding should succeed");
    let result = decode(&bytes, &opts).unwrap();
    assert_eq!(result.width, 4);
    assert_eq!(result.height, 4);
}

#[test]
fn decode_gif_dimensions() {
    let opts = test_options();
    let original = make_4x4_rgba();
    let bytes = encode(&original, ImageFormat::Gif);
    let result = decode(&bytes, &opts).unwrap();
    assert_eq!(result.width, 4);
    assert_eq!(result.height, 4);
}

#[test]
fn decode_webp_dimensions() {
    let opts = test_options();
    let original = make_4x4_rgba();
    let bytes = encode(&original, ImageFormat::WebP);
    let result = decode(&bytes, &opts).unwrap();
    assert_eq!(result.width, 4);
    assert_eq!(result.height, 4);
}

#[test]
fn reject_exceeding_max_input_bytes() {
    let bytes = encode(&make_4x4_rgba(), ImageFormat::Png);
    let opts = DecodeLimits { max_input_bytes: 1, max_pixels: 16_000_000 };
    let err = decode(&bytes, &opts).unwrap_err();
    match err {
        DecodeError::LimitExceeded { kind: LimitKind::InputBytes, value, max } => {
            assert_eq!(max, 1);
            assert!(value > 1);
        },
        other => panic!("expected LimitExceeded(InputBytes), got {other:?}"),
    }
}

#[test]
fn reject_exceeding_max_pixels() {
    let bytes = encode(&make_4x4_rgba(), ImageFormat::Png);
    let opts = DecodeLimits { max_input_bytes: 8_000_000, max_pixels: 15 };
    let err = decode(&bytes, &opts).unwrap_err();
    match err {
        DecodeError::LimitExceeded { kind: LimitKind::PixelCount, value: 16, max: 15 } => {},
        other => panic!("expected LimitExceeded(PixelCount), got {other:?}"),
    }
}

#[test]
fn reject_exceeding_dimension_ceiling() {
    let mut huge = RgbaImage::new(8193, 1);
    huge.put_pixel(0, 0, image::Rgba([0, 0, 0, 255]));
    let bytes = encode(&huge, ImageFormat::Png);
    let opts = test_options();
    let err = decode(&bytes, &opts).unwrap_err();
    match err {
        DecodeError::LimitExceeded { kind: LimitKind::Dimension, value: 8193, max: 8192 } => {},
        other => panic!("expected LimitExceeded(Dimension), got {other:?}"),
    }
    assert_eq!(MAX_DIMENSION, 8192);
}

#[test]
fn reject_garbage_bytes() {
    let garbage = b"this is not a valid image of any kind, obviously";
    let opts = test_options();
    let err = decode(garbage, &opts).unwrap_err();
    assert!(matches!(err, DecodeError::InvalidInput(_)));
}

#[test]
fn reject_unsupported_format() {
    let tiff_header = b"II\x2a\x00\x08\x00\x00\x00some more data";
    let opts = test_options();
    let err = decode(tiff_header, &opts).unwrap_err();
    assert!(matches!(err, DecodeError::InvalidInput(_)));
}

#[test]
fn unsupported_format_is_named_in_the_error() {
    let tiff_header = b"II\x2a\x00\x08\x00\x00\x00some more data";
    match decode(tiff_header, &test_options()) {
        Err(DecodeError::InvalidInput(msg)) => assert_eq!(msg, "Unsupported image format: Tiff"),
        other => panic!("expected InvalidInput, got {other:?}"),
    }
}

#[test]
fn truncated_png_header_is_invalid() {
    let bytes = b"\x89PNG\r\n\x1a\n\x00\x00";
    assert!(matches!(decode(bytes, &test_options()), Err(DecodeError::InvalidInput(_))));
}

#[test]
fn no_exif_orientation_is_a_no_op() {
    let opts = test_options();
    let original = make_4x4_rgba();
    let bytes = encode(&original, ImageFormat::Png);
    let result = decode(&bytes, &opts).unwrap();
    assert_eq!(result.width, 4);
    assert_eq!(result.height, 4);
    assert_eq!(result.pixels, original.into_raw());
}

#[test]
fn png_without_icc_profile_is_unaffected() {
    let opts = test_options();
    let original = make_4x4_rgba();
    let bytes = encode(&original, ImageFormat::Png);
    let result = decode(&bytes, &opts).unwrap();
    assert_eq!(result.pixels, original.into_raw());
}

#[test]
fn is_jpeg_sniffs_magic_bytes_only() {
    assert!(is_jpeg(&[0xff, 0xd8, 0xff, 0x00]));
    assert!(!is_jpeg(&[0xff, 0xd8]));
    assert!(!is_jpeg(b"\x89PNG\r\n\x1a\n"));
    assert!(!is_jpeg(b""));
    let jpeg_like = encode(&make_4x4_rgba(), ImageFormat::Png);
    assert!(!is_jpeg(&jpeg_like));
}

#[test]
fn unparsable_profile_leaves_pixels_alone() {
    let pixels = vec![1, 2, 3, 4, 5, 6, 7, 8];
    assert_eq!(convert_icc_to_srgb(pixels.clone(), b"not a profile"), pixels);
}

#[test]
fn finish_decode_keeps_size_and_pixels_without_a_profile() {
    let d = Decoded { width: 2, height: 1, pixels: vec![1, 2, 3, 255, 4, 5, 6, 128], icc: None };
    let img = finish_decode(Ok(d)).expect("decoded");
    assert_eq!((img.width, img.height), (2, 1));
    assert_eq!(img.pixels, vec![1, 2, 3, 255, 4, 5, 6, 128]);
}

#[test]
fn finish_decode_keeps_pixels_under_an_unparsable_profile() {
    let d = Decoded { width: 1, height: 1, pixels: vec![9, 8, 7, 255], icc: Some(vec![0u8; 16]) };
    let img = finish_decode(Ok(d)).expect("decoded");
    assert_eq!(img.pixels, vec![9, 8, 7, 255]);
}

#[test]
fn finish_decode_turns_a_decoder_error_into_invalid_input() {
    match finish_decode(Err("truncated".to_string())) {
        Err(DecodeError::InvalidInput(m)) => assert_eq!(m, "truncated"),
        _ => panic!("expected invalid input"),
    }
}
