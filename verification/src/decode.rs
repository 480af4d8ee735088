//! Decoding image files into RGBA rasters: format sniffing by magic bytes,
//! input limits checked before the full decode, EXIF orientation, and
//! conversion of embedded RGB colour profiles to sRGB.

use vstd::prelude::*;
use image::ImageDecoder;
use moxcms::TransformExecutor;
use crate::raster::RasterImage;

verus! {

/// The largest width or height accepted.
pub const MAX_DIMENSION: u32 = 8192;

/// The raster formats decoded.
#[derive(Debug, Clone, Copy, PartialEq, Eq, Structural)]
pub enum Format {
    Png,
    Jpeg,
    Gif,
    WebP,
    Bmp,
}

/// What the magic bytes of an input say: a decoded format, or the name of
/// another recognised format.
#[derive(Debug, Clone)]
pub enum Sniffed {
    Supported(Format),
    Unsupported(String),
}

/// Which input limit was exceeded.
#[derive(Debug, Clone, Copy, PartialEq, Eq, Structural)]
pub enum LimitKind {
    InputBytes,
    Dimension,
    PixelCount,
}

/// Why an input was refused.
#[derive(Debug, Clone)]
pub enum DecodeError {
    LimitExceeded { kind: LimitKind, value: u64, max: u64 },
    InvalidInput(String),
}

/// Input limits enforced before decoding.
#[derive(Debug, Clone, Copy)]
pub struct DecodeLimits {
    pub max_input_bytes: u64,
    pub max_pixels: u64,
}

/// The colour space an ICC profile declares, as far as decoding cares.
#[derive(Debug, Clone, Copy, PartialEq, Eq, Structural)]
pub enum IccSpace {
    Rgb,
    Other,
}

/// A decoded, upright image with its embedded colour profile, if any.
pub struct Decoded {
    pub width: u32,
    pub height: u32,
    pub pixels: Vec<u8>,
    pub icc: Option<Vec<u8>>,
}

#[verifier::external_type_specification]
#[verifier::external_body]
pub struct ExImageFormat(image::ImageFormat);

pub open spec fn starts_with(b: Seq<u8>, p: Seq<u8>) -> bool {
    p.len() <= b.len() && b.subrange(0, p.len() as int) == p
}

pub open spec fn png_magic(b: Seq<u8>) -> bool {
    starts_with(b, seq![0x89u8, 0x50u8, 0x4eu8, 0x47u8, 0x0du8, 0x0au8, 0x1au8, 0x0au8])
}

pub open spec fn jpeg_magic(b: Seq<u8>) -> bool {
    starts_with(b, seq![0xffu8, 0xd8u8, 0xffu8])
}

/// `GIF89a` or `GIF87a`.
pub open spec fn gif_magic(b: Seq<u8>) -> bool {
    starts_with(b, seq![0x47u8, 0x49u8, 0x46u8, 0x38u8, 0x39u8, 0x61u8])
        || starts_with(b, seq![0x47u8, 0x49u8, 0x46u8, 0x38u8, 0x37u8, 0x61u8])
}

/// `RIFF`, any four bytes, then `WEBP`.
pub open spec fn webp_magic(b: Seq<u8>) -> bool {
    &&& b.len() >= 12
    &&& b.subrange(0, 4) == seq![0x52u8, 0x49u8, 0x46u8, 0x46u8]
    &&& b.subrange(8, 12) == seq![0x57u8, 0x45u8, 0x42u8, 0x50u8]
}

/// `BM`.
pub open spec fn bmp_magic(b: Seq<u8>) -> bool {
    starts_with(b, seq![0x42u8, 0x4du8])
}

/// The decoded format whose signature `b` starts with.
pub open spec fn sniffed_format(b: Seq<u8>) -> Option<Format> {
    if png_magic(b) {
        Some(Format::Png)
    } else if jpeg_magic(b) {
        Some(Format::Jpeg)
    } else if gif_magic(b) {
        Some(Format::Gif)
    } else if webp_magic(b) {
        Some(Format::WebP)
    } else if bmp_magic(b) {
        Some(Format::Bmp)
    } else {
        None
    }
}

/// The decoded format a sniffing result names, if any.
pub open spec fn supported_of(r: Result<Sniffed, String>) -> Option<Format> {
    match r {
        Ok(Sniffed::Supported(f)) => Some(f),
        _ => None,
    }
}

/// `image::guess_format`, which walks a table of magic bytes. The table
/// tells PNG, JPEG, GIF, WebP and BMP by the signatures of `sniffed_format`,
/// and no entry before theirs matches an input that starts with one of them;
/// which other format (or error) an input sniffs as is left unsaid.
#[verifier::external_body]
fn guess_format(bytes: &[u8]) -> (r: Result<Sniffed, String>)
    ensures
        supported_of(r) == sniffed_format(bytes@),
{
    match image::guess_format(bytes) {
        Ok(image::ImageFormat::Png) => Ok(Sniffed::Supported(Format::Png)),
        Ok(image::ImageFormat::Jpeg) => Ok(Sniffed::Supported(Format::Jpeg)),
        Ok(image::ImageFormat::Gif) => Ok(Sniffed::Supported(Format::Gif)),
        Ok(image::ImageFormat::WebP) => Ok(Sniffed::Supported(Format::WebP)),
        Ok(image::ImageFormat::Bmp) => Ok(Sniffed::Supported(Format::Bmp)),
        Ok(other) => Ok(Sniffed::Unsupported(format!("{other:?}"))),
        Err(e) => Err(e.to_string()),
    }
}

/// The `image::ImageFormat` of a decoded format.
#[verifier::external_body]
fn image_format(f: Format) -> image::ImageFormat {
    match f {
        Format::Png => image::ImageFormat::Png,
        Format::Jpeg => image::ImageFormat::Jpeg,
        Format::Gif => image::ImageFormat::Gif,
        Format::WebP => image::ImageFormat::WebP,
        Format::Bmp => image::ImageFormat::Bmp,
    }
}

/// The width and height that `image::ImageReader::into_dimensions` reads
/// from the header of `bytes` taken as `format`, or `None` where it fails.
pub uninterp spec fn header_size(bytes: Seq<u8>, format: Format) -> Option<(u32, u32)>;

/// `image::ImageReader::into_dimensions` on `bytes` taken as `format`: the
/// header's size, named by `header_size`; the error's text is left unsaid.
#[verifier::external_body]
fn read_dimensions(bytes: &[u8], format: Format) -> (r: Result<(u32, u32), String>)
    ensures
        r is Ok <==> header_size(bytes@, format) is Some,
        r matches Ok(d) ==> header_size(bytes@, format) == Some(d),
{
    let mut reader = image::ImageReader::new(std::io::Cursor::new(bytes));
    reader.set_format(image_format(format));
    reader.into_dimensions().map_err(|e| e.to_string())
}

/// Whether `image` decodes `bytes` as `format` (`into_decoder`, then
/// `DynamicImage::from_decoder`) without an error.
pub uninterp spec fn decodes(bytes: Seq<u8>, format: Format) -> bool;

/// Whether `image` decodes `format` with exact arithmetic only, so that the
/// pixels it gives depend on the input bytes alone: the PNG, GIF and BMP
/// decoders work on integers, and the JPEG decoder (`zune-jpeg`) uses
/// integer colour conversion and vector code that gives the same results as
/// its scalar code. WebP is not counted.
pub open spec fn reproducible_format(f: Format) -> bool {
    f != Format::WebP
}

/// The upright 8-bit RGBA pixels `image` decodes from `bytes` taken as
/// `format` (`into_decoder`, `DynamicImage::from_decoder`,
/// `apply_orientation`, `to_rgba8`).
pub uninterp spec fn decoded_rgba(bytes: Seq<u8>, format: Format) -> Seq<u8>;

/// The ICC profile that `image`'s decoder for `format` reads from `bytes`
/// (`ImageDecoder::icc_profile`), `None` where there is none or it cannot
/// be read.
pub uninterp spec fn embedded_icc(bytes: Seq<u8>, format: Format) -> Option<Seq<u8>>;

/// Decodes `bytes` as `format` with `image` (`into_decoder`,
/// `DynamicImage::from_decoder`), applies the decoder's EXIF orientation
/// (none where it cannot be read) and converts to 8-bit RGBA; also hands back
/// the embedded ICC profile (none where it cannot be read), named by
/// `embedded_icc`. On success there are four bytes per pixel, and the size is
/// the header's, turned a quarter where the orientation rotates. For the
/// formats of `reproducible_format` the pixels are named by `decoded_rgba`;
/// for WebP they are left unsaid. Whether it succeeds is named by `decodes`.
#[verifier::external_body]
fn decode_rgba(bytes: &[u8], format: Format) -> (r: Result<Decoded, String>)
    ensures
        r is Ok <==> decodes(bytes@, format),
        r matches Ok(d) ==> d.pixels.len() == (d.width as int) * (d.height as int) * 4 && (header_size(bytes@, format)
            == Some((d.width, d.height)) || header_size(bytes@, format) == Some((d.height, d.width))),
        r matches Ok(d) ==> match d.icc {
            Some(icc) => embedded_icc(bytes@, format) == Some(icc@),
            None => embedded_icc(bytes@, format) is None,
        },
        reproducible_format(format) ==> (r matches Ok(d) ==> d.pixels@ == decoded_rgba(bytes@, format)),
{
    let mut reader = image::ImageReader::new(std::io::Cursor::new(bytes));
    reader.set_format(image_format(format));
    let mut decoder = reader.into_decoder().map_err(|e| e.to_string())?;
    let orientation = decoder.orientation().unwrap_or(image::metadata::Orientation::NoTransforms);
    let icc = decoder.icc_profile().ok().flatten();
    let mut img = image::DynamicImage::from_decoder(decoder).map_err(|e| e.to_string())?;
    img.apply_orientation(orientation);
    let rgba = img.to_rgba8();
    Ok(Decoded { width: rgba.width(), height: rgba.height(), pixels: rgba.into_raw(), icc })
}

/// The colour space that `moxcms::ColorProfile::new_from_slice` reads from
/// an ICC profile, or `None` where it does not parse.
pub uninterp spec fn icc_space(icc: Seq<u8>) -> Option<IccSpace>;

/// `moxcms::ColorProfile::new_from_slice`, then the profile's
/// `color_space`: RGB or another, named by `icc_space`.
#[verifier::external_body]
fn profile_space(icc: &[u8]) -> (r: Option<IccSpace>)
    ensures
        r == icc_space(icc@),
{
    match moxcms::ColorProfile::new_from_slice(icc) {
        Ok(p) => match p.color_space {
            moxcms::DataColorSpace::Rgb => Some(IccSpace::Rgb),
            _ => Some(IccSpace::Other),
        },
        Err(_) => None,
    }
}

/// Converts RGBA pixels from the ICC profile `icc` to sRGB with a `moxcms`
/// 8-bit transform (`create_transform_8bit`, then `transform`), or `None`
/// where the profile does not parse or either step fails. The output has the
/// input's length; its values are left unsaid (they may depend on the
/// machine's vector instructions).
#[verifier::external_body]
fn transform_to_srgb(icc: &[u8], rgba: &[u8]) -> (r: Option<Vec<u8>>)
    ensures
        r matches Some(out) ==> out.len() == rgba.len(),
{
    let src = moxcms::ColorProfile::new_from_slice(icc).ok()?;
    let dst = moxcms::ColorProfile::new_srgb();
    let layout = moxcms::Layout::Rgba;
    let t = src.create_transform_8bit(layout, &dst, layout, moxcms::TransformOptions::default()).ok()?;
    let mut out = vec![0u8; rgba.len()];
    t.transform(rgba, &mut out).ok()?;
    Some(out)
}

/// Converts RGBA pixels to sRGB when `icc` parses as an RGB profile and a
/// transform can be built for it; otherwise leaves them as they are.
pub fn convert_icc_to_srgb(pixels: Vec<u8>, icc: &[u8]) -> (out: Vec<u8>)
    ensures
        out.len() == pixels.len(),
        icc_space(icc@) != Some(IccSpace::Rgb) ==> out@ == pixels@,
{
    match profile_space(icc) {
        Some(IccSpace::Rgb) => {
            match transform_to_srgb(icc, &pixels) {
                Some(converted) => converted,
                None => pixels,
            }
        },
        _ => pixels,
    }
}

/// Whether `bytes` sniffs as JPEG.
pub fn is_jpeg(bytes: &[u8]) -> (b: bool)
    ensures
        b == jpeg_magic(bytes@),
{
    proof {
        lemma_magic_exclusive(bytes@);
    }
    match guess_format(bytes) {
        Ok(Sniffed::Supported(Format::Jpeg)) => true,
        _ => false,
    }
}

/// The signatures exclude one another.
pub proof fn lemma_magic_exclusive(b: Seq<u8>)
    ensures
        jpeg_magic(b) <==> sniffed_format(b) == Some(Format::Jpeg),
        png_magic(b) <==> sniffed_format(b) == Some(Format::Png),
{
    if jpeg_magic(b) {
        assert(b[0] == 0xffu8) by {
            assert(b.subrange(0, 3)[0] == b[0]);
        }
        if png_magic(b) {
            assert(b.subrange(0, 8)[0] == b[0]);
        }
    }
}

/// `r` refuses the input for exceeding the `kind` limit `max` with `value`.
pub open spec fn is_limit(r: Result<RasterImage, DecodeError>, kind: LimitKind, value: int, max: int) -> bool {
    match r {
        Err(DecodeError::LimitExceeded { kind: k, value: v, max: m }) => k == kind && v == value && m == max,
        _ => false,
    }
}

/// `r` refuses the input as invalid.
pub open spec fn is_invalid(r: Result<RasterImage, DecodeError>) -> bool {
    match r {
        Err(DecodeError::InvalidInput(_)) => true,
        _ => false,
    }
}

/// The outcome once the format is known and the header read as `size`:
/// refused when a side exceeds `MAX_DIMENSION` (reporting the longer side),
/// then when the pixel count exceeds the limit; otherwise either an RGBA
/// raster of the header's size (turned a quarter by the orientation) when
/// the decoder succeeds (`decoded`), or a decoding failure when it does not.
pub open spec fn after_header(r: Result<RasterImage, DecodeError>, size: Option<(u32, u32)>, limits: DecodeLimits, decoded: bool) -> bool {
    match size {
        None => is_invalid(r),
        Some((w, h)) => if w > MAX_DIMENSION || h > MAX_DIMENSION {
            is_limit(r, LimitKind::Dimension, if w > h { w as int } else { h as int }, MAX_DIMENSION as int)
        } else if (w as int) * (h as int) > limits.max_pixels {
            is_limit(r, LimitKind::PixelCount, (w as int) * (h as int), limits.max_pixels as int)
        } else {
            &&& (r is Ok <==> decoded)
            &&& match r {
                Ok(img) => img.pixels.len() == (img.width as int) * (img.height as int) * 4 && ((img.width == w
                    && img.height == h) || (img.width == h && img.height == w)),
                Err(e) => e is InvalidInput,
            }
        },
    }
}

/// The embedded profile, if any, is not an RGB colour profile.
pub open spec fn no_rgb_profile(icc: Option<Seq<u8>>) -> bool {
    match icc {
        None => true,
        Some(p) => icc_space(p) != Some(IccSpace::Rgb),
    }
}

/// Decodes an image file into an upright RGBA raster. The input size is
/// checked first, then the format is sniffed from the magic bytes (PNG,
/// JPEG, GIF, WebP or BMP), then the header's width and height are checked
/// against `MAX_DIMENSION` and the pixel limit, all before the full decode.
/// An embedded RGB colour profile is converted to sRGB.
pub fn decode(bytes: &[u8], limits: &DecodeLimits) -> (r: Result<RasterImage, DecodeError>)
    ensures
        bytes.len() > limits.max_input_bytes ==> is_limit(r, LimitKind::InputBytes, bytes.len() as int, limits.max_input_bytes as int),
        bytes.len() <= limits.max_input_bytes && sniffed_format(bytes@) is None ==> is_invalid(r),
        bytes.len() <= limits.max_input_bytes && sniffed_format(bytes@) is Some ==> after_header(
            r,
            header_size(bytes@, sniffed_format(bytes@).unwrap()),
            *limits,
            decodes(bytes@, sniffed_format(bytes@).unwrap()),
        ),
        ({
            let f = sniffed_format(bytes@).unwrap();
            bytes.len() <= limits.max_input_bytes && sniffed_format(bytes@) is Some && reproducible_format(f) && no_rgb_profile(
                embedded_icc(bytes@, f),
            ) ==> (r matches Ok(img) ==> img.pixels@ == decoded_rgba(bytes@, f))
        }),
{
    let n = bytes.len() as u64;
    if n > limits.max_input_bytes {
        return Err(DecodeError::LimitExceeded { kind: LimitKind::InputBytes, value: n, max: limits.max_input_bytes });
    }
    let format = match guess_format(bytes) {
        Ok(Sniffed::Supported(f)) => f,
        Ok(Sniffed::Unsupported(name)) => {
            let mut msg = String::from_str("Unsupported image format: ");
            msg.append(name.as_str());
            return Err(DecodeError::InvalidInput(msg));
        },
        Err(e) => {
            return Err(DecodeError::InvalidInput(e));
        },
    };
    let (width, height) = match read_dimensions(bytes, format) {
        Ok(d) => d,
        Err(e) => {
            return Err(DecodeError::InvalidInput(e));
        },
    };
    if width > MAX_DIMENSION || height > MAX_DIMENSION {
        let value = if width > height { width } else { height };
        return Err(DecodeError::LimitExceeded { kind: LimitKind::Dimension, value: value as u64, max: MAX_DIMENSION as u64 });
    }
    assert((width as int) * (height as int) <= 8192 * 8192) by (nonlinear_arith)
        requires width <= 8192, height <= 8192;
    let pixel_count = (width as u64) * (height as u64);
    if pixel_count > limits.max_pixels {
        return Err(DecodeError::LimitExceeded { kind: LimitKind::PixelCount, value: pixel_count, max: limits.max_pixels });
    }
    let d = decode_rgba(bytes, format);
    finish_decode(d)
}

/// The raster a decoder's outcome gives: a decoded image keeps its size and
/// gets its pixels converted to sRGB when it carries an RGB colour profile
/// (left as decoded otherwise); a decoder error becomes an invalid-input
/// error with the same message.
pub fn finish_decode(d: Result<Decoded, String>) -> (r: Result<RasterImage, DecodeError>)
    ensures
        d is Ok <==> r is Ok,
        d matches Err(e) ==> r == Err::<RasterImage, DecodeError>(DecodeError::InvalidInput(e)),
        d matches Ok(dec) ==> r matches Ok(img) && img.width == dec.width && img.height == dec.height
            && img.pixels@.len() == dec.pixels@.len() && (match dec.icc {
            None => img.pixels@ == dec.pixels@,
            Some(icc) => icc_space(icc@) != Some(IccSpace::Rgb) ==> img.pixels@ == dec.pixels@,
        }),
{
    match d {
        Err(e) => Err(DecodeError::InvalidInput(e)),
        Ok(decoded) => {
            let pixels = match &decoded.icc {
                Some(icc) => convert_icc_to_srgb(decoded.pixels, icc.as_slice()),
                None => decoded.pixels,
            };
            Ok(RasterImage { width: decoded.width, height: decoded.height, pixels })
        },
    }
}

} // verus!
