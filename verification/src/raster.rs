//! Raster pixel buffers encoded as PNG or JPEG and wrapped as `data:` URIs.
//!
//! The compression itself is done by the `image` crate and the payload is
//! base64-encoded by the `base64` crate; both are called through trusted
//! wrappers. The byte length of a buffer is checked here, in verified code,
//! before the codec sees it, since the codec treats a mismatched buffer as a
//! caller error.

use vstd::prelude::*;
use vstd::string::StringExecFns;

verus! {

/// The per-pixel layouts the encoders accept: 8-bit channels, one to four
/// channels per pixel.
#[derive(Clone, Copy, Debug, PartialEq, Eq, Structural)]
pub enum ColorKind {
    L8,
    La8,
    Rgb8,
    Rgba8,
}

impl ColorKind {
    /// Bytes per pixel; each layout is determined by its channel count.
    pub open spec fn spec_channels(self) -> u64 {
        match self {
            ColorKind::L8 => 1,
            ColorKind::La8 => 2,
            ColorKind::Rgb8 => 3,
            ColorKind::Rgba8 => 4,
        }
    }

    pub fn channels(&self) -> (n: u64)
        ensures
            n == self.spec_channels(),
    {
        match self {
            ColorKind::L8 => 1,
            ColorKind::La8 => 2,
            ColorKind::Rgb8 => 3,
            ColorKind::Rgba8 => 4,
        }
    }
}

/// A raster image: declared dimensions, per-pixel layout, and the raw bytes
/// in row-major order. Nothing constrains the byte length here; the encoders
/// check it against the dimensions and reject a mismatch.
#[derive(Clone, Debug)]
pub struct PixelBuffer {
    pub width: u32,
    pub height: u32,
    pub color: ColorKind,
    pub data: Vec<u8>,
}

impl PixelBuffer {
    /// The byte length that the declared dimensions call for.
    pub open spec fn spec_expected_len(self) -> int {
        self.width * self.height * self.color.spec_channels()
    }

    /// True when the backing bytes match the declared dimensions.
    pub open spec fn sized_to_dims(self) -> bool {
        self.data@.len() == self.spec_expected_len()
    }
}

#[verifier::external_type_specification]
#[verifier::external_body]
pub struct ExImageError(image::ImageError);

/// Why an encode failed: the buffer's byte length does not match its
/// declared dimensions, or the codec itself refused the image; a codec
/// failure is surfaced verbatim.
#[derive(Debug)]
pub enum EncodeError {
    SizeMismatch,
    Codec(image::ImageError),
}

/// The base64 alphabet character for a 6-bit value: `A`-`Z`, `a`-`z`,
/// `0`-`9`, `+`, `/`.
pub open spec fn b64_char(v: int) -> char
    recommends
        0 <= v < 64,
{
    if v < 26 {
        ((65 + v) as u32) as char
    } else if v < 52 {
        ((97 + (v - 26)) as u32) as char
    } else if v < 62 {
        ((48 + (v - 52)) as u32) as char
    } else if v == 62 {
        '+'
    } else {
        '/'
    }
}

/// Standard base64 with padding and no line breaks: each 3-byte group
/// becomes 4 alphabet characters; a final group of 1 or 2 bytes is padded
/// with `=` to 4 characters.
pub open spec fn base64_chars(bs: Seq<u8>) -> Seq<char>
    decreases bs.len(),
{
    if bs.len() == 0 {
        Seq::empty()
    } else if bs.len() == 1 {
        let a = bs[0] as int;
        seq![b64_char(a / 4), b64_char((a % 4) * 16), '=', '=']
    } else if bs.len() == 2 {
        let a = bs[0] as int;
        let b = bs[1] as int;
        seq![b64_char(a / 4), b64_char((a % 4) * 16 + b / 16), b64_char((b % 16) * 4), '=']
    } else {
        let a = bs[0] as int;
        let b = bs[1] as int;
        let c = bs[2] as int;
        seq![
            b64_char(a / 4),
            b64_char((a % 4) * 16 + b / 16),
            b64_char((b % 16) * 4 + c / 64),
            b64_char(c % 64),
        ] + base64_chars(bs.skip(3))
    }
}

/// What the PNG codec produces for an 8-bit buffer of the given dimensions
/// and channel count; deterministic in its arguments.
pub uninterp spec fn png_encoding(data: Seq<u8>, width: u32, height: u32, channels: u64) -> Seq<
    u8,
>;

/// What the JPEG codec produces for an 8-bit buffer of the given dimensions,
/// channel count and quality factor; deterministic in its arguments.
pub uninterp spec fn jpeg_encoding(
    data: Seq<u8>,
    width: u32,
    height: u32,
    channels: u64,
    quality: u8,
) -> Seq<u8>;

/// Relies on `base64::encode`: standard alphabet, `=` padding, no line
/// breaks.
#[verifier::external_body]
fn base64_encode(data: &Vec<u8>) -> (r: String)
    ensures
        r@ == base64_chars(data@),
{
    base64::encode(data)
}

/// Relies on `mime::IMAGE_PNG`: the `image/png` media type constant.
#[verifier::external_body]
fn mime_png() -> (r: String)
    ensures
        r@ == "image/png"@,
{
    String::from(mime::IMAGE_PNG.as_ref())
}

/// Relies on `mime::IMAGE_JPEG`: the `image/jpeg` media type constant.
#[verifier::external_body]
fn mime_jpeg() -> (r: String)
    ensures
        r@ == "image/jpeg"@,
{
    String::from(mime::IMAGE_JPEG.as_ref())
}

/// Relies on `image::codecs::png::PngEncoder::write_image`: deterministic
/// PNG compression of an 8-bit buffer. It treats a buffer whose length does
/// not match the dimensions as a caller error, so the precondition rules
/// that out. With the length right, the only failure left is a zero width
/// or height, which the PNG format refuses; everything else is written to
/// an in-memory buffer and succeeds.
#[verifier::external_body]
fn png_encode(data: &Vec<u8>, width: u32, height: u32, color: ColorKind) -> (r: Result<
    Vec<u8>,
    image::ImageError,
>)
    requires
        data@.len() == width * height * color.spec_channels(),
    ensures
        width > 0 && height > 0 ==> r is Ok,
        r is Ok ==> width > 0 && height > 0,
        r is Ok ==> r->Ok_0@ == png_encoding(data@, width, height, color.spec_channels()),
{
    let mut out = Vec::new();
    let enc = image::codecs::png::PngEncoder::new(&mut out);
    let ct = match color {
        ColorKind::L8 => image::ColorType::L8,
        ColorKind::La8 => image::ColorType::La8,
        ColorKind::Rgb8 => image::ColorType::Rgb8,
        ColorKind::Rgba8 => image::ColorType::Rgba8,
    };
    match image::ImageEncoder::write_image(enc, data, width, height, ct) {
        Ok(()) => Ok(out),
        Err(e) => Err(e),
    }
}

/// Relies on `image::codecs::jpeg::JpegEncoder::encode` after
/// `new_with_quality`: deterministic JPEG compression of an 8-bit buffer
/// (the quality factor is clamped by the codec, never rejected). It treats a
/// mismatched buffer length as a caller error, so the precondition rules
/// that out. With the length right, the only failure left is a side of more
/// than 65535 pixels, which no JPEG header can carry; everything else is
/// written to an in-memory buffer and succeeds.
#[verifier::external_body]
fn jpeg_encode(data: &Vec<u8>, width: u32, height: u32, color: ColorKind, quality: u8) -> (r:
    Result<Vec<u8>, image::ImageError>)
    requires
        data@.len() == width * height * color.spec_channels(),
    ensures
        width <= 0xFFFF && height <= 0xFFFF ==> r is Ok,
        r is Ok ==> width <= 0xFFFF && height <= 0xFFFF,
        r is Ok ==> r->Ok_0@ == jpeg_encoding(
            data@,
            width,
            height,
            color.spec_channels(),
            quality,
        ),
{
    let mut out = Vec::new();
    let mut enc = image::codecs::jpeg::JpegEncoder::new_with_quality(&mut out, quality);
    let ct = match color {
        ColorKind::L8 => image::ColorType::L8,
        ColorKind::La8 => image::ColorType::La8,
        ColorKind::Rgb8 => image::ColorType::Rgb8,
        ColorKind::Rgba8 => image::ColorType::Rgba8,
    };
    match enc.encode(data, width, height, ct) {
        Ok(()) => Ok(out),
        Err(e) => Err(e),
    }
}

/// The exact shape of a PNG data URI for already-encoded PNG bytes.
pub open spec fn spec_png_data_uri(png: Seq<u8>) -> Seq<char> {
    "data:image/png;base64,"@ + base64_chars(png)
}

/// The exact shape of a JPEG data URI for already-encoded JPEG bytes.
pub open spec fn spec_jpeg_data_uri(jpg: Seq<u8>) -> Seq<char> {
    "data:image/jpeg;base64,"@ + base64_chars(jpg)
}

/// Wrap already-encoded PNG bytes as a `data:image/png;base64,` URI.
pub fn png_data_uri_from_bytes(png: &Vec<u8>) -> (r: String)
    ensures
        r@ == spec_png_data_uri(png@),
{
    let mut out = String::from_str("data:");
    let m = mime_png();
    out.append(m.as_str());
    out.append(";base64,");
    let b = base64_encode(png);
    out.append(b.as_str());
    proof {
        reveal_strlit("data:");
        reveal_strlit("image/png");
        reveal_strlit(";base64,");
        reveal_strlit("data:image/png;base64,");
        assert(out@ =~= spec_png_data_uri(png@));
    }
    out
}

/// Wrap already-encoded JPEG bytes as a `data:image/jpeg;base64,` URI.
pub fn jpeg_data_uri_from_bytes(jpg: &Vec<u8>) -> (r: String)
    ensures
        r@ == spec_jpeg_data_uri(jpg@),
{
    let mut out = String::from_str("data:");
    let m = mime_jpeg();
    out.append(m.as_str());
    out.append(";base64,");
    let b = base64_encode(jpg);
    out.append(b.as_str());
    proof {
        reveal_strlit("data:");
        reveal_strlit("image/jpeg");
        reveal_strlit(";base64,");
        reveal_strlit("data:image/jpeg;base64,");
        assert(out@ =~= spec_jpeg_data_uri(jpg@));
    }
    out
}

/// Encode the pixel buffer as PNG and wrap the result as a
/// `data:image/png;base64,` URI. A buffer whose byte length does not match
/// its declared dimensions is rejected as `SizeMismatch` without reaching
/// the codec; a well-sized buffer succeeds unless a dimension is zero, the
/// one image the PNG format cannot hold, whose refusal by the codec is
/// surfaced as `Codec`.
pub fn image_to_png_data_uri(img: &PixelBuffer) -> (r: Result<String, EncodeError>)
    ensures
        r is Ok <==> img.sized_to_dims() && img.width > 0 && img.height > 0,
        r is Ok ==> r->Ok_0@ == spec_png_data_uri(
            png_encoding(img.data@, img.width, img.height, img.color.spec_channels()),
        ),
        !img.sized_to_dims() <==> r is Err && r->Err_0 is SizeMismatch,
        img.sized_to_dims() && (img.width == 0 || img.height == 0) <==> r is Err
            && r->Err_0 is Codec,
{
    let ch = img.color.channels();
    proof {
        assert(ch <= 4);
        assert((img.width as int) * (img.height as int) * (ch as int) < 0x80000000000000000000000000000000) by (nonlinear_arith)
            requires
                img.width < 0x100000000,
                img.height < 0x100000000,
                ch <= 4,
        ;
    }
    let expected: u128 = (img.width as u128) * (img.height as u128) * (ch as u128);
    if (img.data.len() as u128) != expected {
        Err(EncodeError::SizeMismatch)
    } else {
        match png_encode(&img.data, img.width, img.height, img.color) {
            Ok(png) => Ok(png_data_uri_from_bytes(&png)),
            Err(e) => Err(EncodeError::Codec(e)),
        }
    }
}

/// Encode the pixel buffer as JPEG at the given quality factor and wrap the
/// result as a `data:image/jpeg;base64,` URI. The quality is handed to the
/// codec unchecked. A buffer whose byte length does not match its declared
/// dimensions is rejected as `SizeMismatch` without reaching the codec; a
/// well-sized buffer succeeds unless a side is more than 65535 pixels,
/// which no JPEG header can carry, whose refusal by the codec is surfaced
/// as `Codec`.
pub fn image_to_jpeg_data_uri(img: &PixelBuffer, quality: u8) -> (r: Result<String, EncodeError>)
    ensures
        r is Ok <==> img.sized_to_dims() && img.width <= 0xFFFF && img.height <= 0xFFFF,
        r is Ok ==> r->Ok_0@ == spec_jpeg_data_uri(
            jpeg_encoding(img.data@, img.width, img.height, img.color.spec_channels(), quality),
        ),
        !img.sized_to_dims() <==> r is Err && r->Err_0 is SizeMismatch,
        img.sized_to_dims() && (img.width > 0xFFFF || img.height > 0xFFFF) <==> r is Err
            && r->Err_0 is Codec,
{
    let ch = img.color.channels();
    proof {
        assert(ch <= 4);
        assert((img.width as int) * (img.height as int) * (ch as int) < 0x80000000000000000000000000000000) by (nonlinear_arith)
            requires
                img.width < 0x100000000,
                img.height < 0x100000000,
                ch <= 4,
        ;
    }
    let expected: u128 = (img.width as u128) * (img.height as u128) * (ch as u128);
    if (img.data.len() as u128) != expected {
        Err(EncodeError::SizeMismatch)
    } else {
        match jpeg_encode(&img.data, img.width, img.height, img.color, quality) {
            Ok(jpg) => Ok(jpeg_data_uri_from_bytes(&jpg)),
            Err(e) => Err(EncodeError::Codec(e)),
        }
    }
}

} // verus!
