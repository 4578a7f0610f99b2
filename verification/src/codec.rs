use vstd::prelude::*;
use crate::errors::FixError;
use crate::raster::Raster;

verus! {

/// What decoding a PNG byte stream into 8-bit RGBA yields: `None` when the
/// bytes are not a decodable PNG whose pixels come out as 8-bit RGBA,
/// otherwise the width, height and pixel buffer.  Decoding is a pure
/// function of the bytes.
pub uninterp spec fn png_rgba_decode(bytes: Seq<u8>) -> Option<(int, int, Seq<u8>)>;

/// The PNG encoding of an 8-bit RGBA pixel buffer with the given
/// dimensions, or `None` when the encoder rejects the request.  Encoding
/// is a pure function of the dimensions and the bytes.
pub uninterp spec fn png_rgba_encode(width: int, height: int, data: Seq<u8>) -> Option<Seq<u8>>;

/// The decoded triple describes a well-formed raster.
pub open spec fn decoded_shape_ok(width: int, height: int, data: Seq<u8>) -> bool {
    0 < width <= usize::MAX && 0 < height <= usize::MAX && data.len() == 4 * width * height
}

/// The bytes decode to 8-bit RGBA pixels of a well-formed shape.
pub open spec fn decodable(bytes: Seq<u8>) -> bool {
    match png_rgba_decode(bytes) {
        Some((w, h, d)) => decoded_shape_ok(w, h, d),
        None => false,
    }
}

/// `r` is the raster the bytes decode to.
pub open spec fn decodes_to(bytes: Seq<u8>, r: Raster) -> bool {
    &&& r.wf()
    &&& png_rgba_decode(bytes) == Some((r.width as int, r.height as int, r.data@))
}

/// Relies on zune_png's PngDecoder (decode, colorspace, dimensions):
/// decoding a PNG byte stream is a pure function of the bytes; the
/// decoder returns the image's own colorspace and dimensions.
#[verifier::external_body]
fn png_decode_rgba8(bytes: &Vec<u8>) -> (res: Option<(usize, usize, Vec<u8>)>)
    ensures
        match res {
            Some((w, h, d)) => png_rgba_decode(bytes@) == Some((w as int, h as int, d@)),
            None => png_rgba_decode(bytes@) is None,
        },
{
    let cursor = zune_png::zune_core::bytestream::ZCursor::new(bytes.as_slice());
    let mut decoder = zune_png::PngDecoder::new(cursor);
    match decoder.decode() {
        Ok(zune_png::zune_core::result::DecodingResult::U8(data)) => {
            if decoder.colorspace() == Some(zune_png::zune_core::colorspace::ColorSpace::RGBA) {
                match decoder.dimensions() {
                    Some((w, h)) => Some((w, h, data)),
                    None => None,
                }
            } else {
                None
            }
        },
        _ => None,
    }
}

/// Relies on zune_png's PngEncoder: encoding an 8-bit RGBA buffer into
/// PNG bytes is a pure function of the dimensions and the buffer.
#[verifier::external_body]
fn png_encode_rgba8(width: usize, height: usize, data: &Vec<u8>) -> (res: Option<Vec<u8>>)
    requires
        0 < width,
        0 < height,
        data@.len() == 4 * width * height,
        4 * width * height + height <= usize::MAX,
    ensures
        match res {
            Some(out) => png_rgba_encode(width as int, height as int, data@) == Some(out@),
            None => png_rgba_encode(width as int, height as int, data@) is None,
        },
{
    let options = zune_png::zune_core::options::EncoderOptions::new(
        width,
        height,
        zune_png::zune_core::colorspace::ColorSpace::RGBA,
        zune_png::zune_core::bit_depth::BitDepth::Eight,
    );
    let mut encoder = zune_png::PngEncoder::new(data.as_slice(), options);
    let mut out: Vec<u8> = Vec::new();
    match encoder.encode(&mut out) {
        Ok(_) => Some(out),
        Err(_) => None,
    }
}

/// Decode PNG bytes through the external decoder and check the decode
/// collaborator's contract: 8-bit RGBA, positive dimensions, and a buffer
/// of exactly four bytes per pixel.
pub fn decode_raster(bytes: &Vec<u8>) -> (res: Result<Raster, FixError>)
    ensures
        match res {
            Ok(r) => decodable(bytes@) && decodes_to(bytes@, r),
            Err(e) => e == FixError::FormatError && !decodable(bytes@),
        },
{
    match png_decode_rgba8(bytes) {
        Some((w, h, d)) => match Raster::try_new(w, h, d) {
            Ok(r) => Ok(r),
            Err(e) => Err(e),
        },
        None => Err(FixError::FormatError),
    }
}

/// Encode a well-formed raster back into PNG bytes through the external
/// encoder.  The encoder itself can still refuse; that is the only
/// encode failure.
pub fn encode_raster(r: &Raster) -> (res: Result<Vec<u8>, FixError>)
    requires
        r.wf(),
    ensures
        match res {
            Ok(out) => png_rgba_encode(r.width as int, r.height as int, r.data@) == Some(out@),
            Err(e) => e == FixError::EncodeError && (png_rgba_encode(r.width as int,
                r.height as int, r.data@) is None || 4 * r.width * r.height + r.height
                > usize::MAX),
        },
{
    proof {
        vstd::std_specs::vec::axiom_spec_len(&r.data);
    }
    let room = usize::MAX - r.data.len();
    if r.height > room {
        return Err(FixError::EncodeError);
    }
    match png_encode_rgba8(r.width, r.height, &r.data) {
        Some(out) => Ok(out),
        None => Err(FixError::EncodeError),
    }
}

} // verus!
