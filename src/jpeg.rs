use crate::error::Error;
use crate::render_worker::JpegEncoderType;
use vstd::prelude::*;

verus! {

/// The baseline JPEG stream the built-in encoder produces for an RGB buffer
/// of the given size at the given quality.
pub uninterp spec fn jpeg_encoding(rgb: Seq<u8>, width: u32, height: u32, quality: u8) -> Seq<u8>;

/// Sizes the JPEG frame header can record: one to 65535 pixels a side.
pub open spec fn jpeg_size_ok(width: u32, height: u32) -> bool {
    1 <= width <= 65535 && 1 <= height <= 65535
}

/// Relies on `image::codecs::jpeg::JpegEncoder::{new_with_quality, encode}`
/// writing into a `Vec<u8>`: it panics unless the buffer holds three bytes
/// per pixel, refuses sizes outside 1..=65535 a side, and otherwise cannot
/// fail, since writing to a vector does not.
#[verifier::external_body]
fn encode_rgb_jpeg(rgb: &Vec<u8>, width: u32, height: u32, quality: u8) -> (r: Result<
    Vec<u8>,
    String,
>)
    requires
        rgb@.len() == width as int * height as int * 3,
    ensures
        r is Ok <==> jpeg_size_ok(width, height),
        r is Ok ==> r->Ok_0@ == jpeg_encoding(rgb@, width, height, quality),
{
    let mut out: Vec<u8> = Vec::new();
    let res = image::codecs::jpeg::JpegEncoder::new_with_quality(&mut out, quality).encode(
        rgb.as_slice(),
        width,
        height,
        image::ExtendedColorType::Rgb8,
    );
    match res {
        Ok(()) => Ok(out),
        Err(e) => Err(e.to_string()),
    }
}

/// What an encoder's outcome means for the page: its bytes, or a rendering
/// failure that carries the encoder's message.
pub fn encoded_page(encoded: Result<Vec<u8>, String>) -> (r: Result<Vec<u8>, Error>)
    ensures
        encoded is Ok ==> (r is Ok && r->Ok_0@ == encoded->Ok_0@),
        encoded is Err ==> (r is Err && r->Err_0 is Render && r->Err_0->Render_0@
            == "JPEG encode failed: "@ + encoded->Err_0@),
{
    proof {
        reveal_strlit("JPEG encode failed: ");
    }
    match encoded {
        Ok(bytes) => Ok(bytes),
        Err(e) => {
            let mut msg = String::from_str("JPEG encode failed: ");
            msg.append(e.as_str());
            Err(Error::Render(msg))
        },
    }
}

/// Encodes a rasterized page, `width` by `height` pixels of three bytes
/// each, as JPEG at `quality` with the selected backend. Only the built-in
/// backend is available; a buffer of the wrong length is refused.
pub fn encode_page_jpeg(
    encoder: JpegEncoderType,
    rgb: &Vec<u8>,
    width: u32,
    height: u32,
    quality: u8,
) -> (r: Result<Vec<u8>, Error>)
    ensures
        encoder == JpegEncoderType::Vips ==> (r is Err && r->Err_0 is InvalidArgs),
        encoder == JpegEncoderType::Image && rgb@.len() != width as int * height as int * 3 ==> (
        r is Err && r->Err_0 is Render),
        encoder == JpegEncoderType::Image && rgb@.len() == width as int * height as int * 3 ==> {
            &&& (r is Ok <==> jpeg_size_ok(width, height))
            &&& (r is Ok ==> r->Ok_0@ == jpeg_encoding(rgb@, width, height, quality))
            &&& (r is Err ==> r->Err_0 is Render)
        },
{
    match encoder {
        JpegEncoderType::Vips => {
            return Err(
                Error::InvalidArgs(
                    String::from_str("the vips encoder is not available in this build"),
                ),
            );
        },
        JpegEncoderType::Image => {},
    }
    assert(width as int * height as int <= 0xffff_ffff_ffff_ffff) by (nonlinear_arith)
        requires
            width <= 0xffff_ffff,
            height <= 0xffff_ffff,
    ;
    let area: u128 = width as u128 * height as u128;
    let expected: u128 = area * 3;
    if rgb.len() as u128 != expected {
        return Err(Error::Render(String::from_str("pixel buffer does not match the page size")));
    }
    encoded_page(encode_rgb_jpeg(rgb, width, height, quality))
}

} // verus!
