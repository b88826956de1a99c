//! The frame as an image file.
use vstd::prelude::*;
use png::{BitDepth, ColorType, Encoder, EncodingError};
use crate::error::RenderError;
use crate::scalar::Scalar;
use crate::scene::Scene;

verus! {

/// The pattern of 255, the largest value of a channel in the file.
pub const CHANNEL_MAX_BITS: u64 = 0x406F_E000_0000_0000;

/// Why the `png` crate did not encode an image.
#[verifier::external_type_specification]
#[verifier::external_body]
pub struct ExEncodingError(EncodingError);

/// What the `png` crate makes of an image of the given width and height
/// whose rows, from the top, hold red, green and blue of each pixel as one
/// byte each: the bytes of the PNG file that it writes, or nothing where
/// it fails.
pub uninterp spec fn png_file(width: u32, height: u32, data: Seq<u8>) -> Option<Seq<u8>>;

/// `png::Encoder` on a vector in memory, set to eight-bit RGB:
/// `write_header`, `write_image_data` and `finish`. The image has a pixel,
/// and three bytes for each, which keeps the encoder's own arithmetic on
/// the sizes in range. Writing to memory, the encoder sees nothing but its
/// arguments: what it answers is what `png_file` names, the file where
/// all three succeed and nothing where one fails. Nothing is claimed of
/// when they succeed.
#[verifier::external_body]
fn encode_rgb8(width: u32, height: u32, data: &Vec<u8>) -> (r: Result<Vec<u8>, EncodingError>)
    requires
        width > 0,
        height > 0,
        data@.len() == 3 * (width as nat * height as nat),
    ensures
        match r {
            Ok(bytes) => png_file(width, height, data@) == Some(bytes@),
            Err(_) => png_file(width, height, data@).is_none(),
        },
{
    let mut out: Vec<u8> = Vec::new();
    let mut encoder = Encoder::new(&mut out, width, height);
    encoder.set_color(ColorType::Rgb);
    encoder.set_depth(BitDepth::Eight);
    let mut writer = encoder.write_header()?;
    writer.write_image_data(data)?;
    writer.finish()?;
    Ok(out)
}

/// The frame as bytes: each number times 255, without its fraction, and
/// held to the range of a byte.
pub open spec fn quantized(data: Seq<Scalar>) -> Seq<u8> {
    Seq::new(data.len(), |k: int| data[k].times(Scalar::from_bits(CHANNEL_MAX_BITS)).to_byte())
}

/// Whether a frame of `len` numbers holds three for each pixel of an image
/// of the given width and height, neither of them zero.
pub open spec fn frame_fits(width: u32, height: u32, len: nat) -> bool {
    width > 0 && height > 0 && len == 3 * (width as nat * height as nat)
}

/// What the encoder's answer means for an image of the given size: the
/// file, or the failure of the encoder.
pub fn png_outcome(answer: Result<Vec<u8>, EncodingError>) -> (r: Result<Vec<u8>, RenderError>)
    ensures
        match answer {
            Ok(bytes) => r == Ok::<Vec<u8>, RenderError>(bytes),
            Err(_) => r == Err::<Vec<u8>, RenderError>(RenderError::Encoder),
        },
{
    match answer {
        Ok(bytes) => Ok(bytes),
        Err(_) => Err(RenderError::Encoder),
    }
}

/// The frame as bytes, for the file.
pub fn quantize(data: &Vec<Scalar>) -> (r: Vec<u8>)
    ensures
        r@ == quantized(data@),
{
    let mut out: Vec<u8> = Vec::new();
    let mut k: usize = 0;
    while k < data.len()
        invariant
            0 <= k <= data@.len(),
            out@.len() == k,
            forall|i: int|
                0 <= i < k ==> out@[i] == (#[trigger] data@[i]).times(
                    Scalar::from_bits(CHANNEL_MAX_BITS),
                ).to_byte(),
        decreases data@.len() - k,
    {
        out.push(data[k].times(Scalar::from_bits(CHANNEL_MAX_BITS)).to_byte());
        k = k + 1;
    }
    proof {
        assert(out@ =~= quantized(data@));
    }
    out
}

impl Scene {
    /// The PNG file of a frame that `normalize` has scaled: eight-bit RGB,
    /// of the camera's width and height. The frame is refused where it
    /// does not hold three numbers for each pixel, or there is no pixel;
    /// else the result is what the encoder makes of the bytes of the
    /// frame: the file, or the failure of the encoder.
    pub fn to_png(&self, data: &Vec<Scalar>) -> (r: Result<Vec<u8>, RenderError>)
        ensures
            !frame_fits(self.camera.resolution.0, self.camera.resolution.1, data@.len()) ==> r
                == Err::<Vec<u8>, RenderError>(RenderError::FrameSize),
            frame_fits(self.camera.resolution.0, self.camera.resolution.1, data@.len()) ==> match png_file(
                self.camera.resolution.0,
                self.camera.resolution.1,
                quantized(data@),
            ) {
                Some(file) => r matches Ok(bytes) && bytes@ == file,
                None => r == Err::<Vec<u8>, RenderError>(RenderError::Encoder),
            },
    {
        let w: u32 = self.camera.width();
        let h: u32 = self.camera.height();
        assert(w as nat * h as nat <= 0xFFFF_FFFF * 0xFFFF_FFFF) by (nonlinear_arith)
            requires
                w <= 0xFFFF_FFFF,
                h <= 0xFFFF_FFFF,
        ;
        let wanted: u128 = 3 * (w as u128 * h as u128);
        if w == 0 || h == 0 || data.len() as u128 != wanted {
            return Err(RenderError::FrameSize);
        }
        let bytes: Vec<u8> = quantize(data);
        png_outcome(encode_rgb8(w, h, &bytes))
    }
}

} // verus!
