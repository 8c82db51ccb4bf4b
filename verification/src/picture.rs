//! Still pictures shown as textures: the pixels uploaded for a picture file,
//! raw NV12 or decoded to RGBA.
use vstd::prelude::*;
use crate::player::{raw_nv12_size, MissingSize};

verus! {

/// The resource kind of a file that holds raw NV12 bytes; files of every other
/// kind are decoded as pictures.
pub const RAW_NV12_KIND: i32 = 23;

/// What the image decoder makes of the encoded picture `encoded` read from the
/// file at `path` (whose extension names the format), converted to 8-bit RGBA:
/// its width, its height and its row-major RGBA bytes, or `None` where it
/// refuses the input.
pub uninterp spec fn decoded_rgba8(encoded: Seq<u8>, path: Seq<char>) -> Option<(u32, u32, Seq<u8>)>;

/// Calls `image::ImageFormat::from_path` (the format that the path's extension
/// names, as `image::open` chooses it), `image::load_from_memory_with_format`
/// and `DynamicImage::to_rgba8`.  Trusted: the result is the named decoding of
/// the bytes and path, and its buffer holds at least four bytes per pixel
/// (the image crate's `ImageBuffer` never holds fewer).
#[verifier::external_body]
fn decode_rgba8(encoded: &[u8], path: &str) -> (r: Result<(u32, u32, Vec<u8>), image::ImageError>)
    ensures
        r is Ok <==> decoded_rgba8(encoded@, path@) is Some,
        r matches Ok((w, h, d)) ==> decoded_rgba8(encoded@, path@) == Some((w, h, d@)) && d@.len()
            >= 4 * (w as int) * (h as int),
{
    let format = image::ImageFormat::from_path(path)?;
    let rgba = image::load_from_memory_with_format(encoded, format)?.to_rgba8();
    let (w, h) = rgba.dimensions();
    Ok((w, h, rgba.into_raw()))
}

/// Why a picture resource has no pixels.
pub enum PictureError {
    /// A raw NV12 file was given without its width or height.
    MissingSize(MissingSize),
    /// The file could not be decoded as a picture.
    Decode(image::ImageError),
}

/// The width, height and bytes of a picture resource of `kind` whose file holds
/// `file`: a raw NV12 file as it is, with the size its caller gave (the width
/// is checked first); any other file decoded, in the format that the
/// extension of its `path` names, and converted to RGBA.
pub fn picture_pixels(kind: i32, file: Vec<u8>, path: &str, width: Option<usize>, height: Option<usize>) -> (r:
    Result<(usize, usize, Vec<u8>), PictureError>)
    ensures
        kind == RAW_NV12_KIND && width is None ==> (r matches Err(
            PictureError::MissingSize(MissingSize::Width),
        )),
        kind == RAW_NV12_KIND && width is Some && height is None ==> (r matches Err(
            PictureError::MissingSize(MissingSize::Height),
        )),
        kind == RAW_NV12_KIND ==> (width matches Some(w) ==> (height matches Some(h) ==> (r matches Ok(
            (w2, h2, d),
        ) && w2 == w && h2 == h && d@ == file@))),
        kind != RAW_NV12_KIND && decoded_rgba8(file@, path@) is None ==> (r matches Err(
            PictureError::Decode(_),
        )),
        kind != RAW_NV12_KIND ==> (decoded_rgba8(file@, path@) matches Some((w, h, bytes)) ==> (r matches Ok(
            (w2, h2, d),
        ) && w2 == w && h2 == h && d@ == bytes)),
{
    if kind == RAW_NV12_KIND {
        match raw_nv12_size(width, height) {
            Ok((w, h)) => Ok((w, h, file)),
            Err(missing) => Err(PictureError::MissingSize(missing)),
        }
    } else {
        match decode_rgba8(file.as_slice(), path) {
            Ok((w, h, data)) => Ok((w as usize, h as usize, data)),
            Err(e) => Err(PictureError::Decode(e)),
        }
    }
}

/// Whether the picture's `available` bytes hold a `width` x `height` texture
/// of four bytes per pixel (the copy to the device reads that many).
pub fn rgba_upload_fits(width: usize, height: usize, available: usize) -> (r: bool)
    ensures
        r == (width * height * 4 <= available),
{
    proof {
        assert(width * height <= 0xffff_ffff_ffff_ffff * 0xffff_ffff_ffff_ffff) by (nonlinear_arith)
            requires 0 <= width <= 0xffff_ffff_ffff_ffff, 0 <= height <= 0xffff_ffff_ffff_ffff;
    }
    let n: u128 = (width as u128) * (height as u128);
    n <= (available as u128) / 4
}

/// The bytes copied to the device for a `width` x `height` texture of four
/// bytes per pixel, read from a picture of `available` bytes.
pub fn rgba_upload_len(width: usize, height: usize, available: usize) -> (r: usize)
    requires
        width * height * 4 <= available,
    ensures
        r == width * height * 4,
{
    proof {
        assert(0 <= width * height) by (nonlinear_arith)
            requires 0 <= width, 0 <= height;
    }
    width * height * 4
}

/// Whether the picture's `available` bytes hold both planes of a `width` x
/// `height` NV12 picture (the copies to the device read that many).
pub fn nv12_upload_fits(width: usize, height: usize, available: usize) -> (r: bool)
    ensures
        r == (width * height + width * height / 2 <= available),
{
    proof {
        assert(width * height <= 0xffff_ffff_ffff_ffff * 0xffff_ffff_ffff_ffff) by (nonlinear_arith)
            requires 0 <= width <= 0xffff_ffff_ffff_ffff, 0 <= height <= 0xffff_ffff_ffff_ffff;
    }
    let plane: u128 = (width as u128) * (height as u128);
    if plane > (available as u128) {
        return false;
    }
    plane + plane / 2 <= (available as u128)
}

/// The bytes copied to the device for the two planes of a `width` x `height`
/// NV12 picture of `available` bytes: the luma plane (`width * height` bytes,
/// from the start) and the chroma plane (`width * height / 2` bytes, right
/// after it).
pub fn nv12_upload_len(width: usize, height: usize, available: usize) -> (r: (usize, usize))
    requires
        width * height + width * height / 2 <= available,
    ensures
        r.0 == width * height && r.1 == width * height / 2,
{
    proof {
        assert(0 <= width * height) by (nonlinear_arith)
            requires 0 <= width, 0 <= height;
    }
    let y = width * height;
    (y, y / 2)
}

} // verus!
