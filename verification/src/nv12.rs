//! NV12 pictures: a full-resolution luma plane followed by one interleaved
//! U/V pair for every 2x2 block of pixels, made from RGB pictures.
use vstd::prelude::*;
use crate::color::{chroma_u, chroma_v, luma, spec_chroma_u, spec_chroma_v, spec_luma};

verus! {

/// The outside decoder's error.
#[verifier::external_type_specification]
#[verifier::external_body]
pub struct ExImageError(image::ImageError);

/// What the image decoder makes of the encoded picture `encoded` read from the
/// file at `path` (whose extension names the format), converted to 8-bit RGB:
/// its width, its height and its row-major RGB bytes, or `None` where it
/// refuses the input.
pub uninterp spec fn decoded_rgb8(encoded: Seq<u8>, path: Seq<char>) -> Option<(u32, u32, Seq<u8>)>;

/// Calls `image::ImageFormat::from_path` (the format that the path's extension
/// names, as `image::open` chooses it), `image::load_from_memory_with_format`
/// and `DynamicImage::to_rgb8`.  Trusted: the result is the named decoding of
/// the bytes and path, and its buffer holds at least three bytes per pixel
/// (the image crate's `ImageBuffer` never holds fewer).
#[verifier::external_body]
fn decode_rgb8(encoded: &[u8], path: &str) -> (r: Result<(u32, u32, Vec<u8>), image::ImageError>)
    ensures
        r is Ok <==> decoded_rgb8(encoded@, path@) is Some,
        r matches Ok((w, h, d)) ==> decoded_rgb8(encoded@, path@) == Some((w, h, d@)) && d@.len()
            >= 3 * (w as int) * (h as int),
{
    let format = image::ImageFormat::from_path(path)?;
    let rgb = image::load_from_memory_with_format(encoded, format)?.to_rgb8();
    let (w, h) = rgb.dimensions();
    Ok((w, h, rgb.into_raw()))
}

/// Errors of the NV12 conversions.
pub enum Nv12Error {
    /// The encoded picture could not be decoded.
    Decode(image::ImageError),
    /// The picture's size cannot be laid out as NV12 (see [`nv12_convertible`]).
    UnsupportedSize { width: u32, height: u32 },
}

/// A row-major 8-bit RGB picture.
pub struct RgbImage {
    width: u32,
    height: u32,
    data: Vec<u8>,
}

/// Byte offset of pixel `(x, y)` in a row-major RGB buffer `w` pixels wide.
pub open spec fn rgb_offset(w: int, x: int, y: int) -> int {
    (y * w + x) * 3
}

/// The red, green and blue bytes of pixel `(x, y)` of a row-major RGB buffer `w` pixels wide.
pub open spec fn rgb_px(bytes: Seq<u8>, w: int, x: int, y: int) -> (u8, u8, u8) {
    let i = rgb_offset(w, x, y);
    (bytes[i], bytes[i + 1], bytes[i + 2])
}

/// `data` is the NV12 form of the `w` x `h` RGB picture `bytes`: it has
/// `w * h * 3 / 2` bytes, byte `y * w + x` is the luma of pixel `(x, y)`, and
/// for even `x` and `y` the two bytes at `uv_index(w, h, x, y)` are the U and V
/// chroma of pixel `(x, y)`.
pub open spec fn nv12_of(data: Seq<u8>, w: u32, h: u32, bytes: Seq<u8>) -> bool {
    &&& data.len() == nv12_len(w, h)
    &&& forall|x: int, y: int|
        0 <= x < w && 0 <= y < h ==> {
            let (pr, pg, pb) = #[trigger] rgb_px(bytes, w as int, x, y);
            &&& data[y * w + x] == spec_luma(pr, pg, pb)
            &&& (x % 2 == 0 && y % 2 == 0) ==> {
                &&& data[uv_index(w, h, x, y)] == spec_chroma_u(pr, pg, pb)
                &&& data[uv_index(w, h, x, y) + 1] == spec_chroma_v(pr, pg, pb)
            }
        }
}

impl RgbImage {
    #[verifier::type_invariant]
    spec fn holds_all_pixels(self) -> bool {
        self.data@.len() >= 3 * (self.width as int) * (self.height as int)
    }

    /// Width in pixels.
    pub closed spec fn spec_width(self) -> u32 {
        self.width
    }

    /// Height in pixels.
    pub closed spec fn spec_height(self) -> u32 {
        self.height
    }

    /// The raw bytes.
    pub closed spec fn bytes(self) -> Seq<u8> {
        self.data@
    }

    /// The red, green and blue bytes of pixel `(x, y)`.
    pub open spec fn spec_pixel(self, x: int, y: int) -> (u8, u8, u8) {
        rgb_px(self.bytes(), self.spec_width() as int, x, y)
    }

    /// Wraps a buffer as a picture; `None` where it holds fewer than three bytes per pixel.
    pub fn from_raw(width: u32, height: u32, data: Vec<u8>) -> (r: Option<RgbImage>)
        ensures
            r is Some <==> data@.len() >= 3 * (width as int) * (height as int),
            r matches Some(img) ==> img.spec_width() == width && img.spec_height() == height
                && img.bytes() == data@,
    {
        assert(3 * (width as u128) * (height as u128) <= 3 * 0xffff_ffffu128 * 0xffff_ffffu128)
            by (nonlinear_arith);
        let needed: u128 = 3 * (width as u128) * (height as u128);
        if (data.len() as u128) < needed {
            None
        } else {
            Some(RgbImage { width, height, data })
        }
    }

    /// Width and height in pixels.
    pub fn dimensions(&self) -> (r: (u32, u32))
        ensures
            r == (self.spec_width(), self.spec_height()),
    {
        (self.width, self.height)
    }

    /// The raw bytes.
    pub fn as_raw(&self) -> (r: &Vec<u8>)
        ensures
            r@ == self.bytes(),
    {
        &self.data
    }

    /// The red, green and blue bytes of pixel `(x, y)`.
    pub fn get_pixel(&self, x: u32, y: u32) -> (p: (u8, u8, u8))
        requires
            x < self.spec_width(),
            y < self.spec_height(),
        ensures
            p == self.spec_pixel(x as int, y as int),
    {
        let len = self.data.len();
        proof {
            use_type_invariant(self);
            lemma_pixel_in_bounds(self.width as int, self.height as int, x as int, y as int);
            assert(0 <= (y as int) * (self.width as int)) by (nonlinear_arith)
                requires 0 <= y, 0 <= self.width;
        }
        let i: usize = ((y as usize) * (self.width as usize) + (x as usize)) * 3;
        (self.data[i], self.data[i + 1], self.data[i + 2])
    }
}

proof fn lemma_pixel_in_bounds(w: int, h: int, x: int, y: int)
    requires
        0 <= x < w,
        0 <= y < h,
    ensures
        0 <= y * w + x < w * h,
        rgb_offset(w, x, y) + 2 < 3 * w * h,
{
    assert(y * w + x < w * h) by (nonlinear_arith)
        requires 0 <= x < w, 0 <= y < h;
    assert(0 <= y * w) by (nonlinear_arith)
        requires 0 <= y, 0 <= w;
    assert(3 * w * h == 3 * (w * h)) by (nonlinear_arith);
}

/// Sizes that the NV12 layout of the conversion can hold: the byte count
/// `width * height * 3` fits in `u32`, and both sides are even unless the
/// picture is empty.
pub open spec fn nv12_convertible(width: u32, height: u32) -> bool {
    &&& 3 * (width as int) * (height as int) <= u32::MAX
    &&& (width == 0 || height == 0 || (width % 2 == 0 && height % 2 == 0))
}

/// Byte count of an NV12 buffer: `width * height * 3 / 2`.
pub open spec fn nv12_len(width: u32, height: u32) -> int {
    (width as int) * (height as int) * 3 / 2
}

/// Index of the U byte for the 2x2 block whose top-left pixel is `(x, y)`
/// (`x`, `y` even); the V byte follows it.
pub open spec fn uv_index(width: u32, height: u32, x: int, y: int) -> int {
    (width as int) * (height as int) + (y / 2) * (width as int) + x
}

/// In an NV12 picture made from the RGB picture `bytes`, the luma of pixel
/// `(x, y)` stands at `y * w + x`, and for every even `x` and `y` the U and V
/// chroma of pixel `(x, y)` itself stand at `w * h + (y / 2) * w + x` and the
/// byte after it; the pixel's red, green and blue bytes are read at
/// `(y * w + x) * 3` and the two bytes after it.
pub proof fn lemma_nv12_pixels(data: Seq<u8>, w: u32, h: u32, bytes: Seq<u8>, x: int, y: int)
    requires
        nv12_of(data, w, h, bytes),
        0 <= x < w,
        0 <= y < h,
    ensures
        data[y * w + x] == spec_luma(
            bytes[(y * w + x) * 3],
            bytes[(y * w + x) * 3 + 1],
            bytes[(y * w + x) * 3 + 2],
        ),
        x % 2 == 0 && y % 2 == 0 ==> data[w * h + (y / 2) * w + x] == spec_chroma_u(
            bytes[(y * w + x) * 3],
            bytes[(y * w + x) * 3 + 1],
            bytes[(y * w + x) * 3 + 2],
        ),
        x % 2 == 0 && y % 2 == 0 ==> data[w * h + (y / 2) * w + x + 1] == spec_chroma_v(
            bytes[(y * w + x) * 3],
            bytes[(y * w + x) * 3 + 1],
            bytes[(y * w + x) * 3 + 2],
        ),
{
    let _ = rgb_px(bytes, w as int, x, y);
}

/// For a size that the conversion accepts, its NV12 form is determined: every
/// byte of the buffer is the luma or a chroma byte of one pixel.
pub proof fn lemma_nv12_determined(d1: Seq<u8>, d2: Seq<u8>, w: u32, h: u32, bytes: Seq<u8>)
    requires
        nv12_convertible(w, h),
        nv12_of(d1, w, h, bytes),
        nv12_of(d2, w, h, bytes),
    ensures
        d1 == d2,
{
    let wi = w as int;
    let hi = h as int;
    if wi == 0 || hi == 0 {
        assert(nv12_len(w, h) == 0) by (nonlinear_arith)
            requires wi == 0 || hi == 0, nv12_len(w, h) == wi * hi * 3 / 2;
        assert(d1 =~= d2);
    } else {
        assert(wi % 2 == 0 && hi % 2 == 0);
        assert forall|i: int| 0 <= i < d1.len() implies d1[i] == d2[i] by {
            if i < wi * hi {
                let x = i % wi;
                let y = i / wi;
                assert(0 <= x < wi && 0 <= y < hi && y * wi + x == i) by (nonlinear_arith)
                    requires x == i % wi, y == i / wi, 0 <= i < wi * hi, wi > 0;
                let _ = rgb_px(bytes, wi, x, y);
            } else {
                let j = i - wi * hi;
                let rr = j / wi;
                let col = j % wi;
                let cc = col / 2;
                let x = 2 * cc;
                let y = 2 * rr;
                assert(d1.len() == wi * hi * 3 / 2);
                assert(0 <= j < wi * (hi / 2)) by (nonlinear_arith)
                    requires j == i - wi * hi, wi * hi <= i < wi * hi * 3 / 2, hi % 2 == 0,
                        wi > 0;
                assert(0 <= rr < hi / 2 && 0 <= col < wi && rr * wi + col == j) by (nonlinear_arith)
                    requires rr == j / wi, col == j % wi, 0 <= j < wi * (hi / 2), wi > 0;
                assert(0 <= x < wi && 0 <= y < hi);
                assert(x % 2 == 0 && y % 2 == 0);
                assert(uv_index(w, h, x, y) == wi * hi + rr * wi + x);
                let _ = rgb_px(bytes, wi, x, y);
                if col % 2 == 0 {
                    assert(x == col);
                    assert(uv_index(w, h, x, y) == i);
                } else {
                    assert(x + 1 == col);
                    assert(uv_index(w, h, x, y) + 1 == i);
                }
            }
        }
        assert(d1 =~= d2);
    }
}

/// An NV12 picture.
pub struct NV12Buffer {
    pub width: u32,
    pub height: u32,
    /// Y plane followed by the interleaved UV plane.
    pub data: Vec<u8>,
}

impl NV12Buffer {
    /// A black-level buffer (all bytes zero) of `width * height * 3 / 2` bytes.
    pub fn new(width: u32, height: u32) -> (r: Self)
        requires
            3 * (width as int) * (height as int) <= u32::MAX,
        ensures
            r.width == width,
            r.height == height,
            r.data@.len() == nv12_len(width, height),
            forall|i: int| 0 <= i < r.data@.len() ==> r.data@[i] == 0u8,
    {
        assert((width as int) * (height as int) * 3 == 3 * (width as int) * (height as int))
            by (nonlinear_arith);
        let size = (width * height * 3 / 2) as usize;
        let data = vec![0u8; size];
        NV12Buffer { width, height, data }
    }

    /// Converts an RGB picture: every pixel's luma goes to the Y plane, and the
    /// chroma of the top-left pixel of every 2x2 block goes to the UV plane.
    pub fn from_rgb(rgb: &RgbImage) -> (r: Result<Self, Nv12Error>)
        requires
            nv12_convertible(rgb.spec_width(), rgb.spec_height()),
        ensures
            r matches Ok(nv) && nv.width == rgb.spec_width() && nv.height == rgb.spec_height()
                && nv12_of(nv.data@, nv.width, nv.height, rgb.bytes()),
    {
        let (width, height) = rgb.dimensions();
        let w = width as usize;
        let h = height as usize;
        let ghost wi = w as int;
        let ghost hi = h as int;
        proof {
            assert(3 * wi * hi == 3 * (wi * hi)) by (nonlinear_arith);
            assert(wi * hi >= 0) by (nonlinear_arith)
                requires wi >= 0, hi >= 0;
        }
        let mut data: Vec<u8> = Vec::new();
        let mut y: usize = 0;
        while y < h
            invariant
                w == width,
                h == height,
                width == rgb.spec_width(),
                height == rgb.spec_height(),
                wi == w,
                hi == h,
                3 * wi * hi <= u32::MAX,
                y <= h,
                data@.len() == y * wi,
                forall|yy: int, xx: int|
                    0 <= yy < y && 0 <= xx < wi ==> {
                        let (pr, pg, pb) = #[trigger] rgb.spec_pixel(xx, yy);
                        data@[yy * wi + xx] == spec_luma(pr, pg, pb)
                    },
            decreases h - y,
        {
            let mut x: usize = 0;
            while x < w
                invariant
                    w == width,
                    h == height,
                    width == rgb.spec_width(),
                    height == rgb.spec_height(),
                    wi == w,
                    hi == h,
                    3 * wi * hi <= u32::MAX,
                    y < h,
                    x <= w,
                    data@.len() == y * wi + x,
                    forall|yy: int, xx: int|
                        0 <= yy < y && 0 <= xx < wi ==> {
                            let (pr, pg, pb) = #[trigger] rgb.spec_pixel(xx, yy);
                            data@[yy * wi + xx] == spec_luma(pr, pg, pb)
                        },
                    forall|xx: int|
                        0 <= xx < x ==> {
                            let (pr, pg, pb) = #[trigger] rgb.spec_pixel(xx, y as int);
                            data@[y * wi + xx] == spec_luma(pr, pg, pb)
                        },
                decreases w - x,
            {
                let (pr, pg, pb) = rgb.get_pixel(x as u32, y as u32);
                let lv = luma(pr, pg, pb);
                proof {
                    lemma_pixel_in_bounds(wi, hi, x as int, y as int);
                }
                data.push(lv);
                proof {
                    assert forall|yy: int, xx: int|
                        0 <= yy < y && 0 <= xx < wi implies {
                            let (pr, pg, pb) = #[trigger] rgb.spec_pixel(xx, yy);
                            data@[yy * wi + xx] == spec_luma(pr, pg, pb)
                        } by {
                        lemma_row_before(wi, yy, xx, y as int);
                    }
                }
                x = x + 1;
            }
            proof {
                assert((y + 1) * wi == y * wi + wi) by (nonlinear_arith);
                assert forall|yy: int, xx: int|
                    0 <= yy < y + 1 && 0 <= xx < wi implies {
                        let (pr, pg, pb) = #[trigger] rgb.spec_pixel(xx, yy);
                        data@[yy * wi + xx] == spec_luma(pr, pg, pb)
                    } by {
                    if yy == y {
                    } else {
                    }
                }
            }
            y = y + 1;
        }
        let ghost luma_len = data@.len();
        let ghost plane = wi * hi;
        proof {
            assert(luma_len == plane) by (nonlinear_arith)
                requires luma_len == y * wi, y == hi, plane == wi * hi;
        }
        let half_w = w / 2;
        let half_h = h / 2;
        let mut row: usize = 0;
        while row < half_h
            invariant
                w == width,
                h == height,
                width == rgb.spec_width(),
                height == rgb.spec_height(),
                wi == w,
                hi == h,
                plane == wi * hi,
                3 * wi * hi <= u32::MAX,
                half_w == w / 2,
                half_h == h / 2,
                wi == 0 || hi == 0 || (wi % 2 == 0 && hi % 2 == 0),
                row <= half_h,
                data@.len() == plane + row * wi,
                forall|yy: int, xx: int|
                    0 <= yy < hi && 0 <= xx < wi ==> {
                        let (pr, pg, pb) = #[trigger] rgb.spec_pixel(xx, yy);
                        data@[yy * wi + xx] == spec_luma(pr, pg, pb)
                    },
                forall|rr: int, cc: int|
                    0 <= rr < row && 0 <= cc < half_w ==> {
                        let (pr, pg, pb) = #[trigger] rgb.spec_pixel(2 * cc, 2 * rr);
                        &&& data@[plane + rr * wi + 2 * cc] == spec_chroma_u(pr, pg, pb)
                        &&& data@[plane + rr * wi + 2 * cc + 1] == spec_chroma_v(pr, pg, pb)
                    },
            decreases half_h - row,
        {
            let mut col: usize = 0;
            while col < half_w
                invariant
                    w == width,
                    h == height,
                    width == rgb.spec_width(),
                    height == rgb.spec_height(),
                    wi == w,
                    hi == h,
                    plane == wi * hi,
                    3 * wi * hi <= u32::MAX,
                    half_w == w / 2,
                    half_h == h / 2,
                    wi == 0 || hi == 0 || (wi % 2 == 0 && hi % 2 == 0),
                    row < half_h,
                    col <= half_w,
                    data@.len() == plane + row * wi + 2 * col,
                    forall|yy: int, xx: int|
                        0 <= yy < hi && 0 <= xx < wi ==> {
                            let (pr, pg, pb) = #[trigger] rgb.spec_pixel(xx, yy);
                            data@[yy * wi + xx] == spec_luma(pr, pg, pb)
                        },
                    forall|rr: int, cc: int|
                        0 <= rr < row && 0 <= cc < half_w ==> {
                            let (pr, pg, pb) = #[trigger] rgb.spec_pixel(2 * cc, 2 * rr);
                            &&& data@[plane + rr * wi + 2 * cc] == spec_chroma_u(pr, pg, pb)
                            &&& data@[plane + rr * wi + 2 * cc + 1] == spec_chroma_v(pr, pg, pb)
                        },
                    forall|cc: int|
                        0 <= cc < col ==> {
                            let (pr, pg, pb) = #[trigger] rgb.spec_pixel(2 * cc, 2 * row);
                            &&& data@[plane + row * wi + 2 * cc] == spec_chroma_u(pr, pg, pb)
                            &&& data@[plane + row * wi + 2 * cc + 1] == spec_chroma_v(pr, pg, pb)
                        },
                decreases half_w - col,
            {
                let (pr, pg, pb) = rgb.get_pixel((2 * col) as u32, (2 * row) as u32);
                let uv = chroma_u(pr, pg, pb);
                let vv = chroma_v(pr, pg, pb);
                proof {
                    lemma_uv_room(wi, hi, row as int, col as int);
                }
                data.push(uv);
                data.push(vv);
                proof {
                    assert forall|rr: int, cc: int|
                        0 <= rr < row && 0 <= cc < half_w implies {
                            let (pr, pg, pb) = #[trigger] rgb.spec_pixel(2 * cc, 2 * rr);
                            &&& data@[plane + rr * wi + 2 * cc] == spec_chroma_u(pr, pg, pb)
                            &&& data@[plane + rr * wi + 2 * cc + 1] == spec_chroma_v(pr, pg, pb)
                        } by {
                        lemma_uv_row_before(wi, rr, cc, row as int);
                    }
                    assert forall|yy: int, xx: int|
                        0 <= yy < hi && 0 <= xx < wi implies {
                            let (pr, pg, pb) = #[trigger] rgb.spec_pixel(xx, yy);
                            data@[yy * wi + xx] == spec_luma(pr, pg, pb)
                        } by {
                        lemma_pixel_in_bounds(wi, hi, xx, yy);
                    }
                }
                col = col + 1;
            }
            proof {
                assert(2 * half_w == wi);
                assert((row + 1) * wi == row * wi + wi) by (nonlinear_arith);
            }
            row = row + 1;
        }
        proof {
            assert(data@.len() == nv12_len(width, height)) by (nonlinear_arith)
                requires
                    data@.len() == plane + half_h * wi,
                    plane == wi * hi,
                    half_h == hi / 2,
                    wi == width,
                    hi == height,
                    wi == 0 || hi == 0 || (wi % 2 == 0 && hi % 2 == 0),
                    nv12_len(width, height) == wi * hi * 3 / 2;
            assert forall|x: int, y: int| 0 <= x < width && 0 <= y < height implies {
                let (pr, pg, pb) = #[trigger] rgb_px(rgb.bytes(), width as int, x, y);
                &&& data@[y * width + x] == spec_luma(pr, pg, pb)
                &&& (x % 2 == 0 && y % 2 == 0) ==> {
                    &&& data@[uv_index(width, height, x, y)] == spec_chroma_u(pr, pg, pb)
                    &&& data@[uv_index(width, height, x, y) + 1] == spec_chroma_v(pr, pg, pb)
                }
            } by {
                assert(rgb.spec_pixel(x, y) == rgb_px(rgb.bytes(), width as int, x, y));
                if x % 2 == 0 && y % 2 == 0 {
                    let cc = x / 2;
                    let rr = y / 2;
                    assert(2 * cc == x);
                    assert(2 * rr == y);
                    assert(rgb.spec_pixel(2 * cc, 2 * rr) == rgb.spec_pixel(x, y));
                    assert(uv_index(width, height, x, y) == plane + rr * wi + 2 * cc);
                }
            }
            assert(nv12_of(data@, width, height, rgb.bytes()));
        }
        Ok(NV12Buffer { width, height, data })
    }

    /// Converts a decoded `w` x `h` RGB picture, held in `data`, to NV12.
    fn from_decoded(w: u32, h: u32, data: Vec<u8>) -> (r: Result<Self, Nv12Error>)
        requires
            nv12_convertible(w, h),
            data@.len() >= 3 * (w as int) * (h as int),
        ensures
            r matches Ok(nv) && nv.width == w && nv.height == h && nv12_of(nv.data@, w, h, data@),
    {
        match RgbImage::from_raw(w, h, data) {
            Some(rgb) => Self::from_rgb(&rgb),
            None => {
                assert(false);
                Err(Nv12Error::UnsupportedSize { width: w, height: h })
            },
        }
    }

    /// Decodes an encoded picture read from the file at `path` (its format
    /// named by the path's extension), converts it to 8-bit RGB and then to
    /// NV12; a decoding error is handed on.
    pub fn from_image(encoded: &[u8], path: &str) -> (r: Result<Self, Nv12Error>)
        requires
            decoded_rgb8(encoded@, path@) matches Some((w, h, _)) ==> nv12_convertible(w, h),
        ensures
            r is Ok <==> decoded_rgb8(encoded@, path@) is Some,
            decoded_rgb8(encoded@, path@) is None ==> r matches Err(Nv12Error::Decode(_)),
            r matches Ok(nv) ==> decoded_rgb8(encoded@, path@) matches Some((w, h, bytes)) && nv.width
                == w && nv.height == h && nv12_of(nv.data@, w, h, bytes),
    {
        match decode_rgb8(encoded, path) {
            Ok((w, h, data)) => Self::from_decoded(w, h, data),
            Err(e) => Err(Nv12Error::Decode(e)),
        }
    }

    /// Like [`NV12Buffer::from_image`], but first checks that the decoded size
    /// can be laid out as NV12, and answers `UnsupportedSize` where it cannot.
    /// (The size of a decoded picture is known only by decoding it, so the
    /// picture is decoded once for the check and once by `from_image`.)
    pub fn from_image_checked(encoded: &[u8], path: &str) -> (r: Result<Self, Nv12Error>)
        ensures
            decoded_rgb8(encoded@, path@) is None ==> r matches Err(Nv12Error::Decode(_)),
            decoded_rgb8(encoded@, path@) matches Some((w, h, bytes)) ==> if nv12_convertible(w, h) {
                r matches Ok(nv) && nv.width == w && nv.height == h && nv12_of(
                    nv.data@,
                    w,
                    h,
                    bytes,
                )
            } else {
                r matches Err(Nv12Error::UnsupportedSize { width, height }) && width == w
                    && height == h
            },
    {
        match decode_rgb8(encoded, path) {
            Ok((w, h, _)) => {
                assert(3 * (w as u128) * (h as u128) <= 3 * 0xffff_ffffu128 * 0xffff_ffffu128)
                    by (nonlinear_arith);
                let fits = 3 * (w as u128) * (h as u128) <= 0xffff_ffffu128;
                if fits && (w == 0 || h == 0 || (w % 2 == 0 && h % 2 == 0)) {
                    Self::from_image(encoded, path)
                } else {
                    Err(Nv12Error::UnsupportedSize { width: w, height: h })
                }
            },
            Err(e) => Err(Nv12Error::Decode(e)),
        }
    }
}

proof fn lemma_row_before(w: int, yy: int, xx: int, y: int)
    requires
        0 <= yy < y,
        0 <= xx < w,
    ensures
        yy * w + xx < y * w,
{
    assert(yy * w + xx < y * w) by (nonlinear_arith)
        requires 0 <= yy < y, 0 <= xx < w;
}

proof fn lemma_uv_row_before(w: int, rr: int, cc: int, row: int)
    requires
        0 <= rr < row,
        0 <= cc < w / 2,
        w >= 0,
    ensures
        rr * w + 2 * cc + 1 < row * w,
{
    assert(rr * w + 2 * cc + 1 < row * w) by (nonlinear_arith)
        requires 0 <= rr < row, 0 <= cc < w / 2, w >= 0;
}

proof fn lemma_uv_room(w: int, h: int, row: int, col: int)
    requires
        0 <= row < h / 2,
        0 <= col < w / 2,
        3 * w * h <= u32::MAX,
    ensures
        2 * col < w,
        2 * row < h,
        w * h + row * w + 2 * col + 2 <= u32::MAX,
{
    assert(w * h + row * w + 2 * col + 2 <= u32::MAX) by (nonlinear_arith)
        requires 0 <= row < h / 2, 0 <= col < w / 2, 3 * w * h <= u32::MAX;
}

} // verus!
