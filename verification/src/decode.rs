//! Decoding an encoded image, blurring it and scaling it to the grid, by
//! the `image` crate.

use crate::image::NUM_BYTES;
use crate::signature::SignatureError;
use crate::weights::NUM_PIXELS;
use vstd::prelude::*;

verus! {

/// The error of the `image` crate.
#[verifier::external_type_specification]
#[verifier::external_body]
pub struct ExImageError(image::ImageError);

/// A decoded image of any size.
#[verifier::external_type_specification]
#[verifier::external_body]
pub struct ExDynamicImage(image::DynamicImage);

/// A decoded image: its size, and three bytes for the red, green and blue of
/// each pixel, row by row.
#[derive(Clone, Debug)]
pub struct Pixels {
    /// The number of pixels in a row.
    pub width: u32,
    /// The number of rows.
    pub height: u32,
    /// The bytes of the pixels.
    pub rgb: Vec<u8>,
}

impl Pixels {
    /// The bytes of a row can be counted, and there are three bytes for each
    /// pixel; bytes beyond those count for nothing.
    pub open spec fn wf(self) -> bool {
        &&& 3 * self.width <= usize::MAX
        &&& self.rgb@.len() >= 3 * (self.width * self.height)
    }
}

/// Calls `image::load_from_memory`, which guesses the format of the encoded
/// image and decodes it. Nothing is claimed of what comes back.
#[verifier::external_body]
fn load(data: &[u8]) -> (r: Result<image::DynamicImage, image::ImageError>) {
    image::load_from_memory(data)
}

/// Calls `DynamicImage::to_rgb8`, which converts a decoded image to eight
/// bits each of red, green and blue, and hands out the size and the bytes of
/// the result. Every `ImageBuffer` is made by `from_raw`, `new`, `default` or
/// `clone`, and none of its methods changes the length of its bytes: so the
/// bytes of a row can be counted in `usize`, and there are at least three
/// bytes for each pixel. Nothing is claimed of what the bytes are.
#[verifier::external_body]
fn to_rgb(decoded: image::DynamicImage) -> (r: (u32, u32, Vec<u8>))
    ensures
        3 * r.0 <= usize::MAX,
        r.2.len() >= 3 * (r.0 * r.1),
{
    let rgb = decoded.to_rgb8();
    (rgb.width(), rgb.height(), rgb.into_raw())
}

/// Calls `image::imageops::resize` with the Gaussian filter, which samples an
/// image to `side` by `side` pixels, on the image that
/// `ImageBuffer::from_raw` makes of the bytes. `from_raw` counts the bytes
/// that it needs in `usize`, three times the width and that times the
/// height, and gives an image exactly when neither product overflows and
/// there are that many bytes; `resize` makes its result with
/// `ImageBuffer::new`, of three bytes for each of its pixels. `new` panics
/// where that many bytes cannot be counted, which a side up to 16384 rules
/// out. Nothing is claimed of what the bytes are.
#[verifier::external_body]
fn sample(width: u32, height: u32, rgb: Vec<u8>, side: u32) -> (r: Option<Vec<u8>>)
    requires
        0 < side <= 0x4000,
    ensures
        r is Some <==> (3 * width <= usize::MAX && rgb.len() >= 3 * (width * height)),
        r is Some ==> r->Some_0.len() == 3 * (side * side),
{
    let source = image::RgbImage::from_raw(width, height, rgb)?;
    Some(
        image::imageops::resize(&source, side, side, image::imageops::FilterType::Gaussian)
            .into_raw(),
    )
}

/// Computes the number of bytes of an image of the given size.
fn byte_count(width: u32, height: u32) -> (n: u128)
    ensures
        n == 3 * (width * height),
{
    assert(0 <= width * height <= 0xFFFF_FFFF * 0xFFFF_FFFF) by (nonlinear_arith)
        requires
            0 <= width <= 0xFFFF_FFFF,
            0 <= height <= 0xFFFF_FFFF,
    ;
    let area: u128 = (width as u128) * (height as u128);
    3 * area
}

impl Pixels {
    /// Tells whether the bytes of a row can be counted and there are three
    /// bytes for each pixel.
    pub fn is_wf(&self) -> (ok: bool)
        ensures
            ok == self.wf(),
    {
        3 * (self.width as u128) <= usize::MAX as u128 && self.rgb.len() as u128 >= byte_count(
            self.width,
            self.height,
        )
    }
}

/// The radius of the blur that a query image gets.
pub const BLUR: u8 = 2;

/// Calls `image::imageops::blur`, which applies a Gaussian blur of the given
/// radius, on the image that `ImageBuffer::from_raw` makes of the bytes; the
/// radius, a whole number, is converted to the type that `blur` takes.
/// `from_raw` gives an image exactly when it can count three bytes for each
/// pixel in `usize` and there are that many, which for an image with pixels
/// is when there are that many; `blur` makes its result with
/// `ImageBuffer::new`, of the size of the image. An image without pixels is
/// left out: `blur` splits the image into rows of `width` pixels. Nothing is
/// claimed of what the bytes are.
#[verifier::external_body]
fn smooth(width: u32, height: u32, rgb: Vec<u8>, radius: u8) -> (r: Option<Vec<u8>>)
    requires
        width > 0,
        height > 0,
    ensures
        r is Some <==> rgb.len() >= 3 * (width * height),
        r is Some ==> r->Some_0.len() == 3 * (width * height),
{
    let source = image::RgbImage::from_raw(width, height, rgb)?;
    Some(image::imageops::blur(&source, radius.into()).into_raw())
}

/// Decodes an encoded image.
///
/// Fails, with [`SignatureError::Decode`], only when the data cannot be
/// decoded.
pub fn decode(data: &[u8]) -> (r: Result<Pixels, SignatureError>)
    ensures
        r is Ok ==> r->Ok_0.wf(),
        r is Err ==> r->Err_0 == SignatureError::Decode,
{
    match load(data) {
        Ok(decoded) => {
            let (width, height, rgb) = to_rgb(decoded);
            Pixels::new(width, height, rgb)
        },
        Err(e) => Err(SignatureError::Decode),
    }
}

/// Blurs a decoded image with the radius `BLUR`. An image without pixels is
/// returned as it is.
///
/// Fails with [`SignatureError::Dimension`] exactly when the bytes of a row
/// cannot be counted or there are fewer than three bytes for each pixel.
pub fn blur(pixels: Pixels) -> (r: Result<Pixels, SignatureError>)
    ensures
        r is Ok <==> pixels.wf(),
        r is Ok ==> r->Ok_0.wf() && r->Ok_0.width == pixels.width && r->Ok_0.height == pixels.height,
        r is Err ==> r->Err_0 == SignatureError::Dimension,
        pixels.wf() && (pixels.width == 0 || pixels.height == 0) ==> r == Ok::<
            Pixels,
            SignatureError,
        >(pixels),
{
    if !pixels.is_wf() {
        return Err(SignatureError::Dimension);
    }
    if pixels.width == 0 || pixels.height == 0 {
        return Ok(pixels);
    }
    let width = pixels.width;
    let height = pixels.height;
    match smooth(width, height, pixels.rgb, BLUR) {
        Some(rgb) => Ok(Pixels { width, height, rgb }),
        None => Err(SignatureError::Dimension),
    }
}

/// Scales a decoded image to the grid.
///
/// Fails with [`SignatureError::Dimension`] exactly when the bytes of a row
/// cannot be counted or there are fewer than three bytes for each pixel.
pub fn resize(pixels: Pixels) -> (r: Result<Vec<u8>, SignatureError>)
    ensures
        r is Ok <==> pixels.wf(),
        r is Ok ==> r->Ok_0.len() == NUM_BYTES,
        r is Err ==> r->Err_0 == SignatureError::Dimension,
{
    match sample(pixels.width, pixels.height, pixels.rgb, NUM_PIXELS as u32) {
        Some(rgb) => Ok(rgb),
        None => Err(SignatureError::Dimension),
    }
}

impl Pixels {
    /// Makes a decoded image of its size and its bytes.
    ///
    /// Fails with [`SignatureError::Dimension`] exactly when the bytes of a
    /// row cannot be counted or there are fewer than three bytes for each
    /// pixel.
    pub fn new(width: u32, height: u32, rgb: Vec<u8>) -> (r: Result<Pixels, SignatureError>)
        ensures
            3 * width <= usize::MAX && rgb.len() >= 3 * (width * height) ==> r == Ok::<
                Pixels,
                SignatureError,
            >((Pixels { width, height, rgb })),
            !(3 * width <= usize::MAX && rgb.len() >= 3 * (width * height)) ==> r == Err::<
                Pixels,
                SignatureError,
            >(SignatureError::Dimension),
    {
        let pixels = Pixels { width, height, rgb };
        if pixels.is_wf() {
            Ok(pixels)
        } else {
            Err(SignatureError::Dimension)
        }
    }
}

} // verus!
