//! From pixels to signature: the colour planes of an image, their wavelet
//! decomposition and its summary.

use crate::binary32::{add_of, from_u8, minus, mul_of, of_u8, plus, sub_of, times};
use crate::signature::{
    is_signature_of, is_summary_of, summarise, Channel, Signature, SignatureError,
};
use crate::wavelet::{haar2d, haar2d_of};
use crate::weights::NUM_PIXELS2;
use vstd::prelude::*;

verus! {

/// The sample 0.299: the share of red in luma.
pub const LUMA_RED: u32 = 0x3E99_1687;

/// The sample 0.587: the share of green in luma.
pub const LUMA_GREEN: u32 = 0x3F16_45A2;

/// The sample 0.114: the share of blue in luma.
pub const LUMA_BLUE: u32 = 0x3DE9_78D5;

/// The sample 0.596: the share of red in the first chroma.
pub const FIRST_RED: u32 = 0x3F18_9375;

/// The sample 0.275: the share of green that the first chroma loses.
pub const FIRST_GREEN: u32 = 0x3E8C_CCCD;

/// The sample 0.321: the share of blue that the first chroma loses.
pub const FIRST_BLUE: u32 = 0x3EA4_5A1D;

/// The sample 0.212: the share of red in the second chroma.
pub const SECOND_RED: u32 = 0x3E59_1687;

/// The sample 0.523: the share of green that the second chroma loses.
pub const SECOND_GREEN: u32 = 0x3F05_E354;

/// The sample 0.311: the share of blue in the second chroma.
pub const SECOND_BLUE: u32 = 0x3E9F_3B64;

/// The number of bytes of a pixel buffer: three for each grid position.
pub const NUM_BYTES: usize = 49152;

/// The luma of a pixel.
pub open spec fn luma_of(r: u8, g: u8, b: u8) -> u32 {
    add_of(
        add_of(mul_of(LUMA_RED, of_u8(r)), mul_of(LUMA_GREEN, of_u8(g))),
        mul_of(LUMA_BLUE, of_u8(b)),
    )
}

/// The first chroma of a pixel.
pub open spec fn first_chroma_of(r: u8, g: u8, b: u8) -> u32 {
    sub_of(
        sub_of(mul_of(FIRST_RED, of_u8(r)), mul_of(FIRST_GREEN, of_u8(g))),
        mul_of(FIRST_BLUE, of_u8(b)),
    )
}

/// The second chroma of a pixel.
pub open spec fn second_chroma_of(r: u8, g: u8, b: u8) -> u32 {
    add_of(
        sub_of(mul_of(SECOND_RED, of_u8(r)), mul_of(SECOND_GREEN, of_u8(g))),
        mul_of(SECOND_BLUE, of_u8(b)),
    )
}

/// The luma plane of a pixel buffer.
pub open spec fn luma_plane(rgb: Seq<u8>) -> Seq<u32> {
    Seq::new(rgb.len() / 3, |p: int| luma_of(rgb[3 * p], rgb[3 * p + 1], rgb[3 * p + 2]))
}

/// The first chroma plane of a pixel buffer.
pub open spec fn first_chroma_plane(rgb: Seq<u8>) -> Seq<u32> {
    Seq::new(rgb.len() / 3, |p: int| first_chroma_of(rgb[3 * p], rgb[3 * p + 1], rgb[3 * p + 2]))
}

/// The second chroma plane of a pixel buffer.
pub open spec fn second_chroma_plane(rgb: Seq<u8>) -> Seq<u32> {
    Seq::new(rgb.len() / 3, |p: int| second_chroma_of(rgb[3 * p], rgb[3 * p + 1], rgb[3 * p + 2]))
}

/// `s` is the signature of the image with the pixels `rgb`: the summary of
/// the decomposition of each of its three colour planes.
pub open spec fn is_signature_of_pixels(rgb: Seq<u8>, s: crate::signature::SignatureView) -> bool {
    is_signature_of(
        haar2d_of(luma_plane(rgb)),
        haar2d_of(first_chroma_plane(rgb)),
        haar2d_of(second_chroma_plane(rgb)),
        s,
    )
}

/// The three colour planes of an image.
#[derive(Clone, Debug)]
pub struct Image {
    /// Luma.
    pub y: Vec<u32>,
    /// First chroma.
    pub i: Vec<u32>,
    /// Second chroma.
    pub q: Vec<u32>,
}

/// Decomposes a colour plane in place and summarises the result.
///
/// Fails with [`SignatureError::Dimension`], and leaves the plane as it is,
/// exactly when the plane does not have `NUM_PIXELS2` samples.
pub fn process_channel(data: &mut Vec<u32>) -> (r: Result<Channel, SignatureError>)
    ensures
        old(data).len() != NUM_PIXELS2 ==> r == Err::<Channel, SignatureError>(SignatureError::Dimension)
            && final(data)@ == old(data)@,
        old(data).len() == NUM_PIXELS2 ==> r is Ok && final(data)@ == haar2d_of(old(data)@)
            && is_summary_of(final(data)@, r->Ok_0),
{
    if data.len() != NUM_PIXELS2 {
        return Err(SignatureError::Dimension);
    }
    haar2d(data);
    summarise(data)
}

impl Image {
    /// Makes an image with no pixel.
    pub fn new() -> (image: Image)
        ensures
            image.y@.len() == 0,
            image.i@.len() == 0,
            image.q@.len() == 0,
    {
        Image { y: Vec::new(), i: Vec::new(), q: Vec::new() }
    }

    /// Separates a buffer of pixels, three bytes each for red, green and
    /// blue, into its colour planes.
    ///
    /// Fails with [`SignatureError::Dimension`] exactly when the buffer does
    /// not have `NUM_BYTES` bytes.
    pub fn from_pixels(rgb: &Vec<u8>) -> (r: Result<Image, SignatureError>)
        ensures
            rgb.len() != NUM_BYTES ==> r == Err::<Image, SignatureError>(SignatureError::Dimension),
            rgb.len() == NUM_BYTES ==> r is Ok && r->Ok_0.y@ == luma_plane(rgb@) && r->Ok_0.i@
                == first_chroma_plane(rgb@) && r->Ok_0.q@ == second_chroma_plane(rgb@),
    {
        if rgb.len() != NUM_BYTES {
            return Err(SignatureError::Dimension);
        }
        let mut image = Image::new();
        let mut p: usize = 0;
        while p < NUM_PIXELS2
            invariant
                p <= NUM_PIXELS2,
                rgb.len() == NUM_BYTES,
                image.y.len() == p,
                image.i.len() == p,
                image.q.len() == p,
                forall|k: int| 0 <= k < p ==> #[trigger] image.y[k] == luma_plane(rgb@)[k],
                forall|k: int| 0 <= k < p ==> #[trigger] image.i[k] == first_chroma_plane(rgb@)[k],
                forall|k: int| 0 <= k < p ==> #[trigger] image.q[k] == second_chroma_plane(rgb@)[k],
            decreases NUM_PIXELS2 - p,
        {
            let r = from_u8(rgb[3 * p]);
            let g = from_u8(rgb[3 * p + 1]);
            let b = from_u8(rgb[3 * p + 2]);
            image.y.push(plus(plus(times(LUMA_RED, r), times(LUMA_GREEN, g)), times(LUMA_BLUE, b)));
            image.i.push(
                minus(minus(times(FIRST_RED, r), times(FIRST_GREEN, g)), times(FIRST_BLUE, b)),
            );
            image.q.push(
                plus(minus(times(SECOND_RED, r), times(SECOND_GREEN, g)), times(SECOND_BLUE, b)),
            );
            p += 1;
        }
        Ok(image)
    }

    /// Decomposes the three planes and summarises them as a signature.
    ///
    /// Fails with [`SignatureError::Dimension`] exactly when one of the
    /// planes does not have `NUM_PIXELS2` samples.
    pub fn get_sig(self) -> (r: Result<Signature, SignatureError>)
        ensures
            self.y.len() == NUM_PIXELS2 && self.i.len() == NUM_PIXELS2 && self.q.len() == NUM_PIXELS2
                ==> r is Ok && is_signature_of(
                haar2d_of(self.y@),
                haar2d_of(self.i@),
                haar2d_of(self.q@),
                r->Ok_0@,
            ),
            !(self.y.len() == NUM_PIXELS2 && self.i.len() == NUM_PIXELS2 && self.q.len()
                == NUM_PIXELS2) ==> r == Err::<Signature, SignatureError>(SignatureError::Dimension),
    {
        let mut y = self.y;
        let mut i = self.i;
        let mut q = self.q;
        if y.len() != NUM_PIXELS2 || i.len() != NUM_PIXELS2 || q.len() != NUM_PIXELS2 {
            return Err(SignatureError::Dimension);
        }
        haar2d(&mut y);
        haar2d(&mut i);
        haar2d(&mut q);
        Signature::from_planes(&y, &i, &q)
    }
}

/// Computes the signature of an image from its pixels, three bytes each for
/// red, green and blue, row by row.
///
/// Fails with [`SignatureError::Dimension`] exactly when the buffer does not
/// have `NUM_BYTES` bytes.
pub fn extract(rgb: &Vec<u8>) -> (r: Result<Signature, SignatureError>)
    ensures
        rgb.len() != NUM_BYTES ==> r == Err::<Signature, SignatureError>(SignatureError::Dimension),
        rgb.len() == NUM_BYTES ==> r is Ok && is_signature_of_pixels(rgb@, r->Ok_0@),
{
    match Image::from_pixels(rgb) {
        Ok(image) => image.get_sig(),
        Err(e) => Err(SignatureError::Dimension),
    }
}

/// The pixels determine the signature: two signatures of the same pixels are
/// the same.
pub proof fn pixels_determine_signature(
    rgb: Seq<u8>,
    a: crate::signature::SignatureView,
    b: crate::signature::SignatureView,
)
    requires
        is_signature_of_pixels(rgb, a),
        is_signature_of_pixels(rgb, b),
    ensures
        a == b,
{
    crate::signature::signature_is_unique(
        haar2d_of(luma_plane(rgb)),
        haar2d_of(first_chroma_plane(rgb)),
        haar2d_of(second_chroma_plane(rgb)),
        a,
        b,
    );
}

} // verus!
