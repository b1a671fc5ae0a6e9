//! Signatures: for each colour channel an average and the strongest wavelet
//! coefficients of its decomposed plane.

use crate::binary32::{mul_of, times};
use crate::sample::{is_positive_sample, magnitude, magnitude_of, Coefficient};
use crate::select::{is_leading, leading, leading_is_unique, precedes};
use crate::weights::{CHANNELS, NUM_COEFFS, NUM_PIXELS2};
use vstd::prelude::*;

verus! {

/// The sample 1/256, by which the sample at the origin of a decomposed plane
/// is scaled down on the way to the average.
pub const DOWN: u32 = 0x3B80_0000;

/// The sample 128, by which it is then scaled up.
pub const UP: u32 = 0x4300_0000;

/// Why a signature could not be made.
#[derive(Clone, Copy, Debug, PartialEq, Eq, Structural)]
pub enum SignatureError {
    /// The encoded image cannot be decoded.
    Decode,
    /// A buffer or a plane does not have the size of the grid.
    Dimension,
    /// A list of coefficients has the wrong length, a position outside the
    /// grid or at its origin, or one position twice.
    Coefficients,
}

/// What a signature keeps of one channel.
#[derive(Clone, Debug)]
pub struct Channel {
    /// The sample at the origin of the decomposed plane, rescaled.
    pub average: u32,
    /// The retained coefficients, in no order that a reader may rely on.
    pub coefficients: Vec<Coefficient>,
}

/// The signature of one image.
#[derive(Debug)]
pub struct Signature {
    averages: Vec<u32>,
    coefficients: Vec<Vec<Coefficient>>,
}

/// The mathematical content of a [`Signature`], channel by channel.
pub struct SignatureView {
    pub averages: Seq<u32>,
    pub coefficients: Seq<Seq<Coefficient>>,
}

/// The list has one coefficient for each of the `NUM_COEFFS` places, each at
/// a grid position other than the origin, no two at the same position.
pub open spec fn valid_coefficients(coeffs: Seq<Coefficient>) -> bool {
    &&& coeffs.len() == NUM_COEFFS
    &&& forall|k: int| 0 <= k < coeffs.len() ==> 1 <= (#[trigger] coeffs[k]).position < NUM_PIXELS2
    &&& forall|j: int, k: int|
        0 <= j < k < coeffs.len() ==> (#[trigger] coeffs[j]).position != (#[trigger] coeffs[k]).position
}

impl SignatureView {
    /// Three channels, each with a valid list of coefficients.
    pub open spec fn wf(self) -> bool {
        &&& self.averages.len() == CHANNELS
        &&& self.coefficients.len() == CHANNELS
        &&& forall|c: int| 0 <= c < CHANNELS ==> valid_coefficients(#[trigger] self.coefficients[c])
    }

    /// Channel `c` has a coefficient at position `p` whose sample is positive
    /// (`positive`) or is not (`!positive`).
    pub open spec fn marks(self, c: int, p: int, positive: bool) -> bool {
        exists|k: int|
            0 <= k < self.coefficients[c].len() && (#[trigger] self.coefficients[c][k]).position == p
                && is_positive_sample(self.coefficients[c][k].bits) == positive
    }
}

/// The average of a decomposed plane whose origin sample is `bits`: the
/// sample divided by 256 and multiplied by 128. Dividing by 256 is
/// multiplying by its reciprocal, a power of two: both round the same exact
/// value.
pub open spec fn average_of(bits: u32) -> u32 {
    mul_of(mul_of(bits, DOWN), UP)
}

/// The key of each sample of a plane: its magnitude, negated, so that the
/// strongest sample comes first.
pub open spec fn magnitude_keys(plane: Seq<u32>) -> Seq<i64> {
    Seq::new(plane.len(), |p: int| (-magnitude_of(plane[p])) as i64)
}

/// The positions of a list of coefficients.
pub open spec fn positions_of(coeffs: Seq<Coefficient>) -> Seq<usize> {
    Seq::new(coeffs.len(), |k: int| coeffs[k].position as usize)
}

/// `coeffs` holds the `NUM_COEFFS` samples of `plane` of largest magnitude
/// among all positions but the origin, the strongest first, and of two equal
/// magnitudes the one at the lower position.
pub open spec fn is_selection(plane: Seq<u32>, coeffs: Seq<Coefficient>) -> bool {
    &&& is_leading(magnitude_keys(plane), 1, NUM_COEFFS as int, positions_of(coeffs))
    &&& forall|k: int|
        0 <= k < coeffs.len() ==> (#[trigger] coeffs[k]).bits == plane[coeffs[k].position as int]
}

/// `channel` is what a signature keeps of the decomposed plane `plane`.
pub open spec fn is_summary_of(plane: Seq<u32>, channel: Channel) -> bool {
    &&& channel.average == average_of(plane[0])
    &&& is_selection(plane, channel.coefficients@)
}

/// A selection from a whole plane is a valid list of coefficients: it has
/// exactly `NUM_COEFFS` entries, none at the origin and no two at the same
/// position.
pub proof fn selection_is_valid(plane: Seq<u32>, coeffs: Seq<Coefficient>)
    requires
        plane.len() == NUM_PIXELS2,
        is_selection(plane, coeffs),
    ensures
        valid_coefficients(coeffs),
{
    let keys = magnitude_keys(plane);
    let picks = positions_of(coeffs);
    assert forall|k: int| 0 <= k < coeffs.len() implies 1 <= (#[trigger] coeffs[k]).position
        < NUM_PIXELS2 by {
        assert(1 <= picks[k] < keys.len());
    }
    assert forall|j: int, k: int| 0 <= j < k < coeffs.len() implies (#[trigger] coeffs[j]).position
        != (#[trigger] coeffs[k]).position by {
        assert(precedes(keys, picks[j] as int, picks[k] as int));
    }
}

/// The plane determines the selection: two lists that both hold the strongest
/// samples of the same plane are the same list.
pub proof fn selection_is_unique(plane: Seq<u32>, a: Seq<Coefficient>, b: Seq<Coefficient>)
    requires
        is_selection(plane, a),
        is_selection(plane, b),
    ensures
        a == b,
{
    leading_is_unique(magnitude_keys(plane), 1, NUM_COEFFS as int, positions_of(a), positions_of(b));
    assert forall|k: int| 0 <= k < a.len() implies a[k] == b[k] by {
        assert(positions_of(a)[k] == positions_of(b)[k]);
    }
}

/// Summarises one decomposed plane: its average, and its `NUM_COEFFS`
/// samples of largest magnitude away from the origin.
///
/// Fails with [`SignatureError::Dimension`] exactly when the plane does not
/// have `NUM_PIXELS2` samples.
pub fn summarise(plane: &Vec<u32>) -> (r: Result<Channel, SignatureError>)
    ensures
        plane.len() != NUM_PIXELS2 ==> r == Err::<Channel, SignatureError>(SignatureError::Dimension),
        plane.len() == NUM_PIXELS2 ==> r is Ok && is_summary_of(plane@, r->Ok_0),
{
    if plane.len() != NUM_PIXELS2 {
        return Err(SignatureError::Dimension);
    }
    let mut keys: Vec<i64> = Vec::new();
    let mut p: usize = 0;
    while p < plane.len()
        invariant
            p <= plane.len(),
            keys.len() == p,
            forall|q: int| 0 <= q < p ==> keys[q] == magnitude_keys(plane@)[q],
        decreases plane.len() - p,
    {
        let m = magnitude(plane[p]);
        keys.push(-(m as i64));
        p += 1;
    }
    let picks = leading(&keys, 1, NUM_COEFFS);
    let mut coeffs: Vec<Coefficient> = Vec::new();
    let mut k: usize = 0;
    while k < picks.len()
        invariant
            k <= picks.len(),
            coeffs.len() == k,
            plane.len() == NUM_PIXELS2,
            forall|i: int| 0 <= i < picks.len() ==> (#[trigger] picks[i]) < plane.len(),
            forall|i: int|
                0 <= i < k ==> (#[trigger] coeffs[i]).position == picks[i] && coeffs[i].bits
                    == plane[picks[i] as int],
        decreases picks.len() - k,
    {
        let at = picks[k];
        coeffs.push(Coefficient { bits: plane[at], position: at as u32 });
        k += 1;
    }
    assert(positions_of(coeffs@) =~= picks@);
    Ok(Channel { average: times(times(plane[0], DOWN), UP), coefficients: coeffs })
}

/// The signature made of three channels, in the order luma, first chroma,
/// second chroma.
pub open spec fn signature_of(y: Channel, i: Channel, q: Channel) -> SignatureView {
    SignatureView {
        averages: seq![y.average, i.average, q.average],
        coefficients: seq![y.coefficients@, i.coefficients@, q.coefficients@],
    }
}

/// Tells whether a list of coefficients is valid.
pub fn check_coefficients(coeffs: &Vec<Coefficient>) -> (ok: bool)
    ensures
        ok == valid_coefficients(coeffs@),
{
    if coeffs.len() != NUM_COEFFS {
        return false;
    }
    let mut k: usize = 0;
    while k < coeffs.len()
        invariant
            k <= coeffs.len(),
            coeffs.len() == NUM_COEFFS,
            forall|i: int| 0 <= i < k ==> 1 <= (#[trigger] coeffs[i]).position < NUM_PIXELS2,
            forall|i: int, j: int|
                0 <= i < j < k ==> (#[trigger] coeffs[i]).position != (#[trigger] coeffs[j]).position,
        decreases coeffs.len() - k,
    {
        let at = coeffs[k].position;
        if at < 1 || at >= NUM_PIXELS2 as u32 {
            return false;
        }
        let mut j: usize = 0;
        while j < k
            invariant
                j <= k < coeffs.len(),
                at == coeffs[k as int].position,
                forall|i: int| 0 <= i < j ==> (#[trigger] coeffs[i]).position != at,
            decreases k - j,
        {
            if coeffs[j].position == at {
                return false;
            }
            j += 1;
        }
        k += 1;
    }
    true
}

impl View for Signature {
    type V = SignatureView;

    closed spec fn view(&self) -> SignatureView {
        SignatureView {
            averages: self.averages@,
            coefficients: Seq::new(self.coefficients@.len(), |c: int| self.coefficients@[c]@),
        }
    }
}

impl Signature {
    /// Every signature is well formed.
    #[verifier::type_invariant]
    pub open spec fn inv(&self) -> bool {
        self@.wf()
    }

    /// Makes a signature of three channels.
    ///
    /// Fails with [`SignatureError::Coefficients`] exactly when one of the
    /// three lists of coefficients is not valid.
    pub fn new(y: Channel, i: Channel, q: Channel) -> (r: Result<Signature, SignatureError>)
        ensures
            valid_coefficients(y.coefficients@) && valid_coefficients(i.coefficients@)
                && valid_coefficients(q.coefficients@) ==> r is Ok && r->Ok_0@ == signature_of(
                y,
                i,
                q,
            ) && r->Ok_0@.wf(),
            !(valid_coefficients(y.coefficients@) && valid_coefficients(i.coefficients@)
                && valid_coefficients(q.coefficients@)) ==> r == Err::<Signature, SignatureError>(
                SignatureError::Coefficients,
            ),
    {
        if !check_coefficients(&y.coefficients) || !check_coefficients(&i.coefficients)
            || !check_coefficients(&q.coefficients) {
            return Err(SignatureError::Coefficients);
        }
        let ghost view = signature_of(y, i, q);
        let mut averages: Vec<u32> = Vec::new();
        averages.push(y.average);
        averages.push(i.average);
        averages.push(q.average);
        let mut coefficients: Vec<Vec<Coefficient>> = Vec::new();
        coefficients.push(y.coefficients);
        coefficients.push(i.coefficients);
        coefficients.push(q.coefficients);
        let s = Signature { averages, coefficients };
        assert(s@.averages =~= view.averages);
        assert(s@.coefficients =~= view.coefficients);
        Ok(s)
    }

    /// Summarises the three decomposed planes of an image.
    ///
    /// Fails with [`SignatureError::Dimension`] exactly when one of the planes
    /// does not have `NUM_PIXELS2` samples.
    pub fn from_planes(y: &Vec<u32>, i: &Vec<u32>, q: &Vec<u32>) -> (r: Result<
        Signature,
        SignatureError,
    >)
        ensures
            y.len() == NUM_PIXELS2 && i.len() == NUM_PIXELS2 && q.len() == NUM_PIXELS2 ==> r is Ok
                && is_signature_of(y@, i@, q@, r->Ok_0@),
            !(y.len() == NUM_PIXELS2 && i.len() == NUM_PIXELS2 && q.len() == NUM_PIXELS2) ==> r
                == Err::<Signature, SignatureError>(SignatureError::Dimension),
    {
        let first = match summarise(y) {
            Ok(channel) => channel,
            Err(e) => {
                return Err(SignatureError::Dimension);
            },
        };
        let second = match summarise(i) {
            Ok(channel) => channel,
            Err(e) => {
                return Err(SignatureError::Dimension);
            },
        };
        let third = match summarise(q) {
            Ok(channel) => channel,
            Err(e) => {
                return Err(SignatureError::Dimension);
            },
        };
        proof {
            selection_is_valid(y@, first.coefficients@);
            selection_is_valid(i@, second.coefficients@);
            selection_is_valid(q@, third.coefficients@);
        }
        match Signature::new(first, second, third) {
            Ok(s) => Ok(s),
            Err(e) => Err(SignatureError::Dimension),
        }
    }

    /// The average of channel `c`, or `None` where there is no such channel.
    pub fn average(&self, c: usize) -> (a: Option<u32>)
        ensures
            self@.wf(),
            c < CHANNELS ==> a == Some(self@.averages[c as int]),
            c >= CHANNELS ==> a.is_none(),
    {
        proof {
            use_type_invariant(self);
        }
        if c < CHANNELS {
            Some(self.averages[c])
        } else {
            None
        }
    }

    /// The coefficients of channel `c`, or `None` where there is no such
    /// channel.
    pub fn coefficients(&self, c: usize) -> (list: Option<&Vec<Coefficient>>)
        ensures
            self@.wf(),
            c < CHANNELS ==> list.is_some() && list.unwrap()@ == self@.coefficients[c as int],
            c >= CHANNELS ==> list.is_none(),
    {
        proof {
            use_type_invariant(self);
        }
        if c < CHANNELS {
            Some(&self.coefficients[c])
        } else {
            None
        }
    }

    /// The average of channel `c`.
    pub(crate) fn average_at(&self, c: usize) -> (a: u32)
        requires
            c < CHANNELS,
        ensures
            a == self@.averages[c as int],
    {
        proof {
            use_type_invariant(self);
        }
        self.averages[c]
    }

    /// The `k`th coefficient of channel `c`.
    pub(crate) fn coefficient_at(&self, c: usize, k: usize) -> (v: Coefficient)
        requires
            c < CHANNELS,
            k < NUM_COEFFS,
        ensures
            v == self@.coefficients[c as int][k as int],
    {
        proof {
            use_type_invariant(self);
            assert(valid_coefficients(self@.coefficients[c as int]));
        }
        self.coefficients[c][k]
    }
}

/// `s` is the signature of the image whose decomposed planes are `y`, `i`
/// and `q`: well formed, and for each plane its average and its selection.
pub open spec fn is_signature_of(y: Seq<u32>, i: Seq<u32>, q: Seq<u32>, s: SignatureView) -> bool {
    &&& s.wf()
    &&& s.averages[0] == average_of(y[0])
    &&& s.averages[1] == average_of(i[0])
    &&& s.averages[2] == average_of(q[0])
    &&& is_selection(y, s.coefficients[0])
    &&& is_selection(i, s.coefficients[1])
    &&& is_selection(q, s.coefficients[2])
}

/// The planes determine the signature: two signatures of the same decomposed
/// planes are the same.
pub proof fn signature_is_unique(
    y: Seq<u32>,
    i: Seq<u32>,
    q: Seq<u32>,
    a: SignatureView,
    b: SignatureView,
)
    requires
        is_signature_of(y, i, q, a),
        is_signature_of(y, i, q, b),
    ensures
        a == b,
{
    selection_is_unique(y, a.coefficients[0], b.coefficients[0]);
    selection_is_unique(i, a.coefficients[1], b.coefficients[1]);
    selection_is_unique(q, a.coefficients[2], b.coefficients[2]);
    assert(a.averages =~= b.averages);
    assert(a.coefficients =~= b.coefficients);
}

} // verus!
