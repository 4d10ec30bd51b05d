//! The group: the points of the curve secp256k1.
//!
//! The group is cyclic of prime order, so every element is a multiple
//! `k * G` of the generator `G` for exactly one `k` in
//! `[0, group_order())`. That `k` is the view of a [`GroupElement`], and the
//! contracts of the group operations are stated over it. The curve
//! arithmetic itself is done by `eccoxide`, on affine coordinates that a
//! [`GroupElement`] holds as bytes; the point at infinity, which has no
//! affine coordinates, is handled here.

use crate::bytes::{all_zero, append, read32, same_bytes, zeros};
use crate::hash::{blake2b_256, Blake2b256};
use crate::scalar::{be_value, group_order, Scalar};
use eccoxide::curve::sec2::p256k1;
use vstd::prelude::*;

verus! {

/// Width of an encoded group element.
pub const GROUP_ELEMENT_BYTES: usize = 65;

/// Width of a coordinate.
pub const COORDINATE_BYTES: usize = 32;

/// The affine coordinates `(x, y)` of `k * G`, each as 32 big-endian bytes,
/// for `k` in `[1, group_order())`: what eccoxide's multiplication of the
/// generator returns for the scalar `k`.
pub uninterp spec fn multiple_affine(k: int) -> (Seq<u8>, Seq<u8>);

/// The discrete logarithm of a curve point: the `k` in
/// `[1, group_order())` for which `k * G` has the coordinates `(x, y)`.
pub uninterp spec fn affine_dlog(x: Seq<u8>, y: Seq<u8>) -> int;

/// `(x, y)` are the coordinates of a point of the curve.
pub open spec fn is_curve_point(x: Seq<u8>, y: Seq<u8>) -> bool {
    &&& 1 <= affine_dlog(x, y) < group_order()
    &&& multiple_affine(affine_dlog(x, y)) == (x, y)
}

/// The second coordinate, as 32 big-endian bytes, of the curve point with
/// the first coordinate `x` and an even second coordinate: none where `x`
/// is no field element or no point of the curve has it.
pub uninterp spec fn decompressed(x: Seq<u8>) -> Option<Seq<u8>>;

/// The first coordinate that the `c`-th attempt to hash `input` to a point
/// tries: the digest of the byte `c` and the input.
pub open spec fn hash_candidate(input: Seq<u8>, c: int) -> Seq<u8> {
    blake2b_256(seq![c as u8] + input)
}

/// The element that `input` is hashed to where the attempts before the
/// `c`-th found none: the point of the first candidate, from the `c`-th
/// on, that is the coordinate of one, and the generator where none of the
/// 256 is.
pub open spec fn hash_point_from(input: Seq<u8>, c: int) -> int
    decreases 256 - c,
{
    if c >= 256 {
        1
    } else {
        let x = hash_candidate(input, c);
        match decompressed(x) {
            Some(y) => affine_dlog(x, y),
            None => hash_point_from(input, c + 1),
        }
    }
}

/// The element that `input` is hashed to, as a multiple of the generator.
pub open spec fn hash_point(input: Seq<u8>) -> int {
    hash_point_from(input, 0)
}

/// `r` holds what the curve arithmetic returns for `k * G`: nothing where
/// that is the point at infinity, else its coordinates.
pub open spec fn is_multiple(r: Option<([u8; 32], [u8; 32])>, k: int) -> bool {
    match r {
        None => k % group_order() == 0,
        Some((x, y)) => {
            &&& k % group_order() != 0
            &&& multiple_affine(k % group_order()) == (x@, y@)
            &&& affine_dlog(x@, y@) == k % group_order()
        },
    }
}

/// An element of the group.
#[derive(Clone, Copy, Debug, PartialEq, Eq, Hash)]
pub struct GroupElement {
    infinity: bool,
    x: [u8; 32],
    y: [u8; 32],
}

impl View for GroupElement {
    type V = int;

    /// The multiple of the generator that the element is.
    closed spec fn view(&self) -> int {
        if self.infinity {
            0
        } else {
            affine_dlog(self.x@, self.y@)
        }
    }
}

impl GroupElement {
    /// The element is the point at infinity, held with zeroed coordinates,
    /// or a point of the curve.
    #[verifier::type_invariant]
    pub closed spec fn wf(&self) -> bool {
        if self.infinity {
            self.x@ == zeros(32) && self.y@ == zeros(32)
        } else {
            is_curve_point(self.x@, self.y@)
        }
    }

    /// The 65 bytes that encode the element: zeros for the point at
    /// infinity, else the byte 4 and the two coordinates.
    pub closed spec fn encoding(&self) -> Seq<u8> {
        if self.infinity {
            zeros(65)
        } else {
            seq![4u8] + self.x@ + self.y@
        }
    }

    /// The coordinate that an element shares with its inverse: none for the
    /// point at infinity.
    pub closed spec fn coordinate(&self) -> Option<Seq<u8>> {
        if self.infinity {
            None
        } else {
            Some(self.x@)
        }
    }

    /// The element that is `k * G`, for `k` in `[0, group_order())`.
    pub closed spec fn element(k: int) -> GroupElement {
        choose|p: GroupElement| p.wf() && p@ == k
    }

    /// The encoding of `k * G`.
    pub open spec fn encoding_of(k: int) -> Seq<u8> {
        GroupElement::element(k).encoding()
    }

    /// An element is the one that its view names.
    pub proof fn lemma_element(&self)
        requires
            self.wf(),
        ensures
            GroupElement::element(self@) == *self,
            GroupElement::encoding_of(self@) == self.encoding(),
    {
        let p = GroupElement::element(self@);
        self.lemma_view_injective(&p);
    }

    /// The view of an element lies in `[0, group_order())`, and its encoding
    /// is 65 bytes long.
    pub proof fn lemma_view(&self)
        requires
            self.wf(),
        ensures
            0 <= self@ < group_order(),
            self.encoding().len() == 65,
            self.coordinate() is None <==> self@ == 0,
            self.coordinate() is Some ==> self.coordinate()->0.len() == 32,
    {
    }

    /// Two elements are the same multiple of the generator exactly when
    /// they are equal.
    pub proof fn lemma_view_injective(&self, other: &GroupElement)
        requires
            self.wf(),
            other.wf(),
        ensures
            (self@ == other@) <==> (*self == *other),
    {
        if self@ == other@ {
            assert(self.x == other.x);
            assert(self.y == other.y);
        }
    }

    /// The encoding of an element is accepted by the decoder.
    pub proof fn lemma_is_encoding(&self)
        requires
            self.wf(),
        ensures
            GroupElement::is_encoding(self.encoding()),
    {
        let e = self.encoding();
        if !self.infinity {
            assert(self.x@ =~= e.subrange(1, 33));
            assert(self.y@ =~= e.subrange(33, 65));
        }
    }

    /// Two elements with the same encoding are equal.
    pub proof fn lemma_encoding_injective(&self, other: &GroupElement)
        requires
            self.wf(),
            other.wf(),
            self.encoding() == other.encoding(),
        ensures
            *self == *other,
    {
        let e = self.encoding();
        if self.infinity {
            assert(e[0] == 0);
        } else {
            assert(e[0] == 4);
            assert(other.x@ =~= e.subrange(1, 33));
            assert(other.y@ =~= e.subrange(33, 65));
        }
        assert(self.x == other.x);
        assert(self.y == other.y);
    }

    /// Holds what the curve arithmetic returned for `k * G`.
    fn from_affine(r: Option<([u8; 32], [u8; 32])>, Ghost(k): Ghost<int>) -> (p: GroupElement)
        requires
            is_multiple(r, k),
        ensures
            p.wf(),
            p@ == k % group_order(),
    {
        match r {
            None => GroupElement::zero(),
            Some((x, y)) => GroupElement { infinity: false, x, y },
        }
    }

    /// The identity of the group: the point at infinity.
    pub fn zero() -> (p: GroupElement)
        ensures
            p.wf(),
            p@ == 0,
    {
        let x = [0u8; 32];
        let y = [0u8; 32];
        assert(y@ =~= zeros(32));
        GroupElement { infinity: true, x, y }
    }

    /// The generator `G`.
    pub fn generator() -> (p: GroupElement)
        ensures
            p.wf(),
            p@ == 1,
    {
        let (x, y) = curve_generator();
        GroupElement { infinity: false, x, y }
    }

    /// The generator added to itself `s` times: `s * G`.
    pub fn mul_base(s: &Scalar) -> (p: GroupElement)
        ensures
            p.wf(),
            p@ == s@,
    {
        proof {
            use_type_invariant(s);
            s.lemma_view();
            vstd::arithmetic::div_mod::lemma_small_mod(s@ as nat, group_order() as nat);
        }
        let r = curve_mul_base(&s.to_bytes());
        GroupElement::from_affine(r, Ghost(s@))
    }

    /// Hashes `input` to an element of the group whose discrete logarithm
    /// nobody knows.
    pub fn from_hash(input: &[u8]) -> (p: GroupElement)
        ensures
            p.wf(),
            p@ == hash_point(input@),
    {
        let mut c: u16 = 0;
        while c < 256
            invariant
                c <= 256,
                hash_point_from(input@, c as int) == hash_point(input@),
            decreases 256 - c,
        {
            let mut data: Vec<u8> = Vec::new();
            data.push(c as u8);
            append(&mut data, input);
            let x = Blake2b256::new(data.as_slice()).to_bytes();
            match curve_decompress(&x) {
                Some(y) => {
                    return GroupElement { infinity: false, x, y };
                },
                None => {},
            }
            c += 1;
        }
        GroupElement::generator()
    }

    /// The sum of two elements.
    pub fn add(&self, other: &GroupElement) -> (p: GroupElement)
        ensures
            p.wf(),
            p@ == (self@ + other@) % group_order(),
    {
        proof {
            use_type_invariant(self);
            use_type_invariant(other);
        }
        if self.infinity {
            *other
        } else if other.infinity {
            *self
        } else {
            let r = curve_add(&self.x, &self.y, &other.x, &other.y);
            GroupElement::from_affine(r, Ghost(self@ + other@))
        }
    }

    /// The inverse of an element.
    pub fn negate(&self) -> (p: GroupElement)
        ensures
            p.wf(),
            p@ == (-self@) % group_order(),
            p.coordinate() == self.coordinate(),
    {
        proof {
            use_type_invariant(self);
        }
        if self.infinity {
            *self
        } else {
            let (x, y) = curve_neg(&self.x, &self.y);
            GroupElement { infinity: false, x, y }
        }
    }

    /// The difference of two elements.
    pub fn sub(&self, other: &GroupElement) -> (p: GroupElement)
        ensures
            p.wf(),
            p@ == (self@ - other@) % group_order(),
    {
        proof {
            use_type_invariant(self);
            use_type_invariant(other);
        }
        let n = other.negate();
        self.add(&n)
    }

    /// The element added to itself `s` times.
    pub fn mul(&self, s: &Scalar) -> (p: GroupElement)
        ensures
            p.wf(),
            p@ == (self@ * s@) % group_order(),
    {
        proof {
            use_type_invariant(self);
            use_type_invariant(s);
            s.lemma_view();
        }
        if self.infinity {
            *self
        } else {
            let r = curve_scale(&self.x, &self.y, &s.to_bytes());
            GroupElement::from_affine(r, Ghost(self@ * s@))
        }
    }

    /// Whether two elements are equal.
    pub fn equals(&self, other: &GroupElement) -> (r: bool)
        ensures
            r == (self@ == other@),
            r == (*self == *other),
    {
        proof {
            use_type_invariant(self);
            use_type_invariant(other);
            self.lemma_view_injective(other);
        }
        let r = self.infinity == other.infinity && same_bytes(&self.x, &other.x)
            && same_bytes(&self.y, &other.y);
        r
    }

    /// The coordinate of the element that its inverse has too, and no other
    /// element: none for the point at infinity.
    pub fn compress(&self) -> (c: Option<[u8; 32]>)
        ensures
            c is None <==> self@ == 0,
            c is None <==> self.coordinate() is None,
            c is Some ==> self.coordinate() == Some(c->0@),
            forall|q: GroupElement|
                q.wf() ==> ((#[trigger] q.coordinate()) == self.coordinate() <==> (q@ == self@
                    || q@ + self@ == group_order())),
    {
        proof {
            use_type_invariant(self);
        }
        if self.infinity {
            None
        } else {
            let c = curve_compress(&self.x, &self.y);
            Some(c)
        }
    }

    /// The encoding of the element: 65 zero bytes for the point at infinity,
    /// else the byte 4, the first coordinate and the second.
    pub fn to_bytes(&self) -> (r: [u8; 65])
        ensures
            r@ == self.encoding(),
    {
        let mut r = [0u8; 65];
        if !self.infinity {
            r[0] = 4;
            let mut i: usize = 0;
            while i < 32
                invariant
                    i <= 32,
                    r@[0] == 4,
                    forall|j: int| 0 <= j < i ==> r@[1 + j] == self.x@[j],
                    forall|j: int| 0 <= j < i ==> r@[33 + j] == self.y@[j],
                decreases 32 - i,
            {
                r[1 + i] = self.x[i];
                r[33 + i] = self.y[i];
                i += 1;
            }
        }
        r
    }

    /// Whether `b` encodes an element of the group.
    pub open spec fn is_encoding(b: Seq<u8>) -> bool {
        &&& b.len() == 65
        &&& (b == zeros(65) || (b[0] == 4 && is_curve_point(b.subrange(1, 33), b.subrange(33, 65))))
    }

    /// Decodes an element. `None` where the slice is not an encoding: it is
    /// not 65 bytes long, or it is neither the encoding of the point at
    /// infinity nor the byte 4 before the coordinates of a curve point.
    pub fn from_bytes(slice: &[u8]) -> (r: Option<GroupElement>)
        ensures
            r is Some <==> GroupElement::is_encoding(slice@),
            r is Some ==> r->0.wf() && r->0.encoding() == slice@,
    {
        if slice.len() != GROUP_ELEMENT_BYTES {
            return None;
        }
        if slice[0] == 4 {
            let x = read32(slice, 1);
            let y = read32(slice, 33);
            if curve_contains(&x, &y) {
                let p = GroupElement { infinity: false, x, y };
                Some(p)
            } else {
                None
            }
        } else if all_zero(slice) {
            let p = GroupElement::zero();
            Some(p)
        } else {
            None
        }
    }
}

/// The constant `PointAffine::GENERATOR` of eccoxide: the coordinates of the
/// generator, which is `1 * G`.
#[verifier::external_body]
fn curve_generator() -> (r: ([u8; 32], [u8; 32]))
    ensures
        multiple_affine(1) == (r.0@, r.1@),
        affine_dlog(r.0@, r.1@) == 1,
{
    let g = p256k1::PointAffine::GENERATOR;
    (g.to_coordinate().0.to_bytes(), g.to_coordinate().1.to_bytes())
}

/// `Point::mul_base` of eccoxide: the multiple `s * G` of the generator,
/// which is the point at infinity for `s = 0` only.
#[verifier::external_body]
fn curve_mul_base(s: &[u8; 32]) -> (r: Option<([u8; 32], [u8; 32])>)
    requires
        be_value(s@) < group_order(),
    ensures
        match r {
            None => be_value(s@) == 0,
            Some((x, y)) => {
                &&& be_value(s@) != 0
                &&& multiple_affine(be_value(s@) as int) == (x@, y@)
                &&& affine_dlog(x@, y@) == be_value(s@)
            },
        },
{
    match p256k1::Point::mul_base(&p256k1::Scalar::from_bytes_unchecked(s)).to_affine() {
        Some(p) => Some((p.to_coordinate().0.to_bytes(), p.to_coordinate().1.to_bytes())),
        None => None,
    }
}

/// `PointAffine::from_coordinate` of eccoxide, which accepts the pairs that
/// satisfy the curve's equation. The curve has a prime number of points, so
/// each of them is a multiple of the generator.
#[verifier::external_body]
fn curve_contains(x: &[u8; 32], y: &[u8; 32]) -> (r: bool)
    ensures
        r == is_curve_point(x@, y@),
{
    match (p256k1::FieldElement::from_bytes(x), p256k1::FieldElement::from_bytes(y)) {
        (Some(fx), Some(fy)) => p256k1::PointAffine::from_coordinate(&fx, &fy).is_some(),
        _ => false,
    }
}

/// Addition of eccoxide's `Point`: `i * G + j * G` is `(i + j) * G`.
#[verifier::external_body]
fn curve_add(ax: &[u8; 32], ay: &[u8; 32], bx: &[u8; 32], by: &[u8; 32]) -> (r: Option<
    ([u8; 32], [u8; 32]),
>)
    requires
        is_curve_point(ax@, ay@),
        is_curve_point(bx@, by@),
    ensures
        is_multiple(r, affine_dlog(ax@, ay@) + affine_dlog(bx@, by@)),
{
    let a = p256k1::Point::from(p256k1::PointAffine::from_coordinate(
        &p256k1::FieldElement::from_bytes_unchecked(ax),
        &p256k1::FieldElement::from_bytes_unchecked(ay),
    ).unwrap());
    let b = p256k1::Point::from(p256k1::PointAffine::from_coordinate(
        &p256k1::FieldElement::from_bytes_unchecked(bx),
        &p256k1::FieldElement::from_bytes_unchecked(by),
    ).unwrap());
    match (&a + &b).to_affine() {
        Some(p) => Some((p.to_coordinate().0.to_bytes(), p.to_coordinate().1.to_bytes())),
        None => None,
    }
}

/// Negation of eccoxide's `Point`: the inverse of `k * G` is
/// `(group_order() - k) * G`. It keeps the first coordinate.
#[verifier::external_body]
fn curve_neg(x: &[u8; 32], y: &[u8; 32]) -> (r: ([u8; 32], [u8; 32]))
    requires
        is_curve_point(x@, y@),
    ensures
        r.0@ == x@,
        multiple_affine(group_order() - affine_dlog(x@, y@)) == (r.0@, r.1@),
        affine_dlog(r.0@, r.1@) == group_order() - affine_dlog(x@, y@),
{
    let a = p256k1::Point::from(p256k1::PointAffine::from_coordinate(
        &p256k1::FieldElement::from_bytes_unchecked(x),
        &p256k1::FieldElement::from_bytes_unchecked(y),
    ).unwrap());
    let p = (-a).to_affine().unwrap();
    (p.to_coordinate().0.to_bytes(), p.to_coordinate().1.to_bytes())
}

/// Multiplication of eccoxide's `Point` by a `Scalar`: `k * G` taken `s`
/// times is `(k * s) * G`.
#[verifier::external_body]
fn curve_scale(x: &[u8; 32], y: &[u8; 32], s: &[u8; 32]) -> (r: Option<([u8; 32], [u8; 32])>)
    requires
        is_curve_point(x@, y@),
        be_value(s@) < group_order(),
    ensures
        is_multiple(r, affine_dlog(x@, y@) * be_value(s@)),
{
    let a = p256k1::Point::from(p256k1::PointAffine::from_coordinate(
        &p256k1::FieldElement::from_bytes_unchecked(x),
        &p256k1::FieldElement::from_bytes_unchecked(y),
    ).unwrap());
    match (&a * &p256k1::Scalar::from_bytes_unchecked(s)).to_affine() {
        Some(p) => Some((p.to_coordinate().0.to_bytes(), p.to_coordinate().1.to_bytes())),
        None => None,
    }
}

/// `PointAffine::compress` of eccoxide, without the sign: the first
/// coordinate. For a first coordinate the curve has two points, `(x, y)` and
/// its inverse `(x, -y)`, so the multiples of the generator that have it are
/// `k * G` and `(group_order() - k) * G`.
#[verifier::external_body]
fn curve_compress(x: &[u8; 32], y: &[u8; 32]) -> (c: [u8; 32])
    requires
        is_curve_point(x@, y@),
    ensures
        c@ == x@,
        forall|k: int|
            1 <= k < group_order() ==> ((#[trigger] multiple_affine(k)).0 == c@ <==> (k
                == affine_dlog(x@, y@) || k == group_order() - affine_dlog(x@, y@))),
{
    let a = p256k1::PointAffine::from_coordinate(
        &p256k1::FieldElement::from_bytes_unchecked(x),
        &p256k1::FieldElement::from_bytes_unchecked(y),
    ).unwrap();
    a.compress().0.to_bytes()
}

/// `PointAffine::decompress` of eccoxide for the positive sign, after
/// `FieldElement::from_bytes`: the point of the curve with the first
/// coordinate `x` and an even second one, where there is one.
#[verifier::external_body]
fn curve_decompress(x: &[u8; 32]) -> (y: Option<[u8; 32]>)
    ensures
        y is Some <==> decompressed(x@) is Some,
        y is Some ==> decompressed(x@) == Some(y->0@) && is_curve_point(x@, y->0@),
{
    match p256k1::FieldElement::from_bytes(x) {
        Some(fx) => match p256k1::PointAffine::decompress(
            &fx,
            eccoxide::curve::Sign::Positive,
        ).into_option() {
            Some(p) => Some(p.to_coordinate().1.to_bytes()),
            None => None,
        },
        None => None,
    }
}

} // verus!
