//! Scalars: integers modulo the order of the group.
//!
//! A [`Scalar`] holds the canonical big-endian encoding of its value. The
//! arithmetic is done by `eccoxide`; the functions that call it state what
//! the field operations compute over the integers.

use vstd::prelude::*;

verus! {

/// Width of an encoded scalar.
pub const SCALAR_BYTES: usize = 32;

/// The order of the group: the number of points on secp256k1, a prime.
pub open spec fn group_order() -> int {
    0xFFFFFFFFFFFFFFFFFFFFFFFFFFFFFFFEBAAEDCE6AF48A03BBFD25E8CD0364141int
}

/// The number that a byte string denotes, most significant byte first.
pub open spec fn be_value(s: Seq<u8>) -> nat
    decreases s.len(),
{
    if s.len() == 0 {
        0
    } else {
        be_value(s.drop_last()) * 256 + s.last() as nat
    }
}

/// An integer modulo the group order, held as its 32 byte big-endian
/// encoding.
#[derive(Clone, Copy, Debug, PartialEq, Eq, Hash)]
pub struct Scalar {
    bytes: [u8; 32],
}

impl View for Scalar {
    type V = int;

    /// The value of the scalar, in `[0, group_order())`.
    closed spec fn view(&self) -> int {
        be_value(self.bytes@) as int
    }
}

impl Scalar {
    /// A scalar is reduced: its value lies below the group order.
    #[verifier::type_invariant]
    pub closed spec fn wf(&self) -> bool {
        be_value(self.bytes@) < group_order()
    }

    /// The 32 bytes that encode the scalar.
    pub closed spec fn encoding(&self) -> Seq<u8> {
        self.bytes@
    }

    /// A reduced scalar is its encoding's value, and the other way round.
    pub proof fn lemma_view(&self)
        requires
            self.wf(),
        ensures
            0 <= self@ < group_order(),
            self@ == be_value(self.encoding()),
            self.encoding().len() == 32,
    {
    }

    /// Two scalars with the same encoding are the same scalar.
    pub proof fn lemma_encoding_injective(&self, other: &Scalar)
        requires
            self.encoding() == other.encoding(),
        ensures
            *self == *other,
    {
        assert(self.bytes == other.bytes);
    }

    /// The scalar 0.
    pub fn zero() -> (r: Scalar)
        ensures
            r.wf(),
            r@ == 0,
    {
        Scalar::from_u64(0)
    }

    /// The scalar 1.
    pub fn one() -> (r: Scalar)
        ensures
            r.wf(),
            r@ == 1,
    {
        Scalar::from_u64(1)
    }

    /// The scalar with the value `v`.
    pub fn from_u64(v: u64) -> (r: Scalar)
        ensures
            r.wf(),
            r@ == v,
    {
        let bytes = field_from_word(v);
        Scalar { bytes }
    }

    /// Decodes a scalar. `None` where the slice is not 32 bytes long or
    /// denotes a number that is not below the group order.
    pub fn from_bytes(slice: &[u8]) -> (r: Option<Scalar>)
        ensures
            r is Some <==> slice@.len() == 32 && be_value(slice@) < group_order(),
            r is Some ==> r->0.wf() && r->0.encoding() == slice@ && r->0@ == be_value(slice@),
    {
        if slice.len() != SCALAR_BYTES {
            return None;
        }
        let mut bytes = [0u8; 32];
        let mut i: usize = 0;
        while i < 32
            invariant
                i <= 32,
                slice@.len() == 32,
                forall|j: int| 0 <= j < i ==> bytes@[j] == slice@[j],
            decreases 32 - i,
        {
            bytes[i] = slice[i];
            i += 1;
        }
        assert(bytes@ =~= slice@);
        if field_is_canonical(&bytes) {
            Some(Scalar { bytes })
        } else {
            None
        }
    }

    /// The canonical encoding: 32 bytes, most significant first.
    pub fn to_bytes(&self) -> (r: [u8; 32])
        ensures
            r@ == self.encoding(),
    {
        self.bytes
    }

    /// The canonical encoding, borrowed.
    pub fn as_bytes(&self) -> (r: &[u8])
        ensures
            r@ == self.encoding(),
    {
        &self.bytes
    }

    /// The scalar that a 64 byte string denotes, reduced modulo the group
    /// order.
    pub fn from_wide_bytes(wide: &[u8; 64]) -> (r: Scalar)
        ensures
            r.wf(),
            r@ == be_value(wide@) as int % group_order(),
    {
        let bytes = field_reduce_wide(wide);
        Scalar { bytes }
    }

    /// Sum modulo the group order.
    pub fn add(&self, other: &Scalar) -> (r: Scalar)
        ensures
            r.wf(),
            r@ == (self@ + other@) % group_order(),
    {
        proof {
            use_type_invariant(self);
            use_type_invariant(other);
        }
        let bytes = field_add(&self.bytes, &other.bytes);
        Scalar { bytes }
    }

    /// Product modulo the group order.
    pub fn mul(&self, other: &Scalar) -> (r: Scalar)
        ensures
            r.wf(),
            r@ == (self@ * other@) % group_order(),
    {
        proof {
            use_type_invariant(self);
            use_type_invariant(other);
        }
        let bytes = field_mul(&self.bytes, &other.bytes);
        Scalar { bytes }
    }

    /// The additive inverse modulo the group order.
    pub fn negate(&self) -> (r: Scalar)
        ensures
            r.wf(),
            r@ == (-self@) % group_order(),
    {
        proof {
            use_type_invariant(self);
        }
        let bytes = field_neg(&self.bytes);
        Scalar { bytes }
    }

    /// Whether two scalars have the same value.
    pub fn equals(&self, other: &Scalar) -> (r: bool)
        ensures
            r == (self@ == other@),
            r == (*self == *other),
    {
        proof {
            use_type_invariant(self);
            use_type_invariant(other);
        }
        let r = field_eq(&self.bytes, &other.bytes);
        proof {
            if r {
                assert(self.bytes@ =~= other.bytes@);
                assert(self.bytes == other.bytes);
            }
        }
        r
    }
}

/// `Scalar::from_u64` of eccoxide, then `to_bytes`: the big-endian encoding
/// of the field element with the value `v`.
#[verifier::external_body]
fn field_from_word(v: u64) -> (r: [u8; 32])
    ensures
        be_value(r@) == v,
{
    eccoxide::curve::sec2::p256k1::Scalar::from_u64(v).to_bytes()
}

/// `Scalar::from_bytes` of eccoxide: it accepts exactly the encodings of
/// numbers below the field's modulus, which is the group order.
#[verifier::external_body]
fn field_is_canonical(bytes: &[u8; 32]) -> (r: bool)
    ensures
        r == (be_value(bytes@) < group_order()),
{
    eccoxide::curve::sec2::p256k1::Scalar::from_bytes(bytes).is_some()
}

/// `Scalar::init_from_wide_bytes` of eccoxide: the 64 bytes read as a
/// big-endian integer and reduced modulo the group order.
#[verifier::external_body]
fn field_reduce_wide(wide: &[u8; 64]) -> (r: [u8; 32])
    ensures
        be_value(r@) == be_value(wide@) as int % group_order(),
{
    eccoxide::curve::sec2::p256k1::Scalar::init_from_wide_bytes(*wide).to_bytes()
}

/// Addition of eccoxide's `Scalar`: the sum in the field of integers modulo
/// the group order.
#[verifier::external_body]
fn field_add(a: &[u8; 32], b: &[u8; 32]) -> (r: [u8; 32])
    requires
        be_value(a@) < group_order(),
        be_value(b@) < group_order(),
    ensures
        be_value(r@) == (be_value(a@) + be_value(b@)) as int % group_order(),
{
    let x = eccoxide::curve::sec2::p256k1::Scalar::from_bytes_unchecked(a);
    let y = eccoxide::curve::sec2::p256k1::Scalar::from_bytes_unchecked(b);
    (&x + &y).to_bytes()
}

/// Multiplication of eccoxide's `Scalar`: the product in the field of
/// integers modulo the group order.
#[verifier::external_body]
fn field_mul(a: &[u8; 32], b: &[u8; 32]) -> (r: [u8; 32])
    requires
        be_value(a@) < group_order(),
        be_value(b@) < group_order(),
    ensures
        be_value(r@) == (be_value(a@) * be_value(b@)) as int % group_order(),
{
    let x = eccoxide::curve::sec2::p256k1::Scalar::from_bytes_unchecked(a);
    let y = eccoxide::curve::sec2::p256k1::Scalar::from_bytes_unchecked(b);
    (&x * &y).to_bytes()
}

/// Negation of eccoxide's `Scalar`: the additive inverse in the field of
/// integers modulo the group order.
#[verifier::external_body]
fn field_neg(a: &[u8; 32]) -> (r: [u8; 32])
    requires
        be_value(a@) < group_order(),
    ensures
        be_value(r@) == (-(be_value(a@) as int)) % group_order(),
{
    (-eccoxide::curve::sec2::p256k1::Scalar::from_bytes_unchecked(a)).to_bytes()
}

/// Equality of eccoxide's `Scalar`, which holds of two field elements
/// exactly when their encodings agree byte for byte.
#[verifier::external_body]
fn field_eq(a: &[u8; 32], b: &[u8; 32]) -> (r: bool)
    requires
        be_value(a@) < group_order(),
        be_value(b@) < group_order(),
    ensures
        r == (a@ == b@),
        r == (be_value(a@) == be_value(b@)),
{
    let x = eccoxide::curve::sec2::p256k1::Scalar::from_bytes_unchecked(a);
    let y = eccoxide::curve::sec2::p256k1::Scalar::from_bytes_unchecked(b);
    x == y
}

} // verus!
