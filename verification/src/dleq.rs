//! Non-interactive zero knowledge proof of discrete logarithm equality.
//!
//! The statement is two bases `g1`, `g2` and two points `h1`, `h2`; the
//! witness is the scalar `a` with `h1 = a * g1` and `h2 = a * g2`.

use crate::bytes::append;
use crate::group::GroupElement;
use crate::hash::{hash_to_scalar, scalar_hash};
use crate::scalar::{be_value, group_order, Scalar};
use vstd::arithmetic::div_mod::{
    lemma_add_mod_noop_right, lemma_mul_mod_noop_left, lemma_mul_mod_noop_right,
    lemma_sub_mod_noop,
};
use vstd::prelude::*;

verus! {

/// Width of an encoded proof: two scalars.
pub const PROOF_SIZE: usize = 64;

/// The statement of a proof.
#[derive(Clone, Copy, Debug, PartialEq, Eq)]
pub struct Dleq {
    pub g1: GroupElement,
    pub h1: GroupElement,
    pub g2: GroupElement,
    pub h2: GroupElement,
}

/// A statement, each point as a multiple of the generator.
pub struct DleqValue {
    pub g1: int,
    pub h1: int,
    pub g2: int,
    pub h2: int,
}

/// A proof: the challenge `c` and the response `z`.
#[derive(Clone, Copy, Debug, PartialEq, Eq)]
pub struct Proof {
    c: Scalar,
    z: Scalar,
}

/// What a proof holds.
pub struct ProofValue {
    pub c: int,
    pub z: int,
}

impl View for Dleq {
    type V = DleqValue;

    open spec fn view(&self) -> DleqValue {
        DleqValue { g1: self.g1@, h1: self.h1@, g2: self.g2@, h2: self.h2@ }
    }
}

impl View for Proof {
    type V = ProofValue;

    closed spec fn view(&self) -> ProofValue {
        ProofValue { c: self.c@, z: self.z@ }
    }
}

/// The challenge for the points `h1`, `h2` and the commitments `a1`, `a2`:
/// the hash of their encodings, in this order.
pub open spec fn challenge(h1: int, h2: int, a1: int, a2: int) -> int {
    scalar_hash(
        GroupElement::encoding_of(h1) + GroupElement::encoding_of(h2) + GroupElement::encoding_of(
            a1,
        ) + GroupElement::encoding_of(a2),
    )
}

/// The proof that the prover with the witness `a` and the randomness `w`
/// makes for the statement `s`.
pub open spec fn proof_of(w: int, a: int, s: DleqValue) -> ProofValue {
    let a1 = (s.g1 * w) % group_order();
    let a2 = (s.g2 * w) % group_order();
    let c = challenge(s.h1, s.h2, a1, a2);
    ProofValue { c, z: (w + a * c) % group_order() }
}

/// Whether the verifier accepts the proof `p` for the statement `s`.
pub open spec fn accepts(s: DleqValue, p: ProofValue) -> bool {
    let a1 = (s.g1 * p.z - s.h1 * p.c) % group_order();
    let a2 = (s.g2 * p.z - s.h2 * p.c) % group_order();
    challenge(s.h1, s.h2, a1, a2) == p.c
}

/// Computes the challenge for the given points.
fn compute_challenge(h1: &GroupElement, h2: &GroupElement, a1: &GroupElement, a2: &GroupElement) -> (c:
    Scalar)
    ensures
        c.wf(),
        c@ == challenge(h1@, h2@, a1@, a2@),
{
    proof {
        use_type_invariant(h1);
        use_type_invariant(h2);
        use_type_invariant(a1);
        use_type_invariant(a2);
        h1.lemma_element();
        h2.lemma_element();
        a1.lemma_element();
        a2.lemma_element();
    }
    let mut t: Vec<u8> = Vec::new();
    append(&mut t, &h1.to_bytes());
    append(&mut t, &h2.to_bytes());
    append(&mut t, &a1.to_bytes());
    append(&mut t, &a2.to_bytes());
    hash_to_scalar(t.as_slice())
}

/// Generates a proof for the statement `dleq` from its witness `a` and the
/// randomness `w`, which must be drawn uniformly and used for one proof
/// only.
pub fn generate(w: &Scalar, a: &Scalar, dleq: &Dleq) -> (proof: Proof)
    ensures
        proof.wf(),
        proof@ == proof_of(w@, a@, dleq@),
{
    let a1 = dleq.g1.mul(w);
    let a2 = dleq.g2.mul(w);
    let c = compute_challenge(&dleq.h1, &dleq.h2, &a1, &a2);
    let ac = a.mul(&c);
    let z = w.add(&ac);
    assert(z@ == (w@ + a@ * c@) % group_order()) by {
        lemma_add_mod_noop_right(w@, a@ * c@, group_order());
    }
    Proof { c, z }
}

/// Verifies a proof for the statement `dleq`.
pub fn verify(dleq: &Dleq, proof: &Proof) -> (r: bool)
    ensures
        r == accepts(dleq@, proof@),
{
    let r1 = dleq.g1.mul(&proof.z);
    let r2 = dleq.g2.mul(&proof.z);
    let a1 = r1.sub(&dleq.h1.mul(&proof.c));
    let a2 = r2.sub(&dleq.h2.mul(&proof.c));
    proof {
        lemma_sub_mod_noop(dleq.g1@ * proof.z@, dleq.h1@ * proof.c@, group_order());
        lemma_sub_mod_noop(dleq.g2@ * proof.z@, dleq.h2@ * proof.c@, group_order());
    }
    let c = compute_challenge(&dleq.h1, &dleq.h2, &a1, &a2);
    c.equals(&proof.c)
}

impl Proof {
    /// Both parts of a proof are reduced scalars.
    pub closed spec fn wf(&self) -> bool {
        self.c.wf() && self.z.wf()
    }

    /// The encoding of a proof: the encodings of `c` and of `z`.
    pub closed spec fn encoding(&self) -> Seq<u8> {
        self.c.encoding() + self.z.encoding()
    }

    /// Whether `b` encodes a proof: 64 bytes, each half a reduced scalar.
    pub open spec fn is_encoding(b: Seq<u8>) -> bool {
        &&& b.len() == 64
        &&& be_value(b.subrange(0, 32)) < group_order()
        &&& be_value(b.subrange(32, 64)) < group_order()
    }

    /// Two proofs with the same encoding are equal.
    pub proof fn lemma_encoding_injective(&self, other: &Proof)
        requires
            self.wf(),
            other.wf(),
            self.encoding() == other.encoding(),
        ensures
            *self == *other,
    {
        let e = self.encoding();
        self.c.lemma_view();
        self.z.lemma_view();
        other.c.lemma_view();
        other.z.lemma_view();
        assert(self.c.encoding() =~= e.subrange(0, 32));
        assert(other.c.encoding() =~= e.subrange(0, 32));
        assert(self.z.encoding() =~= e.subrange(32, 64));
        assert(other.z.encoding() =~= e.subrange(32, 64));
        self.c.lemma_encoding_injective(&other.c);
        self.z.lemma_encoding_injective(&other.z);
    }

    /// The encoding of a proof has 64 bytes, and is accepted by the
    /// decoder.
    pub proof fn lemma_is_encoding(&self)
        requires
            self.wf(),
        ensures
            Proof::is_encoding(self.encoding()),
    {
        let e = self.encoding();
        self.c.lemma_view();
        self.z.lemma_view();
        assert(self.c.encoding() =~= e.subrange(0, 32));
        assert(self.z.encoding() =~= e.subrange(32, 64));
    }

    /// Writes the encoding of the proof to `output`, which holds 64 bytes.
    pub fn to_bytes(&self, output: &mut [u8])
        requires
            old(output)@.len() == PROOF_SIZE,
        ensures
            final(output)@ == self.encoding(),
    {
        proof {
            use_type_invariant(&self.c);
            use_type_invariant(&self.z);
            self.c.lemma_view();
            self.z.lemma_view();
        }
        let c = self.c.to_bytes();
        let z = self.z.to_bytes();
        let mut i: usize = 0;
        while i < 32
            invariant
                i <= 32,
                output@.len() == 64,
                forall|j: int| 0 <= j < i ==> output@[j] == c@[j],
                forall|j: int| 0 <= j < i ==> output@[32 + j] == z@[j],
            decreases 32 - i,
        {
            output[i] = c[i];
            output[32 + i] = z[i];
            i += 1;
        }
    }

    /// Decodes a proof. `None` where the slice is not 64 bytes long or one
    /// of its halves is not a reduced scalar.
    pub fn from_bytes(slice: &[u8]) -> (r: Option<Proof>)
        ensures
            r is Some <==> Proof::is_encoding(slice@),
            r is Some ==> r->0.wf() && r->0.encoding() == slice@,
    {
        if slice.len() != PROOF_SIZE {
            return None;
        }
        let c = match Scalar::from_bytes(vstd::slice::slice_subrange(slice, 0, 32)) {
            Some(s) => s,
            None => { return None; },
        };
        let z = match Scalar::from_bytes(vstd::slice::slice_subrange(slice, 32, 64)) {
            Some(s) => s,
            None => { return None; },
        };
        let proof = Proof { c, z };
        Some(proof)
    }
}

/// Honest proofs are accepted: the proof that the holder of the witness
/// makes is accepted, whatever the randomness.
pub proof fn lemma_complete(w: int, a: int, g1: int, g2: int)
    requires
        0 <= w < group_order(),
        0 <= a < group_order(),
        0 <= g1 < group_order(),
        0 <= g2 < group_order(),
    ensures
        accepts(
            DleqValue { g1, h1: (g1 * a) % group_order(), g2, h2: (g2 * a) % group_order() },
            proof_of(
                w,
                a,
                DleqValue { g1, h1: (g1 * a) % group_order(), g2, h2: (g2 * a) % group_order() },
            ),
        ),
{
    let n = group_order();
    let s = DleqValue { g1, h1: (g1 * a) % n, g2, h2: (g2 * a) % n };
    let p = proof_of(w, a, s);
    lemma_commitment(w, a, g1, p.c);
    lemma_commitment(w, a, g2, p.c);
}

/// The verifier recomputes the prover's commitment: `g * z - h * c` is
/// `g * w` where `z = w + a * c` and `h = a * g`.
proof fn lemma_commitment(w: int, a: int, g: int, c: int)
    requires
        group_order() > 0,
    ensures
        (g * ((w + a * c) % group_order()) - ((g * a) % group_order()) * c) % group_order() == (g
            * w) % group_order(),
{
    let n = group_order();
    let z = (w + a * c) % n;
    let h = (g * a) % n;
    lemma_mul_mod_noop_right(g, w + a * c, n);
    lemma_mul_mod_noop_left(g * a, c, n);
    lemma_sub_mod_noop(g * z, h * c, n);
    lemma_sub_mod_noop(g * (w + a * c), (g * a) * c, n);
    assert(g * (w + a * c) - (g * a) * c == g * w) by (nonlinear_arith);
}

} // verus!
