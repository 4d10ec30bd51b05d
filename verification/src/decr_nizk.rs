//! Non-interactive zero knowledge proof of correct ElGamal decryption.
//!
//! The statement is the public key `pk`, the ciphertext `(e1, e2)` and the
//! message `m`; the witness is the secret key `sk`. The proof shows that
//! `pk = sk * G` and `e2 - m = sk * e1` for one and the same `sk`, without
//! revealing it.

use crate::bytes::append;
use crate::elgamal::{
    decryption, encryption, lemma_decrypts, Ciphertext, PublicKey, SecretKey,
};
use crate::group::GroupElement;
use crate::hash::{hash_to_scalar, scalar_hash};
use crate::modular::lemma_add_mod_left;
use crate::scalar::{be_value, group_order, Scalar};
use vstd::arithmetic::div_mod::{
    lemma_add_mod_noop, lemma_mul_mod_noop_left, lemma_mul_mod_noop_right, lemma_small_mod,
    lemma_sub_mod_noop_right,
};
use vstd::prelude::*;

verus! {

/// Width of an encoded proof: two group elements and a scalar.
pub const PROOF_SIZE: usize = 162;

/// Proof of correct decryption: the commitments `a1`, `a2` and the response
/// `z`.
#[derive(Clone, Copy, Debug, PartialEq, Eq, Hash)]
pub struct ProofDecrypt {
    a1: GroupElement,
    a2: GroupElement,
    z: Scalar,
}

/// What a proof holds: the commitments as multiples of the generator, and
/// the response.
pub struct ProofValue {
    pub a1: int,
    pub a2: int,
    pub z: int,
}

/// The bytes that are hashed to the challenge: the encodings of the public
/// key, of the two halves of the ciphertext, of the decryption mask `d` and
/// of the two commitments, in this order.
pub open spec fn transcript(pk: int, e1: int, e2: int, d: int, a1: int, a2: int) -> Seq<u8> {
    GroupElement::encoding_of(pk) + GroupElement::encoding_of(e1) + GroupElement::encoding_of(e2)
        + GroupElement::encoding_of(d) + GroupElement::encoding_of(a1)
        + GroupElement::encoding_of(a2)
}

/// The challenge of the proof.
pub open spec fn challenge(pk: int, e1: int, e2: int, d: int, a1: int, a2: int) -> int {
    scalar_hash(transcript(pk, e1, e2, d, a1, a2))
}

/// The proof that the prover with the secret key `sk` and the randomness `w`
/// makes for the ciphertext `(e1, e2)`.
pub open spec fn proof_of(pk: int, e1: int, e2: int, sk: int, w: int) -> ProofValue {
    let a1 = w;
    let a2 = (e1 * w) % group_order();
    let d = (e1 * sk) % group_order();
    let e = challenge(pk, e1, e2, d, a1, a2);
    ProofValue { a1, a2, z: (sk * e + w) % group_order() }
}

/// Whether the verifier accepts the proof `p` for the public key `pk`, the
/// ciphertext `(e1, e2)` and the message `m`.
pub open spec fn accepts(p: ProofValue, pk: int, e1: int, e2: int, m: int) -> bool {
    let d = (e2 - m) % group_order();
    let e = challenge(pk, e1, e2, d, p.a1, p.a2);
    &&& p.z == (pk * e + p.a1) % group_order()
    &&& (e1 * p.z) % group_order() == (d * e + p.a2) % group_order()
}

impl View for ProofDecrypt {
    type V = ProofValue;

    closed spec fn view(&self) -> ProofValue {
        ProofValue { a1: self.a1@, a2: self.a2@, z: self.z@ }
    }
}

/// Computes the challenge for the given elements.
fn first_challenge(
    pk: &PublicKey,
    c: &Ciphertext,
    d: &GroupElement,
    a1: &GroupElement,
    a2: &GroupElement,
) -> (e: Scalar)
    ensures
        e.wf(),
        e@ == challenge(pk.pk@, c.e1@, c.e2@, d@, a1@, a2@),
{
    proof {
        use_type_invariant(&pk.pk);
        use_type_invariant(&c.e1);
        use_type_invariant(&c.e2);
        use_type_invariant(d);
        use_type_invariant(a1);
        use_type_invariant(a2);
        pk.pk.lemma_element();
        c.e1.lemma_element();
        c.e2.lemma_element();
        d.lemma_element();
        a1.lemma_element();
        a2.lemma_element();
    }
    let mut t: Vec<u8> = Vec::new();
    append(&mut t, &pk.pk.to_bytes());
    append(&mut t, &c.e1.to_bytes());
    append(&mut t, &c.e2.to_bytes());
    append(&mut t, &d.to_bytes());
    append(&mut t, &a1.to_bytes());
    append(&mut t, &a2.to_bytes());
    hash_to_scalar(t.as_slice())
}

impl ProofDecrypt {
    /// The parts of a proof are a group element each, and a reduced scalar.
    pub closed spec fn wf(&self) -> bool {
        self.a1.wf() && self.a2.wf() && self.z.wf()
    }

    /// The encoding of a proof: the encodings of `a1`, of `a2` and of `z`.
    pub closed spec fn encoding(&self) -> Seq<u8> {
        self.a1.encoding() + self.a2.encoding() + self.z.encoding()
    }

    /// Whether `b` encodes a proof: 162 bytes, of which the first 65 and
    /// the next 65 encode a group element each and the last 32 a scalar.
    pub open spec fn is_encoding(b: Seq<u8>) -> bool {
        &&& b.len() == 162
        &&& GroupElement::is_encoding(b.subrange(0, 65))
        &&& GroupElement::is_encoding(b.subrange(65, 130))
        &&& be_value(b.subrange(130, 162)) < group_order()
    }

    /// The proof that `b` encodes, if it encodes one.
    pub closed spec fn decode(b: Seq<u8>) -> Option<ProofDecrypt> {
        if ProofDecrypt::is_encoding(b) {
            Some(choose|p: ProofDecrypt| p.wf() && p.encoding() == b)
        } else {
            None
        }
    }

    /// Two proofs with the same encoding are equal.
    pub proof fn lemma_encoding_injective(&self, other: &ProofDecrypt)
        requires
            self.wf(),
            other.wf(),
            self.encoding() == other.encoding(),
        ensures
            *self == *other,
    {
        let e = self.encoding();
        self.a1.lemma_view();
        self.a2.lemma_view();
        self.z.lemma_view();
        other.a1.lemma_view();
        other.a2.lemma_view();
        other.z.lemma_view();
        assert(self.a1.encoding() =~= e.subrange(0, 65));
        assert(other.a1.encoding() =~= e.subrange(0, 65));
        assert(self.a2.encoding() =~= e.subrange(65, 130));
        assert(other.a2.encoding() =~= e.subrange(65, 130));
        assert(self.z.encoding() =~= e.subrange(130, 162));
        assert(other.z.encoding() =~= e.subrange(130, 162));
        self.a1.lemma_encoding_injective(&other.a1);
        self.a2.lemma_encoding_injective(&other.a2);
        self.z.lemma_encoding_injective(&other.z);
    }

    /// Generates a proof that the message which `sk` decrypts `c` to is the
    /// decryption of `c` under `pk`. The scalar `w` is the randomness of the
    /// proof: it must be drawn uniformly and used for one proof only.
    pub fn generate(c: &Ciphertext, pk: &PublicKey, sk: &SecretKey, w: &Scalar) -> (proof:
        ProofDecrypt)
        ensures
            proof.wf(),
            proof@ == proof_of(pk.pk@, c.e1@, c.e2@, sk.sk@, w@),
    {
        proof {
            use_type_invariant(w);
            use_type_invariant(&sk.sk);
            w.lemma_view();
        }
        let a1 = GroupElement::mul_base(w);
        let a2 = c.e1.mul(w);
        let d = c.e1.mul(&sk.sk);
        let e = first_challenge(pk, c, &d, &a1, &a2);
        let se = sk.sk.mul(&e);
        let z = se.add(w);
        assert(z@ == (sk.sk@ * e@ + w@) % group_order()) by {
            lemma_add_mod_left(sk.sk@ * e@, w@, group_order());
        }
        ProofDecrypt { a1, a2, z }
    }

    /// Verifies the proof against the ciphertext `c`, the claimed message
    /// `m` and the public key `pk`.
    pub fn verify(&self, c: &Ciphertext, m: &GroupElement, pk: &PublicKey) -> (r: bool)
        ensures
            r == accepts(self@, pk.pk@, c.e1@, c.e2@, m@),
    {
        proof {
            use_type_invariant(&self.z);
            self.z.lemma_view();
        }
        let d = c.e2.sub(m);
        let e = first_challenge(pk, c, &d, &self.a1, &self.a2);
        let gz = GroupElement::mul_base(&self.z);
        let he = pk.pk.mul(&e);
        let he_a1 = he.add(&self.a1);
        assert(he_a1@ == (pk.pk@ * e@ + self.a1@) % group_order()) by {
            lemma_add_mod_left(pk.pk@ * e@, self.a1@, group_order());
        }
        let c1z = c.e1.mul(&self.z);
        let de = d.mul(&e);
        let de_a2 = de.add(&self.a2);
        assert(de_a2@ == (d@ * e@ + self.a2@) % group_order()) by {
            lemma_add_mod_left(d@ * e@, self.a2@, group_order());
        }
        gz.equals(&he_a1) && c1z.equals(&de_a2)
    }

    /// The encoding of the proof: `a1`, `a2` and `z`, 162 bytes.
    pub fn to_bytes(&self) -> (r: [u8; 162])
        ensures
            r@ == self.encoding(),
    {
        let mut output = [0u8; 162];
        self.to_slice_mut(&mut output);
        output
    }

    /// Writes the encoding of the proof to `output`, which holds 162 bytes.
    pub fn to_slice_mut(&self, output: &mut [u8])
        requires
            old(output)@.len() == PROOF_SIZE,
        ensures
            final(output)@ == self.encoding(),
    {
        proof {
            use_type_invariant(&self.a1);
            use_type_invariant(&self.a2);
            use_type_invariant(&self.z);
            self.a1.lemma_view();
            self.a2.lemma_view();
            self.z.lemma_view();
        }
        let a1 = self.a1.to_bytes();
        let a2 = self.a2.to_bytes();
        let z = self.z.to_bytes();
        let mut i: usize = 0;
        while i < 65
            invariant
                i <= 65,
                output@.len() == 162,
                forall|j: int| 0 <= j < i ==> output@[j] == a1@[j],
                forall|j: int| 0 <= j < i ==> output@[65 + j] == a2@[j],
            decreases 65 - i,
        {
            output[i] = a1[i];
            output[65 + i] = a2[i];
            i += 1;
        }
        let mut k: usize = 0;
        while k < 32
            invariant
                k <= 32,
                output@.len() == 162,
                forall|j: int| 0 <= j < 65 ==> output@[j] == a1@[j],
                forall|j: int| 0 <= j < 65 ==> output@[65 + j] == a2@[j],
                forall|j: int| 0 <= j < k ==> output@[130 + j] == z@[j],
            decreases 32 - k,
        {
            output[130 + k] = z[k];
            k += 1;
        }
    }

    /// Decodes a proof. `None` where the slice is not 162 bytes long, or a
    /// part of it does not encode a group element or a reduced scalar.
    pub fn from_slice(slice: &[u8]) -> (r: Option<ProofDecrypt>)
        ensures
            r == ProofDecrypt::decode(slice@),
            r is Some <==> ProofDecrypt::is_encoding(slice@),
            r is Some ==> r->0.wf() && r->0.encoding() == slice@,
    {
        if slice.len() != PROOF_SIZE {
            return None;
        }
        let a1 = match GroupElement::from_bytes(vstd::slice::slice_subrange(slice, 0, 65)) {
            Some(p) => p,
            None => { return None; },
        };
        let a2 = match GroupElement::from_bytes(vstd::slice::slice_subrange(slice, 65, 130)) {
            Some(p) => p,
            None => { return None; },
        };
        let z = match Scalar::from_bytes(vstd::slice::slice_subrange(slice, 130, 162)) {
            Some(s) => s,
            None => { return None; },
        };
        let proof = ProofDecrypt { a1, a2, z };
        proof {
            assert(proof.encoding() =~= slice@);
            let q = choose|p: ProofDecrypt| p.wf() && p.encoding() == slice@;
            proof.lemma_encoding_injective(&q);
        }
        Some(proof)
    }

    /// The message `m`, if the encoded proof in `bytes` shows that it is the
    /// decryption of `c` under `pk`.
    pub fn validated_plaintext(
        pk: &PublicKey,
        bytes: &[u8],
        c: &Ciphertext,
        m: &GroupElement,
    ) -> (r: Option<GroupElement>)
        ensures
            r is Some <==> ProofDecrypt::is_encoding(bytes@) && accepts(
                ProofDecrypt::decode(bytes@)->0@,
                pk.pk@,
                c.e1@,
                c.e2@,
                m@,
            ),
            r is Some ==> r->0 == *m,
    {
        match ProofDecrypt::from_slice(bytes) {
            None => None,
            Some(proof) => if proof.verify(c, m, pk) {
                Some(*m)
            } else {
                None
            },
        }
    }

    /// Honest proofs are accepted: where `pk` is the public key of `sk` and
    /// the ciphertext `(e1, e2)` encrypts the message `m` under `pk`, with
    /// whatever randomness `r`, the proof that is generated from `sk` is
    /// accepted for `m`, whatever the randomness `w` of the proof.
    pub proof fn lemma_complete(sk: int, pk: int, e1: int, e2: int, m: int, r: int, w: int)
        requires
            0 <= sk < group_order(),
            0 <= m < group_order(),
            0 <= r < group_order(),
            0 <= w < group_order(),
            pk == sk,
            e1 == r,
            e2 == encryption(pk, m, r),
        ensures
            accepts(proof_of(pk, e1, e2, sk, w), pk, e1, e2, m),
    {
        lemma_decrypts(sk, m, r);
        ProofDecrypt::lemma_accepts_decryption(e1, e2, sk, w);
    }

    /// The proof that the holder of the secret key makes for a ciphertext
    /// is accepted for the message that this key decrypts the ciphertext
    /// to.
    pub proof fn lemma_accepts_decryption(e1: int, e2: int, sk: int, w: int)
        requires
            0 <= e1 < group_order(),
            0 <= e2 < group_order(),
            0 <= sk < group_order(),
            0 <= w < group_order(),
        ensures
            accepts(proof_of(sk, e1, e2, sk, w), sk, e1, e2, decryption(sk, e1, e2)),
    {
        let n = group_order();
        let m = decryption(sk, e1, e2);
        let p = proof_of(sk, e1, e2, sk, w);
        let d0 = (e1 * sk) % n;
        let d = (e2 - m) % n;
        assert(d == d0) by {
            lemma_sub_mod_noop_right(e2, e2 - e1 * sk, n);
        }
        let e = challenge(sk, e1, e2, d, p.a1, p.a2);
        // e1 * z = d * e + a2, modulo n
        assert((e1 * p.z) % n == (d * e + p.a2) % n) by {
            lemma_mul_mod_noop_right(e1, sk * e + w, n);
            assert(e1 * (sk * e + w) == (e1 * sk) * e + e1 * w) by (nonlinear_arith);
            lemma_add_mod_noop((e1 * sk) * e, e1 * w, n);
            lemma_mul_mod_noop_left(e1 * sk, e, n);
            lemma_add_mod_noop(d * e, p.a2, n);
            lemma_small_mod(p.a2 as nat, n as nat);
            lemma_add_mod_noop(d0 * e, e1 * w, n);
        }
    }

    /// Decoding the encoding of a proof gives the proof back.
    pub proof fn lemma_round_trip(&self)
        requires
            self.wf(),
        ensures
            ProofDecrypt::decode(self.encoding()) == Some(*self),
    {
        let b = self.encoding();
        self.a1.lemma_view();
        self.a2.lemma_view();
        self.z.lemma_view();
        assert(self.a1.encoding() =~= b.subrange(0, 65));
        assert(self.a2.encoding() =~= b.subrange(65, 130));
        assert(self.z.encoding() =~= b.subrange(130, 162));
        self.a1.lemma_is_encoding();
        self.a2.lemma_is_encoding();
        let q = choose|p: ProofDecrypt| p.wf() && p.encoding() == b;
        self.lemma_encoding_injective(&q);
    }
}

} // verus!
