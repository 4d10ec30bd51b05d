//! Verifiable random function: the two-hash Diffie-Hellman construction.
//!
//! The output seed for an input is `sk * H(input)`, where `H` hashes to the
//! group; a proof of discrete logarithm equality shows that the seed was
//! made with the secret key of the public key `sk * G`.

use crate::bytes::append;
use crate::dleq;
use crate::group::{hash_point, GroupElement};
use crate::hash::{blake2b_256, Blake2b256};
use crate::modular::lemma_one_times;
use crate::scalar::{be_value, group_order, Scalar};
use vstd::prelude::*;

verus! {

/// Width of an encoded proven output seed: a group element and a proof.
pub const PROOF_SIZE: usize = 129;

/// Width of an encoded secret key.
pub const SECRET_SIZE: usize = 32;

/// Width of an encoded public key.
pub const PUBLIC_SIZE: usize = 65;

/// Secret key.
#[derive(Clone, Copy)]
pub struct SecretKey {
    secret: Scalar,
    public: GroupElement,
}

/// Public key, with its encoding.
#[derive(Clone, Copy, Debug, PartialEq, Eq, Hash)]
pub struct PublicKey(GroupElement, [u8; 65]);

/// Output seed (a point), from which the outputs are derived.
#[derive(Clone, Copy, Debug, PartialEq, Eq)]
pub struct OutputSeed(GroupElement);

/// An output seed with the proof of its generation.
#[derive(Clone, Copy, Debug, PartialEq, Eq)]
pub struct ProvenOutputSeed {
    u: OutputSeed,
    dleq_proof: dleq::Proof,
}

/// Why a byte string is no public key.
#[derive(Clone, Copy, Debug, PartialEq, Eq)]
pub enum PublicKeyError {
    /// It has not the length of a public key.
    SizeInvalid,
    /// It does not encode a group element.
    StructureInvalid,
}

/// What a proven output seed holds: the seed as a multiple of the
/// generator, and the proof.
pub struct ProvenValue {
    pub u: int,
    pub proof: dleq::ProofValue,
}

/// The statement that the proof of an output seed is about: the public key
/// `pk` is to the generator what the seed `u` is to the point that the
/// input is hashed to.
pub open spec fn statement(pk: int, input: Seq<u8>, u: int) -> dleq::DleqValue {
    dleq::DleqValue { g1: 1, h1: pk, g2: hash_point(input), h2: u }
}

/// The output seed of the secret key `sk` for `input`.
pub open spec fn seed(sk: int, input: Seq<u8>) -> int {
    (hash_point(input) * sk) % group_order()
}

impl View for SecretKey {
    type V = int;

    closed spec fn view(&self) -> int {
        self.secret@
    }
}

impl View for PublicKey {
    type V = int;

    closed spec fn view(&self) -> int {
        self.0@
    }
}

impl View for OutputSeed {
    type V = int;

    closed spec fn view(&self) -> int {
        self.0@
    }
}

impl View for ProvenOutputSeed {
    type V = ProvenValue;

    closed spec fn view(&self) -> ProvenValue {
        ProvenValue { u: self.u@, proof: self.dleq_proof@ }
    }
}

impl SecretKey {
    /// The public point is the secret scalar times the generator.
    #[verifier::type_invariant]
    pub closed spec fn wf(&self) -> bool {
        self.secret.wf() && self.public.wf() && self.public@ == self.secret@
    }

    /// The 32 bytes that encode the key.
    pub closed spec fn encoding(&self) -> Seq<u8> {
        self.secret.encoding()
    }

    /// The secret key with the scalar `sk`.
    fn from_scalar(sk: Scalar) -> (r: SecretKey)
        ensures
            r.wf(),
            r@ == sk@,
            r.encoding() == sk.encoding(),
    {
        proof {
            use_type_invariant(&sk);
        }
        let pk = GroupElement::mul_base(&sk);
        SecretKey { secret: sk, public: pk }
    }

    /// The encoding of the key, borrowed.
    pub fn as_bytes(&self) -> (r: &[u8])
        ensures
            r@ == self.encoding(),
    {
        self.secret.as_bytes()
    }

    /// Serialize the secret key in binary form.
    pub fn to_bytes(&self) -> (r: [u8; 32])
        ensures
            r@ == self.encoding(),
    {
        self.secret.to_bytes()
    }

    /// Decodes a secret key: `None` where the bytes denote a number that is
    /// not below the group order.
    pub fn from_bytes(bytes: [u8; 32]) -> (r: Option<SecretKey>)
        ensures
            r is Some <==> be_value(bytes@) < group_order(),
            r is Some ==> r->0.wf() && r->0.encoding() == bytes@ && r->0@ == be_value(bytes@),
    {
        match Scalar::from_bytes(&bytes) {
            Some(sk) => Some(SecretKey::from_scalar(sk)),
            None => None,
        }
    }

    /// Get the verifiable output and the associated input base point: the
    /// point that `input` is hashed to, and that point times the secret.
    pub fn verifiable_output(&self, input: &[u8]) -> (r: (GroupElement, OutputSeed))
        ensures
            r.0.wf(),
            r.0@ == hash_point(input@),
            r.1@ == seed(self@, input@),
    {
        let m_point = GroupElement::from_hash(input);
        let u = m_point.mul(&self.secret);
        (m_point, OutputSeed(u))
    }

    /// Create a proof that `output` is `m_point` times the secret, with the
    /// randomness `r`; no check is made that it is. The scalar `r` must be
    /// drawn uniformly and used for one proof only.
    pub fn proove(&self, r: &Scalar, m_point: GroupElement, output: OutputSeed) -> (p:
        ProvenOutputSeed)
        ensures
            p.wf(),
            p@.u == output@,
            p@.proof == dleq::proof_of(
                r@,
                self@,
                dleq::DleqValue { g1: 1, h1: self@, g2: m_point@, h2: output@ },
            ),
    {
        proof {
            use_type_invariant(self);
            use_type_invariant(&output.0);
        }
        let statement = dleq::Dleq {
            g1: GroupElement::generator(),
            h1: self.public,
            g2: m_point,
            h2: output.0,
        };
        let dleq_proof = dleq::generate(r, &self.secret, &statement);
        ProvenOutputSeed { u: output, dleq_proof }
    }

    /// Generate the output seed for `input` with its proof, from the
    /// randomness `r`, which must be drawn uniformly and used for one proof
    /// only.
    pub fn evaluate(&self, r: &Scalar, input: &[u8]) -> (p: ProvenOutputSeed)
        ensures
            p.wf(),
            p@.u == seed(self@, input@),
            p@.proof == dleq::proof_of(r@, self@, statement(self@, input@, seed(self@, input@))),
    {
        let (m_point, output) = self.verifiable_output(input);
        self.proove(r, m_point, output)
    }

    /// Get the public key associated with a secret key.
    pub fn public(&self) -> (r: PublicKey)
        ensures
            r.wf(),
            r@ == self@,
    {
        proof {
            use_type_invariant(self);
        }
        PublicKey(self.public, self.public.to_bytes())
    }
}

impl AsRef<[u8]> for SecretKey {
    /// The encoding of the key, borrowed.
    fn as_ref(&self) -> (r: &[u8])
        ensures
            r@ == self.encoding(),
    {
        self.as_bytes()
    }
}

impl AsRef<[u8]> for PublicKey {
    /// The encoding of the key, borrowed.
    fn as_ref(&self) -> (r: &[u8])
        ensures
            r@ == self.encoding(),
    {
        self.as_bytes()
    }
}

impl PublicKey {
    /// The bytes are the encoding of the point.
    #[verifier::type_invariant]
    pub closed spec fn wf(&self) -> bool {
        self.0.wf() && self.1@ == self.0.encoding()
    }

    /// The 65 bytes that encode the key.
    pub closed spec fn encoding(&self) -> Seq<u8> {
        self.0.encoding()
    }

    /// Decodes a public key.
    pub fn from_bytes(input: &[u8]) -> (r: Result<PublicKey, PublicKeyError>)
        ensures
            r is Ok <==> GroupElement::is_encoding(input@),
            r is Ok ==> r->Ok_0.wf() && r->Ok_0.encoding() == input@,
            r == Err::<PublicKey, PublicKeyError>(PublicKeyError::SizeInvalid) <==> input@.len()
                != 65,
            r == Err::<PublicKey, PublicKeyError>(PublicKeyError::StructureInvalid) <==> input@.len()
                == 65 && !GroupElement::is_encoding(input@),
    {
        if input.len() != PUBLIC_SIZE {
            return Err(PublicKeyError::SizeInvalid);
        }
        let group_element = GroupElement::from_bytes(input);
        match group_element {
            None => Err(PublicKeyError::StructureInvalid),
            Some(pk) => Ok(PublicKey(pk, pk.to_bytes())),
        }
    }

    /// The encoding of the key, borrowed.
    pub fn as_bytes(&self) -> (r: &[u8])
        ensures
            r@ == self.encoding(),
    {
        proof {
            use_type_invariant(self);
        }
        &self.1
    }

    /// Writes the encoding of the key to `output`, which holds 65 bytes.
    pub fn to_buffer(&self, output: &mut [u8])
        requires
            old(output)@.len() == PUBLIC_SIZE,
        ensures
            final(output)@ == self.encoding(),
    {
        proof {
            use_type_invariant(self);
            self.0.lemma_view();
        }
        let bytes = self.0.to_bytes();
        let mut i: usize = 0;
        while i < 65
            invariant
                i <= 65,
                output@.len() == 65,
                forall|j: int| 0 <= j < i ==> output@[j] == bytes@[j],
            decreases 65 - i,
        {
            output[i] = bytes[i];
            i += 1;
        }
        assert(output@ =~= bytes@);
    }
}

impl ProvenOutputSeed {
    /// The encoding: the encoding of the seed, and that of the proof.
    pub closed spec fn encoding(&self) -> Seq<u8> {
        self.u.0.encoding() + self.dleq_proof.encoding()
    }

    /// The seed is a group element and the proof holds reduced scalars.
    pub closed spec fn wf(&self) -> bool {
        self.u.0.wf() && self.dleq_proof.wf()
    }

    /// Whether `b` encodes a proven output seed: 129 bytes, of which the
    /// first 65 encode a group element and the rest a proof.
    pub open spec fn is_encoding(b: Seq<u8>) -> bool {
        &&& b.len() == 129
        &&& GroupElement::is_encoding(b.subrange(0, 65))
        &&& dleq::Proof::is_encoding(b.subrange(65, 129))
    }

    /// The proven output seed that `b` encodes, if it encodes one.
    pub closed spec fn decode(b: Seq<u8>) -> Option<ProvenOutputSeed> {
        if ProvenOutputSeed::is_encoding(b) {
            Some(choose|p: ProvenOutputSeed| p.wf() && p.encoding() == b)
        } else {
            None
        }
    }

    /// Decoding the encoding of a proven output seed gives it back.
    pub proof fn lemma_round_trip(&self)
        requires
            self.wf(),
        ensures
            ProvenOutputSeed::decode(self.encoding()) == Some(*self),
    {
        let b = self.encoding();
        self.u.0.lemma_view();
        self.u.0.lemma_is_encoding();
        self.dleq_proof.lemma_is_encoding();
        assert(self.u.0.encoding() =~= b.subrange(0, 65));
        assert(self.dleq_proof.encoding() =~= b.subrange(65, 129));
        let q = choose|p: ProvenOutputSeed| p.wf() && p.encoding() == b;
        self.lemma_encoding_injective(&q);
    }

    /// Verify a proof for a given public key and a data slice.
    pub fn verify(&self, public_key: &PublicKey, input: &[u8]) -> (r: bool)
        ensures
            r == dleq::accepts(statement(public_key@, input@, self@.u), self@.proof),
    {
        let statement = dleq::Dleq {
            g1: GroupElement::generator(),
            h1: public_key.0,
            g2: GroupElement::from_hash(input),
            h2: self.u.0,
        };
        dleq::verify(&statement, &self.dleq_proof)
    }

    /// Writes the encoding to `output`, which holds 129 bytes.
    pub fn to_buffer(&self, output: &mut [u8])
        requires
            old(output)@.len() == PROOF_SIZE,
        ensures
            final(output)@ == self.encoding(),
    {
        let bytes = self.bytes();
        let mut i: usize = 0;
        while i < 129
            invariant
                i <= 129,
                output@.len() == 129,
                forall|j: int| 0 <= j < i ==> output@[j] == bytes@[j],
            decreases 129 - i,
        {
            output[i] = bytes[i];
            i += 1;
        }
        assert(output@ =~= bytes@);
    }

    /// The encoding, 129 bytes.
    pub fn bytes(&self) -> (r: [u8; 129])
        ensures
            r@ == self.encoding(),
    {
        proof {
            use_type_invariant(&self.u.0);
            self.u.0.lemma_view();
        }
        let mut output = [0u8; 129];
        let seed = self.u.0.to_bytes();
        let mut proof = [0u8; 64];
        self.dleq_proof.to_bytes(&mut proof);
        let mut i: usize = 0;
        while i < 65
            invariant
                i <= 65,
                forall|j: int| 0 <= j < i ==> output@[j] == seed@[j],
            decreases 65 - i,
        {
            output[i] = seed[i];
            i += 1;
        }
        let mut k: usize = 0;
        while k < 64
            invariant
                k <= 64,
                forall|j: int| 0 <= j < 65 ==> output@[j] == seed@[j],
                forall|j: int| 0 <= j < k ==> output@[65 + j] == proof@[j],
            decreases 64 - k,
        {
            output[65 + k] = proof[k];
            k += 1;
        }
        output
    }

    /// Decodes a proven output seed without verifying its proof.
    pub fn from_bytes_unverified(bytes: &[u8]) -> (r: Option<ProvenOutputSeed>)
        ensures
            r == ProvenOutputSeed::decode(bytes@),
            r is Some <==> ProvenOutputSeed::is_encoding(bytes@),
            r is Some ==> r->0.wf() && r->0.encoding() == bytes@,
    {
        if bytes.len() != PROOF_SIZE {
            return None;
        }
        let u = match GroupElement::from_bytes(vstd::slice::slice_subrange(bytes, 0, 65)) {
            Some(p) => p,
            None => { return None; },
        };
        let proof = match dleq::Proof::from_bytes(vstd::slice::slice_subrange(bytes, 65, 129)) {
            Some(p) => p,
            None => { return None; },
        };
        let r = ProvenOutputSeed { u: OutputSeed(u), dleq_proof: proof };
        proof {
            assert(r.encoding() =~= bytes@);
            let q = choose|p: ProvenOutputSeed| p.wf() && p.encoding() == bytes@;
            r.lemma_encoding_injective(&q);
        }
        Some(r)
    }

    /// Decodes a proven output seed and verifies its proof for the public
    /// key and the input: `None` where the bytes encode none or the proof
    /// is not accepted.
    pub fn from_bytes(public_key: &PublicKey, bytes: &[u8], input: &[u8]) -> (r: Option<
        ProvenOutputSeed,
    >)
        ensures
            r == (match ProvenOutputSeed::decode(bytes@) {
                Some(p) => if dleq::accepts(statement(public_key@, input@, p@.u), p@.proof) {
                    Some(p)
                } else {
                    None
                },
                None => None,
            }),
            r is Some ==> r->0.wf() && r->0.encoding() == bytes@,
    {
        match ProvenOutputSeed::from_bytes_unverified(bytes) {
            None => None,
            Some(pos) => {
                if pos.verify(public_key, input) {
                    Some(pos)
                } else {
                    None
                }
            },
        }
    }

    /// Two proven output seeds with the same encoding are equal.
    pub proof fn lemma_encoding_injective(&self, other: &ProvenOutputSeed)
        requires
            self.wf(),
            other.wf(),
            self.encoding() == other.encoding(),
        ensures
            *self == *other,
    {
        let e = self.encoding();
        self.u.0.lemma_view();
        other.u.0.lemma_view();
        self.dleq_proof.lemma_is_encoding();
        other.dleq_proof.lemma_is_encoding();
        assert(self.u.0.encoding() =~= e.subrange(0, 65));
        assert(other.u.0.encoding() =~= e.subrange(0, 65));
        assert(self.dleq_proof.encoding() =~= e.subrange(65, 129));
        assert(other.dleq_proof.encoding() =~= e.subrange(65, 129));
        self.u.0.lemma_encoding_injective(&other.u.0);
        self.dleq_proof.lemma_encoding_injective(&other.dleq_proof);
    }

    /// The output seed, whether or not its proof holds.
    pub fn to_output(&self) -> (r: OutputSeed)
        ensures
            r@ == self@.u,
    {
        self.u
    }

    /// The output seed, if its proof is accepted for the public key and the
    /// input.
    pub fn to_verifiable_output(&self, public_key: &PublicKey, input: &[u8]) -> (r: Option<
        OutputSeed,
    >)
        ensures
            r is Some <==> dleq::accepts(statement(public_key@, input@, self@.u), self@.proof),
            r is Some ==> r->0@ == self@.u,
    {
        if self.verify(public_key, input) {
            Some(self.u)
        } else {
            None
        }
    }
}

impl OutputSeed {
    /// The 65 bytes that encode the seed.
    pub closed spec fn encoding(&self) -> Seq<u8> {
        self.0.encoding()
    }

    /// Get the output for this input and a known suffix: the digest of the
    /// input, the encoding of the seed and the suffix.
    pub fn to_output(&self, input: &[u8], suffix: &[u8]) -> (r: Blake2b256)
        ensures
            r@ == blake2b_256(input@ + self.encoding() + suffix@),
    {
        let mut buf: Vec<u8> = Vec::new();
        append(&mut buf, input);
        append(&mut buf, &self.0.to_bytes());
        append(&mut buf, suffix);
        Blake2b256::new(buf.as_slice())
    }
}

/// The proof that comes with the output seed of a secret key is accepted
/// for the public key of that secret key and the same input, whatever the
/// randomness.
pub proof fn lemma_evaluate_verifies(sk: int, r: int, input: Seq<u8>)
    requires
        0 <= sk < group_order(),
        0 <= r < group_order(),
        0 <= hash_point(input) < group_order(),
    ensures
        dleq::accepts(
            statement(sk, input, seed(sk, input)),
            dleq::proof_of(r, sk, statement(sk, input, seed(sk, input))),
        ),
{
    lemma_one_times(sk, group_order());
    dleq::lemma_complete(r, sk, 1, hash_point(input));
}

} // verus!
