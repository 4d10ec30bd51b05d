//! ElGamal keys and ciphertexts over the group.
//!
//! A ciphertext `(e1, e2)` encrypts a group element `m` under the public key
//! `pk = sk * G` with the randomness `r` as `(r * G, m + r * pk)`.

use crate::bytes::append;
use crate::group::GroupElement;
use crate::scalar::{be_value, group_order, Scalar};
use vstd::prelude::*;

verus! {

/// Width of an encoded ciphertext.
pub const CIPHERTEXT_BYTES: usize = 130;

/// A secret key: the discrete logarithm of the public key.
#[derive(Clone, Copy, Debug, PartialEq, Eq)]
pub struct SecretKey {
    pub sk: Scalar,
}

/// A public key.
#[derive(Clone, Copy, Debug, PartialEq, Eq, Hash)]
pub struct PublicKey {
    pub pk: GroupElement,
}

/// A secret key with its public key.
#[derive(Clone, Copy, Debug, PartialEq, Eq)]
pub struct Keypair {
    pub secret_key: SecretKey,
    pub public_key: PublicKey,
}

/// An encryption of a group element.
#[derive(Clone, Copy, Debug, PartialEq, Eq, Hash)]
pub struct Ciphertext {
    pub e1: GroupElement,
    pub e2: GroupElement,
}

/// The plaintext, as a multiple of the generator, that the secret key `sk`
/// recovers from the ciphertext `(e1, e2)`.
pub open spec fn decryption(sk: int, e1: int, e2: int) -> int {
    (e2 - e1 * sk) % group_order()
}

/// The second half of the ciphertext that encrypts `m` under the public key
/// `pk` with the randomness `r`.
pub open spec fn encryption(pk: int, m: int, r: int) -> int {
    (m + pk * r) % group_order()
}

/// The secret key recovers what was encrypted under its public key,
/// whatever the randomness.
pub proof fn lemma_decrypts(sk: int, m: int, r: int)
    requires
        0 <= m < group_order(),
    ensures
        decryption(sk, r, encryption(sk, m, r)) == m,
{
    let n = group_order();
    vstd::arithmetic::div_mod::lemma_sub_mod_noop(m + sk * r, r * sk, n);
    assert(m + sk * r - r * sk == m) by (nonlinear_arith);
    vstd::arithmetic::div_mod::lemma_small_mod(m as nat, n as nat);
    vstd::arithmetic::div_mod::lemma_mod_twice(r * sk, n);
    vstd::arithmetic::div_mod::lemma_sub_mod_noop(encryption(sk, m, r), r * sk, n);
}

impl SecretKey {
    /// The secret key with the scalar `sk`.
    pub fn from_scalar(sk: Scalar) -> (r: SecretKey)
        ensures
            r.sk == sk,
    {
        SecretKey { sk }
    }

    /// The encoding of the key: that of its scalar.
    pub fn to_bytes(&self) -> (r: [u8; 32])
        ensures
            r@ == self.sk.encoding(),
    {
        self.sk.to_bytes()
    }

    /// Decodes a secret key. `None` where the slice is not 32 bytes long or
    /// denotes a number that is not below the group order.
    pub fn from_bytes(slice: &[u8]) -> (r: Option<SecretKey>)
        ensures
            r is Some <==> slice@.len() == 32 && be_value(slice@) < group_order(),
            r is Some ==> r->0.sk.wf() && r->0.sk.encoding() == slice@,
    {
        match Scalar::from_bytes(slice) {
            Some(sk) => Some(SecretKey { sk }),
            None => None,
        }
    }

    /// The public key of this secret key: `sk * G`.
    pub fn public_key(&self) -> (r: PublicKey)
        ensures
            r.pk.wf(),
            r.pk@ == self.sk@,
    {
        PublicKey { pk: GroupElement::mul_base(&self.sk) }
    }

    /// Decrypts a ciphertext: `e2 - sk * e1`.
    pub fn decrypt_point(&self, c: &Ciphertext) -> (m: GroupElement)
        ensures
            m.wf(),
            m@ == decryption(self.sk@, c.e1@, c.e2@),
    {
        let mask = c.e1.mul(&self.sk);
        let m = c.e2.sub(&mask);
        assert(m@ == decryption(self.sk@, c.e1@, c.e2@)) by {
            vstd::arithmetic::div_mod::lemma_sub_mod_noop_right(
                c.e2@,
                c.e1@ * self.sk@,
                group_order(),
            );
        }
        m
    }
}

impl Keypair {
    /// The key pair of a secret key.
    pub fn from_secretkey(secret_key: SecretKey) -> (r: Keypair)
        ensures
            r.secret_key == secret_key,
            r.public_key.pk.wf(),
            r.public_key.pk@ == secret_key.sk@,
    {
        let public_key = secret_key.public_key();
        Keypair { secret_key, public_key }
    }
}

impl PublicKey {
    /// The encoding of the key: that of its group element.
    pub fn to_bytes(&self) -> (r: [u8; 65])
        ensures
            r@ == self.pk.encoding(),
    {
        self.pk.to_bytes()
    }

    /// Decodes a public key. `None` where the slice does not encode a group
    /// element.
    pub fn from_bytes(slice: &[u8]) -> (r: Option<PublicKey>)
        ensures
            r is Some <==> GroupElement::is_encoding(slice@),
            r is Some ==> r->0.pk.wf() && r->0.pk.encoding() == slice@,
    {
        match GroupElement::from_bytes(slice) {
            Some(pk) => Some(PublicKey { pk }),
            None => None,
        }
    }

    /// Encrypts the group element `m` with the randomness `r`:
    /// `(r * G, m + r * pk)`.
    pub fn encrypt_point_with_r(&self, m: &GroupElement, r: &Scalar) -> (c: Ciphertext)
        ensures
            c.e1.wf(),
            c.e2.wf(),
            c.e1@ == r@,
            c.e2@ == encryption(self.pk@, m@, r@),
    {
        let e1 = GroupElement::mul_base(r);
        let mask = self.pk.mul(r);
        let e2 = m.add(&mask);
        assert(e2@ == (m@ + self.pk@ * r@) % group_order()) by {
            vstd::arithmetic::div_mod::lemma_add_mod_noop_right(
                m@,
                self.pk@ * r@,
                group_order(),
            );
        }
        Ciphertext { e1, e2 }
    }
}

impl Ciphertext {
    /// The encoding of a ciphertext: the encodings of `e1` and of `e2`.
    pub open spec fn encoding(&self) -> Seq<u8> {
        self.e1.encoding() + self.e2.encoding()
    }

    /// The encoding of the ciphertext, 130 bytes.
    pub fn to_bytes(&self) -> (r: Vec<u8>)
        ensures
            r@ == self.encoding(),
    {
        let mut r: Vec<u8> = Vec::new();
        append(&mut r, &self.e1.to_bytes());
        append(&mut r, &self.e2.to_bytes());
        r
    }

    /// Decodes a ciphertext. `None` where the slice is not 130 bytes long
    /// or one of its halves does not encode a group element.
    pub fn from_bytes(slice: &[u8]) -> (r: Option<Ciphertext>)
        ensures
            r is Some <==> slice@.len() == 130 && GroupElement::is_encoding(slice@.subrange(0, 65))
                && GroupElement::is_encoding(slice@.subrange(65, 130)),
            r is Some ==> r->0.e1.wf() && r->0.e2.wf() && r->0.encoding() == slice@,
    {
        if slice.len() != CIPHERTEXT_BYTES {
            return None;
        }
        let first = vstd::slice::slice_subrange(slice, 0, 65);
        let second = vstd::slice::slice_subrange(slice, 65, 130);
        match GroupElement::from_bytes(first) {
            None => None,
            Some(e1) => match GroupElement::from_bytes(second) {
                None => None,
                Some(e2) => {
                    let c = Ciphertext { e1, e2 };
                    Some(c)
                },
            },
        }
    }
}

} // verus!
