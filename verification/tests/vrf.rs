use chain_vote::dleq;
use chain_vote::group::GroupElement;
use chain_vote::scalar::Scalar;
use chain_vote::vrf::{
    ProvenOutputSeed, PublicKey, PublicKeyError, SecretKey, PROOF_SIZE, PUBLIC_SIZE, SECRET_SIZE,
};
use rand_chacha::rand_core::{Rng, SeedableRng};
use rand_chacha::ChaCha20Rng;

fn random_scalar(rng: &mut ChaCha20Rng) -> Scalar {
    let mut wide = [0u8; 64];
    rng.fill_bytes(&mut wide);
    Scalar::from_wide_bytes(&wide)
}

fn random_secret_key(rng: &mut ChaCha20Rng) -> SecretKey {
    SecretKey::from_bytes(random_scalar(rng).to_bytes()).unwrap()
}

#[test]
fn vrf_it_works() {
    let mut csprng = ChaCha20Rng::from_seed([0u8; 32]);
    let sk = random_secret_key(&mut csprng);
    let pk = sk.public();

    let sk_other = random_secret_key(&mut csprng);
    let pk_other = sk_other.public();

    let mut b1 = [0u8; 10];
    for i in b1.iter_mut() {
        *i = csprng.next_u32() as u8;
    }
    let mut b2 = [0u8; 10];
    for i in b2.iter_mut() {
        *i = csprng.next_u32() as u8;
    }

    let proof = sk.evaluate(&random_scalar(&mut csprng), &b1[..]);

    // make sure the test pass
    assert_eq!(proof.verify(&pk, &b1[..]), true);

    // now try with false positive
    assert_eq!(proof.verify(&pk, &b2[..]), false);
    assert_eq!(proof.verify(&pk_other, &b1[..]), false);
    assert_eq!(proof.verify(&pk_other, &b2[..]), false);
}

#[test]
fn vrf_sizes() {
    assert_eq!(SECRET_SIZE, 32);
    assert_eq!(PUBLIC_SIZE, 65);
    assert_eq!(PROOF_SIZE, 129);
    assert_eq!(dleq::PROOF_SIZE, 64);
}

#[test]
fn vrf_secret_key_round_trip() {
    let mut rng = ChaCha20Rng::from_seed([1u8; 32]);
    let sk = random_secret_key(&mut rng);
    let bytes = sk.to_bytes();
    assert_eq!(sk.as_bytes(), &bytes[..]);
    let back = SecretKey::from_bytes(bytes).unwrap();
    assert_eq!(back.to_bytes(), bytes);
    assert_eq!(back.public(), sk.public());
    assert!(SecretKey::from_bytes([0xFFu8; 32]).is_none());
}

#[test]
fn vrf_public_key_is_secret_times_generator() {
    let mut seven = [0u8; 32];
    seven[31] = 7;
    let sk = SecretKey::from_bytes(seven).unwrap();
    let expected = GroupElement::generator().mul(&Scalar::from_u64(7));
    assert_eq!(sk.public().as_bytes(), &expected.to_bytes()[..]);
}

#[test]
fn vrf_public_key_round_trip() {
    let mut rng = ChaCha20Rng::from_seed([2u8; 32]);
    let pk = random_secret_key(&mut rng).public();
    let bytes = pk.as_bytes().to_vec();
    assert_eq!(bytes.len(), PUBLIC_SIZE);
    assert_eq!(PublicKey::from_bytes(&bytes), Ok(pk));
    let mut buffer = vec![0u8; PUBLIC_SIZE];
    pk.to_buffer(&mut buffer);
    assert_eq!(buffer, bytes);
}

#[test]
fn vrf_public_key_errors() {
    let mut rng = ChaCha20Rng::from_seed([3u8; 32]);
    let pk = random_secret_key(&mut rng).public();
    let bytes = pk.as_bytes().to_vec();
    assert_eq!(
        PublicKey::from_bytes(&bytes[..64]),
        Err(PublicKeyError::SizeInvalid)
    );
    assert_eq!(PublicKey::from_bytes(&[]), Err(PublicKeyError::SizeInvalid));
    let mut bad = bytes.clone();
    bad[40] ^= 0x10;
    assert_eq!(
        PublicKey::from_bytes(&bad),
        Err(PublicKeyError::StructureInvalid)
    );
}

#[test]
fn vrf_output_seed_is_secret_times_hashed_input() {
    let mut rng = ChaCha20Rng::from_seed([4u8; 32]);
    let secret = random_scalar(&mut rng);
    let sk = SecretKey::from_bytes(secret.to_bytes()).unwrap();
    let (point, seed) = sk.verifiable_output(b"input");
    assert_eq!(point, GroupElement::from_hash(b"input"));
    let proven = sk.proove(&random_scalar(&mut rng), point, seed);
    assert_eq!(proven.to_output(), seed);
    assert_eq!(&proven.bytes()[..65], &point.mul(&secret).to_bytes()[..]);
    assert!(proven.verify(&sk.public(), b"input"));
}

#[test]
fn vrf_proof_round_trip() {
    let mut rng = ChaCha20Rng::from_seed([5u8; 32]);
    let sk = random_secret_key(&mut rng);
    let pk = sk.public();
    let proven = sk.evaluate(&random_scalar(&mut rng), b"slot 42");
    let bytes = proven.bytes();
    assert_eq!(bytes.len(), PROOF_SIZE);
    let mut buffer = vec![0u8; PROOF_SIZE];
    proven.to_buffer(&mut buffer);
    assert_eq!(&buffer[..], &bytes[..]);

    assert_eq!(ProvenOutputSeed::from_bytes_unverified(&bytes), Some(proven));
    assert_eq!(ProvenOutputSeed::from_bytes(&pk, &bytes, b"slot 42"), Some(proven));
    assert_eq!(ProvenOutputSeed::from_bytes(&pk, &bytes, b"slot 43"), None);
    assert_eq!(ProvenOutputSeed::from_bytes_unverified(&bytes[..128]), None);
    assert_eq!(ProvenOutputSeed::from_bytes(&pk, &bytes[..128], b"slot 42"), None);

    let mut bad_scalar = bytes;
    for b in bad_scalar[65..97].iter_mut() {
        *b = 0xFF;
    }
    assert_eq!(ProvenOutputSeed::from_bytes_unverified(&bad_scalar), None);
    let mut bad_point = bytes;
    bad_point[10] ^= 1;
    assert_eq!(ProvenOutputSeed::from_bytes_unverified(&bad_point), None);
}

#[test]
fn vrf_verifiable_output_needs_a_valid_proof() {
    let mut rng = ChaCha20Rng::from_seed([6u8; 32]);
    let sk = random_secret_key(&mut rng);
    let other = random_secret_key(&mut rng);
    let proven = sk.evaluate(&random_scalar(&mut rng), b"data");
    assert_eq!(
        proven.to_verifiable_output(&sk.public(), b"data"),
        Some(proven.to_output())
    );
    assert_eq!(proven.to_verifiable_output(&other.public(), b"data"), None);
    assert_eq!(proven.to_verifiable_output(&sk.public(), b"date"), None);
}

#[test]
fn vrf_output_depends_on_input_and_suffix() {
    let mut rng = ChaCha20Rng::from_seed([7u8; 32]);
    let sk = random_secret_key(&mut rng);
    let (_, seed) = sk.verifiable_output(b"data");
    let a = seed.to_output(b"data", b"nonce");
    assert_eq!(a, seed.to_output(b"data", b"nonce"));
    assert_ne!(a, seed.to_output(b"data", b"leader"));
    assert_ne!(a, seed.to_output(b"date", b"nonce"));
    // the seed stands between the input and the suffix
    let mut buf = b"data".to_vec();
    buf.extend_from_slice(&sk.evaluate(&random_scalar(&mut rng), b"data").bytes()[..65]);
    buf.extend_from_slice(b"nonce");
    assert_eq!(a, chain_vote::hash::Blake2b256::new(&buf));
}

#[test]
fn dleq_proof_holds_for_equal_logarithms_only() {
    let mut rng = ChaCha20Rng::from_seed([8u8; 32]);
    let a = random_scalar(&mut rng);
    let g1 = GroupElement::generator();
    let g2 = GroupElement::from_hash(b"second base");
    let statement = dleq::Dleq {
        g1,
        h1: g1.mul(&a),
        g2,
        h2: g2.mul(&a),
    };
    let proof = dleq::generate(&random_scalar(&mut rng), &a, &statement);
    assert!(dleq::verify(&statement, &proof));

    let b = random_scalar(&mut rng);
    let unequal = dleq::Dleq {
        g1,
        h1: g1.mul(&a),
        g2,
        h2: g2.mul(&b),
    };
    assert!(!dleq::verify(&unequal, &proof));
    let forged = dleq::generate(&random_scalar(&mut rng), &a, &unequal);
    assert!(!dleq::verify(&unequal, &forged));

    let mut bytes = [0u8; 64];
    proof.to_bytes(&mut bytes);
    assert_eq!(dleq::Proof::from_bytes(&bytes), Some(proof));
    assert_eq!(dleq::Proof::from_bytes(&bytes[..63]), None);
    assert_eq!(dleq::Proof::from_bytes(&[0xFFu8; 64]), None);
}

#[test]
fn vrf_keys_as_byte_slices() {
    let mut rng = ChaCha20Rng::from_seed([9u8; 32]);
    let sk = random_secret_key(&mut rng);
    let pk = sk.public();
    let secret: &[u8] = sk.as_ref();
    let public: &[u8] = pk.as_ref();
    assert_eq!(secret, &sk.to_bytes()[..]);
    assert_eq!(public, pk.as_bytes());
    assert_eq!(public.len(), PUBLIC_SIZE);
}
