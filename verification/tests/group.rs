use chain_vote::group::{GroupElement, GROUP_ELEMENT_BYTES};
use chain_vote::hash::{hash_to_scalar, Blake2b256};
use chain_vote::scalar::{Scalar, SCALAR_BYTES};

const ORDER: [u8; 32] = [
    0xFF, 0xFF, 0xFF, 0xFF, 0xFF, 0xFF, 0xFF, 0xFF, 0xFF, 0xFF, 0xFF, 0xFF, 0xFF, 0xFF, 0xFF, 0xFE,
    0xBA, 0xAE, 0xDC, 0xE6, 0xAF, 0x48, 0xA0, 0x3B, 0xBF, 0xD2, 0x5E, 0x8C, 0xD0, 0x36, 0x41, 0x41,
];

const GENERATOR_X: [u8; 32] = [
    0x79, 0xBE, 0x66, 0x7E, 0xF9, 0xDC, 0xBB, 0xAC, 0x55, 0xA0, 0x62, 0x95, 0xCE, 0x87, 0x0B, 0x07,
    0x02, 0x9B, 0xFC, 0xDB, 0x2D, 0xCE, 0x28, 0xD9, 0x59, 0xF2, 0x81, 0x5B, 0x16, 0xF8, 0x17, 0x98,
];

const GENERATOR_Y: [u8; 32] = [
    0x48, 0x3A, 0xDA, 0x77, 0x26, 0xA3, 0xC4, 0x65, 0x5D, 0xA4, 0xFB, 0xFC, 0x0E, 0x11, 0x08, 0xA8,
    0xFD, 0x17, 0xB4, 0x48, 0xA6, 0x85, 0x54, 0x19, 0x9C, 0x47, 0xD0, 0x8F, 0xFB, 0x10, 0xD4, 0xB8,
];

fn order_minus(k: u8) -> [u8; 32] {
    let mut bytes = ORDER;
    bytes[31] -= k;
    bytes
}

#[test]
fn scalar_from_u64_is_big_endian() {
    let s = Scalar::from_u64(0x0102_0304_0506_0708);
    let mut expected = [0u8; 32];
    expected[24..].copy_from_slice(&[1, 2, 3, 4, 5, 6, 7, 8]);
    assert_eq!(s.to_bytes(), expected);
    assert_eq!(s.as_bytes(), &expected[..]);
    assert_eq!(Scalar::zero().to_bytes(), [0u8; 32]);
    assert_eq!(Scalar::one(), Scalar::from_u64(1));
    assert_eq!(SCALAR_BYTES, 32);
}

#[test]
fn scalar_arithmetic() {
    let three = Scalar::from_u64(3);
    let four = Scalar::from_u64(4);
    assert_eq!(three.add(&four), Scalar::from_u64(7));
    assert_eq!(three.mul(&four), Scalar::from_u64(12));
    assert_eq!(three.negate().add(&three), Scalar::zero());
    assert_eq!(three.negate().to_bytes(), order_minus(3));
    assert_eq!(Scalar::zero().negate(), Scalar::zero());
    assert!(three.equals(&Scalar::from_u64(3)));
    assert!(!three.equals(&four));
}

#[test]
fn scalar_arithmetic_wraps_at_the_order() {
    let last = Scalar::from_bytes(&order_minus(1)).unwrap();
    assert_eq!(last.add(&Scalar::one()), Scalar::zero());
    assert_eq!(last.add(&Scalar::from_u64(5)), Scalar::from_u64(4));
    // (-1) * (-1) = 1
    assert_eq!(last.mul(&last), Scalar::one());
    assert_eq!(last.negate(), Scalar::one());
}

#[test]
fn scalar_from_bytes_accepts_reduced_values_only() {
    assert!(Scalar::from_bytes(&order_minus(1)).is_some());
    assert!(Scalar::from_bytes(&ORDER).is_none());
    assert!(Scalar::from_bytes(&[0xFFu8; 32]).is_none());
    assert!(Scalar::from_bytes(&[0u8; 31]).is_none());
    assert!(Scalar::from_bytes(&[0u8; 33]).is_none());
    let s = Scalar::from_bytes(&order_minus(9)).unwrap();
    assert_eq!(s.to_bytes(), order_minus(9));
}

#[test]
fn scalar_from_wide_bytes_reduces() {
    let mut wide = [0u8; 64];
    wide[63] = 9;
    assert_eq!(Scalar::from_wide_bytes(&wide), Scalar::from_u64(9));
    // the order itself reduces to zero, the order plus two to two
    let mut wide = [0u8; 64];
    wide[32..].copy_from_slice(&ORDER);
    assert_eq!(Scalar::from_wide_bytes(&wide), Scalar::zero());
    wide[63] += 2;
    assert_eq!(Scalar::from_wide_bytes(&wide), Scalar::from_u64(2));
    // 2^256 = 2^256 - order, modulo the order
    let mut wide = [0u8; 64];
    wide[31] = 1;
    let mut expected = [0u8; 32];
    let mut borrow = 0u16;
    for i in (0..32).rev() {
        let v = 0x100u16 - ORDER[i] as u16 - borrow;
        expected[i] = (v & 0xFF) as u8;
        borrow = if v > 0xFF { 0 } else { 1 };
    }
    assert_eq!(Scalar::from_wide_bytes(&wide).to_bytes(), expected);
}

#[test]
fn generator_has_the_standard_coordinates() {
    let bytes = GroupElement::generator().to_bytes();
    assert_eq!(bytes.len(), GROUP_ELEMENT_BYTES);
    assert_eq!(bytes[0], 4);
    assert_eq!(&bytes[1..33], &GENERATOR_X[..]);
    assert_eq!(&bytes[33..], &GENERATOR_Y[..]);
    assert_eq!(GroupElement::generator().compress(), Some(GENERATOR_X));
}

#[test]
fn identity_is_neutral() {
    let zero = GroupElement::zero();
    let g = GroupElement::generator();
    assert_eq!(zero.to_bytes(), [0u8; 65]);
    assert_eq!(zero.compress(), None);
    assert_eq!(zero.add(&g), g);
    assert_eq!(g.add(&zero), g);
    assert_eq!(zero.add(&zero), zero);
    assert_eq!(zero.negate(), zero);
    assert_eq!(zero.mul(&Scalar::from_u64(77)), zero);
    assert_eq!(g.mul(&Scalar::zero()), zero);
    assert_eq!(g.sub(&g), zero);
    assert_eq!(zero.sub(&g), g.negate());
}

#[test]
fn group_operations_agree() {
    let g = GroupElement::generator();
    let two = g.add(&g);
    let three = two.add(&g);
    assert_ne!(two, g);
    assert_eq!(g.mul(&Scalar::from_u64(2)), two);
    assert_eq!(g.mul(&Scalar::from_u64(3)), three);
    assert_eq!(two.mul(&Scalar::from_u64(3)), three.add(&three));
    assert_eq!(three.sub(&two), g);
    assert_eq!(two.sub(&three), g.negate());
    assert_eq!(g.negate().add(&g), GroupElement::zero());
    assert_eq!(g.mul(&Scalar::from_u64(3).negate()), three.negate());
    assert!(three.equals(&g.add(&two)));
    assert!(!three.equals(&two));
    // the order of the group annihilates the generator
    let last = Scalar::from_bytes(&order_minus(1)).unwrap();
    assert_eq!(g.mul(&last).add(&g), GroupElement::zero());
}

#[test]
fn coordinate_is_shared_with_the_inverse_only() {
    let g = GroupElement::generator();
    let five = g.mul(&Scalar::from_u64(5));
    let c = five.compress();
    assert!(c.is_some());
    assert_eq!(five.negate().compress(), c);
    assert_eq!(&five.to_bytes()[1..33], &c.unwrap()[..]);
    for k in [1u64, 2, 3, 4, 6, 7, 100] {
        assert_ne!(g.mul(&Scalar::from_u64(k)).compress(), c);
    }
}

#[test]
fn group_element_round_trip() {
    let g = GroupElement::generator();
    for k in [0u64, 1, 2, 3, 1000, u64::MAX] {
        let p = g.mul(&Scalar::from_u64(k));
        assert_eq!(GroupElement::from_bytes(&p.to_bytes()), Some(p));
    }
}

#[test]
fn group_element_from_bytes_rejects_what_is_no_encoding() {
    let g = GroupElement::generator().to_bytes();
    assert_eq!(GroupElement::from_bytes(&g[..64]), None);
    assert_eq!(GroupElement::from_bytes(&[]), None);
    let mut longer = g.to_vec();
    longer.push(0);
    assert_eq!(GroupElement::from_bytes(&longer), None);

    let mut off_curve = g;
    off_curve[64] ^= 1;
    assert_eq!(GroupElement::from_bytes(&off_curve), None);

    let mut format = g;
    format[0] = 2;
    assert_eq!(GroupElement::from_bytes(&format), None);

    let mut almost_zero = [0u8; 65];
    almost_zero[64] = 1;
    assert_eq!(GroupElement::from_bytes(&almost_zero), None);

    // coordinates that are no field elements
    let mut big = [0xFFu8; 65];
    big[0] = 4;
    assert_eq!(GroupElement::from_bytes(&big), None);
}

#[test]
fn hash_to_group_gives_points_of_the_curve() {
    let a = GroupElement::from_hash(b"first input");
    let b = GroupElement::from_hash(b"second input");
    assert_eq!(a, GroupElement::from_hash(b"first input"));
    assert_ne!(a, b);
    assert_ne!(a, GroupElement::zero());
    assert_eq!(GroupElement::from_bytes(&a.to_bytes()), Some(a));
    assert_eq!(GroupElement::from_bytes(&b.to_bytes()), Some(b));
    // the second coordinate that is chosen is the even one
    assert_eq!(a.to_bytes()[64] & 1, 0);
    assert_eq!(b.to_bytes()[64] & 1, 0);
}

#[test]
fn hash_to_group_takes_a_candidate_digest_as_coordinate() {
    let input = b"candidate";
    let x = GroupElement::from_hash(input).compress().unwrap();
    let found = (0u8..=255).any(|c| {
        let mut data = vec![c];
        data.extend_from_slice(input);
        Blake2b256::new(&data).to_bytes() == x
    });
    assert!(found);
}

#[test]
fn blake2b_known_answers() {
    let empty = Blake2b256::new(b"");
    let expected: [u8; 32] = [
        0x0e, 0x57, 0x51, 0xc0, 0x26, 0xe5, 0x43, 0xb2, 0xe8, 0xab, 0x2e, 0xb0, 0x60, 0x99, 0xda,
        0xa1, 0xd1, 0xe5, 0xdf, 0x47, 0x77, 0x8f, 0x77, 0x87, 0xfa, 0xab, 0x45, 0xcd, 0xf1, 0x2f,
        0xe3, 0xa8,
    ];
    assert_eq!(empty.to_bytes(), expected);
    assert_eq!(empty.as_bytes(), &expected[..]);
    assert_ne!(Blake2b256::new(b"a"), empty);
}

#[test]
fn hash_to_scalar_reduces_the_wide_digest() {
    // Blake2b-512 of "abc"
    let digest: [u8; 64] = [
        0xba, 0x80, 0xa5, 0x3f, 0x98, 0x1c, 0x4d, 0x0d, 0x6a, 0x27, 0x97, 0xb6, 0x9f, 0x12, 0xf6,
        0xe9, 0x4c, 0x21, 0x2f, 0x14, 0x68, 0x5a, 0xc4, 0xb7, 0x4b, 0x12, 0xbb, 0x6f, 0xdb, 0xff,
        0xa2, 0xd1, 0x7d, 0x87, 0xc5, 0x39, 0x2a, 0xab, 0x79, 0x2d, 0xc2, 0x52, 0xd5, 0xde, 0x45,
        0x33, 0xcc, 0x95, 0x18, 0xd3, 0x8a, 0xa8, 0xdb, 0xf1, 0x92, 0x5a, 0xb9, 0x23, 0x86, 0xed,
        0xd4, 0x00, 0x99, 0x23,
    ];
    assert_eq!(hash_to_scalar(b"abc"), Scalar::from_wide_bytes(&digest));
    assert_ne!(hash_to_scalar(b"abc"), hash_to_scalar(b"abd"));
}
