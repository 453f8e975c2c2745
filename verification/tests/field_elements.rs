use curve25519_dalek::scalar::Scalar;
use poseidon_merkle::field::{bytes_equal, key_bytes, FieldElement};

const ORDER_MINUS_ONE: [u8; 32] = [
    236, 211, 245, 92, 26, 99, 18, 88, 214, 156, 247, 162, 222, 249, 222, 20, 0, 0, 0, 0, 0, 0, 0,
    0, 0, 0, 0, 0, 0, 0, 0, 16,
];

const ORDER: [u8; 32] = [
    237, 211, 245, 92, 26, 99, 18, 88, 214, 156, 247, 162, 222, 249, 222, 20, 0, 0, 0, 0, 0, 0, 0,
    0, 0, 0, 0, 0, 0, 0, 0, 16,
];

fn element(bytes: [u8; 32]) -> FieldElement {
    FieldElement::from_bytes_mod_order(bytes)
}

fn scalar_of(x: &FieldElement) -> Scalar {
    Scalar::from_bytes_mod_order(x.to_bytes())
}

#[test]
fn encoding_is_little_endian() {
    let mut one = [0u8; 32];
    one[0] = 1;
    assert_eq!(FieldElement::from_u64(1).to_bytes(), one);
    assert_eq!(FieldElement::one().to_bytes(), one);
    assert_eq!(FieldElement::zero().to_bytes(), [0u8; 32]);
    let mut big = [0u8; 32];
    big[0] = 0x02;
    big[1] = 0x01;
    assert_eq!(FieldElement::from_u64(0x0102).to_bytes(), big);
    let mut word = [0u8; 32];
    word[..8].copy_from_slice(&u64::MAX.to_le_bytes());
    assert_eq!(FieldElement::from_u64(u64::MAX).to_bytes(), word);
}

#[test]
fn key_bytes_puts_the_byte_last() {
    let key = key_bytes(7);
    assert_eq!(key[31], 7);
    assert!(key[..31].iter().all(|b| *b == 0));
    // 7 * 2^248 is below the group order, so the key is its own encoding
    assert_eq!(element(key).to_bytes(), key);
    assert_eq!(key_bytes(0), [0u8; 32]);
}

#[test]
fn encode_decode_round_trip() {
    let samples = [
        [0u8; 32],
        ORDER_MINUS_ONE,
        key_bytes(1),
        key_bytes(15),
        FieldElement::from_u64(101).to_bytes(),
        FieldElement::from_u64(u64::MAX).to_bytes(),
    ];
    for bytes in samples {
        let x = element(bytes);
        assert_eq!(x.to_bytes(), bytes);
        assert_eq!(element(x.to_bytes()), x);
        assert_eq!(FieldElement::from_canonical_bytes(x.to_bytes()), Some(x));
    }
}

#[test]
fn decoding_reduces_modulo_the_group_order() {
    assert_eq!(element(ORDER), FieldElement::zero());
    let all_ones = element([0xff; 32]);
    let expected: [u8; 32] = [
        28, 149, 152, 141, 116, 49, 236, 214, 112, 207, 125, 115, 244, 91, 239, 198, 254, 255, 255,
        255, 255, 255, 255, 255, 255, 255, 255, 255, 255, 255, 255, 15,
    ];
    assert_eq!(all_ones.to_bytes(), expected);
    // 16 * 2^248 is below the order, 17 * 2^248 is not
    assert_eq!(element(key_bytes(16)).to_bytes(), key_bytes(16));
    assert_ne!(element(key_bytes(17)).to_bytes(), key_bytes(17));
}

#[test]
fn canonical_decoding_refuses_unreduced_bytes() {
    assert!(FieldElement::from_canonical_bytes(ORDER_MINUS_ONE).is_some());
    assert_eq!(FieldElement::from_canonical_bytes(ORDER), None);
    assert_eq!(FieldElement::from_canonical_bytes([0xff; 32]), None);
    assert!(FieldElement::from_canonical_bytes(key_bytes(16)).is_some());
    assert_eq!(FieldElement::from_canonical_bytes(key_bytes(17)), None);
    assert_eq!(
        FieldElement::from_canonical_bytes([0u8; 32]),
        Some(FieldElement::zero())
    );
}

#[test]
fn arithmetic_on_small_values() {
    let three = FieldElement::from_u64(3);
    let five = FieldElement::from_u64(5);
    assert_eq!(three.add(&five), FieldElement::from_u64(8));
    assert_eq!(three.mul(&five), FieldElement::from_u64(15));
    assert_eq!(five.sub(&three), FieldElement::from_u64(2));
    assert_ne!(three.mul(&five), three);
    assert_ne!(three.add(&five), three);
}

#[test]
fn arithmetic_wraps_at_the_group_order() {
    let max = element(ORDER_MINUS_ONE);
    let one = FieldElement::one();
    let zero = FieldElement::zero();
    assert_eq!(max.add(&one), zero);
    assert_eq!(zero.sub(&one), max);
    assert_eq!(max.mul(&max), one);
    assert_eq!(max.add(&max), max.sub(&one));
}

#[test]
fn inverse_is_the_inverse() {
    let two = FieldElement::from_u64(2);
    let half: [u8; 32] = [
        247, 233, 122, 46, 141, 49, 9, 44, 107, 206, 123, 81, 239, 124, 111, 10, 0, 0, 0, 0, 0, 0,
        0, 0, 0, 0, 0, 0, 0, 0, 0, 8,
    ];
    assert_eq!(two.invert().to_bytes(), half);
    assert_eq!(two.invert().mul(&two), FieldElement::one());
    let sixth: [u8; 32] = [
        155, 48, 34, 248, 149, 82, 15, 244, 7, 88, 206, 135, 57, 208, 185, 102, 85, 85, 85, 85, 85,
        85, 85, 85, 85, 85, 85, 85, 85, 85, 85, 13,
    ];
    assert_eq!(FieldElement::from_u64(6).invert().to_bytes(), sixth);
    assert_eq!(FieldElement::one().invert(), FieldElement::one());
}

#[test]
fn arithmetic_agrees_with_the_scalars() {
    let a = element([0x5a; 32]);
    let b = element([0xc3; 32]);
    assert_eq!(scalar_of(&a.add(&b)), scalar_of(&a) + scalar_of(&b));
    assert_eq!(scalar_of(&a.sub(&b)), scalar_of(&a) - scalar_of(&b));
    assert_eq!(scalar_of(&a.mul(&b)), scalar_of(&a) * scalar_of(&b));
    assert_eq!(scalar_of(&a.invert()), scalar_of(&a).invert());
    assert_eq!(scalar_of(&FieldElement::from_u64(99)), Scalar::from(99u64));
}

#[test]
fn equality_is_equality_of_values() {
    let a = FieldElement::from_u64(12);
    let b = FieldElement::from_u64(3).mul(&FieldElement::from_u64(4));
    let c = FieldElement::from_u64(13);
    assert!(a.equals(&b));
    assert!(!a.equals(&c));
    assert_eq!(a, b);
    assert!(bytes_equal(&a.to_bytes(), &b.to_bytes()));
    assert!(!bytes_equal(&a.to_bytes(), &c.to_bytes()));
    let mut last_differs = a.to_bytes();
    last_differs[31] ^= 1;
    assert!(!bytes_equal(&a.to_bytes(), &last_differs));
}
