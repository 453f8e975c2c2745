use curve25519_dalek::constants::RISTRETTO_BASEPOINT_POINT;
use curve25519_dalek::ristretto::{CompressedRistretto, RistrettoPoint};
use curve25519_dalek::scalar::Scalar;
use poseidon_merkle::field::FieldElement;
use poseidon_merkle::keys::{Point, PrivateSet, PublicSet, RingPublicKey, SIZE};
use rand::rngs::OsRng;
use sha2::Sha512;

fn random_element() -> FieldElement {
    FieldElement::from_bytes_mod_order(Scalar::random(&mut OsRng).to_bytes())
}

fn scalar_of(x: &FieldElement) -> Scalar {
    Scalar::from_bytes_mod_order(x.to_bytes())
}

fn generate_private_set(size: usize) -> PrivateSet {
    PrivateSet::new((0..size).map(|_| random_element()).collect())
}

#[test]
fn private_set_to_public_set() {
    let private_set = generate_private_set(10);
    let public_set = private_set.to_public_set();

    assert_eq!(private_set.len(), public_set.len());

    for i in 0..private_set.len() {
        match (private_set.0.get(i), public_set.0.get(i)) {
            (Some(private_key), Some(expected_public_key)) => {
                let public_key = scalar_of(private_key) * RISTRETTO_BASEPOINT_POINT;
                assert_eq!(public_key.compress().to_bytes(), expected_public_key.to_bytes());
            }
            _ => panic!("could not get the private/public key at index {} ", i),
        }
    }
}

#[test]
fn check_duplicates_exist() {
    let private_set = generate_private_set(10);
    let mut public_set = private_set.to_public_set();

    let dup_exists = public_set.duplicates_exist();
    assert!(!dup_exists);

    let last_element = public_set.0.last().unwrap().clone();
    public_set.0[0] = last_element;

    let dup_exists = public_set.duplicates_exist();
    assert!(dup_exists);
}

#[test]
fn duplicates_are_found_wherever_they_are() {
    let keys = generate_private_set(4).to_public_set();
    assert!(!PublicSet(Vec::new()).duplicates_exist());
    assert!(!PublicSet(vec![keys.0[0]]).duplicates_exist());
    assert!(PublicSet(vec![keys.0[0], keys.0[0]]).duplicates_exist());
    assert!(PublicSet(vec![keys.0[0], keys.0[1], keys.0[2], keys.0[1]]).duplicates_exist());
    assert!(PublicSet(vec![keys.0[0], keys.0[1], keys.0[2], keys.0[2]]).duplicates_exist());
    assert!(!PublicSet(vec![keys.0[0], keys.0[1], keys.0[2], keys.0[3]]).duplicates_exist());
}

#[test]
fn ring_public_key_bytes() {
    let bytes = [7u8; 32];
    let key = RingPublicKey::new(bytes);
    assert_eq!(key.0, bytes);
    assert_eq!(key.as_bytes(), bytes.to_vec());
    assert_eq!(RingPublicKey::from_bytes(&bytes), Some(key));
    assert_eq!(RingPublicKey::from_bytes(&bytes[..31]), None);
    assert_eq!(RingPublicKey::from_bytes(&[0u8; 33]), None);
    assert_eq!(RingPublicKey::from_bytes(&[]), None);
    let mut counting = [0u8; 32];
    for (i, b) in counting.iter_mut().enumerate() {
        *b = i as u8;
    }
    assert_eq!(RingPublicKey::from_bytes(&counting).unwrap().as_bytes(), counting.to_vec());
    assert_eq!(SIZE, 32);
}

#[test]
fn points_are_valid_encodings() {
    let base = RISTRETTO_BASEPOINT_POINT.compress().to_bytes();
    let point = Point::from_bytes(base).unwrap();
    assert_eq!(point.to_bytes(), base);
    assert_eq!(Point::mul_base(&FieldElement::one()), point);
    // the encoding of an element has its lowest bit clear
    assert_eq!(Point::from_bytes([1u8; 32]), None);
    assert_eq!(Point::from_bytes([0xff; 32]), None);
    assert!(Point::from_bytes([0u8; 32]).is_some());
    assert!(point.equals(&point));
    assert!(!point.equals(&Point::mul_base(&FieldElement::from_u64(2))));
}

#[test]
fn products_agree_with_the_curve() {
    let x = random_element();
    let y = random_element();
    let p = Point::mul_base(&x);
    assert_eq!(p.to_bytes(), RistrettoPoint::mul_base(&scalar_of(&x)).compress().to_bytes());
    let q = p.mul(&y);
    let expected = CompressedRistretto(p.to_bytes()).decompress().unwrap() * scalar_of(&y);
    assert_eq!(q.to_bytes(), expected.compress().to_bytes());
    assert_eq!(q, Point::mul_base(&x.mul(&y)));
    assert_ne!(q, p);
}

#[test]
fn hashed_pubkey_hashes_the_first_key() {
    let set = generate_private_set(3).to_public_set();
    let expected = RistrettoPoint::hash_from_bytes::<Sha512>(&set.0[0].to_bytes());
    assert_eq!(set.hashed_pubkey().to_bytes(), expected.compress().to_bytes());
    assert_ne!(set.hashed_pubkey(), set.0[0]);
    let direct = Point::hash_from_bytes(b"some message");
    let expected = RistrettoPoint::hash_from_bytes::<Sha512>(b"some message");
    assert_eq!(direct.to_bytes(), expected.compress().to_bytes());
}

#[test]
fn public_set_bytes_are_the_keys_in_order() {
    let set = generate_private_set(3).to_public_set();
    let bytes = set.to_bytes();
    assert_eq!(bytes.len(), 96);
    for i in 0..3 {
        assert_eq!(&bytes[32 * i..32 * (i + 1)], &set.0[i].to_bytes()[..]);
    }
    let keys = set.to_keys();
    assert_eq!(keys.len(), 3);
    for i in 0..3 {
        assert_eq!(keys[i], set.0[i].to_bytes());
    }
    assert_eq!(PublicSet(Vec::new()).to_bytes(), Vec::<u8>::new());
    assert_eq!(PublicSet(Vec::new()).len(), 0);
}

#[test]
fn key_images_are_products_with_the_signers_point() {
    let private_set = generate_private_set(4);
    let public_set = private_set.to_public_set();
    let signers_basepoint = public_set.hashed_pubkey();
    let images = private_set.compute_key_images(&signers_basepoint);
    assert_eq!(images.len(), 4);
    let base = CompressedRistretto(signers_basepoint.to_bytes()).decompress().unwrap();
    for i in 0..4 {
        let expected = (scalar_of(&private_set.0[i]) * base).compress().to_bytes();
        assert_eq!(images[i], expected);
        assert_ne!(images[i], public_set.0[i].to_bytes());
    }
    assert_eq!(PrivateSet::new(Vec::new()).len(), 0);
    assert_eq!(PrivateSet::new(Vec::new()).compute_key_images(&signers_basepoint).len(), 0);
}
