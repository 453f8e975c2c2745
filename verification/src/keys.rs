//! Key sets of a ring signature over the Ristretto group.
//!
//! A group element is held as its canonical 32-byte Ristretto encoding, so
//! that keys can be compared, hashed and serialised as plain bytes. The
//! group operations themselves are those of `curve25519_dalek`; their results
//! are referred to by name.

use crate::field::{bytes_equal, group_order, le_value, FieldElement};
use curve25519_dalek::ristretto::{CompressedRistretto, RistrettoPoint};
use curve25519_dalek::scalar::Scalar;
use sha2::Sha512;
use vstd::prelude::*;

verus! {

/// The number of bytes of an encoded key.
pub const SIZE: usize = 32;

/// Whether 32 bytes are the canonical encoding of a group element: whether
/// `CompressedRistretto::decompress` accepts them.
pub uninterp spec fn ristretto_valid(bytes: Seq<u8>) -> bool;

/// The encoding of the product of the scalar `x` and the Ristretto base
/// point, as `RistrettoPoint::mul_base` computes it.
pub uninterp spec fn ristretto_mul_base(x: nat) -> Seq<u8>;

/// The encoding of the product of the scalar `x` and the group element that
/// `point` encodes.
pub uninterp spec fn ristretto_mul(x: nat, point: Seq<u8>) -> Seq<u8>;

/// The encoding of the group element that `RistrettoPoint::hash_from_bytes`
/// maps `input` to, with SHA-512 as the hash.
pub uninterp spec fn ristretto_hash_sha512(input: Seq<u8>) -> Seq<u8>;

/// `CompressedRistretto::decompress`: whether the bytes decode to a group
/// element.
#[verifier::external_body]
fn ristretto_decompresses(bytes: &[u8; 32]) -> (r: bool)
    ensures
        r == ristretto_valid(bytes@),
{
    CompressedRistretto(*bytes).decompress().is_some()
}

/// `RistrettoPoint::mul_base`, compressed: the encoding of `x` times the
/// base point. The encoding of a group element is always valid.
#[verifier::external_body]
fn ristretto_base_product(x: &[u8; 32]) -> (r: [u8; 32])
    requires
        le_value(x@) < group_order(),
    ensures
        r@ == ristretto_mul_base(le_value(x@)),
        ristretto_valid(r@),
{
    RistrettoPoint::mul_base(&Scalar::from_bytes_mod_order(*x)).compress().to_bytes()
}

/// `Scalar * RistrettoPoint`, compressed: the encoding of `x` times the
/// element that `point` encodes.
#[verifier::external_body]
fn ristretto_product(x: &[u8; 32], point: &[u8; 32]) -> (r: [u8; 32])
    requires
        le_value(x@) < group_order(),
        ristretto_valid(point@),
    ensures
        r@ == ristretto_mul(le_value(x@), point@),
        ristretto_valid(r@),
{
    let p = CompressedRistretto(*point).decompress().unwrap();
    (Scalar::from_bytes_mod_order(*x) * p).compress().to_bytes()
}

/// `RistrettoPoint::hash_from_bytes::<Sha512>`, compressed.
#[verifier::external_body]
fn ristretto_hash(input: &[u8]) -> (r: [u8; 32])
    ensures
        r@ == ristretto_hash_sha512(input@),
        ristretto_valid(r@),
{
    RistrettoPoint::hash_from_bytes::<Sha512>(input).compress().to_bytes()
}

/// An element of the Ristretto group, held as its canonical encoding.
#[derive(Clone, Copy, Debug, PartialEq, Eq)]
pub struct Point {
    bytes: [u8; 32],
}

impl View for Point {
    type V = Seq<u8>;

    /// The canonical encoding of the element.
    closed spec fn view(&self) -> Seq<u8> {
        self.bytes@
    }
}

impl Point {
    /// Only valid encodings are held.
    #[verifier::type_invariant]
    pub open spec fn is_valid(&self) -> bool {
        ristretto_valid(self@)
    }

    /// The element that the bytes encode, if they encode one.
    pub fn from_bytes(bytes: [u8; 32]) -> (r: Option<Point>)
        ensures
            r.is_some() <==> ristretto_valid(bytes@),
            r matches Some(p) ==> p@ == bytes@,
    {
        if ristretto_decompresses(&bytes) {
            Some(Point { bytes })
        } else {
            None
        }
    }

    /// The canonical encoding.
    pub fn to_bytes(&self) -> (r: [u8; 32])
        ensures
            r@ == self@,
            ristretto_valid(r@),
    {
        proof {
            use_type_invariant(self);
        }
        self.bytes
    }

    /// The product of the scalar and the base point.
    pub fn mul_base(scalar: &FieldElement) -> (r: Point)
        ensures
            r@ == ristretto_mul_base(scalar@),
    {
        let x = scalar.to_bytes();
        Point { bytes: ristretto_base_product(&x) }
    }

    /// The product of the scalar and this element.
    pub fn mul(&self, scalar: &FieldElement) -> (r: Point)
        ensures
            r@ == ristretto_mul(scalar@, self@),
    {
        proof {
            use_type_invariant(self);
        }
        let x = scalar.to_bytes();
        Point { bytes: ristretto_product(&x, &self.bytes) }
    }

    /// The element that `input` hashes to.
    pub fn hash_from_bytes(input: &[u8]) -> (r: Point)
        ensures
            r@ == ristretto_hash_sha512(input@),
    {
        Point { bytes: ristretto_hash(input) }
    }

    /// Whether two elements are the same.
    pub fn equals(&self, other: &Point) -> (r: bool)
        ensures
            r == (self@ == other@),
    {
        bytes_equal(&self.bytes, &other.bytes)
    }

    /// Every encoding has `SIZE` bytes.
    pub broadcast proof fn lemma_len(&self)
        ensures
            #[trigger] self@.len() == SIZE,
    {
    }
}

/// The public key of a ring member, as 32 bytes.
#[derive(Clone, Copy, Debug, PartialEq, Eq, Default)]
pub struct RingPublicKey(pub [u8; 32]);

impl RingPublicKey {
    /// Constructor from bytes.
    pub fn new(bytes: [u8; 32]) -> (r: Self)
        ensures
            r.0 == bytes,
    {
        RingPublicKey(bytes)
    }

    /// Serialize this public key to 32 bytes.
    pub fn as_bytes(&self) -> (r: Vec<u8>)
        ensures
            r@ == self.0@,
    {
        let mut out: Vec<u8> = Vec::new();
        let mut i: usize = 0;
        while i < 32
            invariant
                i <= 32,
                out@ == self.0@.take(i as int),
            decreases 32 - i,
        {
            out.push(self.0[i]);
            assert(self.0@.take(i + 1) =~= self.0@.take(i as int).push(self.0@[i as int]));
            i += 1;
        }
        assert(self.0@.take(32) =~= self.0@);
        out
    }

    /// Deserialize this public key from 32 bytes; `None` for any other
    /// number of bytes.
    pub fn from_bytes(bytes: &[u8]) -> (r: Option<RingPublicKey>)
        ensures
            r.is_some() <==> bytes@.len() == 32,
            r matches Some(key) ==> key.0@ == bytes@,
    {
        if bytes.len() != 32 {
            return None;
        }
        let mut arr = [0u8; 32];
        let mut i: usize = 0;
        while i < 32
            invariant
                i <= 32,
                bytes@.len() == 32,
                forall|k: int| 0 <= k < i ==> arr[k] == bytes[k],
            decreases 32 - i,
        {
            arr[i] = bytes[i];
            i += 1;
        }
        assert(arr@ =~= bytes@);
        Some(RingPublicKey(arr))
    }
}

/// The encodings of `points`, one after the other.
pub open spec fn concat_encodings(points: Seq<Point>) -> Seq<u8> {
    Seq::new(points.len() * 32, |k: int| points[k / 32]@[k % 32])
}

/// Whether some element occurs at two positions.
pub open spec fn has_duplicates(points: Seq<Point>) -> bool {
    exists|i: int, j: int| 0 <= i < j < points.len() && points[i]@ == points[j]@
}

/// A set of public keys.
#[derive(Debug, Clone)]
pub struct PublicSet(pub Vec<Point>);

impl PublicSet {
    /// Returns the number of public keys in the set.
    pub fn len(&self) -> (r: usize)
        ensures
            r == self.0@.len(),
    {
        self.0.len()
    }

    /// Checks if the public set contains any duplicate keys.
    pub fn duplicates_exist(&self) -> (r: bool)
        ensures
            r == has_duplicates(self.0@),
    {
        let n = self.0.len();
        let mut j: usize = 0;
        while j < n
            invariant
                j <= n == self.0@.len(),
                forall|a: int, b: int| 0 <= a < b < j ==> self.0@[a]@ != self.0@[b]@,
            decreases n - j,
        {
            let mut i: usize = 0;
            while i < j
                invariant
                    i <= j < n == self.0@.len(),
                    forall|a: int| 0 <= a < i ==> self.0@[a]@ != self.0@[j as int]@,
                decreases j - i,
            {
                if self.0[i].equals(&self.0[j]) {
                    return true;
                }
                i += 1;
            }
            j += 1;
        }
        false
    }

    /// Returns the hash-to-point of the first public key in the set.
    pub fn hashed_pubkey(&self) -> (r: Point)
        requires
            self.0@.len() > 0,
        ensures
            r@ == ristretto_hash_sha512(self.0@[0]@),
    {
        let first_pubkey = self.0[0].to_bytes();
        Point::hash_from_bytes(first_pubkey.as_slice())
    }

    /// Copies the public key set into a vector of bytes: the encodings of
    /// the keys, in order.
    pub fn to_bytes(&self) -> (r: Vec<u8>)
        ensures
            r@ == concat_encodings(self.0@),
    {
        let mut out: Vec<u8> = Vec::new();
        let mut i: usize = 0;
        while i < self.0.len()
            invariant
                i <= self.0@.len(),
                out@.len() == i * 32,
                forall|k: int| 0 <= k < out@.len() ==> out@[k] == self.0@[k / 32]@[k % 32],
            decreases self.0@.len() - i,
        {
            let bytes = self.0[i].to_bytes();
            let mut b: usize = 0;
            while b < 32
                invariant
                    b <= 32,
                    i < self.0@.len(),
                    bytes@ == self.0@[i as int]@,
                    out@.len() == i * 32 + b,
                    forall|k: int| 0 <= k < out@.len() ==> out@[k] == self.0@[k / 32]@[k % 32],
                decreases 32 - b,
            {
                out.push(bytes[b]);
                b += 1;
            }
            i += 1;
        }
        assert(out@ =~= concat_encodings(self.0@));
        out
    }

    /// The encodings of the keys.
    pub fn to_keys(&self) -> (r: Vec<[u8; 32]>)
        ensures
            r@.len() == self.0@.len(),
            forall|i: int| 0 <= i < r@.len() ==> (#[trigger] r@[i])@ == self.0@[i]@,
    {
        let mut out: Vec<[u8; 32]> = Vec::new();
        let mut i: usize = 0;
        while i < self.0.len()
            invariant
                i <= self.0@.len(),
                out@.len() == i,
                forall|k: int| 0 <= k < i ==> (#[trigger] out@[k])@ == self.0@[k]@,
            decreases self.0@.len() - i,
        {
            out.push(self.0[i].to_bytes());
            i += 1;
        }
        out
    }
}

/// A set of private keys.
#[derive(Debug, Clone)]
pub struct PrivateSet(pub Vec<FieldElement>);

impl PrivateSet {
    pub fn new(scalars: Vec<FieldElement>) -> (r: Self)
        ensures
            r.0 == scalars,
    {
        PrivateSet(scalars)
    }

    /// Takes a set of private keys and returns the corresponding public key
    /// set: each key times the base point.
    pub fn to_public_set(&self) -> (r: PublicSet)
        ensures
            r.0@.len() == self.0@.len(),
            forall|i: int|
                0 <= i < self.0@.len() ==> (#[trigger] r.0@[i])@ == ristretto_mul_base(
                    self.0@[i]@,
                ),
    {
        let mut public_keys: Vec<Point> = Vec::new();
        let mut i: usize = 0;
        while i < self.0.len()
            invariant
                i <= self.0@.len(),
                public_keys@.len() == i,
                forall|k: int|
                    0 <= k < i ==> (#[trigger] public_keys@[k])@ == ristretto_mul_base(
                        self.0@[k]@,
                    ),
            decreases self.0@.len() - i,
        {
            public_keys.push(Point::mul_base(&self.0[i]));
            i += 1;
        }
        PublicSet(public_keys)
    }

    /// Returns all of the key images for the set: each private key times
    /// `signers_basepoint`, encoded.
    pub fn compute_key_images(&self, signers_basepoint: &Point) -> (r: Vec<[u8; 32]>)
        ensures
            r@.len() == self.0@.len(),
            forall|i: int|
                0 <= i < self.0@.len() ==> (#[trigger] r@[i])@ == ristretto_mul(
                    self.0@[i]@,
                    signers_basepoint@,
                ),
    {
        let mut images: Vec<[u8; 32]> = Vec::new();
        let mut i: usize = 0;
        while i < self.0.len()
            invariant
                i <= self.0@.len(),
                images@.len() == i,
                forall|k: int|
                    0 <= k < i ==> (#[trigger] images@[k])@ == ristretto_mul(
                        self.0@[k]@,
                        signers_basepoint@,
                    ),
            decreases self.0@.len() - i,
        {
            images.push(signers_basepoint.mul(&self.0[i]).to_bytes());
            i += 1;
        }
        images
    }

    /// Returns the number of private keys in the set.
    pub fn len(&self) -> (r: usize)
        ensures
            r == self.0@.len(),
    {
        self.0.len()
    }
}

} // verus!
