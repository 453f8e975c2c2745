//! Elements of the scalar field of the Ristretto group, and their fixed-width
//! byte encoding.
//!
//! A `FieldElement` is an integer modulo the prime group order
//! ℓ = 2^252 + 27742317777372353535851937790883648493. It is stored as its
//! canonical encoding: 32 bytes, little-endian (byte 0 is the least
//! significant), of the representative below ℓ. The arithmetic itself is done
//! by `curve25519_dalek::scalar::Scalar`; this module states what that
//! arithmetic returns and proves the properties of the encoding.

use curve25519_dalek::scalar::Scalar;
use vstd::arithmetic::div_mod::{lemma_mul_mod_noop_left, lemma_mul_mod_noop_right, lemma_small_mod};
use vstd::prelude::*;

verus! {

/// The order ℓ of the field.
pub open spec fn group_order() -> nat {
    0x1000000000000000000000000000000014def9dea2f79cd65812631a5cf5d3ed_nat
}

/// The natural number that a byte string denotes when read little-endian.
pub open spec fn le_value(bytes: Seq<u8>) -> nat
    decreases bytes.len(),
{
    if bytes.len() == 0 {
        0
    } else {
        bytes[0] as nat + 256 * le_value(bytes.skip(1))
    }
}

/// Product of two field elements.
pub open spec fn field_mul(a: nat, b: nat) -> nat {
    (a * b) % group_order()
}

/// Sum of two field elements.
pub open spec fn field_add(a: nat, b: nat) -> nat {
    (a + b) % group_order()
}

/// Difference of two field elements.
pub open spec fn field_sub(a: nat, b: nat) -> nat {
    ((a - b) % (group_order() as int)) as nat
}

/// The multiplicative inverse of a nonzero field element: the element below
/// ℓ whose product with `a` is 1.
pub open spec fn field_inverse(a: nat) -> nat {
    choose|r: nat| r < group_order() && field_mul(r, a) == 1
}

/// An element has at most one inverse.
pub proof fn lemma_inverse_unique(a: nat, r: nat, s: nat)
    requires
        r < group_order(),
        s < group_order(),
        field_mul(r, a) == 1,
        field_mul(s, a) == 1,
    ensures
        r == s,
{
    let m = group_order() as int;
    let (a, r, s) = (a as int, r as int, s as int);
    // r = r * (a * s) = (r * a) * s = s, modulo ℓ
    lemma_mul_mod_noop_right(r, s * a, m);
    lemma_mul_mod_noop_left(r * a, s, m);
    assert(r * (s * a) == (r * a) * s) by (nonlinear_arith);
    lemma_small_mod(r as nat, m as nat);
    lemma_small_mod(s as nat, m as nat);
    assert((r * ((s * a) % m)) % m == r);
    assert((((r * a) % m) * s) % m == s);
}

/// Little-endian reading is injective on strings of one length.
pub proof fn lemma_le_value_injective(a: Seq<u8>, b: Seq<u8>)
    requires
        a.len() == b.len(),
        le_value(a) == le_value(b),
    ensures
        a == b,
    decreases a.len(),
{
    if a.len() == 0 {
        assert(a =~= b);
    } else {
        let ra = le_value(a.skip(1));
        let rb = le_value(b.skip(1));
        assert(a[0] as nat + 256 * ra == b[0] as nat + 256 * rb);
        assert(ra == rb && a[0] == b[0]) by {
            if ra < rb {
                assert(256 * ra + 256 <= 256 * rb);
            } else if rb < ra {
                assert(256 * rb + 256 <= 256 * ra);
            }
        }
        lemma_le_value_injective(a.skip(1), b.skip(1));
        assert forall|i: int| 0 <= i < a.len() implies a[i] == b[i] by {
            if i > 0 {
                assert(a[i] == a.skip(1)[i - 1]);
                assert(b[i] == b.skip(1)[i - 1]);
            }
        }
        assert(a =~= b);
    }
}

/// `Scalar::from_bytes_mod_order`: the canonical encoding of the number that
/// `bytes` denotes, reduced modulo ℓ.
#[verifier::external_body]
fn scalar_reduce(bytes: &[u8; 32]) -> (r: [u8; 32])
    ensures
        le_value(r@) == le_value(bytes@) % group_order(),
{
    Scalar::from_bytes_mod_order(*bytes).to_bytes()
}

/// `Scalar + Scalar`: the canonical encoding of the sum modulo ℓ.
#[verifier::external_body]
fn scalar_add(a: &[u8; 32], b: &[u8; 32]) -> (r: [u8; 32])
    requires
        le_value(a@) < group_order(),
        le_value(b@) < group_order(),
    ensures
        le_value(r@) == field_add(le_value(a@), le_value(b@)),
{
    (Scalar::from_bytes_mod_order(*a) + Scalar::from_bytes_mod_order(*b)).to_bytes()
}

/// `Scalar - Scalar`: the canonical encoding of the difference modulo ℓ.
#[verifier::external_body]
fn scalar_sub(a: &[u8; 32], b: &[u8; 32]) -> (r: [u8; 32])
    requires
        le_value(a@) < group_order(),
        le_value(b@) < group_order(),
    ensures
        le_value(r@) == field_sub(le_value(a@), le_value(b@)),
{
    (Scalar::from_bytes_mod_order(*a) - Scalar::from_bytes_mod_order(*b)).to_bytes()
}

/// `Scalar * Scalar`: the canonical encoding of the product modulo ℓ.
#[verifier::external_body]
fn scalar_mul(a: &[u8; 32], b: &[u8; 32]) -> (r: [u8; 32])
    requires
        le_value(a@) < group_order(),
        le_value(b@) < group_order(),
    ensures
        le_value(r@) == field_mul(le_value(a@), le_value(b@)),
{
    (Scalar::from_bytes_mod_order(*a) * Scalar::from_bytes_mod_order(*b)).to_bytes()
}

/// `Scalar::from(u64)`: the encoding of `x`, which is below ℓ.
#[verifier::external_body]
fn scalar_from_u64(x: u64) -> (r: [u8; 32])
    ensures
        le_value(r@) == x as nat,
{
    Scalar::from(x).to_bytes()
}

/// `Scalar::invert`: the canonical encoding of the multiplicative inverse of
/// a nonzero element.
#[verifier::external_body]
fn scalar_invert(a: &[u8; 32]) -> (r: [u8; 32])
    requires
        0 < le_value(a@) < group_order(),
    ensures
        le_value(r@) < group_order(),
        field_mul(le_value(r@), le_value(a@)) == 1,
{
    Scalar::from_bytes_mod_order(*a).invert().to_bytes()
}

/// An element of the field of integers modulo ℓ, held as its canonical
/// little-endian encoding.
#[derive(Clone, Copy, Debug, PartialEq, Eq)]
pub struct FieldElement {
    bytes: [u8; 32],
}

impl View for FieldElement {
    type V = nat;

    /// The representative of this element in `0..ℓ`.
    closed spec fn view(&self) -> nat {
        le_value(self.bytes@)
    }
}

impl DeepView for FieldElement {
    type V = nat;

    open spec fn deep_view(&self) -> nat {
        self@
    }
}

impl Default for FieldElement {
    /// The additive identity.
    fn default() -> (r: FieldElement)
        ensures
            r@ == 0,
    {
        FieldElement::zero()
    }
}

impl FieldElement {
    /// Every element is stored reduced.
    #[verifier::type_invariant]
    pub open spec fn is_canonical(&self) -> bool {
        self@ < group_order()
    }

    /// The bytes that `to_bytes` returns.
    pub closed spec fn encoding(&self) -> Seq<u8> {
        self.bytes@
    }

    /// The encoding has 32 bytes and denotes the value.
    pub broadcast proof fn lemma_encoding(&self)
        ensures
            #[trigger] self.encoding().len() == 32,
            le_value(self.encoding()) == self@,
    {
    }

    /// The element that a 32-byte string denotes: its little-endian value
    /// reduced modulo ℓ.
    pub fn from_bytes_mod_order(bytes: [u8; 32]) -> (r: FieldElement)
        ensures
            r@ == le_value(bytes@) % group_order(),
            le_value(bytes@) < group_order() ==> r.encoding() == bytes@,
    {
        let reduced = scalar_reduce(&bytes);
        proof {
            if le_value(bytes@) < group_order() {
                lemma_small_mod(le_value(bytes@), group_order());
                lemma_le_value_injective(reduced@, bytes@);
            }
        }
        FieldElement { bytes: reduced }
    }

    /// Decodes a canonical encoding; `None` when the bytes denote a number
    /// that is not below ℓ.
    pub fn from_canonical_bytes(bytes: [u8; 32]) -> (r: Option<FieldElement>)
        ensures
            r.is_some() <==> le_value(bytes@) < group_order(),
            r matches Some(x) ==> x@ == le_value(bytes@) && x.encoding() == bytes@,
    {
        let reduced = scalar_reduce(&bytes);
        let same = bytes_equal(&reduced, &bytes);
        proof {
            if le_value(bytes@) < group_order() {
                lemma_small_mod(le_value(bytes@), group_order());
                lemma_le_value_injective(reduced@, bytes@);
            }
        }
        if same {
            Some(FieldElement { bytes: reduced })
        } else {
            None
        }
    }

    /// The canonical 32-byte little-endian encoding.
    pub fn to_bytes(&self) -> (r: [u8; 32])
        ensures
            r@ == self.encoding(),
            le_value(r@) == self@,
            le_value(r@) < group_order(),
    {
        proof {
            use_type_invariant(self);
        }
        self.bytes
    }

    /// The element `x`.
    pub fn from_u64(x: u64) -> (r: FieldElement)
        ensures
            r@ == x as nat,
    {
        FieldElement { bytes: scalar_from_u64(x) }
    }

    /// The additive identity.
    pub fn zero() -> (r: FieldElement)
        ensures
            r@ == 0,
    {
        FieldElement::from_u64(0)
    }

    /// The multiplicative identity.
    pub fn one() -> (r: FieldElement)
        ensures
            r@ == 1,
    {
        FieldElement::from_u64(1)
    }

    /// Sum in the field.
    pub fn add(&self, other: &FieldElement) -> (r: FieldElement)
        ensures
            r@ == field_add(self@, other@),
    {
        proof {
            use_type_invariant(self);
            use_type_invariant(other);
        }
        FieldElement { bytes: scalar_add(&self.bytes, &other.bytes) }
    }

    /// Difference in the field.
    pub fn sub(&self, other: &FieldElement) -> (r: FieldElement)
        ensures
            r@ == field_sub(self@, other@),
    {
        proof {
            use_type_invariant(self);
            use_type_invariant(other);
        }
        FieldElement { bytes: scalar_sub(&self.bytes, &other.bytes) }
    }

    /// Product in the field.
    pub fn mul(&self, other: &FieldElement) -> (r: FieldElement)
        ensures
            r@ == field_mul(self@, other@),
    {
        proof {
            use_type_invariant(self);
            use_type_invariant(other);
        }
        FieldElement { bytes: scalar_mul(&self.bytes, &other.bytes) }
    }

    /// The multiplicative inverse of a nonzero element.
    pub fn invert(&self) -> (r: FieldElement)
        requires
            self@ != 0,
        ensures
            field_mul(r@, self@) == 1,
            r@ == field_inverse(self@),
    {
        proof {
            use_type_invariant(self);
        }
        let bytes = scalar_invert(&self.bytes);
        proof {
            let found = field_inverse(self@);
            assert(le_value(bytes@) < group_order() && field_mul(le_value(bytes@), self@) == 1);
            lemma_inverse_unique(self@, le_value(bytes@), found);
        }
        FieldElement { bytes }
    }

    /// Whether two elements are the same element of the field.
    pub fn equals(&self, other: &FieldElement) -> (r: bool)
        ensures
            r == (self@ == other@),
            r == (*self == *other),
    {
        let r = bytes_equal(&self.bytes, &other.bytes);
        proof {
            Self::lemma_view_injective(*self, *other);
        }
        r
    }

    /// Two elements with the same value are the same.
    pub proof fn lemma_view_injective(a: FieldElement, b: FieldElement)
        ensures
            a@ == b@ <==> a == b,
            a.encoding() == b.encoding() <==> a == b,
    {
        if a@ == b@ {
            lemma_le_value_injective(a.bytes@, b.bytes@);
        }
        if a.bytes@ == b.bytes@ {
            assert(a.bytes == b.bytes);
        }
    }

    /// Encoding an element and decoding the bytes gives the element back:
    /// every canonical element is the only one with its encoding, and the
    /// encoding denotes the element's value.
    pub proof fn lemma_encode_decode(x: FieldElement, y: FieldElement)
        requires
            x.is_canonical(),
            y@ == le_value(x.encoding()) % group_order(),
        ensures
            y == x,
    {
        lemma_small_mod(x@, group_order());
        Self::lemma_view_injective(x, y);
    }
}

/// Whether two 32-byte strings are equal byte for byte.
pub fn bytes_equal(a: &[u8; 32], b: &[u8; 32]) -> (r: bool)
    ensures
        r == (a@ == b@),
{
    let mut i: usize = 0;
    while i < 32
        invariant
            i <= 32,
            forall|j: int| 0 <= j < i ==> a[j] == b[j],
        decreases 32 - i,
    {
        if a[i] != b[i] {
            return false;
        }
        i += 1;
    }
    assert(a@ =~= b@);
    true
}

/// The 32-byte key whose last byte is `x` and whose other bytes are zero.
/// Read as an encoding it denotes `x * 2^248`, which is below the group
/// order for `x <= 16`.
pub fn key_bytes(x: u8) -> (r: [u8; 32])
    ensures
        r[31] == x,
        forall|i: int| 0 <= i < 31 ==> r[i] == 0u8,
{
    let mut r: [u8; 32] = [0u8; 32];
    r[31] = x;
    r
}

} // verus!
