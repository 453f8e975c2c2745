//! Hexadecimal literals of the form `0x` followed by an even number of hex
//! digits, as used by tables of field constants.

use vstd::prelude::*;
use vstd::string::*;
use vstd::utf8::is_ascii_chars;

verus! {

/// Whether `c` is one of `0-9`, `a-f`, `A-F`.
pub open spec fn is_hex_digit(c: char) -> bool {
    ('0' <= c <= '9') || ('a' <= c <= 'f') || ('A' <= c <= 'F')
}

/// The number that a hex digit denotes.
pub open spec fn hex_digit_value(c: char) -> nat {
    if '0' <= c <= '9' {
        (c as nat - '0' as nat) as nat
    } else if 'a' <= c <= 'f' {
        (c as nat - 'a' as nat + 10) as nat
    } else {
        (c as nat - 'A' as nat + 10) as nat
    }
}

/// A literal is a two-character prefix followed by an even number of hex
/// digits; the whole string is ASCII.
pub open spec fn is_hex_literal(s: Seq<char>) -> bool {
    &&& s.len() >= 2
    &&& s.len() % 2 == 0
    &&& is_ascii_chars(s)
    &&& forall|i: int| 2 <= i < s.len() ==> is_hex_digit(#[trigger] s[i])
}

/// The bytes that a literal denotes: each pair of digits after the prefix is
/// one byte, high digit first, in the order written.
pub open spec fn hex_bytes(s: Seq<char>) -> Seq<u8> {
    Seq::new(
        ((s.len() - 2) / 2) as nat,
        |k: int| (16 * hex_digit_value(s[2 + 2 * k]) + hex_digit_value(s[3 + 2 * k])) as u8,
    )
}

/// The value of the hex digit with ASCII code `b`, or `None` if `b` is no
/// hex digit.
fn hex_nibble(b: u8) -> (r: Option<u8>)
    requires
        b < 128,
    ensures
        r.is_some() <==> is_hex_digit(b as char),
        r matches Some(v) ==> v < 16 && v as nat == hex_digit_value(b as char),
{
    if 48 <= b && b <= 57 {
        Some(b - 48)
    } else if 97 <= b && b <= 102 {
        Some(b - 97 + 10)
    } else if 65 <= b && b <= 70 {
        Some(b - 65 + 10)
    } else {
        None
    }
}

/// Decides whether `s` is a hex literal.
pub fn check_hex_literal(s: &str) -> (r: bool)
    ensures
        r == is_hex_literal(s@),
{
    if !s.is_ascii() {
        return false;
    }
    broadcast use is_ascii_spec_bytes;

    let bytes = s.as_bytes();
    let n = bytes.len();
    assert(bytes@.len() == s@.len());
    if n < 2 || n % 2 != 0 {
        return false;
    }
    let mut i: usize = 2;
    while i < n
        invariant
            2 <= i <= n,
            n == s@.len(),
            is_ascii_chars(s@),
            bytes@ == s.spec_bytes(),
            bytes@ =~= Seq::new(s@.len(), |k: int| s@[k] as u8),
            forall|j: int| 2 <= j < i ==> is_hex_digit(#[trigger] s@[j]),
        decreases n - i,
    {
        let b = bytes[i];
        assert(b == s@[i as int] as u8);
        assert(b as char == s@[i as int]);
        if hex_nibble(b).is_none() {
            return false;
        }
        i += 1;
    }
    true
}

/// Decodes a hex literal into the bytes it denotes.
pub fn decode_hex(s: &str) -> (r: Vec<u8>)
    requires
        is_hex_literal(s@),
    ensures
        r@ == hex_bytes(s@),
{
    broadcast use is_ascii_spec_bytes;

    assert(is_ascii(s));
    let bytes = s.as_bytes();
    let n = bytes.len();
    assert(bytes@.len() == s@.len());
    let mut out: Vec<u8> = Vec::new();
    let mut i: usize = 2;
    while i < n
        invariant
            2 <= i <= n,
            i % 2 == 0,
            n == s@.len(),
            is_hex_literal(s@),
            bytes@ =~= Seq::new(s@.len(), |k: int| s@[k] as u8),
            out@.len() == (i - 2) / 2,
            forall|k: int| 0 <= k < out@.len() ==> out@[k] == hex_bytes(s@)[k],
        decreases n - i,
    {
        let hi_code = bytes[i];
        let lo_code = bytes[i + 1];
        assert(hi_code as char == s@[i as int]);
        assert(lo_code as char == s@[i + 1]);
        let hi = hex_nibble(hi_code);
        let lo = hex_nibble(lo_code);
        assert(is_hex_digit(s@[i as int]));
        assert(is_hex_digit(s@[i + 1]));
        let byte: u8 = hi.unwrap() * 16 + lo.unwrap();
        let ghost k = (i - 2) / 2;
        assert(2 + 2 * k == i);
        assert(byte == hex_bytes(s@)[k]);
        out.push(byte);
        i += 2;
    }
    assert(out@ =~= hex_bytes(s@));
    out
}

} // verus!
