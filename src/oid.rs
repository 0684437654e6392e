//! Object identifiers: 20-byte digests and their 40-digit hexadecimal form.

use vstd::prelude::*;
use vstd::string::StringExecFns;
use vstd::utf8::{is_ascii_chars, is_ascii_chars_encode_utf8};
use crate::error::StoreError;

verus! {

/// The hexadecimal digit (lower case) for a value below 16.
pub open spec fn hex_char(n: u8) -> char {
    if n < 10 {
        (n + 48) as char
    } else {
        (n + 87) as char
    }
}

/// Two lower-case hexadecimal digits per byte, high nibble first.
pub open spec fn hex_text(b: Seq<u8>) -> Seq<char> {
    Seq::new(
        (2 * b.len()) as nat,
        |i: int|
            if i % 2 == 0 {
                hex_char(b[i / 2] / 16)
            } else {
                hex_char(b[i / 2] % 16)
            },
    )
}

/// A character that is a hexadecimal digit, in either case.
pub open spec fn is_hex_char(c: char) -> bool {
    ('0' <= c && c <= '9') || ('a' <= c && c <= 'f') || ('A' <= c && c <= 'F')
}

/// A byte that is the ASCII code of a hexadecimal digit, in either case.
pub open spec fn is_hex_byte(c: u8) -> bool {
    (48 <= c && c <= 57) || (97 <= c && c <= 102) || (65 <= c && c <= 70)
}

/// The value of a hexadecimal digit byte.
pub open spec fn hex_value(c: u8) -> int {
    if 48 <= c && c <= 57 {
        c - 48
    } else if 97 <= c && c <= 102 {
        c - 87
    } else {
        c - 55
    }
}

/// The bytes that a string of hexadecimal digit bytes spells, two digits each.
pub open spec fn hex_bytes_decoded(b: Seq<u8>) -> Seq<u8> {
    Seq::new(
        b.len() / 2,
        |i: int| (hex_value(b[2 * i]) * 16 + hex_value(b[2 * i + 1])) as u8,
    )
}

/// The bytes that a string of hexadecimal digit characters spells.
pub open spec fn hex_decoded(s: Seq<char>) -> Seq<u8> {
    hex_bytes_decoded(s.map_values(|c: char| c as u8))
}

/// Relies on hex::encode: two lower-case digits per byte, high nibble first.
#[verifier::external_body]
fn hex_encode(b: &[u8]) -> (r: String)
    ensures
        r@ == hex_text(b@),
{
    hex::encode(b)
}

#[verifier::external_type_specification]
#[verifier::external_body]
pub struct ExFromHexError(hex::FromHexError);

/// Relies on hex::decode: it succeeds exactly on an even number of digits of
/// either case, and then yields one byte per pair of digits.
#[verifier::external_body]
fn hex_decode(b: &[u8]) -> (r: Result<Vec<u8>, hex::FromHexError>)
    ensures
        r is Ok <==> (b@.len() % 2 == 0 && forall|i: int| 0 <= i < b@.len() ==> is_hex_byte(#[trigger] b@[i])),
        r matches Ok(v) ==> v@ == hex_bytes_decoded(b@),
{
    hex::decode(b)
}

/// The identifier of an object: the 20-byte digest of its framed content.
#[derive(Clone, Copy, Debug, PartialEq, Eq, Hash)]
pub struct ObjectId {
    pub bytes: [u8; 20],
}

impl View for ObjectId {
    type V = Seq<u8>;

    open spec fn view(&self) -> Seq<u8> {
        self.bytes@
    }
}

impl ObjectId {
    /// The identifier with the given digest bytes.
    pub fn from_bytes(bytes: [u8; 20]) -> (r: ObjectId)
        ensures
            r@ == bytes@,
    {
        ObjectId { bytes }
    }

    /// The identifier whose digest is the given 20 bytes; `None` for any
    /// other length.
    pub fn from_slice(b: &[u8]) -> (r: Option<ObjectId>)
        ensures
            r is Some <==> b@.len() == 20,
            r matches Some(o) ==> o@ == b@,
    {
        if b.len() != 20 {
            return None;
        }
        let mut bytes = [0u8; 20];
        let mut i: usize = 0;
        while i < 20
            invariant
                b@.len() == 20,
                0 <= i <= 20,
                forall|k: int| 0 <= k < i ==> bytes@[k] == b@[k],
            decreases 20 - i,
        {
            bytes[i] = b[i];
            i = i + 1;
        }
        assert(bytes@ =~= b@);
        Some(ObjectId { bytes })
    }

    /// Reads an identifier from its 40 hexadecimal digits (either case).
    pub fn from_hex(s: &str) -> (r: Result<ObjectId, StoreError>)
        ensures
            r is Ok <==> (s@.len() == 40 && forall|i: int| 0 <= i < 40 ==> is_hex_char(#[trigger] s@[i])),
            r matches Ok(o) ==> o@ == hex_decoded(s@),
            r matches Err(e) ==> e == StoreError::InvalidArgument,
    {
        if !s.is_ascii() {
            assert(!(s@.len() == 40 && forall|i: int| 0 <= i < 40 ==> is_hex_char(#[trigger] s@[i]))) by {
                if s@.len() == 40 && forall|i: int| 0 <= i < 40 ==> is_hex_char(#[trigger] s@[i]) {
                    assert(is_ascii_chars(s@));
                }
            }
            return Err(StoreError::InvalidArgument);
        }
        let b = s.as_bytes();
        assert(b@ =~= s@.map_values(|c: char| c as u8)) by {
            is_ascii_chars_encode_utf8(s@);
        }
        if b.len() != 40 {
            assert(s@.len() != 40);
            return Err(StoreError::InvalidArgument);
        }
        assert(forall|i: int| 0 <= i < 40 ==> (is_hex_byte(#[trigger] b@[i]) <==> is_hex_char(s@[i])));
        match hex_decode(b) {
            Err(_) => {
                assert(!(forall|i: int| 0 <= i < 40 ==> is_hex_char(#[trigger] s@[i])));
                Err(StoreError::InvalidArgument)
            },
            Ok(v) => {
                assert forall|i: int| 0 <= i < 40 implies is_hex_char(#[trigger] s@[i]) by {
                    assert(is_hex_byte(b@[i]));
                }
                match ObjectId::from_slice(v.as_slice()) {
                    Some(o) => Ok(o),
                    None => Err(StoreError::InvalidArgument),
                }
            },
        }
    }

    /// The 40 lower-case hexadecimal digits of the identifier.
    pub fn to_hex(&self) -> (r: String)
        ensures
            r@ == hex_text(self@),
    {
        hex_encode(&self.bytes)
    }

    /// Where the object lives below the object root: a directory named by
    /// the first two hexadecimal digits, and a file named by the other 38.
    pub fn object_path(&self) -> (r: String)
        ensures
            r@ == hex_text(self@).subrange(0, 2) + seq!['/'] + hex_text(self@).subrange(2, 40),
    {
        let h = self.to_hex();
        proof {
            lemma_hex_text_ascii(self@);
            reveal_strlit("/");
        }
        let mut r = String::from_str(h.substring_ascii(0, 2));
        r.append("/");
        r.append(h.substring_ascii(2, 40));
        r
    }
}

/// Hexadecimal text is ASCII.
pub proof fn lemma_hex_text_ascii(b: Seq<u8>)
    ensures
        is_ascii_chars(hex_text(b)),
        hex_text(b).len() == 2 * b.len(),
{
    let t = hex_text(b);
    assert forall|i: int| 0 <= i < t.len() implies '\0' <= #[trigger] t[i] <= '\u{7f}' by {
        let x = b[i / 2];
        assert(x / 16 < 16 && x % 16 < 16);
    }
}

} // verus!
