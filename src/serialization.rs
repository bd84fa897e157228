use vstd::prelude::*;

use crate::error::MerkleTreeError;
use crate::hashing::Digest;

verus! {

/// The lowercase hexadecimal digit of a value below 16.
pub open spec fn hex_digit(n: int) -> char {
    seq!['0', '1', '2', '3', '4', '5', '6', '7', '8', '9', 'a', 'b', 'c', 'd', 'e', 'f'][n]
}

/// Two lowercase hexadecimal digits per byte, high nibble first, with no prefix.
pub open spec fn hex_encoding(b: Seq<u8>) -> Seq<char> {
    Seq::new(
        (2 * b.len()) as nat,
        |i: int| if i % 2 == 0 { hex_digit(b[i / 2] as int / 16) } else { hex_digit(b[i / 2] as int % 16) },
    )
}

/// A digit of either case.
pub open spec fn is_hex_char(c: char) -> bool {
    let v = c as u32;
    (48 <= v <= 57) || (65 <= v <= 70) || (97 <= v <= 102)
}

/// The value of a digit of either case.
pub open spec fn hex_value(c: char) -> int {
    let v = c as u32;
    if v <= 57 {
        v - 48
    } else if v <= 70 {
        v - 55
    } else {
        v - 87
    }
}

/// The text without a leading `0x` or `0X`.
pub open spec fn strip_hex_prefix(s: Seq<char>) -> Seq<char> {
    if s.len() >= 2 && s[0] == '0' && (s[1] == 'x' || s[1] == 'X') {
        s.subrange(2, s.len() as int)
    } else {
        s
    }
}

/// Even length, and nothing but digits after an optional prefix.
pub open spec fn hex_valid(s: Seq<char>) -> bool {
    &&& s.len() % 2 == 0
    &&& forall|i: int| 0 <= i < strip_hex_prefix(s).len() ==> is_hex_char(#[trigger] strip_hex_prefix(s)[i])
}

/// The bytes spelled by the digit pairs after an optional prefix.
pub open spec fn hex_decoded(s: Seq<char>) -> Seq<u8> {
    let t = strip_hex_prefix(s);
    Seq::new(
        (t.len() / 2) as nat,
        |i: int| (hex_value(t[2 * i]) * 16 + hex_value(t[2 * i + 1])) as u8,
    )
}

/// The error of alloy_primitives::hex::decode, carried through unread.
#[verifier::external_type_specification]
#[verifier::external_body]
pub struct ExFromHexError(alloy_primitives::hex::FromHexError);

/// Relies on alloy_primitives::hex::encode (const-hex): two lowercase digits per byte,
/// no prefix.
#[verifier::external_body]
fn hex_encode(b: &[u8]) -> (r: String)
    ensures
        r@ == hex_encoding(b@),
{
    alloy_primitives::hex::encode(b)
}

/// Relies on alloy_primitives::hex::decode (const-hex): fails on an odd byte length or on
/// a byte that is no digit of either case after an optional `0x`/`0X`; otherwise one byte
/// per digit pair.
#[verifier::external_body]
fn hex_decode(s: &str) -> (r: Result<Vec<u8>, alloy_primitives::hex::FromHexError>)
    ensures
        r is Ok <==> hex_valid(s@),
        r is Ok ==> r->Ok_0@ == hex_decoded(s@),
{
    alloy_primitives::hex::decode(s)
}

/// The textual form of a digest: 64 lowercase hexadecimal digits.
pub fn serialize(bytes: &Digest) -> (r: String)
    ensures
        r@ == hex_encoding(bytes@),
{
    hex_encode(bytes.as_slice())
}

/// Reads a digest from hexadecimal text with an optional `0x` prefix; the text must
/// spell exactly 32 bytes.
pub fn deserialize(s: &str) -> (r: Result<Digest, MerkleTreeError>)
    ensures
        !hex_valid(s@) ==> r == Err::<Digest, MerkleTreeError>(MerkleTreeError::InvalidHex),
        hex_valid(s@) && hex_decoded(s@).len() != 32 ==> r == Err::<Digest, MerkleTreeError>(
            MerkleTreeError::InvalidLength,
        ),
        hex_valid(s@) && hex_decoded(s@).len() == 32 ==> r is Ok && r->Ok_0@ == hex_decoded(s@),
{
    let bytes = match hex_decode(s) {
        Ok(b) => b,
        Err(_) => {
            return Err(MerkleTreeError::InvalidHex);
        },
    };
    if bytes.len() != 32 {
        return Err(MerkleTreeError::InvalidLength);
    }
    let mut out: Digest = [0u8; 32];
    let mut i: usize = 0;
    while i < 32
        invariant
            i <= 32,
            bytes@.len() == 32,
            forall|k: int| 0 <= k < i ==> out@[k] == bytes@[k],
        decreases 32 - i,
    {
        out[i] = bytes[i];
        i = i + 1;
    }
    assert(out@ =~= bytes@);
    Ok(out)
}

proof fn lemma_hex_digit_value(n: int)
    requires
        0 <= n < 16,
    ensures
        is_hex_char(hex_digit(n)),
        hex_value(hex_digit(n)) == n,
        hex_digit(n) != 'x' && hex_digit(n) != 'X',
{
}

/// Decoding the textual form of bytes gives the same bytes back.
pub proof fn lemma_hex_round_trip(b: Seq<u8>)
    ensures
        hex_valid(hex_encoding(b)),
        hex_decoded(hex_encoding(b)) == b,
{
    let e = hex_encoding(b);
    assert forall|i: int| 0 <= i < e.len() implies is_hex_char(#[trigger] e[i]) && e[i] != 'x' && e[i] != 'X' by {
        let v = b[i / 2];
        if i % 2 == 0 {
            lemma_hex_digit_value(v as int / 16);
        } else {
            lemma_hex_digit_value(v as int % 16);
        }
    }
    if e.len() >= 2 {
        assert(e[1] != 'x' && e[1] != 'X');
    }
    assert(strip_hex_prefix(e) == e);
    let d = hex_decoded(e);
    assert forall|i: int| 0 <= i < b.len() implies #[trigger] d[i] == b[i] by {
        lemma_hex_digit_value(b[i] as int / 16);
        lemma_hex_digit_value(b[i] as int % 16);
        assert(e[2 * i] == hex_digit(b[i] as int / 16));
        assert(e[2 * i + 1] == hex_digit(b[i] as int % 16));
    }
    assert(d =~= b);
}

} // verus!
