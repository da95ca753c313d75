//! Digest and hex machinery: the SHA-1 call behind a trusted wrapper, a fully
//! specified lowercase hex codec, and the round-trip facts the tree builder
//! needs when it turns digests into hex names and back.
use vstd::prelude::*;

use sha1::Digest;

verus! {

/// The 20-byte SHA-1 digest of a byte sequence, named but not written out:
/// only the wrapper below says anything about it.
pub uninterp spec fn sha1_of(data: Seq<u8>) -> Seq<u8>;

/// Relies on sha1::Sha1 through digest::Digest::digest: the 20-byte SHA-1
/// digest of the input, a function of the input bytes alone.
#[verifier::external_body]
pub(crate) fn sha1_digest(data: &[u8]) -> (r: Vec<u8>)
    ensures
        r@ == sha1_of(data@),
        r@.len() == 20,
{
    sha1::Sha1::digest(data).to_vec()
}

/// The lowercase hex digit for a nibble.
pub open spec fn hex_digit(v: u8) -> char
    recommends
        v < 16,
{
    if v < 10 {
        (48 + v) as char
    } else {
        (87 + v) as char
    }
}

/// Lowercase hex rendering, two digits per byte, high nibble first.
pub open spec fn hex_of(bytes: Seq<u8>) -> Seq<char> {
    Seq::new(
        bytes.len() * 2,
        |i: int|
            if i % 2 == 0 {
                hex_digit(bytes[i / 2] / 16)
            } else {
                hex_digit(bytes[i / 2] % 16)
            },
    )
}

/// Relies on hex::encode: lowercase hex, two digits per byte, high nibble
/// first.
#[verifier::external_body]
pub(crate) fn hex_encode(b: &[u8]) -> (r: String)
    ensures
        r@ == hex_of(b@),
{
    hex::encode(b)
}

/// The nibble a hex digit stands for; 16 marks a non-digit.
pub open spec fn char_hex_val(c: char) -> u8 {
    let v = c as u32;
    if 48 <= v <= 57 {
        (v - 48) as u8
    } else if 97 <= v <= 102 {
        (v - 87) as u8
    } else if 65 <= v <= 70 {
        (v - 55) as u8
    } else {
        16
    }
}

pub open spec fn is_hex_char(c: char) -> bool {
    char_hex_val(c) < 16
}

/// The bytes a hex string stands for, one byte per digit pair.
pub open spec fn hex_val_of(s: Seq<char>) -> Seq<u8> {
    Seq::new(s.len() / 2, |i: int| (16 * char_hex_val(s[2 * i]) + char_hex_val(s[2 * i + 1])) as u8)
}

/// Decoding inverts the hex rendering.
pub proof fn lemma_hex_roundtrip(b: Seq<u8>)
    ensures
        hex_val_of(hex_of(b)) =~= b,
        forall|k: int| 0 <= k < hex_of(b).len() ==> is_hex_char(#[trigger] hex_of(b)[k]),
{
    assert forall|i: int| 0 <= i < b.len() implies hex_val_of(hex_of(b))[i] == b[i] by {
        assert(hex_of(b)[2 * i] == hex_digit(b[i] / 16));
        assert(hex_of(b)[2 * i + 1] == hex_digit(b[i] % 16));
        assert(char_hex_val(hex_digit(b[i] / 16)) == b[i] / 16);
        assert(char_hex_val(hex_digit(b[i] % 16)) == b[i] % 16);
    }
    assert forall|k: int| 0 <= k < hex_of(b).len() implies is_hex_char(#[trigger] hex_of(b)[k]) by {
        let i = k / 2;
        if k % 2 == 0 {
            assert(hex_of(b)[k] == hex_digit(b[i] / 16));
        } else {
            assert(hex_of(b)[k] == hex_digit(b[i] % 16));
        }
    }
}

/// The exec nibble of a hex digit.
fn hex_char_val_exec(c: char) -> (r: u8)
    ensures
        r == char_hex_val(c),
{
    let v = c as u32;
    if 48 <= v && v <= 57 {
        (v - 48) as u8
    } else if 97 <= v && v <= 102 {
        (v - 87) as u8
    } else if 65 <= v && v <= 70 {
        (v - 55) as u8
    } else {
        16
    }
}

/// Reads the first 40 hex digits of a string back into the 20 digest bytes
/// they name; anything past them is ignored.
pub fn hex_to_sha_bytes(hex: &str) -> (r: Vec<u8>)
    requires
        hex@.len() >= 40,
        forall|k: int| 0 <= k < 40 ==> is_hex_char(#[trigger] hex@[k]),
    ensures
        r@ =~= hex_val_of(hex@.take(40)),
        hex@.len() == 40 ==> r@ =~= hex_val_of(hex@),
        r@.len() == 20,
{
    let mut out: Vec<u8> = Vec::new();
    let mut i: usize = 0;
    while i < 20
        invariant
            hex@.len() >= 40,
            forall|k: int| 0 <= k < 40 ==> is_hex_char(#[trigger] hex@[k]),
            0 <= i <= 20,
            out@.len() == i,
            forall|k: int| 0 <= k < i ==> out@[k] == hex_val_of(hex@.take(40))[k],
        decreases 20 - i,
    {
        let hi = hex_char_val_exec(hex.get_char(2 * i));
        let lo = hex_char_val_exec(hex.get_char(2 * i + 1));
        proof {
            assert(hex@.take(40)[2 * i] == hex@[2 * i]);
            assert(hex@.take(40)[2 * i + 1] == hex@[2 * i + 1]);
        }
        out.push(16 * hi + lo);
        i += 1;
    }
    assert(out@ =~= hex_val_of(hex@.take(40)));
    proof {
        if hex@.len() == 40 {
            assert(hex@.take(40) =~= hex@);
        }
    }
    out
}

/// Hex name of the SHA-1 digest of `data`: how every object is addressed.
pub open spec fn hash_hex_of(data: Seq<u8>) -> Seq<char> {
    hex_of(sha1_of(data))
}

/// Digest of `data`, rendered as 40 lowercase hex characters.
pub fn compute_hash(data: &[u8]) -> (r: String)
    ensures
        r@ == hash_hex_of(data@),
{
    let d = sha1_digest(data);
    hex_encode(d.as_slice())
}

} // verus!
