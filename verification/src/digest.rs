//! The fixed-size cryptographic digest and its hex rendering.

use vstd::prelude::*;

verus! {

broadcast use vstd::array::group_array_axioms;

/// A 256-bit digest value.
#[derive(Clone, Copy, Debug, Eq, PartialEq, Hash)]
pub struct Sha256Digest(pub [u8; 32]);

/// The SHA-256 digest of a byte sequence. The function itself is far too
/// large to state here; contracts speak of it only by this name.
pub uninterp spec fn sha256_of(bytes: Seq<u8>) -> Seq<u8>;

/// Relies on sha2::Sha256: the SHA-256 hash is a pure function of the input
/// bytes alone and always yields exactly 32 bytes.
#[verifier::external_body]
pub fn sha256_bytes(bytes: &[u8]) -> (r: Sha256Digest)
    ensures
        r.0@ == sha256_of(bytes@),
        r.0@.len() == 32,
{
    let mut hasher = <sha2::Sha256 as sha2::Digest>::new();
    sha2::Digest::update(&mut hasher, bytes);
    Sha256Digest(sha2::Digest::finalize(hasher).into())
}

/// The lowercase hex digit for a value below sixteen.
pub open spec fn hex_digit_char(n: int) -> char
    recommends
        0 <= n < 16,
{
    if n < 10 {
        ((0x30 + n) as u8) as char
    } else {
        ((0x57 + n) as u8) as char
    }
}

/// Lowercase hex rendering: two digits per byte, high nibble first.
pub open spec fn hex_of(bytes: Seq<u8>) -> Seq<char>
    decreases bytes.len(),
{
    if bytes.len() == 0 {
        Seq::empty()
    } else {
        seq![
            hex_digit_char(bytes[0] as int / 16),
            hex_digit_char(bytes[0] as int % 16),
        ] + hex_of(bytes.drop_first())
    }
}

pub proof fn lemma_hex_of_len(bytes: Seq<u8>)
    ensures
        hex_of(bytes).len() == 2 * bytes.len(),
    decreases bytes.len(),
{
    if bytes.len() > 0 {
        lemma_hex_of_len(bytes.drop_first());
    }
}

/// Relies on hex::encode: each input byte becomes two lowercase hex digits,
/// in input order.
#[verifier::external_body]
fn bytes_to_hex(bytes: &[u8]) -> (r: String)
    ensures
        r@ == hex_of(bytes@),
{
    hex::encode(bytes)
}

/// The lowercase hex string of a digest, with no prefix.
pub fn sha256_hex(d: Sha256Digest) -> (r: String)
    ensures
        r@ == hex_of(d.0@),
{
    bytes_to_hex(d.0.as_slice())
}

/// The lowercase hex string of an arbitrary 32-byte value.
pub fn digest_bytes_hex(bytes: &[u8; 32]) -> (r: String)
    ensures
        r@ == hex_of(bytes@),
{
    bytes_to_hex(bytes.as_slice())
}

} // verus!
