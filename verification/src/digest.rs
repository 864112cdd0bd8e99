//! The SHA-256 digest of a message, written in hexadecimal.

use vstd::prelude::*;

verus! {

/// The SHA-256 digest of `message`.
pub uninterp spec fn sha256(message: Seq<u8>) -> Seq<u8>;

/// The sixteen digits of lowercase hexadecimal, by value.
pub open spec fn hex_digits() -> Seq<char> {
    seq!['0', '1', '2', '3', '4', '5', '6', '7', '8', '9', 'a', 'b', 'c', 'd', 'e', 'f']
}

/// `bytes` in lowercase hexadecimal: two digits for each byte, the one for
/// the upper four bits first.
pub open spec fn hex_of(bytes: Seq<u8>) -> Seq<char> {
    Seq::new(
        2 * bytes.len(),
        |i: int|
            if i % 2 == 0 {
                hex_digits()[bytes[i / 2] as int / 16]
            } else {
                hex_digits()[bytes[i / 2] as int % 16]
            },
    )
}

/// Computes the SHA-256 digest of `message` with `Digest::digest` of
/// `sha2::Sha256`.
///
/// The digest is a function of the message alone, and is thirty-two bytes
/// long. The hasher counts the bits of the message in sixty-four bits, so
/// the message must be short enough for that count.
#[verifier::external_body]
fn sha256_bytes(message: &[u8]) -> (digest: Vec<u8>)
    requires
        message@.len() < 0x2000_0000_0000_0000,
    ensures
        digest@ == sha256(message@),
        digest@.len() == 32,
{
    <sha2::Sha256 as sha2::Digest>::digest(message).to_vec()
}

/// Writes `bytes` in hexadecimal with `hex::encode`, which uses lowercase
/// digits, two for each byte, the upper four bits first. The text must fit
/// in a string, which holds no more than `isize::MAX` bytes.
#[verifier::external_body]
fn hex_encode(bytes: &[u8]) -> (text: String)
    requires
        2 * bytes@.len() <= isize::MAX,
    ensures
        text@ == hex_of(bytes@),
{
    hex::encode(bytes)
}

/// `bytes` in lowercase hexadecimal.
pub fn to_hex(bytes: &[u8]) -> (text: String)
    requires
        2 * bytes@.len() <= isize::MAX,
    ensures
        text@ == hex_of(bytes@),
        text@.len() == 2 * bytes@.len(),
{
    hex_encode(bytes)
}

/// The SHA-256 digest of `message` in lowercase hexadecimal: sixty-four
/// digits.
pub fn sha256_hex(message: &[u8]) -> (text: String)
    requires
        message@.len() < 0x2000_0000_0000_0000,
    ensures
        text@ == hex_of(sha256(message@)),
        text@.len() == 64,
{
    let digest = sha256_bytes(message);
    to_hex(digest.as_slice())
}

} // verus!
