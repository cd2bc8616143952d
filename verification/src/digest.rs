//! Content digests: SHA-256, rendered as lowercase hexadecimal.

use crate::hex::{bytes_to_hexstr, hex_of, lemma_hex_len};
use crypto::digest::Digest;
use crypto::sha2::Sha256;
use vstd::prelude::*;

verus! {

/// The SHA-256 digest of a message: the 32 bytes that `Sha256` of rust-crypto
/// writes for it. It is not defined here; all that is known of it is that it
/// is a function of the message.
pub uninterp spec fn sha256(data: Seq<u8>) -> [u8; 32];

/// SHA-256 is defined for messages shorter than 2^64 bits: a message to
/// digest has fewer bytes than this, 2^61.
pub const MESSAGE_LIMIT: u64 = 0x2000_0000_0000_0000;

/// The fingerprint of a byte string: its SHA-256 digest in lowercase hexadecimal.
pub open spec fn fingerprint_of(data: Seq<u8>) -> Seq<char> {
    hex_of(sha256(data)@)
}

/// Runs `Sha256::new`, `Digest::input` and `Digest::result` of rust-crypto on
/// one message. Trusted: the 32 bytes written are the SHA-256 digest of
/// `input`, a function of the message alone. `input` panics on a message of
/// 2^61 bytes or more, which the precondition leaves out.
#[verifier::external_body]
fn sha256_bytes(input: &[u8]) -> (out: [u8; 32])
    requires
        input@.len() < MESSAGE_LIMIT,
    ensures
        out == sha256(input@),
{
    let mut sha = Sha256::new();
    sha.input(input);
    let mut bytes = [0u8; 32];
    sha.result(&mut bytes);
    bytes
}

/// The fingerprint of `input`: its SHA-256 digest as 64 lowercase
/// hexadecimal digits.
pub fn bits2shastr(input: &[u8]) -> (s: String)
    requires
        input@.len() < MESSAGE_LIMIT,
    ensures
        s@ == fingerprint_of(input@),
        s@.len() == 64,
{
    let bytes = sha256_bytes(input);
    proof {
        lemma_hex_len(bytes@);
    }
    bytes_to_hexstr(bytes.as_slice())
}

} // verus!
