//! SHA-1 digests, computed by the `crypto` crate.  The digest itself is
//! opaque to the proofs: it is named as a function of the input alone.

use vstd::prelude::*;
use crypto::digest::Digest;

verus! {

/// The 20-byte SHA-1 digest of a byte string.
pub uninterp spec fn sha1_of(data: Seq<u8>) -> Seq<u8>;

/// The 40-character hexadecimal SHA-1 digest of a string.
pub uninterp spec fn sha1_hex_of(s: Seq<char>) -> Seq<char>;

/// A lowercase hexadecimal digit.
pub open spec fn hex_lower(c: char) -> bool {
    ('0' <= c && c <= '9') || ('a' <= c && c <= 'f')
}

/// Relies on crypto::sha1::Sha1 (input/result): the digest is 20 bytes
/// and depends on the input bytes alone.
#[verifier::external_body]
pub fn sha1_bytes(data: &Vec<u8>) -> (r: Vec<u8>)
    ensures
        r@ == sha1_of(data@),
        r@.len() == 20,
{
    let mut d = crypto::sha1::Sha1::new();
    d.input(data);
    let mut out = vec![0u8; 20];
    d.result(&mut out);
    out
}

/// Relies on crypto::sha1::Sha1 (input_str/result_str): the hex digest is
/// 40 lowercase hexadecimal characters and depends on the input string
/// alone.
#[verifier::external_body]
pub fn sha1_hex(s: &str) -> (r: String)
    ensures
        r@ == sha1_hex_of(s@),
        r@.len() == 40,
        forall|i: int| 0 <= i < r@.len() ==> hex_lower(#[trigger] r@[i]),
{
    let mut d = crypto::sha1::Sha1::new();
    d.input_str(s);
    d.result_str()
}

} // verus!
