//! SHA-256 digests, and how they are written.

use sha2::Digest;
use vstd::prelude::*;

use crate::strings::{hex, hex_length, prefix, to_hex};

verus! {

/// The SHA-256 digest of some bytes.
pub uninterp spec fn sha256(data: Seq<u8>) -> Seq<u8>;

/// Calls `sha2::Sha256::digest`. The digest is a function of the bytes alone,
/// named by [`sha256`], and 32 bytes long.
#[verifier::external_body]
fn sha256_bytes(data: &[u8]) -> (r: Vec<u8>)
    ensures
        r@ == sha256(data@),
        r@.len() == 32,
{
    sha2::Sha256::digest(data).to_vec()
}

/// The digest of some bytes, in hexadecimal.
pub open spec fn digest_text(data: Seq<u8>) -> Seq<char> {
    hex(sha256(data))
}

/// The digest of some bytes, in hexadecimal: 64 characters.
pub fn hex_digest(data: &[u8]) -> (r: String)
    ensures
        r@ == digest_text(data@),
        r@.len() == 64,
{
    let d = sha256_bytes(data);
    proof {
        hex_length(d@);
    }
    to_hex(&d)
}

/// The first characters of a digest, in hexadecimal.
pub fn short_digest(data: &[u8], n: usize) -> (r: String)
    requires
        n <= 64,
    ensures
        r@ == digest_text(data@).take(n as int),
        r@.len() == n,
{
    let d = hex_digest(data);
    prefix(d.as_str(), n)
}

} // verus!
