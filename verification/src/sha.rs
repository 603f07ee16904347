//! SHA-1 hashing: the digest itself comes from the `sha1` crate; the hex form
//! is computed and verified here.

use vstd::prelude::*;
use sha1::{Digest, Sha1};
use crate::encoding::{hex_chars, hex_string};

verus! {

/// The SHA-1 digest of a byte string. The digest is a pure function of the
/// bytes; it is named here rather than written out, and the `sha1` crate
/// computes it.
pub uninterp spec fn sha1_of(data: Seq<u8>) -> Seq<u8>;

/// Relies on `sha1::Sha1` through `digest::Digest::digest`: the SHA-1 digest
/// is a function of the input bytes alone, 20 bytes long.
#[verifier::external_body]
pub(crate) fn sha1_bytes(data: &Vec<u8>) -> (r: Vec<u8>)
    ensures
        r@ == sha1_of(data@),
        r@.len() == 20,
{
    Sha1::digest(data.as_slice()).to_vec()
}

/// The 40-character lowercase hex form of the SHA-1 digest of `data`.
pub fn sha1_hex(data: &Vec<u8>) -> (r: String)
    ensures
        r@ == hex_chars(sha1_of(data@)),
        sha1_of(data@).len() == 20,
        r@.len() == 40,
{
    let digest = sha1_bytes(data);
    hex_string(&digest)
}

} // verus!
