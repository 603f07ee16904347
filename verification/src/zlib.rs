//! Zlib compression and decompression, through the `flate2` crate.

use vstd::prelude::*;
use std::io::{Read, Write};
use flate2::Compression;
use flate2::read::ZlibDecoder;
use flate2::write::ZlibEncoder;

verus! {

/// What a zlib stream decompresses to: `Some` of the contents for a valid
/// stream, `None` for bytes that are not one. Decompression is a pure
/// function of the bytes; it is named here, and the `flate2` crate computes
/// it.
pub uninterp spec fn inflate_of(data: Seq<u8>) -> Option<Seq<u8>>;

/// Relies on `flate2::write::ZlibEncoder` (`new`, `write_all`, `finish`): it
/// emits a zlib stream that decompresses to exactly the input bytes. With a
/// `Vec` as the sink and a valid level, compression cannot fail: the sink
/// never errors, and the deflate stream's only failure statuses are
/// buffer-space conditions the writer resolves itself.
#[verifier::external_body]
pub(crate) fn zlib_compress(data: &Vec<u8>, level: u32) -> (r: Vec<u8>)
    requires
        level <= 9,
    ensures
        inflate_of(r@) == Some(data@),
{
    let mut encoder = ZlibEncoder::new(Vec::new(), Compression::new(level));
    encoder.write_all(data.as_slice()).and(encoder.finish()).unwrap()
}

/// Relies on `flate2::read::ZlibDecoder` (`new`, `read_to_end`): it yields the
/// contents of a valid zlib stream, and fails exactly on bytes that are not
/// one.
#[verifier::external_body]
pub(crate) fn zlib_decompress(data: &Vec<u8>) -> (r: Option<Vec<u8>>)
    ensures
        match r {
            Some(v) => inflate_of(data@) == Some(v@),
            None => inflate_of(data@) is None,
        },
{
    let mut out = Vec::new();
    match ZlibDecoder::new(data.as_slice()).read_to_end(&mut out) {
        Ok(_) => Some(out),
        Err(_) => None,
    }
}

} // verus!
