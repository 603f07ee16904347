//! The content-addressed object store: naming, storing and reading back one
//! object. The caller does the file I/O; this module pins down the bytes and
//! the name.

use vstd::prelude::*;
use vstd::slice::slice_subrange;
use crate::encoding::{hex_chars, is_hex_char, lemma_hex_chars_are_hex, bytes_as_chars,
    bytes_to_string, lemma_ascii_bytes_decode, lemma_ascii_chars_encode};
use crate::error::GitError;
use crate::object::{GitObject, ObjType, spec_frame, spec_parse, frame_shape_ok, frame, parse,
    lemma_parse_frame};
use crate::sha::{sha1_of, sha1_bytes, sha1_hex};
use crate::zlib::{inflate_of, zlib_compress, zlib_decompress};

verus! {

/// The name of an object: the lowercase hex of the SHA-1 of its canonical
/// serialization.
pub open spec fn spec_object_name(t: ObjType, data: Seq<u8>) -> Seq<char> {
    hex_chars(sha1_of(spec_frame(t, data)))
}

/// What a stored stream reads back as: the parse of its zlib contents.
pub open spec fn spec_read_object(stream: Seq<u8>) -> Option<(ObjType, Seq<u8>)> {
    match inflate_of(stream) {
        Some(framed) => spec_parse(framed),
        None => None,
    }
}

/// The minimal resolver: it returns the name unchanged. Abbreviation
/// expansion and kind verification are not done.
pub fn find_object(name: &str, _format: &ObjType) -> (r: String)
    ensures
        r@ == name@,
{
    name.to_owned()
}

/// Splits a 40-hex object name into the directory part (the first two
/// characters) and the file part (the other 38), as laid out under
/// `objects/`.
pub fn object_path(name: &str) -> (r: (String, String))
    requires
        name@.len() == 40,
        forall|i: int| 0 <= i < name@.len() ==> is_hex_char(#[trigger] name@[i]),
    ensures
        r.0@ == name@.take(2),
        r.1@ == name@.skip(2),
{
    proof {
        assert forall|i: int| 0 <= i < name@.len() implies '\0' <= #[trigger] name@[i]
            && name@[i] <= '\u{7f}' by {
            assert(is_hex_char(name@[i]));
            assert('\0' <= '0' && '9' <= '\u{7f}' && '\0' <= 'a' && 'f' <= '\u{7f}');
        }
        lemma_ascii_chars_encode(name@);
    }
    let bytes = name.as_bytes();
    let dir_bytes = slice_subrange(bytes, 0, 2);
    let file_bytes = slice_subrange(bytes, 2, 40);
    proof {
        assert forall|i: int| 0 <= i < dir_bytes@.len() implies #[trigger] dir_bytes@[i]
            < 0x80 by {
            assert(dir_bytes@[i] == bytes@[i]);
        }
        assert forall|i: int| 0 <= i < file_bytes@.len() implies #[trigger] file_bytes@[i]
            < 0x80 by {
            assert(file_bytes@[i] == bytes@[i + 2]);
        }
        lemma_ascii_bytes_decode(dir_bytes@);
        lemma_ascii_bytes_decode(file_bytes@);
        assert(bytes_as_chars(dir_bytes@) =~= name@.take(2));
        assert(bytes_as_chars(file_bytes@) =~= name@.skip(2));
    }
    let dir = match bytes_to_string(dir_bytes) {
        Some(s) => s,
        None => {
            proof {
                assert(false);
            }
            String::new()
        },
    };
    let file = match bytes_to_string(file_bytes) {
        Some(s) => s,
        None => {
            proof {
                assert(false);
            }
            String::new()
        },
    };
    (dir, file)
}

/// Frames, hashes and compresses an object for storage.
///
/// The result carries the object's 40-character lowercase hex name and the
/// zlib stream to store at `objects/<name[0..2]>/<name[2..]>`; the stream
/// decompresses to exactly the canonical serialization, and the name is a
/// function of the kind and payload alone, so a second write of the same
/// object produces the same name and an interchangeable stream. Objects are
/// compressed at level 1, as all object writes are.
pub fn write_object(obj: &GitObject) -> (r: (String, Vec<u8>))
    ensures
        r.0@ == spec_object_name(obj.obj_type, obj.data@),
        r.0@.len() == 40,
        forall|i: int| 0 <= i < 40 ==> is_hex_char(#[trigger] r.0@[i]),
        inflate_of(r.1@) == Some(spec_frame(obj.obj_type, obj.data@)),
{
    let framed = frame(obj.obj_type, &obj.data);
    let name = sha1_hex(&framed);
    proof {
        lemma_hex_chars_are_hex(sha1_of(framed@));
    }
    let stream = zlib_compress(&framed, 1);
    (name, stream)
}

/// The 20 raw bytes of an object's SHA-1: what an index entry carries for a
/// staged blob. Its hex form is the object's name.
pub fn object_digest(obj: &GitObject) -> (r: Vec<u8>)
    ensures
        r@ == sha1_of(spec_frame(obj.obj_type, obj.data@)),
        r@.len() == 20,
        hex_chars(r@) == spec_object_name(obj.obj_type, obj.data@),
{
    let framed = frame(obj.obj_type, &obj.data);
    sha1_bytes(&framed)
}

/// Decompresses and parses one stored object, handed the raw bytes of its
/// file under `objects/`.
///
/// Succeeds exactly when the bytes are a zlib stream whose contents parse as
/// a canonical serialization; a stream that is not zlib yields
/// `ObjectError("corrupt object")`, and one whose contents are malformed
/// yields the parse error for those contents.
pub fn read_object(stream: &Vec<u8>) -> (r: Result<GitObject, GitError>)
    ensures
        match r {
            Ok(obj) => spec_read_object(stream@) == Some((obj.obj_type, obj.data@)),
            Err(e) => {
                &&& spec_read_object(stream@) is None
                &&& match inflate_of(stream@) {
                    None => e matches GitError::ObjectError(m) && m@ == "corrupt object"@,
                    Some(framed) => {
                        &&& e matches GitError::ObjectError(m)
                        &&& (m@ == "bad frame"@ <==> !frame_shape_ok(framed))
                        &&& (m@ == "bad length"@ <==> frame_shape_ok(framed))
                    },
                }
            },
        },
{
    let framed = match zlib_decompress(stream) {
        Some(v) => v,
        None => {
            return Err(GitError::ObjectError("corrupt object".to_owned()));
        },
    };
    parse(&framed)
}

/// Reading back a stored object yields the object: a stream that
/// decompresses to the canonical serialization of a kind and payload reads
/// back as exactly that kind and payload.
pub proof fn lemma_store_round_trip(t: ObjType, data: Seq<u8>, stream: Seq<u8>)
    requires
        inflate_of(stream) == Some(spec_frame(t, data)),
    ensures
        spec_read_object(stream) == Some((t, data)),
{
    lemma_parse_frame(t, data);
}

/// Two objects with equal canonical serialization share a name.
pub proof fn lemma_equal_canonical_same_name(t1: ObjType, d1: Seq<u8>, t2: ObjType, d2: Seq<u8>)
    requires
        spec_frame(t1, d1) == spec_frame(t2, d2),
    ensures
        spec_object_name(t1, d1) == spec_object_name(t2, d2),
{
}

} // verus!
