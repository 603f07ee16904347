//! The object codec: kinds, objects, and the canonical
//! `<kind> <size>\0<payload>` framing.

use vstd::prelude::*;
use vstd::slice::{slice_to_vec, slice_subrange, slice_index_get};
use crate::encoding::{find_byte, lemma_find_byte, find_byte_from};
use crate::encoding::{dec_bytes, dec_val, all_digits, lemma_dec_bytes, push_decimal,
    dec_value_capped};
use crate::error::GitError;

verus! {

/// The four object kinds.
#[derive(Copy, Clone, Debug, PartialEq, Eq, Structural)]
pub enum ObjType {
    Commit,
    Tree,
    Tag,
    Blob,
}

/// An object: a kind and its payload bytes.
pub struct GitObject {
    pub obj_type: ObjType,
    pub data: Vec<u8>,
}

/// The wire tag of an object kind: the lowercase ASCII of its name.
pub open spec fn tag_bytes(t: ObjType) -> Seq<u8> {
    match t {
        ObjType::Commit => seq![99u8, 111u8, 109u8, 109u8, 105u8, 116u8],
        ObjType::Tree => seq![116u8, 114u8, 101u8, 101u8],
        ObjType::Tag => seq![116u8, 97u8, 103u8],
        ObjType::Blob => seq![98u8, 108u8, 111u8, 98u8],
    }
}

/// The kind a wire tag decodes to. An unknown tag decodes leniently to
/// Commit.
pub open spec fn tag_of(s: Seq<u8>) -> ObjType {
    if s == tag_bytes(ObjType::Tree) {
        ObjType::Tree
    } else if s == tag_bytes(ObjType::Tag) {
        ObjType::Tag
    } else if s == tag_bytes(ObjType::Blob) {
        ObjType::Blob
    } else {
        ObjType::Commit
    }
}

/// Decoding the tag of a kind yields the kind back.
pub proof fn lemma_tag_round_trip(t: ObjType)
    ensures
        tag_of(tag_bytes(t)) == t,
{
    assert(tag_bytes(ObjType::Commit).len() == 6 && tag_bytes(ObjType::Tree).len() == 4
        && tag_bytes(ObjType::Tag).len() == 3 && tag_bytes(ObjType::Blob).len() == 4);
    assert(tag_bytes(ObjType::Tree)[0] != tag_bytes(ObjType::Blob)[0]);
}

/// What writes itself to bytes and reads itself back.
pub trait Serializable: Sized {
    /// The byte form of a value.
    spec fn serial(&self) -> Seq<u8>;

    /// What a byte form reads back as.
    spec fn deserial(input: Seq<u8>) -> Self;

    /// Writes the byte form.
    fn serialize(&self) -> (r: Vec<u8>)
        ensures
            r@ == self.serial(),
    ;

    /// Reads a value back from bytes.
    fn deserialize(input: &[u8]) -> (r: Self)
        ensures
            r == Self::deserial(input@),
    ;
}

impl Serializable for ObjType {
    open spec fn serial(&self) -> Seq<u8> {
        tag_bytes(*self)
    }

    open spec fn deserial(input: Seq<u8>) -> ObjType {
        tag_of(input)
    }

    fn serialize(&self) -> (r: Vec<u8>) {
        let mut out: Vec<u8> = Vec::new();
        match self {
            ObjType::Commit => {
                out.push(99u8);
                out.push(111u8);
                out.push(109u8);
                out.push(109u8);
                out.push(105u8);
                out.push(116u8);
            },
            ObjType::Tree => {
                out.push(116u8);
                out.push(114u8);
                out.push(101u8);
                out.push(101u8);
            },
            ObjType::Tag => {
                out.push(116u8);
                out.push(97u8);
                out.push(103u8);
            },
            ObjType::Blob => {
                out.push(98u8);
                out.push(108u8);
                out.push(111u8);
                out.push(98u8);
            },
        }
        assert(out@ =~= tag_bytes(*self));
        out
    }

    fn deserialize(input: &[u8]) -> (r: ObjType) {
        let n = input.len();
        if n == 4 && *slice_index_get(input, 0) == 116u8 && *slice_index_get(input, 1) == 114u8
            && *slice_index_get(input, 2) == 101u8 && *slice_index_get(input, 3) == 101u8 {
            assert(input@ =~= tag_bytes(ObjType::Tree));
            ObjType::Tree
        } else if n == 3 && *slice_index_get(input, 0) == 116u8 && *slice_index_get(input, 1)
            == 97u8 && *slice_index_get(input, 2) == 103u8 {
            assert(input@ =~= tag_bytes(ObjType::Tag));
            ObjType::Tag
        } else if n == 4 && *slice_index_get(input, 0) == 98u8 && *slice_index_get(input, 1)
            == 108u8 && *slice_index_get(input, 2) == 111u8 && *slice_index_get(input, 3) == 98u8 {
            assert(input@ =~= tag_bytes(ObjType::Blob));
            ObjType::Blob
        } else {
            proof {
                if input@ == tag_bytes(ObjType::Tree) {
                    assert(input@[0] == 116u8 && input@[1] == 114u8 && input@[2] == 101u8
                        && input@[3] == 101u8);
                }
                if input@ == tag_bytes(ObjType::Tag) {
                    assert(input@[0] == 116u8 && input@[1] == 97u8 && input@[2] == 103u8);
                }
                if input@ == tag_bytes(ObjType::Blob) {
                    assert(input@[0] == 98u8 && input@[1] == 108u8 && input@[2] == 111u8
                        && input@[3] == 98u8);
                }
            }
            ObjType::Commit
        }
    }
}

impl GitObject {
    /// A new object holding a copy of the payload bytes.
    pub fn new(obj_type: ObjType, data: &[u8]) -> (r: GitObject)
        ensures
            r.obj_type == obj_type,
            r.data@ == data@,
    {
        GitObject { obj_type, data: slice_to_vec(data) }
    }

    /// The payload bytes, whatever the kind.
    pub fn serialize(&self) -> (r: &[u8])
        ensures
            r@ == self.data@,
    {
        self.data.as_slice()
    }
}

/// The canonical serialization of an object:
/// `tag || SP || decimal-length || NUL || payload`.
pub open spec fn spec_frame(t: ObjType, data: Seq<u8>) -> Seq<u8> {
    tag_bytes(t) + seq![32u8] + dec_bytes(data.len()) + seq![0u8] + data
}

/// Produces the canonical serialization of an object.
pub fn frame(t: ObjType, data: &Vec<u8>) -> (r: Vec<u8>)
    ensures
        r@ == spec_frame(t, data@),
{
    let mut out = t.serialize();
    out.push(32u8);
    push_decimal(&mut out, data.len() as u64);
    out.push(0u8);
    out.extend_from_slice(data.as_slice());
    assert(out@ =~= spec_frame(t, data@));
    out
}

/// Whether the bytes have the shape of a frame: a NUL somewhere, and the
/// first SP before the first NUL.
pub open spec fn frame_shape_ok(s: Seq<u8>) -> bool {
    match (find_byte(s, 32u8), find_byte(s, 0u8)) {
        (Some(sp), Some(nul)) => sp < nul,
        _ => false,
    }
}

/// What a byte string parses to as a frame: the kind decoded from the bytes
/// before the first SP, and the payload after the first NUL, provided the
/// decimal between SP and NUL equals the payload length.
pub open spec fn spec_parse(s: Seq<u8>) -> Option<(ObjType, Seq<u8>)> {
    if !frame_shape_ok(s) {
        None
    } else {
        let sp = find_byte(s, 32u8)->Some_0;
        let nul = find_byte(s, 0u8)->Some_0;
        let digits = s.subrange(sp + 1, nul);
        let payload = s.skip(nul + 1);
        if digits.len() > 0 && all_digits(digits) && dec_val(digits) == payload.len() {
            Some((tag_of(s.take(sp)), payload))
        } else {
            None
        }
    }
}

/// The two parse error messages are distinct.
proof fn lemma_parse_messages_differ()
    ensures
        "bad frame"@ != "bad length"@,
{
    reveal_strlit("bad frame");
    reveal_strlit("bad length");
    assert("bad frame"@.len() == 9);
    assert("bad length"@.len() == 10);
}

/// Parses a canonical serialization back into an object.
///
/// Returns `ObjectError("bad frame")` exactly when the bytes lack the
/// SP-before-NUL shape, and `ObjectError("bad length")` exactly when the
/// shape is there but the decimal between them is missing, not a number, or
/// not the payload length.
pub fn parse(data: &Vec<u8>) -> (r: Result<GitObject, GitError>)
    ensures
        match r {
            Ok(obj) => spec_parse(data@) == Some((obj.obj_type, obj.data@)),
            Err(e) => {
                &&& spec_parse(data@) is None
                &&& match e {
                    GitError::ObjectError(m) => {
                        &&& (m@ == "bad frame"@ <==> !frame_shape_ok(data@))
                        &&& (m@ == "bad length"@ <==> frame_shape_ok(data@))
                    },
                    _ => false,
                }
            },
        },
{
    proof {
        assert(data@.skip(0) =~= data@);
    }
    let sp_opt = find_byte_from(data, 0, 32u8);
    let nul_opt = find_byte_from(data, 0, 0u8);
    if sp_opt.is_none() || nul_opt.is_none() {
        proof {
            lemma_parse_messages_differ();
        }
        return Err(GitError::ObjectError("bad frame".to_owned()));
    }
    let sp = sp_opt.unwrap();
    let nul = nul_opt.unwrap();
    if sp >= nul {
        proof {
            lemma_parse_messages_differ();
        }
        return Err(GitError::ObjectError("bad frame".to_owned()));
    }
    assert(frame_shape_ok(data@));
    let ghost digits = data@.subrange(sp as int + 1, nul as int);
    let ghost payload = data@.skip(nul as int + 1);
    let n = data.len();
    let payload_len = n - nul - 1;
    let size = match dec_value_capped(data, sp + 1, nul, payload_len) {
        Some(v) => v,
        None => {
            proof {
                lemma_parse_messages_differ();
                if all_digits(digits) && digits.len() > 0 && dec_val(digits) == payload.len() {
                    assert(dec_val(digits) <= payload_len);
                }
            }
            return Err(GitError::ObjectError("bad length".to_owned()));
        },
    };
    if size != payload_len {
        proof {
            lemma_parse_messages_differ();
        }
        return Err(GitError::ObjectError("bad length".to_owned()));
    }
    let tag_slice = slice_subrange(data.as_slice(), 0, sp);
    let obj_type = ObjType::deserialize(tag_slice);
    let payload_vec = slice_to_vec(slice_subrange(data.as_slice(), nul + 1, n));
    proof {
        assert(tag_slice@ =~= data@.take(sp as int));
        assert(payload_vec@ =~= payload);
    }
    Ok(GitObject { obj_type, data: payload_vec })
}

/// Parsing the canonical serialization of a kind and payload yields them
/// back, whatever the payload holds.
pub proof fn lemma_parse_frame(t: ObjType, data: Seq<u8>)
    ensures
        spec_parse(spec_frame(t, data)) == Some((t, data)),
{
    let s = spec_frame(t, data);
    let tag = tag_bytes(t);
    let digits = dec_bytes(data.len());
    lemma_dec_bytes(data.len());
    lemma_tag_round_trip(t);
    lemma_find_byte(s, 32u8);
    lemma_find_byte(s, 0u8);
    // The tag holds no SP and no NUL; the digits hold neither; so the first
    // SP is the one after the tag and the first NUL is the one after the
    // digits.
    let sp = tag.len() as int;
    let nul = tag.len() + 1 + digits.len();
    assert(s[sp] == 32u8);
    assert(s[nul as int] == 0u8);
    assert forall|j: int| 0 <= j < sp implies s[j] != 32u8 && s[j] != 0u8 by {
        assert(s[j] == tag[j]);
    }
    assert forall|j: int| sp < j < nul implies s[j] != 32u8 && s[j] != 0u8 by {
        assert(s[j] == digits[j - sp - 1]);
        assert(all_digits(digits));
        assert(48 <= digits[j - sp - 1] <= 57);
    }
    assert(find_byte(s, 32u8) == Some(sp));
    assert(find_byte(s, 0u8) == Some(nul as int));
    assert(s.take(sp) =~= tag);
    assert(s.subrange(sp + 1, nul as int) =~= digits);
    assert(s.skip(nul as int + 1) =~= data);
}

} // verus!

