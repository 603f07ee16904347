//! The binary staging index: one entry per staged path, with stat metadata,
//! big-endian fields, eight-aligned records, and a SHA-1 trailer.

use vstd::prelude::*;
use vstd::arithmetic::div_mod::lemma_fundamental_div_mod;
use vstd::utf8::{valid_utf8, encode_utf8, decode_utf8_encode_utf8, encode_utf8_decode_utf8};
use crate::encoding::{be32, be16, u32_of_be, u16_of_be, lemma_be32_round_trip,
    lemma_be16_round_trip, find_byte, lemma_find_byte, find_byte_from, hex_chars, push_be32,
    push_be16, read_be32, read_be16, bytes_to_string, hex_string};
use vstd::slice::{slice_index_get, slice_subrange, slice_to_vec};
use crate::error::GitError;
use crate::sha::{sha1_of, sha1_bytes};

verus! {

/// One staged path with its filesystem metadata. `sha1_vec` holds the
/// blob's 20 raw hash bytes and `sha1` their 40-hex form; the low 12 bits of
/// `flags` hold the byte length of `path`.
#[derive(Debug)]
pub struct GitIndex {
    pub ctime_s: u32,
    pub ctime_n: u32,
    pub mtime_s: u32,
    pub mtime_n: u32,
    pub dev: u32,
    pub ino: u32,
    pub mode: u32,
    pub uid: u32,
    pub gid: u32,
    pub size: u32,
    pub sha1: String,
    pub sha1_vec: Vec<u8>,
    pub flags: u16,
    pub path: String,
}

/// The wire-level model of an entry: the integer fields, the raw hash bytes,
/// and the UTF-8 bytes of the path.
#[verifier::ext_equal]
pub ghost struct IndexEntry {
    pub ctime_s: u32,
    pub ctime_n: u32,
    pub mtime_s: u32,
    pub mtime_n: u32,
    pub dev: u32,
    pub ino: u32,
    pub mode: u32,
    pub uid: u32,
    pub gid: u32,
    pub size: u32,
    pub sha1: Seq<u8>,
    pub flags: u16,
    pub path: Seq<u8>,
}

impl GitIndex {
    /// The wire-level model of this entry.
    pub open spec fn model(&self) -> IndexEntry {
        IndexEntry {
            ctime_s: self.ctime_s,
            ctime_n: self.ctime_n,
            mtime_s: self.mtime_s,
            mtime_n: self.mtime_n,
            dev: self.dev,
            ino: self.ino,
            mode: self.mode,
            uid: self.uid,
            gid: self.gid,
            size: self.size,
            sha1: self.sha1_vec@,
            flags: self.flags,
            path: encode_utf8(self.path@),
        }
    }

    /// Well-formed: the model is writable and the hex field matches the raw
    /// hash bytes.
    pub open spec fn wf(&self) -> bool {
        &&& entry_wf(self.model())
        &&& self.sha1@ == hex_chars(self.sha1_vec@)
    }
}

/// The models of a list of entries, in order.
pub open spec fn models(s: Seq<GitIndex>) -> Seq<IndexEntry> {
    s.map_values(|e: GitIndex| e.model())
}

/// The model pins an entry down: two entries with one model, each with its
/// hex field derived from its raw hash bytes, agree on every field. With the
/// contracts of `write_index` and `read_index` this makes the round trip
/// exact: reading back a written index returns the entries field by field.
pub proof fn lemma_model_determines_entry(a: GitIndex, b: GitIndex)
    requires
        a.model() == b.model(),
        a.sha1@ == hex_chars(a.sha1_vec@),
        b.sha1@ == hex_chars(b.sha1_vec@),
    ensures
        a.ctime_s == b.ctime_s,
        a.ctime_n == b.ctime_n,
        a.mtime_s == b.mtime_s,
        a.mtime_n == b.mtime_n,
        a.dev == b.dev,
        a.ino == b.ino,
        a.mode == b.mode,
        a.uid == b.uid,
        a.gid == b.gid,
        a.size == b.size,
        a.sha1_vec@ == b.sha1_vec@,
        a.sha1@ == b.sha1@,
        a.flags == b.flags,
        a.path@ == b.path@,
{
    encode_utf8_decode_utf8(a.path@);
    encode_utf8_decode_utf8(b.path@);
}

/// A writable entry: 20 raw hash bytes, the low 12 bits of the flags holding
/// the path byte length, and no NUL byte inside the path.
pub open spec fn entry_wf(e: IndexEntry) -> bool {
    &&& e.sha1.len() == 20
    &&& e.path.len() == e.flags & 0x0fff
    &&& forall|i: int| 0 <= i < e.path.len() ==> e.path[i] != 0
}

/// The 62 fixed bytes of an entry: ten big-endian 32-bit fields, the 20 raw
/// hash bytes, and the big-endian 16-bit flags.
pub open spec fn entry_fixed_bytes(e: IndexEntry) -> Seq<u8> {
    be32(e.ctime_s) + be32(e.ctime_n) + be32(e.mtime_s) + be32(e.mtime_n) + be32(e.dev) + be32(
        e.ino,
    ) + be32(e.mode) + be32(e.uid) + be32(e.gid) + be32(e.size) + e.sha1 + be16(e.flags)
}

/// The on-disk length of an entry whose path has `plen` bytes: the fixed 62
/// bytes plus the path, rounded up past at least one NUL to a multiple of
/// eight.
pub open spec fn entry_len(plen: nat) -> nat {
    ((62 + plen + 8) / 8) * 8
}

/// A run of `n` NUL bytes.
pub open spec fn zero_bytes(n: nat) -> Seq<u8> {
    Seq::new(n, |i: int| 0u8)
}

/// One full entry on the wire: fixed fields, path bytes, NUL padding to the
/// eight-aligned length.
pub open spec fn entry_bytes(e: IndexEntry) -> Seq<u8> {
    entry_fixed_bytes(e) + e.path + zero_bytes((entry_len(e.path.len()) - 62 - e.path.len()) as nat)
}

/// The entries of an index, laid out one after the other.
pub open spec fn entries_bytes(es: Seq<IndexEntry>) -> Seq<u8>
    decreases es.len(),
{
    if es.len() == 0 {
        Seq::empty()
    } else {
        entry_bytes(es[0]) + entries_bytes(es.drop_first())
    }
}

/// The 12-byte header: the signature `DIRC`, version 2, and the entry count.
pub open spec fn header_bytes(n: u32) -> Seq<u8> {
    seq![68u8, 73u8, 82u8, 67u8] + be32(2) + be32(n)
}

/// The body of an index file: header then entries.
pub open spec fn index_body(es: Seq<IndexEntry>) -> Seq<u8> {
    header_bytes(es.len() as u32) + entries_bytes(es)
}

/// The whole index file: the body followed by the SHA-1 of the body.
pub open spec fn index_encoding(es: Seq<IndexEntry>) -> Seq<u8> {
    index_body(es) + sha1_of(index_body(es))
}

/// The entry length leaves one to eight NUL bytes of padding and is a
/// multiple of eight.
pub proof fn lemma_entry_len(plen: nat)
    ensures
        62 + plen < entry_len(plen) <= 62 + plen + 8,
        entry_len(plen) % 8 == 0,
{
    lemma_fundamental_div_mod(62 + plen as int + 8, 8);
    let q = (62 + plen as int + 8) / 8;
    assert(entry_len(plen) == 8 * q);
    assert((8 * q) % 8 == 0) by (nonlinear_arith);
}

/// What the fixed 62 bytes at the front of `data` parse to, with a path of
/// `plen` bytes after them.
pub open spec fn parsed_entry(data: Seq<u8>, plen: nat) -> IndexEntry {
    IndexEntry {
        ctime_s: u32_of_be(data.subrange(0, 4)),
        ctime_n: u32_of_be(data.subrange(4, 8)),
        mtime_s: u32_of_be(data.subrange(8, 12)),
        mtime_n: u32_of_be(data.subrange(12, 16)),
        dev: u32_of_be(data.subrange(16, 20)),
        ino: u32_of_be(data.subrange(20, 24)),
        mode: u32_of_be(data.subrange(24, 28)),
        uid: u32_of_be(data.subrange(28, 32)),
        gid: u32_of_be(data.subrange(32, 36)),
        size: u32_of_be(data.subrange(36, 40)),
        sha1: data.subrange(40, 60),
        flags: u16_of_be(data.subrange(60, 62)),
        path: data.subrange(62, 62 + plen as int),
    }
}

/// Parses `n` entries from the front of `data`: each runs from its 62 fixed
/// bytes to the first NUL after them, and occupies its eight-aligned length.
pub open spec fn parse_entries(data: Seq<u8>, n: nat) -> Option<Seq<IndexEntry>>
    decreases n,
{
    if n == 0 {
        Some(Seq::empty())
    } else if data.len() < 62 {
        None
    } else {
        match find_byte(data.skip(62), 0u8) {
            None => None,
            Some(k) => {
                let plen = k as nat;
                let elen = entry_len(plen);
                if data.len() < elen {
                    None
                } else {
                    match parse_entries(data.skip(elen as int), (n - 1) as nat) {
                        Some(rest) => Some(seq![parsed_entry(data, plen)] + rest),
                        None => None,
                    }
                }
            },
        }
    }
}

/// Whether the final 20 bytes of an index file equal the SHA-1 of the bytes
/// before them.
pub open spec fn checksum_ok(data: Seq<u8>) -> bool {
    data.len() >= 20 && sha1_of(data.take(data.len() - 20)) == data.skip(data.len() - 20)
}

/// The body of an index file: everything before the 20-byte trailer.
pub open spec fn file_body(data: Seq<u8>) -> Seq<u8> {
    data.take(data.len() - 20)
}

/// Whether the file is long enough for a header and starts with `DIRC`.
pub open spec fn signature_ok(data: Seq<u8>) -> bool {
    data.len() >= 32 && file_body(data).take(4) == seq![68u8, 73u8, 82u8, 67u8]
}

/// Whether the header's version field holds 2.
pub open spec fn version_ok(data: Seq<u8>) -> bool {
    u32_of_be(file_body(data).subrange(4, 8)) == 2
}

/// The header's entry count.
pub open spec fn entry_count(data: Seq<u8>) -> nat {
    u32_of_be(file_body(data).subrange(8, 12)) as nat
}

/// What an index file reads back as, at the wire level: `None` when the
/// checksum, signature, version or an entry is bad.
pub open spec fn spec_read_index(data: Seq<u8>) -> Option<Seq<IndexEntry>> {
    if !checksum_ok(data) {
        None
    } else if !signature_ok(data) {
        None
    } else if !version_ok(data) {
        None
    } else {
        parse_entries(file_body(data).skip(12), entry_count(data))
    }
}

/// Appending one entry to a list appends its bytes to theirs.
proof fn lemma_entries_bytes_push(es: Seq<IndexEntry>, e: IndexEntry)
    ensures
        entries_bytes(es.push(e)) == entries_bytes(es) + entry_bytes(e),
    decreases es.len(),
{
    if es.len() == 0 {
        assert(es.push(e).drop_first() =~= Seq::<IndexEntry>::empty());
        assert(es.push(e)[0] == e);
        assert(entries_bytes(es.push(e)) == entry_bytes(e) + entries_bytes(
            Seq::<IndexEntry>::empty(),
        ));
        assert(entries_bytes(es.push(e)) =~= entries_bytes(es) + entry_bytes(e));
    } else {
        assert(es.push(e).drop_first() =~= es.drop_first().push(e));
        lemma_entries_bytes_push(es.drop_first(), e);
        assert(entries_bytes(es.push(e)) == entry_bytes(es[0]) + (entries_bytes(es.drop_first())
            + entry_bytes(e)));
        assert(entry_bytes(es[0]) + (entries_bytes(es.drop_first()) + entry_bytes(e)) =~= (
        entry_bytes(es[0]) + entries_bytes(es.drop_first())) + entry_bytes(e));
    }
}

/// Appending one entry to a list appends its model to their models.
proof fn lemma_models_push(s: Seq<GitIndex>, e: GitIndex)
    ensures
        models(s.push(e)) == models(s).push(e.model()),
{
    assert(models(s.push(e)) =~= models(s).push(e.model()));
}

/// A well-formed entry at the front of `data` parses back to itself and its
/// record ends where the next begins.
proof fn lemma_parse_one_entry(e: IndexEntry, rest: Seq<u8>)
    requires
        entry_wf(e),
    ensures
        ({
            let data = entry_bytes(e) + rest;
            let plen = e.path.len();
            &&& entry_bytes(e).len() == entry_len(plen)
            &&& data.len() >= entry_len(plen)
            &&& data.len() >= 62
            &&& find_byte(data.skip(62), 0u8) == Some(plen as int)
            &&& parsed_entry(data, plen) == e
            &&& data.skip(entry_len(plen) as int) == rest
        }),
{
    let data = entry_bytes(e) + rest;
    let plen = e.path.len();
    let elen = entry_len(plen);
    lemma_entry_len(plen);
    let fixed = entry_fixed_bytes(e);
    assert(fixed.len() == 62);
    let pad = zero_bytes((elen - 62 - plen) as nat);
    assert(entry_bytes(e).len() == elen);

    // The first NUL at or after offset 62 sits right after the path.
    let tail = data.skip(62);
    assert forall|j: int| 0 <= j < plen implies tail[j] != 0u8 by {
        assert(tail[j] == e.path[j]);
    }
    assert(tail[plen as int] == pad[0]);
    assert(tail[plen as int] == 0u8);
    lemma_find_byte(tail, 0u8);
    match find_byte(tail, 0u8) {
        Some(k) => {
            assert(k <= plen);
            assert(k == plen);
        },
        None => {
            assert(false);
        },
    }

    // Each fixed field reads back.
    assert(data.subrange(0, 4) =~= be32(e.ctime_s));
    assert(data.subrange(4, 8) =~= be32(e.ctime_n));
    assert(data.subrange(8, 12) =~= be32(e.mtime_s));
    assert(data.subrange(12, 16) =~= be32(e.mtime_n));
    assert(data.subrange(16, 20) =~= be32(e.dev));
    assert(data.subrange(20, 24) =~= be32(e.ino));
    assert(data.subrange(24, 28) =~= be32(e.mode));
    assert(data.subrange(28, 32) =~= be32(e.uid));
    assert(data.subrange(32, 36) =~= be32(e.gid));
    assert(data.subrange(36, 40) =~= be32(e.size));
    assert(data.subrange(40, 60) =~= e.sha1);
    assert(data.subrange(60, 62) =~= be16(e.flags));
    assert(data.subrange(62, 62 + plen as int) =~= e.path);
    lemma_be32_round_trip(e.ctime_s);
    lemma_be32_round_trip(e.ctime_n);
    lemma_be32_round_trip(e.mtime_s);
    lemma_be32_round_trip(e.mtime_n);
    lemma_be32_round_trip(e.dev);
    lemma_be32_round_trip(e.ino);
    lemma_be32_round_trip(e.mode);
    lemma_be32_round_trip(e.uid);
    lemma_be32_round_trip(e.gid);
    lemma_be32_round_trip(e.size);
    lemma_be16_round_trip(e.flags);

    assert(data.skip(elen as int) =~= rest);
}

/// A list of well-formed entries parses back from its wire form, whatever
/// follows it.
#[verifier::rlimit(60)]
proof fn lemma_parse_entries_round_trip(es: Seq<IndexEntry>)
    requires
        forall|i: int| 0 <= i < es.len() ==> entry_wf(#[trigger] es[i]),
    ensures
        parse_entries(entries_bytes(es), es.len()) == Some(es),
    decreases es.len(),
{
    if es.len() == 0 {
        assert(parse_entries(entries_bytes(es), 0) == Some(Seq::<IndexEntry>::empty()));
        assert(es =~= Seq::<IndexEntry>::empty());
    } else {
        let e = es[0];
        let rest = es.drop_first();
        let data = entries_bytes(es);
        assert(data == entry_bytes(e) + entries_bytes(rest));
        lemma_parse_one_entry(e, entries_bytes(rest));
        assert forall|i: int| 0 <= i < rest.len() implies entry_wf(#[trigger] rest[i]) by {
            assert(rest[i] == es[i + 1]);
        }
        lemma_parse_entries_round_trip(rest);
        let plen = e.path.len();
        let elen = entry_len(plen);
        assert(data.skip(elen as int) == entries_bytes(rest));
        assert(parse_entries(data, es.len()) == Some(seq![e] + rest));
        assert(seq![e] + rest =~= es);
    }
}

/// Reading back a written index yields the same entries: for well-formed
/// entries and a 20-byte digest, the encoding that ends in the SHA-1 of its
/// body reads back as exactly those entries.
pub proof fn lemma_index_round_trip(es: Seq<IndexEntry>, digest: Seq<u8>)
    requires
        es.len() <= u32::MAX,
        forall|i: int| 0 <= i < es.len() ==> entry_wf(#[trigger] es[i]),
        digest.len() == 20,
    ensures
        digest == sha1_of(index_body(es)) ==> spec_read_index(index_body(es) + digest) == Some(es),
{
    if digest == sha1_of(index_body(es)) {
        let body = index_body(es);
        let data = body + digest;
        assert(header_bytes(es.len() as u32).len() == 12);
        assert(data.len() == body.len() + 20);
        assert(data.take(data.len() - 20) =~= body);
        assert(data.skip(data.len() - 20) =~= digest);
        assert(checksum_ok(data));
        assert(body.take(4) =~= seq![68u8, 73u8, 82u8, 67u8]);
        assert(body.subrange(4, 8) =~= be32(2));
        assert(body.subrange(8, 12) =~= be32(es.len() as u32));
        lemma_be32_round_trip(2);
        lemma_be32_round_trip(es.len() as u32);
        assert(u32_of_be(body.subrange(4, 8)) == 2);
        assert(u32_of_be(body.subrange(8, 12)) as nat == es.len());
        assert(body.skip(12) =~= entries_bytes(es));
        lemma_parse_entries_round_trip(es);
    }
}

/// The two write error messages are distinct.
proof fn lemma_write_messages_differ()
    ensures
        "too many entries"@ != "invalid entry"@,
{
    reveal_strlit("too many entries");
    reveal_strlit("invalid entry");
    assert("too many entries"@.len() == 16);
    assert("invalid entry"@.len() == 13);
}

/// Emits the index file for a list of entries: the `DIRC` header, each entry
/// in the order given, and the SHA-1 trailer.
///
/// Succeeds exactly when the count fits 32 bits and every entry is writable
/// (20 raw hash bytes, flags' low 12 bits holding the path byte length, no
/// NUL in the path); `IndexError("too many entries")` reports a count too
/// large, `IndexError("invalid entry")` an unwritable entry. On success the
/// bytes
/// are the exact wire form of the entries' models, the final 20 bytes are
/// the SHA-1 of everything before them, and reading the bytes back yields
/// the models unchanged.
#[verifier::rlimit(60)]
pub fn write_index(entries: &Vec<GitIndex>) -> (r: Result<Vec<u8>, GitError>)
    ensures
        match r {
            Ok(out) => {
                &&& entries@.len() <= u32::MAX
                &&& forall|i: int| 0 <= i < entries@.len() ==> entry_wf(
                    #[trigger] entries@[i].model(),
                )
                &&& out@ == index_encoding(models(entries@))
                &&& out@.len() >= 20
                &&& out@.skip(out@.len() - 20) == sha1_of(out@.take(out@.len() - 20))
                &&& spec_read_index(out@) == Some(models(entries@))
            },
            Err(e) => {
                &&& (entries@.len() > u32::MAX || exists|i: int|
                    0 <= i < entries@.len() && !entry_wf(#[trigger] entries@[i].model()))
                &&& match e {
                    GitError::IndexError(m) => {
                        &&& (m@ == "too many entries"@ <==> entries@.len() > u32::MAX)
                        &&& (m@ == "invalid entry"@ <==> entries@.len() <= u32::MAX && exists|i:
                            int|
                            0 <= i < entries@.len() && !entry_wf(#[trigger] entries@[i].model()))
                    },
                    _ => false,
                }
            },
        },
{
    proof {
        lemma_write_messages_differ();
    }
    if entries.len() > (u32::MAX as usize) {
        return Err(GitError::IndexError("too many entries".to_owned()));
    }
    let count = entries.len() as u32;

    // Validate every entry before emitting anything.
    let mut i: usize = 0;
    while i < entries.len()
        invariant
            i <= entries@.len(),
            forall|j: int| 0 <= j < i ==> entry_wf(#[trigger] entries@[j].model()),
            entries@.len() <= u32::MAX,
        decreases entries@.len() - i,
    {
        let e = &entries[i];
        let path_bytes = e.path.as_str().as_bytes();
        let plen = path_bytes.len();
        assert(path_bytes@ == entries@[i as int].model().path);
        let wf_here = e.sha1_vec.len() == 20 && plen == ((e.flags & 0x0fff) as usize);
        if !wf_here {
            proof {
                lemma_write_messages_differ();
                assert(entries@[i as int].model().sha1 == e.sha1_vec@);
                assert(entries@[i as int].model().flags == e.flags);
                assert(!entry_wf(entries@[i as int].model()));
            }
            return Err(GitError::IndexError("invalid entry".to_owned()));
        }
        let mut p: usize = 0;
        while p < plen
            invariant
                p <= plen,
                plen == path_bytes@.len(),
                i < entries@.len(),
                entries@.len() <= u32::MAX,
                path_bytes@ == entries@[i as int].model().path,
                forall|q: int| 0 <= q < p ==> path_bytes@[q] != 0u8,
            decreases plen - p,
        {
            if *slice_index_get(path_bytes, p) == 0u8 {
                proof {
                    lemma_write_messages_differ();
                    assert(entries@[i as int].model().path[p as int] == 0u8);
                    assert(!entry_wf(entries@[i as int].model()));
                }
                return Err(GitError::IndexError("invalid entry".to_owned()));
            }
            p = p + 1;
        }
        proof {
            assert(entry_wf(entries@[i as int].model()));
        }
        i = i + 1;
    }
    let ghost ms = models(entries@);
    assert forall|j: int| 0 <= j < ms.len() implies entry_wf(#[trigger] ms[j]) by {
        assert(ms[j] == entries@[j].model());
    }

    // Header.
    let mut out: Vec<u8> = Vec::new();
    out.push(68u8);
    out.push(73u8);
    out.push(82u8);
    out.push(67u8);
    push_be32(&mut out, 2);
    push_be32(&mut out, count);
    assert(out@ =~= header_bytes(count));

    // Entries.
    let mut j: usize = 0;
    while j < entries.len()
        invariant
            j <= entries@.len(),
            entries@.len() <= u32::MAX,
            count == entries@.len() as u32,
            ms == models(entries@),
            forall|q: int| 0 <= q < entries@.len() ==> entry_wf(#[trigger] entries@[q].model()),
            out@ == header_bytes(count) + entries_bytes(ms.take(j as int)),
        decreases entries@.len() - j,
    {
        let ghost out_before = out@;
        let e = &entries[j];
        let ghost m = entries@[j as int].model();
        push_be32(&mut out, e.ctime_s);
        push_be32(&mut out, e.ctime_n);
        push_be32(&mut out, e.mtime_s);
        push_be32(&mut out, e.mtime_n);
        push_be32(&mut out, e.dev);
        push_be32(&mut out, e.ino);
        push_be32(&mut out, e.mode);
        push_be32(&mut out, e.uid);
        push_be32(&mut out, e.gid);
        push_be32(&mut out, e.size);
        out.extend_from_slice(e.sha1_vec.as_slice());
        push_be16(&mut out, e.flags);
        assert(out@ =~= out_before + entry_fixed_bytes(m));
        let path_bytes = e.path.as_str().as_bytes();
        out.extend_from_slice(path_bytes);
        let plen = path_bytes.len();
        proof {
            lemma_entry_len(plen as nat);
        }
        let elen = ((62 + plen + 8) / 8) * 8;
        let padding = elen - 62 - plen;
        let ghost out_mid = out@;
        let mut p: usize = 0;
        while p < padding
            invariant
                p <= padding,
                out@ == out_mid + zero_bytes(p as nat),
            decreases padding - p,
        {
            out.push(0u8);
            assert(out@ =~= out_mid + zero_bytes(p as nat + 1));
            p = p + 1;
        }
        proof {
            assert(out@ =~= out_before + entry_bytes(m));
            lemma_entries_bytes_push(ms.take(j as int), m);
            assert(ms.take(j as int).push(m) =~= ms.take(j as int + 1));
            assert(out@ =~= header_bytes(count) + entries_bytes(ms.take(j as int + 1)));
        }
        j = j + 1;
    }
    proof {
        assert(ms.take(entries@.len() as int) =~= ms);
        assert(out@ == index_body(ms));
    }

    // Trailer.
    let ghost body = out@;
    let digest = sha1_bytes(&out);
    out.extend_from_slice(digest.as_slice());
    proof {
        assert(out@ =~= body + sha1_of(body));
        assert(out@.take(out@.len() - 20) =~= body);
        assert(out@.skip(out@.len() - 20) =~= sha1_of(body));
        lemma_index_round_trip(ms, digest@);
    }
    Ok(out)
}

/// The six read error messages are pairwise distinct.
proof fn lemma_read_messages_differ()
    ensures
        "bad checksum"@.len() == 12,
        "truncated index"@.len() == 15,
        "bad signature"@.len() == 13,
        "unsupported version"@.len() == 19,
        "truncated entry"@.len() == 15,
        "bad path"@.len() == 8,
        "truncated index"@ != "truncated entry"@,
{
    reveal_strlit("bad checksum");
    reveal_strlit("truncated index");
    reveal_strlit("bad signature");
    reveal_strlit("unsupported version");
    reveal_strlit("truncated entry");
    reveal_strlit("bad path");
    assert("truncated index"@[10] != "truncated entry"@[10]);
}

/// A record noted during the scan of the entry region: its offset, its path
/// length, and the entry it parses to.
spec fn pair_ok(region: Seq<u8>, p: (usize, usize), e: IndexEntry) -> bool {
    &&& p.0 + entry_len(p.1 as nat) <= region.len()
    &&& e == parsed_entry(region.skip(p.0 as int), p.1 as nat)
    &&& e.path.len() == p.1
}

/// Reads the index file back into entries.
///
/// Succeeds exactly when the trailer is the SHA-1 of the body, the header is
/// `DIRC` version 2, the region holds as many records as the header counts,
/// and every path is valid UTF-8; the entries come back with their hex field
/// derived from the raw hash bytes. Each failure reports the error of the
/// first check that failed: the checksum (`"bad checksum"`, also for a file
/// shorter than its trailer), the header (`"truncated index"`,
/// `"bad signature"`, `"unsupported version"`), the records
/// (`"truncated entry"`), or a path that is not UTF-8 (`"bad path"`).
#[verifier::rlimit(60)]
pub fn read_index(data: &Vec<u8>) -> (r: Result<Vec<GitIndex>, GitError>)
    ensures
        match r {
            Ok(v) => {
                &&& spec_read_index(data@) == Some(models(v@))
                &&& forall|q: int| 0 <= q < v@.len() ==> (#[trigger] v@[q].sha1@) == hex_chars(
                    v@[q].sha1_vec@,
                )
            },
            Err(e) => {
                &&& (spec_read_index(data@) is None || (match spec_read_index(data@) {
                    Some(es) => exists|q: int|
                        0 <= q < es.len() && !valid_utf8(#[trigger] es[q].path),
                    None => false,
                }))
                &&& match e {
                    GitError::IndexError(m) => {
                        &&& (m@ == "bad checksum"@ <==> !checksum_ok(data@))
                        &&& (m@ == "truncated index"@ <==> checksum_ok(data@) && data@.len()
                            < 32)
                        &&& (m@ == "bad signature"@ <==> checksum_ok(data@) && data@.len() >= 32
                            && !signature_ok(data@))
                        &&& (m@ == "unsupported version"@ <==> checksum_ok(data@) && signature_ok(
                            data@,
                        ) && !version_ok(data@))
                        &&& (m@ == "truncated entry"@ <==> checksum_ok(data@) && signature_ok(
                            data@,
                        ) && version_ok(data@) && parse_entries(
                            file_body(data@).skip(12),
                            entry_count(data@),
                        ) is None)
                        &&& (m@ == "bad path"@ <==> (match spec_read_index(data@) {
                            Some(es) => exists|q: int|
                                0 <= q < es.len() && !valid_utf8(#[trigger] es[q].path),
                            None => false,
                        }))
                    },
                    _ => false,
                }
            },
        },
{
    proof {
        lemma_read_messages_differ();
    }
    let n = data.len();
    if n < 20 {
        return Err(GitError::IndexError("bad checksum".to_owned()));
    }

    // Trailer must be the SHA-1 of the body.
    let body_vec = slice_to_vec(slice_subrange(data.as_slice(), 0, n - 20));
    let digest = sha1_bytes(&body_vec);
    assert(digest@ == sha1_of(file_body(data@)));
    let mut t: usize = 0;
    while t < 20
        invariant
            t <= 20,
            n == data@.len(),
            n >= 20,
            digest@ == sha1_of(file_body(data@)),
            digest@.len() == 20,
            forall|q: int| 0 <= q < t ==> digest@[q] == data@[n - 20 + q],
        decreases 20 - t,
    {
        if data[n - 20 + t] != digest[t] {
            proof {
                lemma_read_messages_differ();
                assert(data@.skip(n as int - 20)[t as int] == data@[n - 20 + t]);
                assert(sha1_of(data@.take(n as int - 20)) != data@.skip(n as int - 20));
            }
            return Err(GitError::IndexError("bad checksum".to_owned()));
        }
        t = t + 1;
    }
    proof {
        assert(digest@ =~= data@.skip(n as int - 20));
        assert(checksum_ok(data@));
    }

    // Header: signature, version, count.
    if n < 32 {
        return Err(GitError::IndexError("truncated index".to_owned()));
    }
    let ghost body = file_body(data@);
    let sig_ok = data[0] == 68u8 && data[1] == 73u8 && data[2] == 82u8 && data[3] == 67u8;
    proof {
        assert(body.take(4) =~= data@.subrange(0, 4));
        if sig_ok {
            assert(body.take(4) =~= seq![68u8, 73u8, 82u8, 67u8]);
        } else {
            assert(data@.subrange(0, 4) != seq![68u8, 73u8, 82u8, 67u8]);
        }
    }
    if !sig_ok {
        return Err(GitError::IndexError("bad signature".to_owned()));
    }
    assert(signature_ok(data@));
    let version = read_be32(data, 4);
    assert(data@.subrange(4, 8) =~= body.subrange(4, 8));
    if version != 2 {
        return Err(GitError::IndexError("unsupported version".to_owned()));
    }
    assert(version_ok(data@));
    let count = read_be32(data, 8);
    assert(data@.subrange(8, 12) =~= body.subrange(8, 12));
    assert(count as nat == entry_count(data@));

    // Scan the entry region, recording each record's offset and path length.
    let region = slice_to_vec(slice_subrange(data.as_slice(), 12, n - 20));
    assert(region@ =~= file_body(data@).skip(12));
    let mut pairs: Vec<(usize, usize)> = Vec::new();
    let ghost mut parsed: Seq<IndexEntry> = Seq::empty();
    let mut pos: usize = 0;
    let mut k: u32 = 0;
    proof {
        assert(region@.skip(0) =~= region@);
        if let Some(rest) = parse_entries(region@, count as nat) {
            assert(Seq::<IndexEntry>::empty() + rest =~= rest);
        }
    }
    while k < count
        invariant
            region@ == file_body(data@).skip(12),
            checksum_ok(data@),
            signature_ok(data@),
            version_ok(data@),
            count as nat == entry_count(data@),
            k <= count,
            pos <= region@.len(),
            parsed.len() == k as nat,
            pairs@.len() == k as nat,
            parse_entries(region@, count as nat) == (match parse_entries(
                region@.skip(pos as int),
                (count - k) as nat,
            ) {
                Some(rest) => Some(parsed + rest),
                None => None::<Seq<IndexEntry>>,
            }),
            forall|q: int| 0 <= q < k ==> pair_ok(region@, #[trigger] pairs@[q], parsed[q]),
        decreases count - k,
    {
        let ghost sub = region@.skip(pos as int);
        let avail = region.len() - pos;
        assert(sub.len() == avail);
        if avail < 62 {
            proof {
                lemma_read_messages_differ();
            }
            return Err(GitError::IndexError("truncated entry".to_owned()));
        }
        let abs = match find_byte_from(&region, pos + 62, 0u8) {
            Some(a) => a,
            None => {
                proof {
                    lemma_read_messages_differ();
                    assert(sub.skip(62) =~= region@.skip(pos as int + 62));
                }
                return Err(GitError::IndexError("truncated entry".to_owned()));
            },
        };
        let plen = abs - pos - 62;
        proof {
            assert(sub.skip(62) =~= region@.skip(pos as int + 62));
            assert(find_byte(sub.skip(62), 0u8) == Some(plen as int));
            lemma_entry_len(plen as nat);
        }
        let elen128 = ((62u128 + plen as u128 + 8) / 8) * 8;
        assert(elen128 == entry_len(plen as nat));
        if (avail as u128) < elen128 {
            proof {
                lemma_read_messages_differ();
            }
            return Err(GitError::IndexError("truncated entry".to_owned()));
        }
        let elen = elen128 as usize;
        let ghost e = parsed_entry(sub, plen as nat);
        proof {
            assert(sub.skip(elen as int) =~= region@.skip(pos as int + elen as int));
            assert(parse_entries(sub, (count - k) as nat) == (match parse_entries(
                region@.skip(pos as int + elen as int),
                (count - k - 1) as nat,
            ) {
                Some(rest) => Some(seq![e] + rest),
                None => None::<Seq<IndexEntry>>,
            }));
            if let Some(rest) = parse_entries(
                region@.skip(pos as int + elen as int),
                (count - k - 1) as nat,
            ) {
                assert(parsed + (seq![e] + rest) =~= parsed.push(e) + rest);
            }
            parsed = parsed.push(e);
        }
        pairs.push((pos, plen));
        pos = pos + elen;
        k = k + 1;
    }
    proof {
        assert(parse_entries(region@.skip(pos as int), 0) == Some(Seq::<IndexEntry>::empty()));
        assert(parsed + Seq::<IndexEntry>::empty() =~= parsed);
        assert(spec_read_index(data@) == Some(parsed));
    }

    // Decode each record into an entry.
    let mut out: Vec<GitIndex> = Vec::new();
    let mut j: usize = 0;
    while j < pairs.len()
        invariant
            region@ == file_body(data@).skip(12),
            checksum_ok(data@),
            signature_ok(data@),
            version_ok(data@),
            spec_read_index(data@) == Some(parsed),
            pairs@.len() == parsed.len(),
            forall|q: int| 0 <= q < parsed.len() ==> pair_ok(region@, #[trigger] pairs@[q],
                parsed[q]),
            j <= pairs@.len(),
            out@.len() == j,
            models(out@) == parsed.take(j as int),
            forall|q: int| 0 <= q < j ==> (#[trigger] out@[q].sha1@) == hex_chars(
                out@[q].sha1_vec@,
            ),
        decreases pairs@.len() - j,
    {
        let pr = pairs[j];
        let pos = pr.0;
        let plen = pr.1;
        let ghost me = parsed[j as int];
        let rlen = region.len();
        proof {
            assert(pair_ok(region@, pairs@[j as int], parsed[j as int]));
            lemma_entry_len(plen as nat);
            assert(pos as int + 62 + plen as int + 1 <= rlen);
        }
        let ghost base = region@.skip(pos as int);
        proof {
            assert(region@.subrange(pos as int, pos as int + 4) =~= base.subrange(0, 4));
            assert(region@.subrange(pos as int + 4, pos as int + 8) =~= base.subrange(4, 8));
            assert(region@.subrange(pos as int + 8, pos as int + 12) =~= base.subrange(8, 12));
            assert(region@.subrange(pos as int + 12, pos as int + 16) =~= base.subrange(12, 16));
            assert(region@.subrange(pos as int + 16, pos as int + 20) =~= base.subrange(16, 20));
            assert(region@.subrange(pos as int + 20, pos as int + 24) =~= base.subrange(20, 24));
            assert(region@.subrange(pos as int + 24, pos as int + 28) =~= base.subrange(24, 28));
            assert(region@.subrange(pos as int + 28, pos as int + 32) =~= base.subrange(28, 32));
            assert(region@.subrange(pos as int + 32, pos as int + 36) =~= base.subrange(32, 36));
            assert(region@.subrange(pos as int + 36, pos as int + 40) =~= base.subrange(36, 40));
            assert(region@.subrange(pos as int + 40, pos as int + 60) =~= base.subrange(40, 60));
            assert(region@.subrange(pos as int + 60, pos as int + 62) =~= base.subrange(60, 62));
            assert(region@.subrange(pos as int + 62, pos as int + 62 + plen as int)
                =~= base.subrange(62, 62 + plen as int));
        }
        let ctime_s = read_be32(&region, pos);
        let ctime_n = read_be32(&region, pos + 4);
        let mtime_s = read_be32(&region, pos + 8);
        let mtime_n = read_be32(&region, pos + 12);
        let dev = read_be32(&region, pos + 16);
        let ino = read_be32(&region, pos + 20);
        let mode = read_be32(&region, pos + 24);
        let uid = read_be32(&region, pos + 28);
        let gid = read_be32(&region, pos + 32);
        let size = read_be32(&region, pos + 36);
        let sha1_vec = slice_to_vec(slice_subrange(region.as_slice(), pos + 40, pos + 60));
        let flags = read_be16(&region, pos + 60);
        let path_slice = slice_subrange(region.as_slice(), pos + 62, pos + 62 + plen);
        let path = match bytes_to_string(path_slice) {
            Some(s) => s,
            None => {
                proof {
                    lemma_read_messages_differ();
                    assert(!valid_utf8(parsed[j as int].path));
                    let es = spec_read_index(data@)->Some_0;
                    assert(es == parsed);
                    assert(!valid_utf8(es[j as int].path));
                    assert((j as int) < es.len());
                    assert(exists|q: int|
                        0 <= q < es.len() && !valid_utf8(#[trigger] es[q].path));
                }
                return Err(GitError::IndexError("bad path".to_owned()));
            },
        };
        let sha1 = hex_string(&sha1_vec);
        let gi = GitIndex {
            ctime_s,
            ctime_n,
            mtime_s,
            mtime_n,
            dev,
            ino,
            mode,
            uid,
            gid,
            size,
            sha1,
            sha1_vec,
            flags,
            path,
        };
        proof {
            decode_utf8_encode_utf8(path_slice@);
            assert(gi.model() =~= me);
            lemma_models_push(out@, gi);
        }
        out.push(gi);
        proof {
            assert(parsed.take(j as int).push(me) =~= parsed.take(j as int + 1));
        }
        j = j + 1;
    }
    proof {
        assert(parsed.take(parsed.len() as int) =~= parsed);
    }
    Ok(out)
}

} // verus!
