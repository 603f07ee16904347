//! Commit formation and introspection: building the commit payload that
//! links a tree, an optional parent, an author and a message, and parsing a
//! commit payload back into its headers and message.

use vstd::prelude::*;
use vstd::slice::{slice_index_get, slice_subrange, slice_to_vec};
use vstd::utf8::encode_utf8;
use crate::encoding::{find_byte, lemma_find_byte, find_byte_from, dec_bytes, lemma_dec_bytes,
    all_digits, push_decimal};

verus! {

/// The header key `tree`, in ASCII.
pub open spec fn key_tree() -> Seq<u8> {
    seq![116u8, 114u8, 101u8, 101u8]
}

/// The header key `parent`, in ASCII.
pub open spec fn key_parent() -> Seq<u8> {
    seq![112u8, 97u8, 114u8, 101u8, 110u8, 116u8]
}

/// The header key `author`, in ASCII.
pub open spec fn key_author() -> Seq<u8> {
    seq![97u8, 117u8, 116u8, 104u8, 111u8, 114u8]
}

/// The header key `committer`, in ASCII.
pub open spec fn key_committer() -> Seq<u8> {
    seq![99u8, 111u8, 109u8, 109u8, 105u8, 116u8, 116u8, 101u8, 114u8]
}

/// The synthetic key under which the message is stored.
pub open spec fn key_data() -> Seq<u8> {
    seq![100u8, 97u8, 116u8, 97u8]
}

/// Two ASCII digits, zero padded.
pub open spec fn two_digits(n: int) -> Seq<u8>
    recommends
        0 <= n < 100,
{
    seq![(48 + n / 10) as u8, (48 + n % 10) as u8]
}

/// The `±HHMM` form of a UTC offset in seconds. Offsets greater than zero
/// take `+`, the rest `-`.
pub open spec fn offset_bytes(offset: i32) -> Seq<u8>
    recommends
        -86400 < offset < 86400,
{
    let sign: u8 = if offset > 0 {
        43u8
    } else {
        45u8
    };
    let m = if offset > 0 {
        offset as int
    } else {
        -(offset as int)
    };
    seq![sign] + two_digits(m / 3600) + two_digits((m / 60) % 60)
}

/// The time part of an author line: the decimal Unix seconds, a space, and
/// the `±HHMM` offset.
pub open spec fn author_time_bytes(ts: u64, offset: i32) -> Seq<u8> {
    dec_bytes(ts as nat) + seq![32u8] + offset_bytes(offset)
}

/// The value of an author or committer header: the author, a space, and the
/// time part.
pub open spec fn author_entry(author: Seq<u8>, ts: u64, offset: i32) -> Seq<u8> {
    author + seq![32u8] + author_time_bytes(ts, offset)
}

/// One header line: key, space, value, newline.
pub open spec fn header_line(key: Seq<u8>, value: Seq<u8>) -> Seq<u8> {
    key + seq![32u8] + value + seq![10u8]
}

/// The commit payload: a `tree` line, a `parent` line when there is a
/// parent, an `author` and a `committer` line sharing one timestamp, a blank
/// line, and the message terminated by a newline.
pub open spec fn spec_commit_payload(
    tree: Seq<u8>,
    parent: Option<Seq<u8>>,
    author: Seq<u8>,
    message: Seq<u8>,
    ts: u64,
    offset: i32,
) -> Seq<u8> {
    header_line(key_tree(), tree) + (match parent {
        Some(p) => header_line(key_parent(), p),
        None => Seq::<u8>::empty(),
    }) + header_line(key_author(), author_entry(author, ts, offset)) + header_line(
        key_committer(),
        author_entry(author, ts, offset),
    ) + seq![10u8] + message + seq![10u8]
}

/// Appends `±HHMM` for a UTC offset in seconds.
fn push_offset(out: &mut Vec<u8>, offset: i32)
    requires
        -86400 < offset < 86400,
    ensures
        final(out)@ == old(out)@ + offset_bytes(offset),
{
    if offset > 0 {
        out.push(43u8);
    } else {
        out.push(45u8);
    }
    let m: i32 = if offset > 0 {
        offset
    } else {
        -offset
    };
    let hours = m / 3600;
    let mins = (m / 60) % 60;
    out.push(48 + (hours / 10) as u8);
    out.push(48 + (hours % 10) as u8);
    out.push(48 + (mins / 10) as u8);
    out.push(48 + (mins % 10) as u8);
    assert(out@ =~= old(out)@ + offset_bytes(offset));
}

/// Builds the commit payload for a tree name, an optional parent name, an
/// author and a message, at the given Unix time and UTC offset.
#[verifier::rlimit(100)]
pub fn commit_payload(
    tree: &str,
    parent: Option<&Vec<u8>>,
    author: &str,
    message: &str,
    timestamp: u64,
    utc_offset: i32,
) -> (r: Vec<u8>)
    requires
        -86400 < utc_offset < 86400,
    ensures
        r@ == spec_commit_payload(
            encode_utf8(tree@),
            match parent {
                Some(p) => Some(p@),
                None => None,
            },
            encode_utf8(author@),
            encode_utf8(message@),
            timestamp,
            utc_offset,
        ),
{
    let mut out: Vec<u8> = Vec::new();
    // "tree "
    out.push(116u8);
    out.push(114u8);
    out.push(101u8);
    out.push(101u8);
    out.push(32u8);
    out.extend_from_slice(tree.as_bytes());
    out.push(10u8);
    assert(out@ =~= header_line(key_tree(), encode_utf8(tree@)));
    match parent {
        Some(p) => {
            let ghost before = out@;
            // "parent "
            out.push(112u8);
            out.push(97u8);
            out.push(114u8);
            out.push(101u8);
            out.push(110u8);
            out.push(116u8);
            out.push(32u8);
            out.extend_from_slice(p.as_slice());
            out.push(10u8);
            assert(out@ =~= before + header_line(key_parent(), p@));
        },
        None => {},
    }
    let ghost before_author = out@;
    // "author "
    out.push(97u8);
    out.push(117u8);
    out.push(116u8);
    out.push(104u8);
    out.push(111u8);
    out.push(114u8);
    out.push(32u8);
    out.extend_from_slice(author.as_bytes());
    out.push(32u8);
    push_decimal(&mut out, timestamp);
    out.push(32u8);
    push_offset(&mut out, utc_offset);
    out.push(10u8);
    assert(out@ =~= before_author + header_line(
        key_author(),
        author_entry(encode_utf8(author@), timestamp, utc_offset),
    ));
    let ghost before_committer = out@;
    // "committer "
    out.push(99u8);
    out.push(111u8);
    out.push(109u8);
    out.push(109u8);
    out.push(105u8);
    out.push(116u8);
    out.push(116u8);
    out.push(101u8);
    out.push(114u8);
    out.push(32u8);
    out.extend_from_slice(author.as_bytes());
    out.push(32u8);
    push_decimal(&mut out, timestamp);
    out.push(32u8);
    push_offset(&mut out, utc_offset);
    out.push(10u8);
    assert(out@ =~= before_committer + header_line(
        key_committer(),
        author_entry(encode_utf8(author@), timestamp, utc_offset),
    ));
    // blank line, message, newline
    out.push(10u8);
    out.extend_from_slice(message.as_bytes());
    out.push(10u8);
    assert(out@ =~= spec_commit_payload(
        encode_utf8(tree@),
        match parent {
            Some(p) => Some(p@),
            None => None::<Seq<u8>>,
        },
        encode_utf8(author@),
        encode_utf8(message@),
        timestamp,
        utc_offset,
    ));
    out
}

/// Relies on `std::time::SystemTime`: the seconds since the Unix epoch by
/// the machine's clock, or zero should the clock read earlier than the
/// epoch. Nothing is assumed of the value.
#[verifier::external_body]
fn unix_timestamp() -> u64 {
    std::time::SystemTime::now().duration_since(std::time::SystemTime::UNIX_EPOCH).map(
        |d| d.as_secs(),
    ).unwrap_or(0)
}

/// Relies on `chrono::Local` and `chrono::FixedOffset`: the local offset
/// from UTC in seconds, which a `FixedOffset` keeps strictly between -86400
/// and 86400.
#[verifier::external_body]
fn local_utc_offset() -> (r: i32)
    ensures
        -86400 < r < 86400,
{
    chrono::offset::Offset::fix(chrono::Local::now().offset()).local_minus_utc()
}

/// Builds the commit payload at the wall clock's time and the machine's UTC
/// offset: the payload of `commit_payload` for some timestamp and some
/// in-range offset.
pub fn commit_payload_now(tree: &str, parent: Option<&Vec<u8>>, author: &str, message: &str) -> (r:
    Vec<u8>)
    ensures
        match parent {
            Some(p) => exists|ts: u64, off: i32|
                (-86400 < off < 86400) && r@ == #[trigger] spec_commit_payload(
                    encode_utf8(tree@),
                    Some(p@),
                    encode_utf8(author@),
                    encode_utf8(message@),
                    ts,
                    off,
                ),
            None => exists|ts: u64, off: i32|
                (-86400 < off < 86400) && r@ == #[trigger] spec_commit_payload(
                    encode_utf8(tree@),
                    None,
                    encode_utf8(author@),
                    encode_utf8(message@),
                    ts,
                    off,
                ),
        },
{
    let ts = unix_timestamp();
    let off = local_utc_offset();
    let out = commit_payload(tree, parent, author, message, ts, off);
    proof {
        match parent {
            Some(p) => {
                assert((-86400 < off < 86400) && out@ == spec_commit_payload(
                    encode_utf8(tree@),
                    Some(p@),
                    encode_utf8(author@),
                    encode_utf8(message@),
                    ts,
                    off,
                ));
            },
            None => {
                assert((-86400 < off < 86400) && out@ == spec_commit_payload(
                    encode_utf8(tree@),
                    None::<Seq<u8>>,
                    encode_utf8(author@),
                    encode_utf8(message@),
                    ts,
                    off,
                ));
            },
        }
    }
    out
}

/// Drops one trailing newline, as a ref file's contents are trimmed before
/// use as a parent name.
pub fn trim_trailing_newline(data: Vec<u8>) -> (r: Vec<u8>)
    ensures
        r@ == if data@.len() > 0 && data@.last() == 10u8 {
            data@.drop_last()
        } else {
            data@
        },
{
    let mut out = data;
    let n = out.len();
    if n > 0 {
        let last = *slice_index_get(out.as_slice(), n - 1);
        if last == 10u8 {
            out.truncate(n - 1);
            assert(out@ =~= data@.drop_last());
        }
    }
    out
}

/// The byte length of a header value starting at `p`: the value runs to the
/// first newline not followed by a space, or to the end of the payload.
pub open spec fn value_len(s: Seq<u8>, p: int) -> nat
    decreases s.len() - p,
{
    if p < 0 || p >= s.len() {
        0
    } else if s[p] == 10 && (p + 1 >= s.len() || s[p + 1] != 32) {
        0
    } else {
        (1 + value_len(s, p + 1)) as nat
    }
}

/// A header value with the space after each newline dropped: continuation
/// lines keep their newline and lose their leading space.
pub open spec fn strip_cont(v: Seq<u8>) -> Seq<u8>
    decreases v.len(),
{
    if v.len() == 0 {
        Seq::empty()
    } else if v[0] == 10 && v.len() > 1 && v[1] == 32 {
        seq![10u8] + strip_cont(v.skip(2))
    } else {
        seq![v[0]] + strip_cont(v.skip(1))
    }
}

/// A value without newlines is unchanged by stripping.
pub proof fn lemma_strip_cont_id(v: Seq<u8>)
    requires
        forall|i: int| 0 <= i < v.len() ==> #[trigger] v[i] != 10u8,
    ensures
        strip_cont(v) == v,
    decreases v.len(),
{
    if v.len() > 0 {
        lemma_strip_cont_id(v.skip(1));
        assert(strip_cont(v) =~= v);
    } else {
        assert(strip_cont(v) =~= v);
    }
}

/// Records a header: a fresh key is appended with its value; a repeated key
/// has the value appended to what it already holds.
pub open spec fn upsert(acc: Seq<(Seq<u8>, Seq<u8>)>, k: Seq<u8>, v: Seq<u8>) -> Seq<
    (Seq<u8>, Seq<u8>),
>
    decreases acc.len(),
{
    if acc.len() == 0 {
        seq![(k, v)]
    } else if acc[0].0 == k {
        seq![(acc[0].0, acc[0].1 + v)] + acc.drop_first()
    } else {
        seq![acc[0]] + upsert(acc.drop_first(), k, v)
    }
}

/// Recording under a key that is not present appends the pair.
pub proof fn lemma_upsert_fresh(acc: Seq<(Seq<u8>, Seq<u8>)>, k: Seq<u8>, v: Seq<u8>)
    requires
        forall|i: int| 0 <= i < acc.len() ==> (#[trigger] acc[i]).0 != k,
    ensures
        upsert(acc, k, v) == acc.push((k, v)),
    decreases acc.len(),
{
    if acc.len() == 0 {
        assert(upsert(acc, k, v) =~= acc.push((k, v)));
    } else {
        assert(acc[0].0 != k);
        lemma_upsert_fresh(acc.drop_first(), k, v);
        assert(upsert(acc, k, v) =~= acc.push((k, v)));
    }
}

/// Recording under a key whose first occurrence is at `i` appends the value
/// there.
proof fn lemma_upsert_found(acc: Seq<(Seq<u8>, Seq<u8>)>, k: Seq<u8>, v: Seq<u8>, i: int)
    requires
        0 <= i < acc.len(),
        acc[i].0 == k,
        forall|j: int| 0 <= j < i ==> (#[trigger] acc[j]).0 != k,
    ensures
        upsert(acc, k, v) == acc.update(i, (acc[i].0, acc[i].1 + v)),
    decreases i,
{
    if i == 0 {
        assert(upsert(acc, k, v) =~= acc.update(0, (acc[0].0, acc[0].1 + v)));
    } else {
        assert(acc[0].0 != k);
        lemma_upsert_found(acc.drop_first(), k, v, i - 1);
        assert(acc.drop_first()[i - 1] == acc[i]);
        assert(upsert(acc, k, v) =~= acc.update(i, (acc[i].0, acc[i].1 + v)));
    }
}

/// What parsing a payload from position `p` adds to the headers collected so
/// far. A blank line puts the rest of the payload under `data` and stops; a
/// line without a space before its newline puts the rest under `data` and
/// stops; otherwise the line's key runs to its first space and its value to
/// the first newline not followed by a space.
pub open spec fn parse_headers(s: Seq<u8>, p: int, acc: Seq<(Seq<u8>, Seq<u8>)>) -> Seq<
    (Seq<u8>, Seq<u8>),
>
    decreases s.len() - p,
{
    if p < 0 || p >= s.len() {
        acc
    } else if s[p] == 10 {
        upsert(acc, key_data(), s.skip(p + 1))
    } else {
        let spo = find_byte(s.skip(p), 32u8);
        let nlo = find_byte(s.skip(p), 10u8);
        if spo is None || (nlo is Some && nlo->Some_0 < spo->Some_0) {
            upsert(acc, key_data(), s.skip(p))
        } else {
            let sp = spo->Some_0 as nat;
            let key = s.subrange(p, p + sp);
            let vstart = p + sp + 1;
            let vlen = value_len(s, vstart);
            let value = strip_cont(s.subrange(vstart, vstart + vlen));
            if vstart + vlen >= s.len() {
                upsert(acc, key, value)
            } else {
                parse_headers(s, vstart + vlen + 1, upsert(acc, key, value))
            }
        }
    }
}

/// What a commit payload parses to: its headers in order of first
/// appearance, and its message under `data`.
pub open spec fn spec_commit_parse(s: Seq<u8>) -> Seq<(Seq<u8>, Seq<u8>)> {
    parse_headers(s, 0, Seq::empty())
}

/// The byte views of a list of key and value pairs.
pub open spec fn pairs_view(v: Seq<(Vec<u8>, Vec<u8>)>) -> Seq<(Seq<u8>, Seq<u8>)> {
    v.map_values(|p: (Vec<u8>, Vec<u8>)| (p.0@, p.1@))
}

/// The value under a key, by its first occurrence.
pub open spec fn assoc_get(pairs: Seq<(Seq<u8>, Seq<u8>)>, k: Seq<u8>) -> Option<Seq<u8>>
    decreases pairs.len(),
{
    if pairs.len() == 0 {
        None
    } else if pairs[0].0 == k {
        Some(pairs[0].1)
    } else {
        assoc_get(pairs.drop_first(), k)
    }
}

/// Whether two byte slices hold the same bytes.
fn eq_bytes(a: &[u8], b: &[u8]) -> (r: bool)
    ensures
        r == (a@ == b@),
{
    if a.len() != b.len() {
        return false;
    }
    let n = a.len();
    let mut i: usize = 0;
    while i < n
        invariant
            i <= n,
            n == a@.len() == b@.len(),
            forall|j: int| 0 <= j < i ==> a@[j] == b@[j],
        decreases n - i,
    {
        if *slice_index_get(a, i) != *slice_index_get(b, i) {
            return false;
        }
        i = i + 1;
    }
    proof {
        assert(a@ =~= b@);
    }
    true
}

/// Records one header into the collected pairs, as `upsert` says.
fn upsert_pairs(acc: &mut Vec<(Vec<u8>, Vec<u8>)>, k: Vec<u8>, v: Vec<u8>)
    ensures
        pairs_view(final(acc)@) == upsert(pairs_view(old(acc)@), k@, v@),
{
    let ghost accv = pairs_view(acc@);
    let mut i: usize = 0;
    while i < acc.len()
        invariant
            i <= acc@.len(),
            acc@ == old(acc)@,
            accv == pairs_view(acc@),
            forall|j: int| 0 <= j < i ==> (#[trigger] acc@[j]).0@ != k@,
        decreases acc@.len() - i,
    {
        let hit = eq_bytes(acc[i].0.as_slice(), k.as_slice());
        if hit {
            proof {
                assert forall|j: int| 0 <= j < i implies (#[trigger] accv[j]).0 != k@ by {
                    assert(accv[j] == (acc@[j].0@, acc@[j].1@));
                }
                assert(accv[i as int].0 == k@);
                lemma_upsert_found(accv, k@, v@, i as int);
            }
            let pair = acc.remove(i);
            let mut nv = pair.1;
            let mut vv = v;
            nv.append(&mut vv);
            acc.insert(i, (pair.0, nv));
            proof {
                assert(pairs_view(acc@) =~= accv.update(
                    i as int,
                    (accv[i as int].0, accv[i as int].1 + v@),
                ));
            }
            return ;
        }
        i = i + 1;
    }
    proof {
        assert forall|j: int| 0 <= j < accv.len() implies (#[trigger] accv[j]).0 != k@ by {
            assert(accv[j] == (acc@[j].0@, acc@[j].1@));
        }
        lemma_upsert_fresh(accv, k@, v@);
    }
    acc.push((k, v));
    proof {
        assert(pairs_view(acc@) =~= accv.push((k@, v@)));
    }
}

/// Parses a commit payload into its headers and message: one pair per key in
/// order of first appearance, repeated keys appending their values, the
/// message under the synthetic key `data`.
#[verifier::rlimit(100)]
pub fn commit_parse(raw: &[u8]) -> (r: Vec<(Vec<u8>, Vec<u8>)>)
    ensures
        pairs_view(r@) == spec_commit_parse(raw@),
{
    let data = slice_to_vec(raw);
    let n = data.len();
    let mut acc: Vec<(Vec<u8>, Vec<u8>)> = Vec::new();
    let mut p: usize = 0;
    proof {
        assert(pairs_view(acc@) =~= Seq::<(Seq<u8>, Seq<u8>)>::empty());
    }
    while p < n
        invariant
            data@ == raw@,
            n == data@.len(),
            p <= n,
            spec_commit_parse(raw@) == parse_headers(data@, p as int, pairs_view(acc@)),
        decreases n - p,
    {
        if data[p] == 10u8 {
            let rest = slice_to_vec(slice_subrange(data.as_slice(), p + 1, n));
            assert(rest@ =~= data@.skip(p as int + 1));
            let mut key: Vec<u8> = Vec::new();
            key.push(100u8);
            key.push(97u8);
            key.push(116u8);
            key.push(97u8);
            assert(key@ =~= key_data());
            let ghost acc_before = pairs_view(acc@);
            upsert_pairs(&mut acc, key, rest);
            proof {
                assert(parse_headers(data@, p as int, acc_before) == upsert(
                    acc_before,
                    key_data(),
                    data@.skip(p as int + 1),
                ));
            }
            return acc;
        }
        let ghost tail = data@.skip(p as int);
        let spo = find_byte_from(&data, p, 32u8);
        let nlo = find_byte_from(&data, p, 10u8);
        let line_has_space = match (spo, nlo) {
            (Option::None, _) => false,
            (Option::Some(_), Option::None) => true,
            (Option::Some(sp_abs), Option::Some(nl_abs)) => sp_abs < nl_abs,
        };
        if !line_has_space {
            let rest = slice_to_vec(slice_subrange(data.as_slice(), p, n));
            assert(rest@ =~= data@.skip(p as int));
            let mut key: Vec<u8> = Vec::new();
            key.push(100u8);
            key.push(97u8);
            key.push(116u8);
            key.push(97u8);
            assert(key@ =~= key_data());
            let ghost acc_before = pairs_view(acc@);
            upsert_pairs(&mut acc, key, rest);
            proof {
                lemma_find_byte(tail, 32u8);
                lemma_find_byte(tail, 10u8);
                assert(parse_headers(data@, p as int, acc_before) == upsert(
                    acc_before,
                    key_data(),
                    data@.skip(p as int),
                ));
            }
            return acc;
        }
        let sp_abs = match spo {
            Some(a) => a,
            None => {
                proof {
                    assert(false);
                }
                0
            },
        };
        let key = slice_to_vec(slice_subrange(data.as_slice(), p, sp_abs));
        let vstart = sp_abs + 1;

        // The value runs to the first newline not followed by a space.
        let mut q: usize = vstart;
        while q < n && !(data[q] == 10u8 && (q + 1 == n || data[q + 1] != 32u8))
            invariant
                data@ == raw@,
                n == data@.len(),
                vstart <= q <= n,
                value_len(data@, vstart as int) == q - vstart + value_len(data@, q as int),
            decreases n - q,
        {
            proof {
                assert(value_len(data@, q as int) == 1 + value_len(data@, q as int + 1));
            }
            q = q + 1;
        }
        let ghost vlen = value_len(data@, vstart as int);
        proof {
            assert(value_len(data@, q as int) == 0);
            assert(vlen == q - vstart);
        }

        // Strip the space after each newline inside the value.
        let ghost sub = data@.subrange(vstart as int, q as int);
        let mut value: Vec<u8> = Vec::new();
        let mut t: usize = vstart;
        proof {
            assert(sub.skip(0) =~= sub);
            assert(value@ + strip_cont(sub) =~= strip_cont(sub));
        }
        while t < q
            invariant
                data@ == raw@,
                n == data@.len(),
                vstart <= t <= q <= n,
                sub == data@.subrange(vstart as int, q as int),
                value@ + strip_cont(sub.skip(t - vstart)) == strip_cont(sub),
            decreases q - t,
        {
            let ghost before = sub.skip(t - vstart);
            let b = data[t];
            if b == 10u8 && t + 1 < q && data[t + 1] == 32u8 {
                proof {
                    assert(before[0] == 10u8 && before.len() > 1 && before[1] == 32u8);
                    assert(before.skip(2) =~= sub.skip(t + 2 - vstart));
                }
                value.push(10u8);
                t = t + 2;
            } else {
                proof {
                    assert(before[0] == b);
                    assert(!(before[0] == 10u8 && before.len() > 1 && before[1] == 32u8));
                    assert(before.skip(1) =~= sub.skip(t + 1 - vstart));
                }
                value.push(b);
                t = t + 1;
            }
            proof {
                assert(value@ + strip_cont(sub.skip(t - vstart)) =~= strip_cont(sub));
            }
        }
        proof {
            assert(sub.skip(q - vstart) =~= Seq::<u8>::empty());
            assert(strip_cont(Seq::<u8>::empty()) =~= Seq::<u8>::empty());
            assert(value@ + Seq::<u8>::empty() =~= value@);
            assert(value@ == strip_cont(sub));
        }

        let ghost acc_before = pairs_view(acc@);
        proof {
            // This iteration matches one unfolding of the parser.
            lemma_find_byte(tail, 32u8);
            lemma_find_byte(tail, 10u8);
            assert(key@ =~= data@.subrange(p as int, p as int + (sp_abs - p)));
            assert(parse_headers(data@, p as int, acc_before) == (if vstart as int + vlen
                >= data@.len() {
                upsert(acc_before, key@, value@)
            } else {
                parse_headers(data@, q as int + 1, upsert(acc_before, key@, value@))
            }));
        }
        upsert_pairs(&mut acc, key, value);
        if q >= n {
            return acc;
        }
        p = q + 1;
    }
    proof {
        assert(parse_headers(data@, p as int, pairs_view(acc@)) == pairs_view(acc@));
    }
    acc
}

/// A key whose first occurrence in the pairs is at `i` looks up to the value
/// there.
proof fn lemma_assoc_get_at(pairs: Seq<(Seq<u8>, Seq<u8>)>, k: Seq<u8>, i: int)
    requires
        0 <= i < pairs.len(),
        pairs[i].0 == k,
        forall|j: int| 0 <= j < i ==> (#[trigger] pairs[j]).0 != k,
    ensures
        assoc_get(pairs, k) == Some(pairs[i].1),
    decreases i,
{
    if i > 0 {
        assert(pairs[0].0 != k);
        lemma_assoc_get_at(pairs.drop_first(), k, i - 1);
        assert(pairs.drop_first()[i - 1] == pairs[i]);
    }
}

/// A key that occurs nowhere looks up to nothing.
proof fn lemma_assoc_get_missing(pairs: Seq<(Seq<u8>, Seq<u8>)>, k: Seq<u8>)
    requires
        forall|j: int| 0 <= j < pairs.len() ==> (#[trigger] pairs[j]).0 != k,
    ensures
        assoc_get(pairs, k) is None,
    decreases pairs.len(),
{
    if pairs.len() > 0 {
        lemma_assoc_get_missing(pairs.drop_first(), k);
    }
}

/// Looks a header key up among parsed pairs, by its first occurrence.
pub fn commit_value<'a>(pairs: &'a Vec<(Vec<u8>, Vec<u8>)>, key: &[u8]) -> (r: Option<&'a Vec<u8>>)
    ensures
        match r {
            Some(v) => assoc_get(pairs_view(pairs@), key@) == Some(v@),
            None => assoc_get(pairs_view(pairs@), key@) is None,
        },
{
    let ghost pv = pairs_view(pairs@);
    let mut i: usize = 0;
    while i < pairs.len()
        invariant
            i <= pairs@.len(),
            pv == pairs_view(pairs@),
            forall|j: int| 0 <= j < i ==> (#[trigger] pv[j]).0 != key@,
        decreases pairs@.len() - i,
    {
        let hit = eq_bytes(pairs[i].0.as_slice(), key);
        if hit {
            proof {
                assert(pv[i as int].0 == pairs@[i as int].0@);
                lemma_assoc_get_at(pv, key@, i as int);
            }
            return Some(&pairs[i].1);
        }
        proof {
            assert(pv[i as int].0 == pairs@[i as int].0@);
        }
        i = i + 1;
    }
    proof {
        lemma_assoc_get_missing(pv, key@);
    }
    None
}

/// Whether `k` begins a header line at position `p` of the payload: a line
/// starts there, spells `k`, and a space follows.
pub open spec fn line_key_at(s: Seq<u8>, p: int, k: Seq<u8>) -> bool {
    &&& 0 <= p
    &&& p + k.len() < s.len()
    &&& s.subrange(p, p + k.len()) == k
    &&& s[p + k.len()] == 32u8
    &&& (p == 0 || s[p - 1] == 10u8)
}

/// Whether some line of the payload is a `k` header.
pub open spec fn has_header_line(s: Seq<u8>, k: Seq<u8>) -> bool {
    exists|p: int| line_key_at(s, p, k)
}

/// A key found after recording a header was the recorded key or was already
/// there.
proof fn lemma_upsert_keys(acc: Seq<(Seq<u8>, Seq<u8>)>, k0: Seq<u8>, v: Seq<u8>, k: Seq<u8>)
    requires
        assoc_get(upsert(acc, k0, v), k) is Some,
    ensures
        k == k0 || assoc_get(acc, k) is Some,
    decreases acc.len(),
{
    if acc.len() == 0 {
        assert(upsert(acc, k0, v) == seq![(k0, v)]);
        assert(upsert(acc, k0, v)[0].0 == k0);
    } else if acc[0].0 == k0 {
        let r = upsert(acc, k0, v);
        assert(r[0].0 == acc[0].0);
        if k != k0 {
            assert(r.drop_first() =~= acc.drop_first());
            assert(assoc_get(acc.drop_first(), k) is Some);
        }
    } else {
        let r = upsert(acc, k0, v);
        assert(r[0] == acc[0]);
        if k != acc[0].0 {
            assert(r.drop_first() =~= upsert(acc.drop_first(), k0, v));
            lemma_upsert_keys(acc.drop_first(), k0, v, k);
        }
    }
}

/// A value that stops short of the payload's end stops at a newline.
proof fn lemma_value_len_stop(s: Seq<u8>, q0: int)
    requires
        0 <= q0 <= s.len(),
    ensures
        q0 + value_len(s, q0) <= s.len(),
        q0 + value_len(s, q0) < s.len() ==> s[q0 + value_len(s, q0)] == 10u8,
    decreases s.len() - q0,
{
    if q0 < s.len() && !(s[q0] == 10 && (q0 + 1 >= s.len() || s[q0 + 1] != 32)) {
        lemma_value_len_stop(s, q0 + 1);
    }
}

/// Every key the parser records, beyond those already collected and the
/// synthetic `data`, begins a header line of the payload.
proof fn lemma_parse_keys_from_lines(s: Seq<u8>, p0: int, acc: Seq<(Seq<u8>, Seq<u8>)>, k: Seq<u8>)
    requires
        0 <= p0 <= s.len(),
        p0 == 0 || s[p0 - 1] == 10u8,
        assoc_get(parse_headers(s, p0, acc), k) is Some,
        k != key_data(),
        assoc_get(acc, k) is None,
    ensures
        has_header_line(s, k),
    decreases s.len() - p0,
{
    if p0 >= s.len() {
        assert(parse_headers(s, p0, acc) == acc);
        assert(false);
    } else if s[p0] == 10u8 {
        lemma_upsert_keys(acc, key_data(), s.skip(p0 + 1), k);
        assert(false);
    } else {
        let tail = s.skip(p0);
        let spo = find_byte(tail, 32u8);
        let nlo = find_byte(tail, 10u8);
        if spo is None || (nlo is Some && nlo->Some_0 < spo->Some_0) {
            lemma_upsert_keys(acc, key_data(), s.skip(p0), k);
            assert(false);
        } else {
            lemma_find_byte(tail, 32u8);
            let sp = spo->Some_0 as nat;
            let key = s.subrange(p0, p0 + sp);
            let vstart = p0 + sp + 1;
            let vlen = value_len(s, vstart);
            let value = strip_cont(s.subrange(vstart, vstart + vlen));
            assert(tail[sp as int] == s[p0 + sp]);
            assert(s[p0 + sp] == 32u8);
            if k == key {
                assert(line_key_at(s, p0, k));
            } else {
                let acc2 = upsert(acc, key, value);
                if vstart + vlen >= s.len() {
                    assert(parse_headers(s, p0, acc) == acc2);
                    lemma_upsert_keys(acc, key, value, k);
                    assert(false);
                } else if assoc_get(acc2, k) is Some {
                    lemma_upsert_keys(acc, key, value, k);
                    assert(false);
                } else {
                    lemma_value_len_stop(s, vstart);
                    assert(s[vstart + vlen] == 10u8);
                    lemma_parse_keys_from_lines(s, vstart + vlen + 1, acc2, k);
                }
            }
        }
    }
}

/// A payload in which no line is a `parent` header parses to headers without
/// a parent key, whatever else the payload holds.
pub proof fn lemma_no_parent_line_no_parent_key(s: Seq<u8>)
    requires
        !has_header_line(s, key_parent()),
    ensures
        assoc_get(spec_commit_parse(s), key_parent()) is None,
{
    if assoc_get(spec_commit_parse(s), key_parent()) is Some {
        assert(key_parent().len() == 6 && key_data().len() == 4);
        assert(assoc_get(Seq::<(Seq<u8>, Seq<u8>)>::empty(), key_parent()) is None);
        lemma_parse_keys_from_lines(s, 0, Seq::empty(), key_parent());
        assert(false);
    }
}

/// A run of non-newline bytes closed by a newline that no space follows is
/// one whole header value.
proof fn lemma_value_len_run(s: Seq<u8>, q0: int, vend: int)
    requires
        0 <= q0 <= vend < s.len(),
        forall|j: int| q0 <= j < vend ==> s[j] != 10u8,
        s[vend] == 10u8,
        vend + 1 >= s.len() || s[vend + 1] != 32u8,
    ensures
        value_len(s, q0) == vend - q0,
    decreases vend - q0,
{
    if q0 < vend {
        lemma_value_len_run(s, q0 + 1, vend);
    }
}

/// One header line advances the parser by the line and records its key and
/// value.
proof fn lemma_header_step(s: Seq<u8>, p: int, klen: int, vlen: int, acc: Seq<(Seq<u8>, Seq<u8>)>)
    requires
        0 <= p,
        1 <= klen,
        0 <= vlen,
        p + klen + 1 + vlen < s.len(),
        forall|j: int| p <= j < p + klen ==> s[j] != 32u8 && s[j] != 10u8,
        s[p + klen] == 32u8,
        forall|j: int| p + klen + 1 <= j < p + klen + 1 + vlen ==> s[j] != 10u8,
        s[p + klen + 1 + vlen] == 10u8,
        p + klen + vlen + 2 >= s.len() || s[p + klen + vlen + 2] != 32u8,
    ensures
        parse_headers(s, p, acc) == parse_headers(
            s,
            p + klen + vlen + 2,
            upsert(acc, s.subrange(p, p + klen), s.subrange(p + klen + 1, p + klen + 1 + vlen)),
        ),
{
    let tail = s.skip(p);
    lemma_find_byte(tail, 32u8);
    match find_byte(tail, 32u8) {
        Some(k) => {
            assert(tail[klen] == s[p + klen]);
            assert(k <= klen);
            assert(forall|j: int| 0 <= j < klen ==> tail[j] == s[p + j]);
            assert(k == klen);
        },
        None => {
            assert(tail[klen] == 32u8);
            assert(false);
        },
    }
    let nl = klen + 1 + vlen;
    lemma_find_byte(tail, 10u8);
    match find_byte(tail, 10u8) {
        Some(k) => {
            assert(tail[nl] == s[p + nl]);
            assert(k <= nl);
            assert(forall|j: int| 0 <= j < nl ==> tail[j] == s[p + j]);
            assert(k == nl);
        },
        None => {
            assert(tail[nl] == 10u8);
            assert(false);
        },
    }
    assert(s[p] != 10u8);
    let vstart = p + klen + 1;
    lemma_value_len_run(s, vstart, p + klen + 1 + vlen);
    assert(value_len(s, vstart) == vlen);
    let value = s.subrange(vstart, vstart + vlen);
    assert forall|i: int| 0 <= i < value.len() implies #[trigger] value[i] != 10u8 by {
        assert(value[i] == s[vstart + i]);
    }
    lemma_strip_cont_id(value);
}

/// The time part of an author line holds no newline.
proof fn lemma_author_entry_no_newline(author: Seq<u8>, ts: u64, offset: i32)
    requires
        -86400 < offset < 86400,
        forall|i: int| 0 <= i < author.len() ==> author[i] != 10u8,
    ensures
        forall|i: int|
            0 <= i < author_entry(author, ts, offset).len() ==> #[trigger] author_entry(
                author,
                ts,
                offset,
            )[i] != 10u8,
{
    lemma_dec_bytes(ts as nat);
    let d = dec_bytes(ts as nat);
    let ob = offset_bytes(offset);
    let m = if offset > 0 {
        offset as int
    } else {
        -(offset as int)
    };
    assert(0 <= m < 86400);
    assert(0 <= m / 3600 < 100 && 0 <= (m / 60) % 60 < 100) by (nonlinear_arith)
        requires
            0 <= m < 86400,
    ;
    let h = m / 3600;
    let mi = (m / 60) % 60;
    assert(ob =~= seq![
        if offset > 0 {
            43u8
        } else {
            45u8
        },
        (48 + h / 10) as u8,
        (48 + h % 10) as u8,
        (48 + mi / 10) as u8,
        (48 + mi % 10) as u8,
    ]);
    assert forall|i: int| 0 <= i < ob.len() implies #[trigger] ob[i] != 10u8 by {
        assert(0 <= h / 10 < 10 && 0 <= h % 10 < 10 && 0 <= mi / 10 < 10 && 0 <= mi % 10 < 10);
    }
    let atv = author_entry(author, ts, offset);
    assert forall|i: int| 0 <= i < atv.len() implies #[trigger] atv[i] != 10u8 by {
        if i < author.len() {
            assert(atv[i] == author[i]);
        } else if i == author.len() {
            assert(atv[i] == 32u8);
        } else if i < author.len() + 1 + d.len() {
            assert(atv[i] == d[i - author.len() - 1]);
            assert(all_digits(d));
            assert(48 <= d[i - author.len() - 1] <= 57);
        } else if i == author.len() + 1 + d.len() {
            assert(atv[i] == 32u8);
        } else {
            assert(atv[i] == ob[i - author.len() - d.len() - 2]);
        }
    }
}

/// Parsing a built commit payload yields its headers: the `tree` key holds
/// the tree name, the `parent` key is present exactly when a parent was
/// given and holds it, the author and committer lines share the author and
/// time, and `data` holds the message with its final newline. The tree,
/// parent and author must hold no newline: a newline inside one would start
/// a header line of its own.
#[verifier::rlimit(100)]
#[verifier::spinoff_prover]
proof fn lemma_commit_payload_parse_some(
    tree: Seq<u8>,
    p: Seq<u8>,
    author: Seq<u8>,
    message: Seq<u8>,
    ts: u64,
    offset: i32,
)
    requires
        -86400 < offset < 86400,
        forall|i: int| 0 <= i < tree.len() ==> tree[i] != 10u8,
        forall|i: int| 0 <= i < author.len() ==> author[i] != 10u8,
        forall|i: int| 0 <= i < p.len() ==> p[i] != 10u8,
    ensures
        spec_commit_parse(spec_commit_payload(tree, Some(p), author, message, ts, offset)) == seq![
            (key_tree(), tree),
            (key_parent(), p),
            (key_author(), author_entry(author, ts, offset)),
            (key_committer(), author_entry(author, ts, offset)),
            (key_data(), message + seq![10u8]),
        ],
{
    let s = spec_commit_payload(tree, Some(p), author, message, ts, offset);
    let atv = author_entry(author, ts, offset);
    lemma_author_entry_no_newline(author, ts, offset);
    let l1 = header_line(key_tree(), tree);
    let l3 = header_line(key_author(), atv);
    let l4 = header_line(key_committer(), atv);
    let finale = seq![10u8] + message + seq![10u8];
    let l2 = header_line(key_parent(), p);
    assert(s =~= l1 + l2 + l3 + l4 + finale);
    let p1 = l1.len() as int;
    let p2 = p1 + l2.len();
    let p3 = p2 + l3.len();
    let p4 = p3 + l4.len();

    // tree line
    assert forall|j: int| 0 <= j < 4 implies s[j] != 32u8 && s[j] != 10u8 by {
        assert(s[j] == key_tree()[j]);
    }
    assert(s[4] == 32u8);
    assert forall|j: int| 5 <= j < 5 + tree.len() as int implies s[j] != 10u8 by {
        assert(s[j] == tree[j - 5]);
    }
    assert(s[5 + tree.len() as int] == 10u8);
    assert(s[p1] == key_parent()[0]);
    assert(s[p1] != 32u8);
    lemma_header_step(s, 0, 4, tree.len() as int, Seq::empty());
    assert(s.subrange(0, 4) =~= key_tree());
    assert(s.subrange(5, 5 + tree.len() as int) =~= tree);
    let acc1 = upsert(Seq::empty(), key_tree(), tree);
    assert(acc1 =~= seq![(key_tree(), tree)]);

    // parent line
    assert forall|j: int| p1 <= j < p1 + 6 implies s[j] != 32u8 && s[j] != 10u8 by {
        assert(s[j] == key_parent()[j - p1]);
    }
    assert(s[p1 + 6] == 32u8);
    assert forall|j: int| p1 + 7 <= j < p1 + 7 + p.len() implies s[j] != 10u8 by {
        assert(s[j] == p[j - p1 - 7]);
    }
    assert(s[p1 + 7 + p.len()] == 10u8);
    assert(s[p2] == key_author()[0]);
    assert(s[p2] != 32u8);
    lemma_header_step(s, p1, 6, p.len() as int, acc1);
    assert(s.subrange(p1, p1 + 6) =~= key_parent());
    assert(s.subrange(p1 + 7, p1 + 7 + p.len()) =~= p);
    assert(key_tree() != key_parent());
    lemma_upsert_fresh(acc1, key_parent(), p);
    let acc2 = acc1.push((key_parent(), p));

    // author line
    assert forall|j: int| p2 <= j < p2 + 6 implies s[j] != 32u8 && s[j] != 10u8 by {
        assert(s[j] == key_author()[j - p2]);
    }
    assert(s[p2 + 6] == 32u8);
    assert forall|j: int| p2 + 7 <= j < p2 + 7 + atv.len() implies s[j] != 10u8 by {
        assert(s[j] == atv[j - p2 - 7]);
    }
    assert(s[p2 + 7 + atv.len()] == 10u8);
    assert(s[p3] == key_committer()[0]);
    assert(s[p3] != 32u8);
    lemma_header_step(s, p2, 6, atv.len() as int, acc2);
    assert(s.subrange(p2, p2 + 6) =~= key_author());
    assert(s.subrange(p2 + 7, p2 + 7 + atv.len()) =~= atv);
    assert(key_tree() != key_author() && key_parent() != key_author());
    lemma_upsert_fresh(acc2, key_author(), atv);
    let acc3 = acc2.push((key_author(), atv));

    // committer line
    assert forall|j: int| p3 <= j < p3 + 9 implies s[j] != 32u8 && s[j] != 10u8 by {
        assert(s[j] == key_committer()[j - p3]);
    }
    assert(s[p3 + 9] == 32u8);
    assert forall|j: int| p3 + 10 <= j < p3 + 10 + atv.len() implies s[j] != 10u8 by {
        assert(s[j] == atv[j - p3 - 10]);
    }
    assert(s[p3 + 10 + atv.len()] == 10u8);
    assert(s[p4] == 10u8);
    assert(s[p4] != 32u8);
    lemma_header_step(s, p3, 9, atv.len() as int, acc3);
    assert(s.subrange(p3, p3 + 9) =~= key_committer());
    assert(s.subrange(p3 + 10, p3 + 10 + atv.len()) =~= atv);
    assert(key_tree() != key_committer() && key_parent() != key_committer() && key_author()
        != key_committer());
    lemma_upsert_fresh(acc3, key_committer(), atv);
    let acc4 = acc3.push((key_committer(), atv));

    // blank line and message
    assert(parse_headers(s, p4, acc4) == upsert(acc4, key_data(), s.skip(p4 + 1)));
    assert(s.skip(p4 + 1) =~= message + seq![10u8]);
    assert(key_tree() != key_data() && key_parent() != key_data() && key_author() != key_data()
        && key_committer() != key_data());
    lemma_upsert_fresh(acc4, key_data(), message + seq![10u8]);
    assert(spec_commit_parse(s) =~= seq![
        (key_tree(), tree),
        (key_parent(), p),
        (key_author(), atv),
        (key_committer(), atv),
        (key_data(), message + seq![10u8]),
    ]);
}

#[verifier::rlimit(100)]
#[verifier::spinoff_prover]
proof fn lemma_commit_payload_parse_none(
    tree: Seq<u8>,
    author: Seq<u8>,
    message: Seq<u8>,
    ts: u64,
    offset: i32,
)
    requires
        -86400 < offset < 86400,
        forall|i: int| 0 <= i < tree.len() ==> tree[i] != 10u8,
        forall|i: int| 0 <= i < author.len() ==> author[i] != 10u8,
    ensures
        spec_commit_parse(spec_commit_payload(tree, None, author, message, ts, offset)) == seq![
            (key_tree(), tree),
            (key_author(), author_entry(author, ts, offset)),
            (key_committer(), author_entry(author, ts, offset)),
            (key_data(), message + seq![10u8]),
        ],
{
    let s = spec_commit_payload(tree, None, author, message, ts, offset);
    let atv = author_entry(author, ts, offset);
    lemma_author_entry_no_newline(author, ts, offset);
    let l1 = header_line(key_tree(), tree);
    let l3 = header_line(key_author(), atv);
    let l4 = header_line(key_committer(), atv);
    let finale = seq![10u8] + message + seq![10u8];
    assert(s =~= l1 + l3 + l4 + finale);
    let p2 = l1.len() as int;
    let p3 = p2 + l3.len();
    let p4 = p3 + l4.len();

    // tree line
    assert forall|j: int| 0 <= j < 4 implies s[j] != 32u8 && s[j] != 10u8 by {
        assert(s[j] == key_tree()[j]);
    }
    assert(s[4] == 32u8);
    assert forall|j: int| 5 <= j < 5 + tree.len() as int implies s[j] != 10u8 by {
        assert(s[j] == tree[j - 5]);
    }
    assert(s[5 + tree.len() as int] == 10u8);
    assert(s[p2] == key_author()[0]);
    assert(s[p2] != 32u8);
    lemma_header_step(s, 0, 4, tree.len() as int, Seq::empty());
    assert(s.subrange(0, 4) =~= key_tree());
    assert(s.subrange(5, 5 + tree.len() as int) =~= tree);
    let acc1 = upsert(Seq::empty(), key_tree(), tree);
    assert(acc1 =~= seq![(key_tree(), tree)]);

    // author line
    assert forall|j: int| p2 <= j < p2 + 6 implies s[j] != 32u8 && s[j] != 10u8 by {
        assert(s[j] == key_author()[j - p2]);
    }
    assert(s[p2 + 6] == 32u8);
    assert forall|j: int| p2 + 7 <= j < p2 + 7 + atv.len() implies s[j] != 10u8 by {
        assert(s[j] == atv[j - p2 - 7]);
    }
    assert(s[p2 + 7 + atv.len()] == 10u8);
    assert(s[p3] == key_committer()[0]);
    assert(s[p3] != 32u8);
    lemma_header_step(s, p2, 6, atv.len() as int, acc1);
    assert(s.subrange(p2, p2 + 6) =~= key_author());
    assert(s.subrange(p2 + 7, p2 + 7 + atv.len()) =~= atv);
    assert(key_tree() != key_author());
    lemma_upsert_fresh(acc1, key_author(), atv);
    let acc3 = acc1.push((key_author(), atv));

    // committer line
    assert forall|j: int| p3 <= j < p3 + 9 implies s[j] != 32u8 && s[j] != 10u8 by {
        assert(s[j] == key_committer()[j - p3]);
    }
    assert(s[p3 + 9] == 32u8);
    assert forall|j: int| p3 + 10 <= j < p3 + 10 + atv.len() implies s[j] != 10u8 by {
        assert(s[j] == atv[j - p3 - 10]);
    }
    assert(s[p3 + 10 + atv.len()] == 10u8);
    assert(s[p4] == 10u8);
    assert(s[p4] != 32u8);
    lemma_header_step(s, p3, 9, atv.len() as int, acc3);
    assert(s.subrange(p3, p3 + 9) =~= key_committer());
    assert(s.subrange(p3 + 10, p3 + 10 + atv.len()) =~= atv);
    assert(key_tree() != key_committer() && key_author() != key_committer());
    lemma_upsert_fresh(acc3, key_committer(), atv);
    let acc4 = acc3.push((key_committer(), atv));

    // blank line and message
    assert(parse_headers(s, p4, acc4) == upsert(acc4, key_data(), s.skip(p4 + 1)));
    assert(s.skip(p4 + 1) =~= message + seq![10u8]);
    assert(key_tree() != key_data() && key_author() != key_data() && key_committer()
        != key_data());
    lemma_upsert_fresh(acc4, key_data(), message + seq![10u8]);
    assert(spec_commit_parse(s) =~= seq![
        (key_tree(), tree),
        (key_author(), atv),
        (key_committer(), atv),
        (key_data(), message + seq![10u8]),
    ]);
}

#[verifier::rlimit(100)]
pub proof fn lemma_commit_payload_parse(
    tree: Seq<u8>,
    parent: Option<Seq<u8>>,
    author: Seq<u8>,
    message: Seq<u8>,
    ts: u64,
    offset: i32,
)
    requires
        -86400 < offset < 86400,
        forall|i: int| 0 <= i < tree.len() ==> tree[i] != 10u8,
        forall|i: int| 0 <= i < author.len() ==> author[i] != 10u8,
        match parent {
            Some(p) => forall|i: int| 0 <= i < p.len() ==> p[i] != 10u8,
            None => true,
        },
    ensures
        ({
            let parsed = spec_commit_parse(
                spec_commit_payload(tree, parent, author, message, ts, offset),
            );
            let atv = author_entry(author, ts, offset);
            &&& parsed == (match parent {
                Some(p) => seq![
                    (key_tree(), tree),
                    (key_parent(), p),
                    (key_author(), atv),
                    (key_committer(), atv),
                    (key_data(), message + seq![10u8]),
                ],
                None => seq![
                    (key_tree(), tree),
                    (key_author(), atv),
                    (key_committer(), atv),
                    (key_data(), message + seq![10u8]),
                ],
            })
            &&& assoc_get(parsed, key_tree()) == Some(tree)
            &&& assoc_get(parsed, key_parent()) == parent
            &&& assoc_get(parsed, key_data()) == Some(message + seq![10u8])
        }),
{
    let parsed = spec_commit_parse(spec_commit_payload(tree, parent, author, message, ts, offset));
    let atv = author_entry(author, ts, offset);
    match parent {
        Some(p) => {
            lemma_commit_payload_parse_some(tree, p, author, message, ts, offset);
            reveal_with_fuel(assoc_get, 8);
            let t1 = parsed.drop_first();
            assert(t1 =~= seq![
                (key_parent(), p),
                (key_author(), atv),
                (key_committer(), atv),
                (key_data(), message + seq![10u8]),
            ]);
            let t2 = t1.drop_first();
            assert(t2 =~= seq![
                (key_author(), atv),
                (key_committer(), atv),
                (key_data(), message + seq![10u8]),
            ]);
            let t3 = t2.drop_first();
            assert(t3 =~= seq![(key_committer(), atv), (key_data(), message + seq![10u8])]);
            let t4 = t3.drop_first();
            assert(t4 =~= seq![(key_data(), message + seq![10u8])]);
            assert(t4.drop_first() =~= Seq::<(Seq<u8>, Seq<u8>)>::empty());
            assert(key_tree() != key_parent() && key_tree() != key_data() && key_parent()
                != key_data() && key_author() != key_data() && key_committer() != key_data()
                && key_author() != key_parent() && key_committer() != key_parent());
            assert(assoc_get(parsed, key_tree()) == Some(tree));
            assert(assoc_get(parsed, key_parent()) == Some(p));
            assert(assoc_get(parsed, key_data()) == Some(message + seq![10u8]));
        },
        None => {
            lemma_commit_payload_parse_none(tree, author, message, ts, offset);
            reveal_with_fuel(assoc_get, 8);
            let t1 = parsed.drop_first();
            assert(t1 =~= seq![
                (key_author(), atv),
                (key_committer(), atv),
                (key_data(), message + seq![10u8]),
            ]);
            let t2 = t1.drop_first();
            assert(t2 =~= seq![(key_committer(), atv), (key_data(), message + seq![10u8])]);
            let t3 = t2.drop_first();
            assert(t3 =~= seq![(key_data(), message + seq![10u8])]);
            assert(t3.drop_first() =~= Seq::<(Seq<u8>, Seq<u8>)>::empty());
            assert(key_tree() != key_parent() && key_tree() != key_data() && key_author()
                != key_data() && key_committer() != key_data() && key_author() != key_parent()
                && key_committer() != key_parent() && key_data() != key_parent());
            assert(assoc_get(parsed, key_tree()) == Some(tree));
            assert(assoc_get(parsed, key_parent()) is None);
            assert(assoc_get(parsed, key_data()) == Some(message + seq![10u8]));
        },
    }
}

} // verus!
