//! The staging rules: building the entry that stages one path, merging new
//! entries into the current index, and synthesizing a tree payload from the
//! index.

use vstd::prelude::*;
use vstd::utf8::encode_utf8;
use crate::encoding::{hex_chars, hex_string, oct_bytes, push_octal};
use crate::error::GitError;
use crate::index::{GitIndex, IndexEntry, entry_wf, models};

verus! {

/// The paths of a list of entries, in order.
pub open spec fn staged_paths(new: Seq<GitIndex>) -> Seq<Seq<char>> {
    new.map_values(|e: GitIndex| e.path@)
}

/// Whether an existing entry survives a staging of `new`: it does exactly
/// when its path is not among the staged paths.
pub open spec fn keeps(new: Seq<GitIndex>) -> spec_fn(GitIndex) -> bool {
    |e: GitIndex| !staged_paths(new).contains(e.path@)
}

/// The merge rule of staging: entries whose path is not staged are preserved
/// as they are and in order; the new entries follow, replacing any earlier
/// entry for their path.
pub open spec fn spec_merge(existing: Seq<GitIndex>, new: Seq<GitIndex>) -> Seq<GitIndex> {
    existing.filter(keeps(new)) + new
}

/// Whether some entry of `entries` stages exactly the path `p`.
pub fn contains_path(entries: &Vec<GitIndex>, p: &String) -> (r: bool)
    ensures
        r == staged_paths(entries@).contains(p@),
{
    let mut i: usize = 0;
    while i < entries.len()
        invariant
            i <= entries@.len(),
            forall|j: int| 0 <= j < i ==> (#[trigger] entries@[j].path@) != p@,
        decreases entries@.len() - i,
    {
        if entries[i].path == *p {
            proof {
                assert(staged_paths(entries@)[i as int] == p@);
            }
            return true;
        }
        i = i + 1;
    }
    proof {
        if staged_paths(entries@).contains(p@) {
            let j = choose|j: int|
                0 <= j < staged_paths(entries@).len() && staged_paths(entries@)[j] == p@;
            assert(entries@[j].path@ == p@);
        }
    }
    false
}

/// A filtering that keeps everything is the identity.
proof fn lemma_filter_all(s: Seq<GitIndex>, pred: spec_fn(GitIndex) -> bool)
    requires
        forall|i: int| 0 <= i < s.len() ==> pred(#[trigger] s[i]),
    ensures
        s.filter(pred) == s,
    decreases s.len(),
{
    reveal(Seq::filter);
    if s.len() > 0 {
        lemma_filter_all(s.drop_last(), pred);
        assert(s.filter(pred) =~= s);
    } else {
        assert(s.filter(pred) =~= s);
    }
}

/// A filtering that keeps nothing leaves nothing.
proof fn lemma_filter_none(s: Seq<GitIndex>, pred: spec_fn(GitIndex) -> bool)
    requires
        forall|i: int| 0 <= i < s.len() ==> !pred(#[trigger] s[i]),
    ensures
        s.filter(pred) == Seq::<GitIndex>::empty(),
    decreases s.len(),
{
    reveal(Seq::filter);
    if s.len() > 0 {
        lemma_filter_none(s.drop_last(), pred);
        assert(s.filter(pred) =~= Seq::<GitIndex>::empty());
    } else {
        assert(s.filter(pred) =~= Seq::<GitIndex>::empty());
    }
}

/// Staging the same entries twice is staging them once: merging `new` into
/// an index that already holds the merge changes nothing.
pub proof fn lemma_merge_idempotent(existing: Seq<GitIndex>, new: Seq<GitIndex>)
    ensures
        spec_merge(spec_merge(existing, new), new) == spec_merge(existing, new),
{
    let pred = keeps(new);
    let kept = existing.filter(pred);
    Seq::filter_distributes_over_add(kept, new, pred);
    assert forall|i: int| 0 <= i < kept.len() implies pred(#[trigger] kept[i]) by {
        existing.lemma_filter_pred(pred, i);
    }
    lemma_filter_all(kept, pred);
    assert forall|i: int| 0 <= i < new.len() implies !pred(#[trigger] new[i]) by {
        assert(staged_paths(new)[i] == new[i].path@);
        assert(staged_paths(new).contains(new[i].path@));
    }
    lemma_filter_none(new, pred);
    assert(kept + Seq::<GitIndex>::empty() =~= kept);
}

/// Merges the entries staging some paths into the current index: entries for
/// other paths are preserved as they are, entries for the staged paths are
/// replaced by the new ones, which come last in the order given.
pub fn merge_index_entries(existing: Vec<GitIndex>, new_entries: Vec<GitIndex>) -> (r: Vec<
    GitIndex,
>)
    ensures
        r@ == spec_merge(existing@, new_entries@),
{
    let ghost orig = existing@;
    let ghost pred = keeps(new_entries@);
    let mut rest = existing;
    let mut out: Vec<GitIndex> = Vec::new();
    proof {
        reveal(Seq::filter);
        assert(orig.take(0) =~= Seq::<GitIndex>::empty());
        assert(orig.take(0).filter(pred) =~= Seq::<GitIndex>::empty());
    }
    while rest.len() > 0
        invariant
            rest@.len() <= orig.len(),
            rest@ == orig.skip(orig.len() - rest@.len()),
            pred == keeps(new_entries@),
            out@ == orig.take(orig.len() - rest@.len()).filter(pred),
        decreases rest@.len(),
    {
        let ghost idx = orig.len() - rest@.len();
        let e = rest.remove(0);
        proof {
            assert(e == orig[idx]);
            assert(rest@ =~= orig.skip(idx + 1));
            let before = orig.take(idx);
            let after = orig.take(idx + 1);
            assert(after =~= before + seq![e]);
            Seq::filter_distributes_over_add(before, seq![e], pred);
            reveal(Seq::filter);
            assert(Seq::<GitIndex>::empty().filter(pred) =~= Seq::<GitIndex>::empty());
            assert(seq![e].drop_last() =~= Seq::<GitIndex>::empty());
            assert(seq![e].last() == e);
            assert(seq![e].filter(pred) == if pred(e) {
                Seq::<GitIndex>::empty().push(e)
            } else {
                Seq::<GitIndex>::empty()
            });
        }
        if !contains_path(&new_entries, &e.path) {
            proof {
                assert(pred(e));
                assert(Seq::<GitIndex>::empty().push(e) =~= seq![e]);
            }
            out.push(e);
            proof {
                assert(out@ =~= orig.take(idx + 1).filter(pred));
            }
        } else {
            proof {
                assert(!pred(e));
                assert(out@ =~= orig.take(idx + 1).filter(pred));
            }
        }
    }
    proof {
        assert(orig.take(orig.len() as int) =~= orig);
    }
    let mut news = new_entries;
    out.append(&mut news);
    out
}

/// Builds the entry that stages one path: the given stat fields, zero
/// nanosecond parts, the raw blob hash with its hex form derived, and flags
/// holding exactly the path's byte length.
///
/// Fails, with `IndexError("invalid entry")`, exactly when the hash is not
/// 20 bytes, the path's UTF-8 form is longer than 4095 bytes, or the path
/// holds a NUL character.
pub fn stage_entry(
    ctime_s: u32,
    mtime_s: u32,
    dev: u32,
    ino: u32,
    mode: u32,
    uid: u32,
    gid: u32,
    size: u32,
    sha1_vec: Vec<u8>,
    path: String,
) -> (r: Result<GitIndex, GitError>)
    ensures
        match r {
            Ok(e) => {
                &&& e.wf()
                &&& e.ctime_s == ctime_s
                &&& e.ctime_n == 0
                &&& e.mtime_s == mtime_s
                &&& e.mtime_n == 0
                &&& e.dev == dev
                &&& e.ino == ino
                &&& e.mode == mode
                &&& e.uid == uid
                &&& e.gid == gid
                &&& e.size == size
                &&& e.sha1_vec@ == sha1_vec@
                &&& e.sha1@ == hex_chars(sha1_vec@)
                &&& e.path@ == path@
                &&& e.flags == encode_utf8(path@).len()
            },
            Err(e) => {
                &&& !(sha1_vec@.len() == 20 && encode_utf8(path@).len() < 4096 && (forall|i: int|
                    0 <= i < encode_utf8(path@).len() ==> #[trigger] encode_utf8(path@)[i] != 0))
                &&& e matches GitError::IndexError(m) && m@ == "invalid entry"@
            },
        },
{
    let path_bytes = path.as_str().as_bytes();
    let plen = path_bytes.len();
    if sha1_vec.len() != 20 || plen >= 4096 {
        return Err(GitError::IndexError("invalid entry".to_owned()));
    }
    let mut p: usize = 0;
    while p < plen
        invariant
            p <= plen,
            plen == path_bytes@.len(),
            path_bytes@ == encode_utf8(path@),
            forall|q: int| 0 <= q < p ==> path_bytes@[q] != 0u8,
        decreases plen - p,
    {
        if *vstd::slice::slice_index_get(path_bytes, p) == 0u8 {
            return Err(GitError::IndexError("invalid entry".to_owned()));
        }
        p = p + 1;
    }
    let flags = plen as u16;
    proof {
        let pl = plen as u16;
        assert(pl < 4096 ==> pl & 0x0fff == pl) by (bit_vector);
    }
    let sha1 = hex_string(&sha1_vec);
    let e = GitIndex {
        ctime_s,
        ctime_n: 0,
        mtime_s,
        mtime_n: 0,
        dev,
        ino,
        mode,
        uid,
        gid,
        size,
        sha1,
        sha1_vec,
        flags,
        path,
    };
    assert(e.model().path == encode_utf8(e.path@));
    Ok(e)
}

/// One tree entry: the octal mode, a space, the path bytes, a NUL, then the
/// 20 raw hash bytes.
pub open spec fn tree_entry_bytes(e: IndexEntry) -> Seq<u8> {
    oct_bytes(e.mode as nat) + seq![32u8] + e.path + seq![0u8] + e.sha1
}

/// A tree payload: the tree entries of the index, in index order.
pub open spec fn tree_bytes(es: Seq<IndexEntry>) -> Seq<u8>
    decreases es.len(),
{
    if es.len() == 0 {
        Seq::empty()
    } else {
        tree_entry_bytes(es[0]) + tree_bytes(es.drop_first())
    }
}

/// Appending one entry appends its tree entry.
proof fn lemma_tree_bytes_push(es: Seq<IndexEntry>, e: IndexEntry)
    ensures
        tree_bytes(es.push(e)) == tree_bytes(es) + tree_entry_bytes(e),
    decreases es.len(),
{
    if es.len() == 0 {
        assert(es.push(e).drop_first() =~= Seq::<IndexEntry>::empty());
        assert(es.push(e)[0] == e);
        assert(tree_bytes(es.push(e)) == tree_entry_bytes(e) + tree_bytes(
            Seq::<IndexEntry>::empty(),
        ));
        assert(tree_bytes(es.push(e)) =~= tree_bytes(es) + tree_entry_bytes(e));
    } else {
        assert(es.push(e).drop_first() =~= es.drop_first().push(e));
        lemma_tree_bytes_push(es.drop_first(), e);
        assert(tree_bytes(es.push(e)) == tree_entry_bytes(es[0]) + (tree_bytes(es.drop_first())
            + tree_entry_bytes(e)));
        assert(tree_entry_bytes(es[0]) + (tree_bytes(es.drop_first()) + tree_entry_bytes(e)) =~= (
        tree_entry_bytes(es[0]) + tree_bytes(es.drop_first())) + tree_entry_bytes(e));
    }
}

/// Synthesizes the tree payload of the current index: one entry per staged
/// path, in index order. Only top-level paths are supported: a path holding
/// `/` fails with `GenericError("multi-level paths are not supported")`.
pub fn tree_payload(entries: &Vec<GitIndex>) -> (r: Result<Vec<u8>, GitError>)
    ensures
        match r {
            Ok(out) => {
                &&& forall|i: int, q: int|
                    0 <= i < entries@.len() && 0 <= q < entries@[i].model().path.len()
                        ==> #[trigger] entries@[i].model().path[q] != 47u8
                &&& out@ == tree_bytes(models(entries@))
            },
            Err(e) => {
                &&& exists|i: int, q: int|
                    0 <= i < entries@.len() && 0 <= q < entries@[i].model().path.len()
                        && #[trigger] entries@[i].model().path[q] == 47u8
                &&& e matches GitError::GenericError(m) && m@
                    == "multi-level paths are not supported"@
            },
        },
{
    let ghost ms = models(entries@);
    let mut out: Vec<u8> = Vec::new();
    let mut i: usize = 0;
    while i < entries.len()
        invariant
            i <= entries@.len(),
            ms == models(entries@),
            out@ == tree_bytes(ms.take(i as int)),
            forall|j: int, q: int|
                0 <= j < i && 0 <= q < entries@[j].model().path.len()
                    ==> #[trigger] entries@[j].model().path[q] != 47u8,
        decreases entries@.len() - i,
    {
        let ghost out_before = out@;
        let e = &entries[i];
        let ghost m = entries@[i as int].model();
        push_octal(&mut out, e.mode as u64);
        out.push(32u8);
        let path_bytes = e.path.as_str().as_bytes();
        let plen = path_bytes.len();
        let mut p: usize = 0;
        while p < plen
            invariant
                p <= plen,
                plen == path_bytes@.len(),
                i < entries@.len(),
                path_bytes@ == entries@[i as int].model().path,
                forall|q: int| 0 <= q < p ==> path_bytes@[q] != 47u8,
            decreases plen - p,
        {
            if *vstd::slice::slice_index_get(path_bytes, p) == 47u8 {
                return Err(
                    GitError::GenericError("multi-level paths are not supported".to_owned()),
                );
            }
            p = p + 1;
        }
        out.extend_from_slice(path_bytes);
        out.push(0u8);
        out.extend_from_slice(e.sha1_vec.as_slice());
        proof {
            assert(out@ =~= out_before + tree_entry_bytes(m));
            assert(ms[i as int] == m);
            lemma_tree_bytes_push(ms.take(i as int), m);
            assert(ms.take(i as int).push(m) =~= ms.take(i as int + 1));
        }
        i = i + 1;
    }
    proof {
        assert(ms.take(entries@.len() as int) =~= ms);
    }
    Ok(out)
}

} // verus!
