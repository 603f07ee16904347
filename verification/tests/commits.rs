use minigit::commit::{commit_parse, commit_payload, commit_payload_now, commit_value,
    trim_trailing_newline};
use minigit::error::GitError;
use minigit::object::{GitObject, ObjType};
use minigit::stage::{stage_entry, tree_payload};
use minigit::store::{object_digest, write_object};

fn get<'a>(pairs: &'a Vec<(Vec<u8>, Vec<u8>)>, key: &[u8]) -> Option<&'a Vec<u8>> {
    commit_value(pairs, key)
}

#[test]
fn commit_payload_without_parent() {
    let payload = commit_payload("abc123", None, "Me", "first", 1700000000, 3600);
    let text = String::from_utf8(payload.clone()).unwrap();
    assert_eq!(text, "tree abc123\nauthor Me 1700000000 +0100\ncommitter Me 1700000000 +0100\n\nfirst\n");
    let pairs = commit_parse(&payload);
    assert!(get(&pairs, b"parent").is_none());
    assert_eq!(get(&pairs, b"tree").unwrap(), &b"abc123".to_vec());
    assert_eq!(get(&pairs, b"data").unwrap(), &b"first\n".to_vec());
}

#[test]
fn commit_payload_with_parent() {
    let parent = b"0123456789012345678901234567890123456789".to_vec();
    let payload = commit_payload("abc123", Some(&parent), "Me", "second", 1700000000, -19800);
    let text = String::from_utf8(payload.clone()).unwrap();
    // Exactly one parent line, holding the first commit's hex.
    assert_eq!(text.matches("parent").count(), 1);
    assert!(text.contains("\nparent 0123456789012345678901234567890123456789\n"));
    assert!(text.contains(" 1700000000 -0530\n"));
    let pairs = commit_parse(&payload);
    assert_eq!(get(&pairs, b"parent").unwrap(), &parent);
}

#[test]
fn commit_payload_offset_forms() {
    let zero = commit_payload("t", None, "A", "m", 7, 0);
    assert!(String::from_utf8(zero).unwrap().contains(" 7 -0000\n"));
    let east = commit_payload("t", None, "A", "m", 7, 19800);
    assert!(String::from_utf8(east).unwrap().contains(" 7 +0530\n"));
}

#[test]
fn commit_payload_now_is_well_formed() {
    let payload = commit_payload_now("abc", None, "Me", "msg");
    let pairs = commit_parse(&payload);
    assert_eq!(get(&pairs, b"tree").unwrap(), &b"abc".to_vec());
    assert!(get(&pairs, b"parent").is_none());
    assert_eq!(get(&pairs, b"data").unwrap(), &b"msg\n".to_vec());
}

#[test]
fn commit_parse_continuation_lines() {
    let raw = b"note one\n two\nother x\n\nbody".to_vec();
    let pairs = commit_parse(&raw);
    assert_eq!(get(&pairs, b"note").unwrap(), &b"one\ntwo".to_vec());
    assert_eq!(get(&pairs, b"other").unwrap(), &b"x".to_vec());
    assert_eq!(get(&pairs, b"data").unwrap(), &b"body".to_vec());
}

#[test]
fn commit_parse_repeated_keys_append() {
    let raw = b"parent aaa\nparent bbb\n\nm\n".to_vec();
    let pairs = commit_parse(&raw);
    assert_eq!(get(&pairs, b"parent").unwrap(), &b"aaabbb".to_vec());
}

#[test]
fn tree_payload_single_entry() {
    let digest: Vec<u8> = (0..20u8).collect();
    let e = stage_entry(1, 2, 3, 4, 0o100644, 5, 6, 7, digest.clone(), "a.txt".to_string())
        .unwrap();
    let tree = tree_payload(&vec![e]).unwrap();
    let mut expected = b"100644 a.txt\x00".to_vec();
    expected.extend_from_slice(&digest);
    assert_eq!(tree, expected);
}

#[test]
fn tree_payload_rejects_subdirectories() {
    let digest: Vec<u8> = (0..20u8).collect();
    let e = stage_entry(1, 2, 3, 4, 0o100644, 5, 6, 7, digest, "a/b".to_string()).unwrap();
    match tree_payload(&vec![e]) {
        Err(GitError::GenericError(m)) => assert_eq!(m, "multi-level paths are not supported"),
        _ => panic!("expected the multi-level path error"),
    }
}

#[test]
fn empty_index_gives_empty_tree() {
    // Committing an empty index produces a zero-length tree payload, a
    // degenerate but valid object.
    let tree = tree_payload(&Vec::new()).unwrap();
    assert_eq!(tree.len(), 0);
}

#[test]
fn trim_trailing_newline_cases() {
    assert_eq!(trim_trailing_newline(b"abc\n".to_vec()), b"abc".to_vec());
    assert_eq!(trim_trailing_newline(b"abc".to_vec()), b"abc".to_vec());
    assert_eq!(trim_trailing_newline(b"\n".to_vec()), b"".to_vec());
    assert_eq!(trim_trailing_newline(b"".to_vec()), b"".to_vec());
    assert_eq!(trim_trailing_newline(b"a\n\n".to_vec()), b"a\n".to_vec());
}

#[test]
fn stage_and_commit_chain() {
    // The compute side of `init; add a.txt; commit`: write the blob, stage
    // it, synthesize the tree, form the commit.
    let blob = GitObject::new(ObjType::Blob, b"x");
    let (blob_name, _stream) = write_object(&blob);
    let digest = object_digest(&blob);
    let e = stage_entry(1, 2, 3, 4, 0o100644, 5, 6, 7, digest.clone(), "a.txt".to_string())
        .unwrap();
    assert_eq!(e.sha1, blob_name);
    let tree = tree_payload(&vec![e]).unwrap();
    let mut expected = b"100644 a.txt\x00".to_vec();
    expected.extend_from_slice(&digest);
    assert_eq!(tree, expected);
    let tree_obj = GitObject::new(ObjType::Tree, &tree);
    let (tree_name, _) = write_object(&tree_obj);
    let payload = commit_payload(&tree_name, None, "Me", "m", 1700000000, 0);
    let pairs = commit_parse(&payload);
    assert_eq!(get(&pairs, b"tree").unwrap(), &tree_name.as_bytes().to_vec());
    assert!(get(&pairs, b"parent").is_none());

    // A second commit carries exactly one parent line: the first commit.
    let commit_obj = GitObject::new(ObjType::Commit, &payload);
    let (first_name, _) = write_object(&commit_obj);
    let parent = first_name.as_bytes().to_vec();
    let payload2 = commit_payload(&tree_name, Some(&parent), "Me", "m2", 1700000100, 0);
    let text2 = String::from_utf8(payload2.clone()).unwrap();
    assert_eq!(text2.matches("parent").count(), 1);
    let pairs2 = commit_parse(&payload2);
    assert_eq!(get(&pairs2, b"parent").unwrap(), &parent);
}
