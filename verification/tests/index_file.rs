use minigit::encoding::hex_string;
use minigit::error::GitError;
use minigit::index::{read_index, write_index, GitIndex};
use minigit::stage::{merge_index_entries, stage_entry};
use sha1::{Digest, Sha1};

fn entry(path: &str, seed: u8) -> GitIndex {
    let sha1_vec: Vec<u8> = (0..20u8).map(|i| i ^ seed).collect();
    let sha1 = hex_string(&sha1_vec);
    GitIndex {
        ctime_s: 1000 + seed as u32,
        ctime_n: 2000 + seed as u32,
        mtime_s: 3000 + seed as u32,
        mtime_n: 4000 + seed as u32,
        dev: 5000 + seed as u32,
        ino: 6000 + seed as u32,
        mode: 0o100644,
        uid: 7000 + seed as u32,
        gid: 8000 + seed as u32,
        size: 9000 + seed as u32,
        sha1,
        sha1_vec,
        flags: path.len() as u16,
        path: path.to_string(),
    }
}

fn same_entry(a: &GitIndex, b: &GitIndex) {
    assert_eq!(a.ctime_s, b.ctime_s);
    assert_eq!(a.ctime_n, b.ctime_n);
    assert_eq!(a.mtime_s, b.mtime_s);
    assert_eq!(a.mtime_n, b.mtime_n);
    assert_eq!(a.dev, b.dev);
    assert_eq!(a.ino, b.ino);
    assert_eq!(a.mode, b.mode);
    assert_eq!(a.uid, b.uid);
    assert_eq!(a.gid, b.gid);
    assert_eq!(a.size, b.size);
    assert_eq!(a.sha1, b.sha1);
    assert_eq!(a.sha1_vec, b.sha1_vec);
    assert_eq!(a.flags, b.flags);
    assert_eq!(a.path, b.path);
}

#[test]
fn empty_index_is_32_bytes() {
    let bytes = write_index(&Vec::new()).unwrap();
    assert_eq!(bytes.len(), 32);
    assert_eq!(&bytes[0..4], b"DIRC");
    assert_eq!(&bytes[4..8], &[0, 0, 0, 2]);
    assert_eq!(&bytes[8..12], &[0, 0, 0, 0]);
    let back = read_index(&bytes).unwrap();
    assert_eq!(back.len(), 0);
}

#[test]
fn index_round_trip_three_entries() {
    let entries = vec![entry("a", 1), entry("bb", 2), entry("ccc", 3)];
    let bytes = write_index(&entries).unwrap();
    let back = read_index(&bytes).unwrap();
    assert_eq!(back.len(), 3);
    for i in 0..3 {
        same_entry(&entries[i], &back[i]);
    }
}

#[test]
fn index_trailer_is_sha1_of_body() {
    let entries = vec![entry("a", 1), entry("bb", 2)];
    let bytes = write_index(&entries).unwrap();
    let n = bytes.len();
    let digest = Sha1::digest(&bytes[..n - 20]);
    assert_eq!(&bytes[n - 20..], digest.as_slice());
}

#[test]
fn flipped_body_byte_is_bad_checksum() {
    let entries = vec![entry("a", 1)];
    let mut bytes = write_index(&entries).unwrap();
    bytes[13] ^= 0x40;
    match read_index(&bytes) {
        Err(GitError::IndexError(m)) => assert_eq!(m, "bad checksum"),
        _ => panic!("expected a bad checksum error"),
    }
}

#[test]
fn short_file_is_bad_checksum() {
    match read_index(&b"DIRC".to_vec()) {
        Err(GitError::IndexError(m)) => assert_eq!(m, "bad checksum"),
        _ => panic!("expected a bad checksum error"),
    }
}

fn with_checksum(mut body: Vec<u8>) -> Vec<u8> {
    let digest = Sha1::digest(&body);
    body.extend_from_slice(digest.as_slice());
    body
}

#[test]
fn bad_signature_is_reported() {
    let mut body = write_index(&Vec::new()).unwrap();
    body.truncate(12);
    body[0] = b'X';
    match read_index(&with_checksum(body)) {
        Err(GitError::IndexError(m)) => assert_eq!(m, "bad signature"),
        _ => panic!("expected a bad signature error"),
    }
}

#[test]
fn unsupported_version_is_reported() {
    let mut body = write_index(&Vec::new()).unwrap();
    body.truncate(12);
    body[7] = 3;
    match read_index(&with_checksum(body)) {
        Err(GitError::IndexError(m)) => assert_eq!(m, "unsupported version"),
        _ => panic!("expected an unsupported version error"),
    }
}

#[test]
fn truncated_index_is_reported() {
    // A checksummed file shorter than a header.
    let body = b"DIRC\x00\x00".to_vec();
    match read_index(&with_checksum(body)) {
        Err(GitError::IndexError(m)) => assert_eq!(m, "truncated index"),
        _ => panic!("expected a truncated index error"),
    }
}

#[test]
fn missing_entry_is_truncated() {
    // The header counts one entry, but none follows.
    let mut body = write_index(&Vec::new()).unwrap();
    body.truncate(12);
    body[11] = 1;
    match read_index(&with_checksum(body)) {
        Err(GitError::IndexError(m)) => assert_eq!(m, "truncated entry"),
        _ => panic!("expected a truncated entry error"),
    }
}

#[test]
fn write_rejects_short_hash() {
    let mut e = entry("a", 1);
    e.sha1_vec.pop();
    match write_index(&vec![e]) {
        Err(GitError::IndexError(m)) => assert_eq!(m, "invalid entry"),
        _ => panic!("expected an invalid entry error"),
    }
}

#[test]
fn write_rejects_wrong_flags() {
    let mut e = entry("a", 1);
    e.flags = 2;
    match write_index(&vec![e]) {
        Err(GitError::IndexError(m)) => assert_eq!(m, "invalid entry"),
        _ => panic!("expected an invalid entry error"),
    }
}

#[test]
fn longest_path_round_trips() {
    // A path whose UTF-8 length is exactly 4095: the full low 12 bits.
    let path: String = "a".repeat(4095);
    let e = entry(&path, 5);
    assert_eq!(e.flags & 0x0fff, 4095);
    let bytes = write_index(&vec![e]).unwrap();
    let back = read_index(&bytes).unwrap();
    assert_eq!(back.len(), 1);
    assert_eq!(back[0].path, path);
    assert_eq!(back[0].flags, 4095);
}

#[test]
fn stage_entry_builds_wf_entry() {
    let digest: Vec<u8> = (0..20u8).collect();
    let e = stage_entry(10, 20, 30, 40, 0o100644, 50, 60, 70, digest.clone(), "a.txt".to_string())
        .unwrap();
    assert_eq!(e.ctime_s, 10);
    assert_eq!(e.ctime_n, 0);
    assert_eq!(e.mtime_s, 20);
    assert_eq!(e.mtime_n, 0);
    assert_eq!(e.flags, 5);
    assert_eq!(e.sha1_vec, digest);
    assert_eq!(e.sha1, hex_string(&digest));
    assert_eq!(e.path, "a.txt");
}

#[test]
fn stage_entry_rejects_long_path() {
    let digest: Vec<u8> = (0..20u8).collect();
    let path: String = "a".repeat(4096);
    match stage_entry(1, 2, 3, 4, 5, 6, 7, 8, digest, path) {
        Err(GitError::IndexError(m)) => assert_eq!(m, "invalid entry"),
        _ => panic!("expected an invalid entry error"),
    }
}

#[test]
fn merge_replaces_staged_paths() {
    let existing = vec![entry("a", 1), entry("b", 2)];
    let new_entries = vec![entry("b", 9)];
    let merged = merge_index_entries(existing, new_entries);
    assert_eq!(merged.len(), 2);
    assert_eq!(merged[0].path, "a");
    assert_eq!(merged[1].path, "b");
    assert_eq!(merged[1].ctime_s, 1000 + 9);
}

#[test]
fn restaging_is_idempotent() {
    // Staging the same entries twice produces a byte-equal index.
    let existing = vec![entry("a", 1), entry("b", 2)];
    let once = merge_index_entries(existing, vec![entry("b", 9), entry("c", 4)]);
    let once_bytes = write_index(&once).unwrap();
    let twice = merge_index_entries(once, vec![entry("b", 9), entry("c", 4)]);
    let twice_bytes = write_index(&twice).unwrap();
    assert_eq!(once_bytes, twice_bytes);
}

#[test]
fn non_utf8_path_is_bad_path() {
    // One record whose path byte is not UTF-8.
    let mut body = write_index(&Vec::new()).unwrap();
    body.truncate(12);
    body[11] = 1;
    let mut record = vec![0u8; 62];
    record[61] = 1; // flags: path length 1
    record.push(0xff); // the path byte: invalid UTF-8
    record.push(0); // NUL padding to the eight-aligned length of 64
    body.extend_from_slice(&record);
    match read_index(&with_checksum(body)) {
        Err(GitError::IndexError(m)) => assert_eq!(m, "bad path"),
        _ => panic!("expected a bad path error"),
    }
}

#[test]
fn stage_entry_rejects_nul_in_path() {
    let digest: Vec<u8> = (0..20u8).collect();
    match stage_entry(1, 2, 3, 4, 5, 6, 7, 8, digest, "a\u{0}b".to_string()) {
        Err(GitError::IndexError(m)) => assert_eq!(m, "invalid entry"),
        _ => panic!("expected an invalid entry error"),
    }
}
