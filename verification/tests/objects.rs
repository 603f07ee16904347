use minigit::object::{frame, parse, GitObject, ObjType, Serializable};
use minigit::store::{find_object, object_digest, object_path, read_object, write_object};
use minigit::error::GitError;

#[test]
fn frame_empty_blob() {
    let framed = frame(ObjType::Blob, &Vec::new());
    assert_eq!(framed, b"blob 0\x00".to_vec());
}

#[test]
fn empty_blob_name() {
    let obj = GitObject::new(ObjType::Blob, b"");
    let (name, _stream) = write_object(&obj);
    assert_eq!(name, "e69de29bb2d1d6434b8b29ae775ad8c2e48c5391");
}

#[test]
fn frame_hello_blob() {
    let framed = frame(ObjType::Blob, &b"hello\n".to_vec());
    assert_eq!(framed, b"blob 6\x00hello\n".to_vec());
}

#[test]
fn hello_blob_name_and_read_back() {
    let obj = GitObject::new(ObjType::Blob, b"hello\n");
    let (name, stream) = write_object(&obj);
    assert_eq!(name, "ce013625030ba8dba906f756967f9e9ca394464a");
    let back = read_object(&stream).unwrap();
    assert!(matches!(back.obj_type, ObjType::Blob));
    assert_eq!(back.data, b"hello\n".to_vec());
}

#[test]
fn frame_parse_round_trip_with_sp_and_nul() {
    // The payload holds both 0x20 and 0x00: only the first SP and the first
    // NUL of the frame are significant.
    let payload = b"a b\x00c\x00 d".to_vec();
    let framed = frame(ObjType::Tree, &payload);
    let back = parse(&framed).unwrap();
    assert!(matches!(back.obj_type, ObjType::Tree));
    assert_eq!(back.data, payload);
}

#[test]
fn parse_unknown_kind_is_commit() {
    let back = parse(&b"widget 3\x00abc".to_vec()).unwrap();
    assert!(matches!(back.obj_type, ObjType::Commit));
    assert_eq!(back.data, b"abc".to_vec());
}

#[test]
fn parse_rejects_bad_length() {
    match parse(&b"blob 5\x00abc".to_vec()) {
        Err(GitError::ObjectError(m)) => assert_eq!(m, "bad length"),
        _ => panic!("expected a bad length error"),
    }
    match parse(&b"blob x\x00abc".to_vec()) {
        Err(GitError::ObjectError(m)) => assert_eq!(m, "bad length"),
        _ => panic!("expected a bad length error"),
    }
}

#[test]
fn parse_rejects_bad_frame() {
    match parse(&b"blob3abc".to_vec()) {
        Err(GitError::ObjectError(m)) => assert_eq!(m, "bad frame"),
        _ => panic!("expected a bad frame error"),
    }
    // The first NUL before the first SP is not a frame either.
    match parse(&b"ab\x00cd ef".to_vec()) {
        Err(GitError::ObjectError(m)) => assert_eq!(m, "bad frame"),
        _ => panic!("expected a bad frame error"),
    }
}

#[test]
fn read_object_rejects_garbage_stream() {
    match read_object(&b"not zlib at all".to_vec()) {
        Err(GitError::ObjectError(m)) => assert_eq!(m, "corrupt object"),
        _ => panic!("expected a corrupt object error"),
    }
}

#[test]
fn objtype_tags_round_trip() {
    assert_eq!(ObjType::Commit.serialize(), b"commit".to_vec());
    assert_eq!(ObjType::Tree.serialize(), b"tree".to_vec());
    assert_eq!(ObjType::Tag.serialize(), b"tag".to_vec());
    assert_eq!(ObjType::Blob.serialize(), b"blob".to_vec());
    assert!(matches!(ObjType::deserialize(b"commit"), ObjType::Commit));
    assert!(matches!(ObjType::deserialize(b"tree"), ObjType::Tree));
    assert!(matches!(ObjType::deserialize(b"tag"), ObjType::Tag));
    assert!(matches!(ObjType::deserialize(b"blob"), ObjType::Blob));
    assert!(matches!(ObjType::deserialize(b"widget"), ObjType::Commit));
}

#[test]
fn gitobject_new_and_serialize() {
    let obj = GitObject::new(ObjType::Tag, b"some tag");
    assert!(matches!(obj.obj_type, ObjType::Tag));
    assert_eq!(obj.serialize(), b"some tag".as_slice());
}

#[test]
fn write_then_read_any_object() {
    let obj = GitObject::new(ObjType::Commit, b"tree abc\n\nmsg\n");
    let (_, stream) = write_object(&obj);
    let back = read_object(&stream).unwrap();
    assert!(matches!(back.obj_type, ObjType::Commit));
    assert_eq!(back.data, obj.data);
}

#[test]
fn write_object_is_idempotent() {
    let obj = GitObject::new(ObjType::Blob, b"same content");
    let (name1, stream1) = write_object(&obj);
    let (name2, stream2) = write_object(&obj);
    assert_eq!(name1, name2);
    // The streams decode to the same object, so either file is fine.
    assert_eq!(read_object(&stream1).unwrap().data, read_object(&stream2).unwrap().data);
}

#[test]
fn names_are_forty_lowercase_hex() {
    for payload in [b"".to_vec(), b"x".to_vec(), b"hello\n".to_vec()] {
        let obj = GitObject::new(ObjType::Blob, &payload);
        let (name, _) = write_object(&obj);
        assert_eq!(name.len(), 40);
        assert!(name.chars().all(|c| ('0'..='9').contains(&c) || ('a'..='f').contains(&c)));
    }
}

#[test]
fn object_digest_matches_name() {
    let obj = GitObject::new(ObjType::Blob, b"x");
    let digest = object_digest(&obj);
    let (name, _) = write_object(&obj);
    let hex: String = digest.iter().map(|b| format!("{:02x}", b)).collect();
    assert_eq!(hex, name);
    assert_eq!(digest.len(), 20);
}

#[test]
fn object_path_splits_name() {
    let obj = GitObject::new(ObjType::Blob, b"x");
    let (name, _) = write_object(&obj);
    let (dir, file) = object_path(&name);
    assert_eq!(dir.len(), 2);
    assert_eq!(file.len(), 38);
    assert_eq!(format!("{}{}", dir, file), name);
}

#[test]
fn find_object_returns_name_unchanged() {
    let name = find_object("ce013625030ba8dba906f756967f9e9ca394464a", &ObjType::Blob);
    assert_eq!(name, "ce013625030ba8dba906f756967f9e9ca394464a");
}
