use mush::commit::{CommitError, CommitObject, PersonTime, Timestamp};
use mush::object::{Object, ObjectError, ObjectHeader, ObjectType, TreeEntry};

fn hash_of(hex: &str) -> mush::hash::Hash {
    mush::hash::Hash::from_str(hex).unwrap()
}

fn blob_hash(content: &str) -> String {
    Object::Blob(content.as_bytes().to_vec()).hash().as_str().to_string()
}

#[test]
fn blob_hash_of_test_content() {
    assert_eq!(blob_hash("test content\n"), "d670460b4b4aece5915caf5c68d12f560a9fe3e4");
}

#[test]
fn hash_files() {
    assert_eq!(blob_hash("pedal\nstroke\nmush\n246\n"), "6b71b21eca93ae1244825d70173ce4185efabe27");
    assert_eq!(blob_hash("pedal\nstroke\nmush\n375\n"), "0aee910e6bc8fc564b3d7e8004bdefb76296d512");
    assert_eq!(blob_hash("pedal\nstroke\nmush\n403\n"), "0ab24bc4ce4fa08fa0f8c12e8001db7e9b936ccd");
    assert_eq!(blob_hash("pedal\nstroke\nmush\n999\n"), "99622a960c9f3d0232df4d90149b666c11159b9e");
    assert_eq!(
        blob_hash("- eggs\n- pork roll\n- cheese\n- kaiser bun\n"),
        "64dee893c45dee4f826bd62978abebf31c3cdcba"
    );
    assert_eq!(
        blob_hash("They will not win. They were not there for hills at greenbush"),
        "638d015b06cf20efa84b7f47b91f73acb19a7c05"
    );
}

#[test]
fn canonical_bytes_of_blob() {
    let o = Object::Blob(b"test content\n".to_vec());
    assert_eq!(o.store(), b"blob 13\0test content\n".to_vec());
}

#[test]
fn written_blob_header_reports_type_and_size() {
    let o = Object::Blob(b"test content\n".to_vec());
    let header = ObjectHeader::extract_from_file(&o.compressed()).unwrap();
    assert_eq!(header.tipe, ObjectType::Blob);
    assert_eq!(header.size, 13);
}

#[test]
fn header_sizes() {
    for (content, size) in [
        ("- eggs\n- pork roll\n- cheese\n- kaiser bun\n", 41usize),
        ("pedal\nstroke\nmush\n999\n", 22),
        ("They will not win. They were not there for hills at greenbush", 61),
    ] {
        let o = Object::Blob(content.as_bytes().to_vec());
        let header = ObjectHeader::extract_from_file(&o.compressed()).unwrap();
        assert_eq!(header.size, size);
    }
}

#[test]
fn compressed_blob_starts_with_zlib_header() {
    let o = Object::Blob(b"abc\n".to_vec());
    let c = o.compressed();
    assert_eq!(&c[..2], &[0x78, 0x01]);
    assert_ne!(c, o.store());
}

#[test]
fn writing_twice_gives_identical_bytes() {
    let a = Object::Blob(b"pedal\nstroke\nmush\n999\n".to_vec());
    let b = Object::Blob(b"pedal\nstroke\nmush\n999\n".to_vec());
    assert_eq!(a.compressed(), b.compressed());
}

#[test]
fn blob_round_trip() {
    let o = Object::Blob(b"some bytes \0 with a nul".to_vec());
    match Object::from_compressed_bytes(&o.compressed()).unwrap() {
        Object::Blob(b) => assert_eq!(b, b"some bytes \0 with a nul".to_vec()),
        _ => panic!("not a blob"),
    }
}

#[test]
fn tree_round_trip_and_listing() {
    let entries = vec![
        TreeEntry::new("x".to_string(), 0o100644, hash_of("acbe86c7c89586e0912a0a851bacf309c595c308")),
        TreeEntry::new("y".to_string(), 0o40000, hash_of("892b8c36b1579b893c2eb05641d4361bd25ffde9")),
    ];
    let o = Object::Tree(entries);
    assert_eq!(o.hash().as_str(), "0742454447b93be8ab983887217db204371a77bd");
    let back = Object::from_compressed_bytes(&o.compressed()).unwrap();
    assert_eq!(back.store(), o.store());
    let listing = back.pretty_print(&vec![ObjectType::Blob, ObjectType::Tree]);
    assert_eq!(
        String::from_utf8(listing).unwrap(),
        "100644 blob acbe86c7c89586e0912a0a851bacf309c595c308\tx\n 40000 tree 892b8c36b1579b893c2eb05641d4361bd25ffde9\ty\n"
    );
}

#[test]
fn pretty_tree() {
    let o = Object::Tree(vec![TreeEntry::new(
        "xyz.txt".to_string(),
        0o100644,
        hash_of("8baef1b4abc478178b004d62031cf7fe6db6f903"),
    )]);
    assert_eq!(o.hash().as_str(), "892b8c36b1579b893c2eb05641d4361bd25ffde9");
    assert_eq!(
        String::from_utf8(o.pretty_print(&vec![ObjectType::Blob])).unwrap(),
        "100644 blob 8baef1b4abc478178b004d62031cf7fe6db6f903\txyz.txt\n"
    );
}

#[test]
fn tree_entry_record() {
    let e = TreeEntry::new("y".to_string(), 0o40000, hash_of("892b8c36b1579b893c2eb05641d4361bd25ffde9"));
    let mut expected = b"40000 y\0".to_vec();
    expected.extend_from_slice(&[
        0x89, 0x2b, 0x8c, 0x36, 0xb1, 0x57, 0x9b, 0x89, 0x3c, 0x2e, 0xb0, 0x56, 0x41, 0xd4, 0x36,
        0x1b, 0xd2, 0x5f, 0xfd, 0xe9,
    ]);
    assert_eq!(e.store(), expected);
}

fn sample_commit() -> CommitObject {
    CommitObject {
        tree_hash: hash_of("b923cc8e0ff559cf73c8302c7516a1364333bdfa"),
        parent_hashes: vec![hash_of("78981922613b2afb6025042ff6bd878ac1994e85")],
        author: PersonTime {
            name: "Bud Weiser".to_string(),
            email: "bud@wiser.org".to_string(),
            timestamp: Timestamp { seconds: 1700000000, offset: 5 * 3600 },
        },
        message: "messsage\n".to_string(),
    }
}

#[test]
fn commit_text() {
    let text = String::from_utf8(sample_commit().to_bytes()).unwrap();
    assert_eq!(
        text,
        "tree\tb923cc8e0ff559cf73c8302c7516a1364333bdfa\nparent\t78981922613b2afb6025042ff6bd878ac1994e85\nauthor\tBud Weiser\t<bud@wiser.org>\t1700000000 +05:00\n\nmesssage\n"
    );
}

#[test]
fn commit_round_trip() {
    let c = sample_commit();
    let o = Object::Commit(c);
    let back = Object::from_compressed_bytes(&o.compressed()).unwrap();
    match back {
        Object::Commit(d) => {
            assert_eq!(d.tree_hash.as_str(), "b923cc8e0ff559cf73c8302c7516a1364333bdfa");
            assert_eq!(d.parent_hashes.len(), 1);
            assert_eq!(d.author.name, "Bud Weiser");
            assert_eq!(d.author.email, "bud@wiser.org");
            assert_eq!(d.author.timestamp, Timestamp { seconds: 1700000000, offset: 18000 });
            assert_eq!(d.message, "messsage\n");
        }
        _ => panic!("not a commit"),
    }
}

#[test]
fn commit_negative_offset_and_time() {
    let text = b"tree\tb923cc8e0ff559cf73c8302c7516a1364333bdfa\nauthor\ta\t<e>\t-5 -03:30\n\nm";
    let c = CommitObject::from_bytes(text).ok().unwrap();
    assert_eq!(c.author.timestamp, Timestamp { seconds: -5, offset: -(3 * 3600 + 30 * 60) });
    assert_eq!(c.to_bytes(), text.to_vec());
}

#[test]
fn commit_rejects_bad_headers() {
    let no_blank = b"tree\tb923cc8e0ff559cf73c8302c7516a1364333bdfa\nauthor\ta\t<e>\t1 +00:00\nm";
    assert!(CommitObject::from_bytes(no_blank).is_err());
    let no_author = b"tree\tb923cc8e0ff559cf73c8302c7516a1364333bdfa\n\nm";
    assert!(CommitObject::from_bytes(no_author).is_err());
    let two_trees = b"tree\tb923cc8e0ff559cf73c8302c7516a1364333bdfa\ntree\tb923cc8e0ff559cf73c8302c7516a1364333bdfa\nauthor\ta\t<e>\t1 +00:00\n\nm";
    assert!(CommitObject::from_bytes(two_trees).is_err());
    let unknown = b"tree\tb923cc8e0ff559cf73c8302c7516a1364333bdfa\nauthor\ta\t<e>\t1 +00:00\ncolour\tblue\n\nm";
    assert!(CommitObject::from_bytes(unknown).is_err());
    let bad_time = b"tree\tb923cc8e0ff559cf73c8302c7516a1364333bdfa\nauthor\ta\t<e>\tsoon +00:00\n\nm";
    assert!(CommitObject::from_bytes(bad_time).is_err());
    let bad_arity = b"tree\tb923cc8e0ff559cf73c8302c7516a1364333bdfa\textra\nauthor\ta\t<e>\t1 +00:00\n\nm";
    assert!(CommitObject::from_bytes(bad_arity).is_err());
}

fn decode_error(bytes: &[u8]) -> ObjectError {
    match Object::from_compressed_bytes(&miniz_oxide::deflate::compress_to_vec_zlib(bytes, 1)) {
        Err(e) => e,
        Ok(_) => panic!("decoded"),
    }
}

#[test]
fn decode_errors() {
    assert_eq!(decode_error(b"blob 3"), ObjectError::MalformedHeader);
    assert_eq!(decode_error(b"blob3\0abc"), ObjectError::MalformedHeader);
    assert_eq!(decode_error(b"bolb 3\0abc"), ObjectError::BadObjectType);
    assert_eq!(decode_error(b"blob x\0abc"), ObjectError::BadSize);
    assert_eq!(decode_error(b"blob 4\0abc"), ObjectError::SizeMismatch);
    assert_eq!(decode_error(b"tree 3\0abc"), ObjectError::MalformedTree);
    assert_eq!(decode_error(b"commit 3\0abc"), ObjectError::MalformedCommit);
    match Object::from_compressed_bytes(b"not zlib") {
        Err(e) => assert_eq!(e, ObjectError::Decompression),
        Ok(_) => panic!("decoded"),
    }
}

#[test]
fn type_names() {
    assert_eq!(ObjectType::Blob.to_str(), "blob");
    assert_eq!(ObjectType::Tree.to_str(), "tree");
    assert_eq!(ObjectType::Commit.to_str(), "commit");
}

#[test]
fn same_content_same_hash() {
    let a = Object::Blob(b"abc\n".to_vec());
    let b = Object::Blob(b"abc\n".to_vec());
    let c = Object::Blob(b"abcd\n".to_vec());
    assert!(a.hash() == b.hash());
    assert!(a.hash() != c.hash());
    assert_eq!(a.store(), b.store());
}

#[test]
fn commit_timestamp_out_of_range_is_refused() {
    let text = b"tree\tb923cc8e0ff559cf73c8302c7516a1364333bdfa\nauthor\ta\t<e>\t9223372036854775807 +00:00\n\nm";
    assert!(CommitObject::from_bytes(text).is_err());
    let bad_offset = b"tree\tb923cc8e0ff559cf73c8302c7516a1364333bdfa\nauthor\ta\t<e>\t1 +0x:00\n\nm";
    assert!(CommitObject::from_bytes(bad_offset).is_err());
}

#[test]
fn commit_error_kinds() {
    let no_blank = CommitObject::from_bytes(b"tree\tx\n").err().unwrap();
    assert!(matches!(no_blank, CommitError::NoBlankLine));
    let bad_message = CommitObject::from_bytes(b"tree\tx\n\n\xff").err().unwrap();
    assert!(matches!(bad_message, CommitError::BadMessage));
    let bad_header = CommitObject::from_bytes(b"tree\tx\n\nm").err().unwrap();
    assert!(matches!(bad_header, CommitError::BadHeader));
}
