use mush::index::{Index, IndexEntry, IndexError, RepoRelativeFilename};

fn entry(name: &str, hash: &str) -> IndexEntry {
    IndexEntry {
        metadata_change_time: (1, 2),
        data_change_time: (3, 4),
        device: 5,
        inode: 6,
        mode: 0o100644,
        uid: 1000,
        gid: 1000,
        size: 22,
        hash: mush::hash::Hash::from_str(hash).unwrap(),
        assume_valid: false,
        file_name: RepoRelativeFilename(name.to_string()),
    }
}

const GOGGINS_INDEX: [u8; 104] = [
    0x44, 0x49, 0x52, 0x43, 0x00, 0x00, 0x00, 0x02, 0x00, 0x00, 0x00, 0x01,
    0x67, 0x9d, 0x77, 0x9f, 0x12, 0xee, 0x03, 0xae, 0x67, 0x9d, 0x77, 0x9f,
    0x12, 0xee, 0x03, 0xae, 0x00, 0x01, 0x03, 0x07, 0x00, 0x3e, 0x4b, 0xab,
    0x00, 0x00, 0x81, 0xa4, 0x00, 0x00, 0x03, 0xe8, 0x00, 0x00, 0x03, 0xe6,
    0x00, 0x00, 0x00, 0xdb, 0xda, 0x9e, 0xfe, 0xd4, 0x6f, 0x06, 0x3d, 0x03,
    0x28, 0xde, 0x76, 0xca, 0x16, 0x07, 0x03, 0x78, 0xb9, 0xbb, 0x8e, 0xb3,
    0x00, 0x07, 0x67, 0x6f, 0x67, 0x67, 0x69, 0x6e, 0x73, 0x00,
    0x00, 0x00,
    0x39, 0x8b, 0x79, 0x6a, 0x01, 0xf5, 0xbe, 0x8e, 0x33, 0x6c,
    0x38, 0xce, 0x14, 0xef, 0xc3, 0x1b, 0x80, 0x77, 0x47, 0x55,
];

#[test]
fn empty_index_bytes() {
    let bytes = Index::empty().serialize();
    assert_eq!(bytes.len(), 34);
    assert_eq!(&bytes[..14], &[0x44, 0x49, 0x52, 0x43, 0, 0, 0, 2, 0, 0, 0, 0, 0, 0]);
    assert_eq!(&bytes[14..], mush::hash::Hash::digest(&bytes[..14]).as_bytes());
}

#[test]
fn reads_an_existing_index() {
    let index = Index::deserialize(&GOGGINS_INDEX).ok().unwrap();
    let entries = index.entries();
    assert_eq!(entries.len(), 1);
    assert_eq!(entries[0].file_name.0, "goggins");
    assert_eq!(entries[0].hash.as_str(), "da9efed46f063d0328de76ca16070378b9bb8eb3");
    assert_eq!(entries[0].mode, 0o100644);
    assert_eq!(entries[0].uid, 1000);
    assert_eq!(entries[0].size, 219);
    assert_eq!(index.serialize(), GOGGINS_INDEX.to_vec());
}

#[test]
fn add_to_existing_index() {
    let mut index = Index::deserialize(&GOGGINS_INDEX).ok().unwrap();
    index.add(entry("999.txt", "99622a960c9f3d0232df4d90149b666c11159b9e"));
    let names: Vec<String> = index.entries().iter().map(|e| e.file_name.0.clone()).collect();
    assert_eq!(names, vec!["999.txt".to_string(), "goggins".to_string()]);
    let bytes = index.serialize();
    assert_eq!(&bytes[8..12], &[0, 0, 0, 2]);
    let back = Index::deserialize(&bytes).ok().unwrap();
    assert_eq!(back.serialize(), bytes);
}

#[test]
fn index_round_trip() {
    let mut index = Index::empty();
    index.add(entry("src/b/c", "0cfbf08886fca9a91cb753ec8734c84fcbe52c9f"));
    index.add(entry("src/a", "d00491fd7e5bb6fa28c517a0bb32b8b506539d4d"));
    index.add(entry("x", "acbe86c7c89586e0912a0a851bacf309c595c308"));
    let long = "d/".repeat(3000) + "f";
    index.add(entry(&long, "acbe86c7c89586e0912a0a851bacf309c595c308"));
    let bytes = index.serialize();
    let back = Index::deserialize(&bytes).ok().unwrap();
    assert_eq!(back.entries().len(), 4);
    let names: Vec<String> = back.entries().iter().map(|e| e.file_name.0.clone()).collect();
    assert_eq!(names, vec![long.clone(), "src/a".to_string(), "src/b/c".to_string(), "x".to_string()]);
    assert_eq!(back.serialize(), bytes);
}

#[test]
fn adding_a_path_again_replaces_it() {
    let mut index = Index::empty();
    index.add(entry("a", "0cfbf08886fca9a91cb753ec8734c84fcbe52c9f"));
    index.add(entry("a", "d00491fd7e5bb6fa28c517a0bb32b8b506539d4d"));
    assert_eq!(index.entries().len(), 1);
    assert_eq!(index.entries()[0].hash.as_str(), "d00491fd7e5bb6fa28c517a0bb32b8b506539d4d");
}

#[test]
fn insertion_order_does_not_matter() {
    let mut a = Index::empty();
    let mut b = Index::empty();
    let paths = ["x", "y/xyz.txt", "src/l", "src/b/k"];
    for p in paths.iter() {
        a.add(entry(p, "0cfbf08886fca9a91cb753ec8734c84fcbe52c9f"));
    }
    for p in paths.iter().rev() {
        b.add(entry(p, "0cfbf08886fca9a91cb753ec8734c84fcbe52c9f"));
    }
    assert_eq!(a.serialize(), b.serialize());
}

#[test]
fn every_flipped_byte_fails_the_checksum() {
    let mut index = Index::empty();
    index.add(entry("a", "0cfbf08886fca9a91cb753ec8734c84fcbe52c9f"));
    let bytes = index.serialize();
    for i in 0..bytes.len() - 20 {
        let mut flipped = bytes.clone();
        flipped[i] ^= 0x01;
        assert_eq!(Index::deserialize(&flipped).err(), Some(IndexError::BadChecksum));
    }
}

fn with_checksum(mut content: Vec<u8>) -> Vec<u8> {
    let sum = mush::hash::Hash::digest(&content);
    content.extend_from_slice(sum.as_bytes());
    content
}

#[test]
fn index_errors() {
    assert_eq!(Index::deserialize(&[0u8; 10]).err(), Some(IndexError::TooShort));
    let bad_sig = with_checksum(vec![0x44, 0x49, 0x52, 0x44, 0, 0, 0, 2, 0, 0, 0, 0, 0, 0]);
    assert_eq!(Index::deserialize(&bad_sig).err(), Some(IndexError::BadSignature));
    let bad_version = with_checksum(vec![0x44, 0x49, 0x52, 0x43, 0, 0, 0, 3, 0, 0, 0, 0, 0, 0]);
    assert_eq!(Index::deserialize(&bad_version).err(), Some(IndexError::BadVersion));
    let bad_count = with_checksum(vec![0x44, 0x49, 0x52, 0x43, 0, 0, 0, 2, 0, 0, 0, 1, 0, 0]);
    assert_eq!(Index::deserialize(&bad_count).err(), Some(IndexError::EntryCountMismatch));
    let short_entry = with_checksum(vec![0x44, 0x49, 0x52, 0x43, 0, 0, 0, 2, 0, 0, 0, 1, 7, 7, 7, 0, 0]);
    assert_eq!(Index::deserialize(&short_entry).err(), Some(IndexError::MalformedEntry));
}

#[test]
fn remove_until_empty() {
    let mut index = Index::deserialize(&GOGGINS_INDEX).ok().unwrap();
    index.add(entry("999.txt", "99622a960c9f3d0232df4d90149b666c11159b9e"));
    assert!(index.remove(&RepoRelativeFilename("999.txt".to_string())).is_ok());
    assert_eq!(index.serialize(), GOGGINS_INDEX.to_vec());
    assert!(index.remove(&RepoRelativeFilename("goggins".to_string())).is_ok());
    assert_eq!(index.serialize(), Index::empty().serialize());
}

#[test]
fn removing_a_missing_path_fails_and_changes_nothing() {
    let mut index = Index::deserialize(&GOGGINS_INDEX).ok().unwrap();
    let r = index.remove(&RepoRelativeFilename("not-there".to_string()));
    assert_eq!(r, Err(IndexError::NotFound));
    assert_eq!(index.serialize(), GOGGINS_INDEX.to_vec());
}

#[test]
fn entry_record_layout() {
    let e = entry("ab", "0cfbf08886fca9a91cb753ec8734c84fcbe52c9f");
    let rec = e.serialize();
    assert_eq!(rec.len(), 62 + 2 + 1);
    assert_eq!(&rec[0..4], &[0, 0, 0, 1]);
    assert_eq!(&rec[60..62], &[0, 2]);
    assert_eq!(&rec[62..], b"ab\0");
    let (back, next) = IndexEntry::deserialize(&rec, 0, rec.len()).unwrap();
    assert_eq!(next, rec.len());
    assert_eq!(back.file_name.0, "ab");
    assert_eq!(back.serialize(), rec);
}
