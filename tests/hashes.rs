use mush::mush_object::MushObject;

type ObjectHash = mush::hash::Hash;

#[test]
fn hex_text_round_trip() {
    let h = ObjectHash::from_str("D670460B4B4AECE5915CAF5C68D12F560A9FE3E4").unwrap();
    assert_eq!(h.as_str(), "d670460b4b4aece5915caf5c68d12f560a9fe3e4");
    assert_eq!(h.as_bytes()[0], 0xd6);
    assert_eq!(h.as_bytes().len(), 20);
}

#[test]
fn malformed_hex_is_refused() {
    assert!(ObjectHash::from_str("d670460b4b4aece5915caf5c68d12f560a9fe3e").is_none());
    assert!(ObjectHash::from_str("d670460b4b4aece5915caf5c68d12f560a9fe3e4a0").is_none());
    assert!(ObjectHash::from_str("g670460b4b4aece5915caf5c68d12f560a9fe3e4").is_none());
    assert!(ObjectHash::from_str("").is_none());
}

#[test]
fn shard_path() {
    let h = ObjectHash::from_str("d670460b4b4aece5915caf5c68d12f560a9fe3e4").unwrap();
    assert_eq!(h.path(), "objects/d6/70460b4b4aece5915caf5c68d12f560a9fe3e4");
}

#[test]
fn digest_of_bytes() {
    assert_eq!(
        ObjectHash::digest(b"blob 13\0test content\n").as_str(),
        "d670460b4b4aece5915caf5c68d12f560a9fe3e4"
    );
    assert!(ObjectHash::digest(b"a") == ObjectHash::digest(b"a"));
    assert!(ObjectHash::digest(b"a") != ObjectHash::digest(b"b"));
}

#[test]
fn mush_object_blob() {
    let o = MushObject::Blob(b"test content\n".to_vec());
    assert_eq!(o.store(), b"blob 13\0test content\n".to_vec());
    assert_eq!(o.hash().as_str(), "d670460b4b4aece5915caf5c68d12f560a9fe3e4");
    assert_eq!(o.object_path(), "objects/d6/70460b4b4aece5915caf5c68d12f560a9fe3e4");
    let inflated = miniz_oxide::inflate::decompress_to_vec(&o.compressed()).unwrap();
    assert_eq!(inflated, o.store());
}
