use it::objects::{build_object, compress_data, decompress_data, object_payload, read_object_payload, ObjType};
use it::store::{hash_object, ObjectStore};
use it::hashing::{compute_hash, hex_to_sha_bytes};
use it::ItError;

#[test]
fn frame_of_empty_blob() {
    let framed = build_object(b"", ObjType::Blob);
    assert_eq!(framed, b"blob 0\0".to_vec());
}

#[test]
fn frame_of_hello_blob() {
    let framed = build_object(b"hello\n", ObjType::Blob);
    assert_eq!(framed, b"blob 6\0hello\n".to_vec());
}

#[test]
fn frame_payload_roundtrip() {
    let framed = build_object(b"some content", ObjType::Tree);
    let payload = object_payload(&framed).unwrap();
    assert_eq!(payload, b"some content".to_vec());
}

#[test]
fn frame_without_nul_is_malformed() {
    assert_eq!(object_payload(b"no separator"), Err(ItError::MalformedObject));
}

#[test]
fn empty_blob_has_the_known_name() {
    // the well-known name of the empty blob
    let framed = build_object(b"", ObjType::Blob);
    let hex = compute_hash(&framed);
    assert_eq!(hex, "e69de29bb2d1d6434b8b29ae775ad8c2e48c5391");
}

#[test]
fn hello_blob_has_the_known_name() {
    let framed = build_object(b"hello\n", ObjType::Blob);
    let hex = compute_hash(&framed);
    assert_eq!(hex, "ce013625030ba8dba906f756967f9e9ca394464a");
}

#[test]
fn empty_tree_has_the_known_name() {
    let framed = build_object(b"", ObjType::Tree);
    let hex = compute_hash(&framed);
    assert_eq!(hex, "4b825dc642cb6eb9a060e54bf8d69288fbee4904");
}

#[test]
fn hashing_is_deterministic_across_calls() {
    let mut s1 = ObjectStore::new();
    let mut s2 = ObjectStore::new();
    let h1 = hash_object(&mut s1, b"payload bytes").unwrap();
    let h2 = hash_object(&mut s2, b"payload bytes").unwrap();
    assert_eq!(h1, h2);
    let again = hash_object(&mut s1, b"payload bytes").unwrap();
    assert_eq!(h1, again);
}

#[test]
fn store_is_idempotent() {
    let mut store = ObjectStore::new();
    let h1 = hash_object(&mut store, b"same content").unwrap();
    assert_eq!(store.len(), 1);
    let h2 = hash_object(&mut store, b"same content").unwrap();
    assert_eq!(h1, h2);
    assert_eq!(store.len(), 1);
    let d = hex_to_sha_bytes(&h1);
    let framed = store.load(&d).unwrap().clone();
    assert_eq!(framed, build_object(b"same content", ObjType::Blob));
}

#[test]
fn load_of_absent_digest_is_none() {
    let store = ObjectStore::new();
    assert!(store.load(&[0u8; 20]).is_none());
}

#[test]
fn compression_roundtrips_and_really_compresses() {
    let framed = build_object(b"aaaaaaaaaaaaaaaaaaaaaaaaaaaaaaaaaaaaaaaa", ObjType::Blob);
    let compressed = compress_data(&framed);
    // a zlib stream opens with the 0x78 method byte, so the wrapper did not
    // hand its input back
    assert_eq!(compressed[0], 0x78);
    assert!(compressed.len() < framed.len());
    let back = decompress_data(&compressed).unwrap();
    assert_eq!(back, framed);
    let payload = read_object_payload(&compressed).unwrap();
    assert_eq!(payload, b"aaaaaaaaaaaaaaaaaaaaaaaaaaaaaaaaaaaaaaaa".to_vec());
}

#[test]
fn garbage_is_a_compression_failure() {
    assert_eq!(decompress_data(b"not zlib at all"), Err(ItError::CompressionFailure));
}

#[test]
fn hex_to_sha_bytes_inverts_hex() {
    let hex = "0123456789abcdef0123456789abcdef01234567";
    let bytes = hex_to_sha_bytes(hex);
    assert_eq!(bytes.len(), 20);
    assert_eq!(bytes[0], 0x01);
    assert_eq!(bytes[1], 0x23);
    assert_eq!(bytes[19], 0x67);
    assert_eq!(hex::encode(&bytes), hex);
}

#[test]
fn hex_to_sha_bytes_reads_only_the_first_forty_digits() {
    let long = "0123456789abcdef0123456789abcdef01234567-and-trailing-text";
    let bytes = hex_to_sha_bytes(long);
    assert_eq!(hex::encode(&bytes), "0123456789abcdef0123456789abcdef01234567");
}
