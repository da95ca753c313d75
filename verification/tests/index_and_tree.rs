use it::index::{decode_index, encode_index, sort_entries, stage, IndexEntry};
use it::store::{hash_object, ObjectStore};
use it::hashing::hex_to_sha_bytes;
use it::objects::object_payload;
use it::tree::{build_and_restore, build_tree, parse_tree_exec, restore_tree, write_tree};
use it::ItError;

fn staged(store: &mut ObjectStore, entries: &mut Vec<IndexEntry>, path: &str, data: &[u8]) {
    let hex = hash_object(store, data).unwrap();
    let sha = hex_to_sha_bytes(&hex);
    stage(entries, path.as_bytes().to_vec(), sha);
}

#[test]
fn staging_twice_keeps_one_entry_with_the_last_content() {
    let mut store = ObjectStore::new();
    let mut entries: Vec<IndexEntry> = Vec::new();
    staged(&mut store, &mut entries, "a.txt", b"first");
    staged(&mut store, &mut entries, "a.txt", b"second");
    assert_eq!(entries.len(), 1);
    assert_eq!(entries[0].path, b"a.txt".to_vec());
    let hex = hash_object(&mut store, b"second").unwrap();
    assert_eq!(entries[0].sha, hex_to_sha_bytes(&hex));
    assert_eq!(entries[0].flags, 5);
}

#[test]
fn flags_are_the_path_length_mod_4096() {
    let mut entries: Vec<IndexEntry> = Vec::new();
    stage(&mut entries, b"ab/cd.txt".to_vec(), vec![0u8; 20]);
    assert_eq!(entries[0].flags, 9);
}

#[test]
fn sorting_orders_by_path() {
    let mut entries: Vec<IndexEntry> = Vec::new();
    stage(&mut entries, b"zz.txt".to_vec(), vec![1u8; 20]);
    stage(&mut entries, b"a/b.txt".to_vec(), vec![2u8; 20]);
    stage(&mut entries, b"m.txt".to_vec(), vec![3u8; 20]);
    sort_entries(&mut entries);
    assert_eq!(entries[0].path, b"a/b.txt".to_vec());
    assert_eq!(entries[1].path, b"m.txt".to_vec());
    assert_eq!(entries[2].path, b"zz.txt".to_vec());
}

#[test]
fn index_encoding_roundtrips() {
    let mut entries: Vec<IndexEntry> = Vec::new();
    stage(&mut entries, b"a/b.txt".to_vec(), vec![7u8; 20]);
    stage(&mut entries, b"c.txt".to_vec(), vec![9u8; 20]);
    let bytes = encode_index(&entries);
    let back = decode_index(&bytes).unwrap();
    assert_eq!(back.len(), 2);
    assert_eq!(back[0].path, b"a/b.txt".to_vec());
    assert_eq!(back[0].sha, vec![7u8; 20]);
    assert_eq!(back[0].flags, entries[0].flags);
    assert_eq!(back[1].path, b"c.txt".to_vec());
}

#[test]
fn truncated_index_is_malformed() {
    let mut entries: Vec<IndexEntry> = Vec::new();
    stage(&mut entries, b"a.txt".to_vec(), vec![7u8; 20]);
    let mut bytes = encode_index(&entries);
    bytes.pop();
    assert!(matches!(decode_index(&bytes), Err(ItError::MalformedObject)));
}

#[test]
fn tree_grouping_nests_by_first_segment() {
    // index [("a/b.txt",H1), ("a/c.txt",H2), ("d.txt",H3)]: the root holds
    // directory "a" and file "d.txt"; "a" holds files "b.txt", "c.txt"
    let mut store = ObjectStore::new();
    let mut entries: Vec<IndexEntry> = Vec::new();
    staged(&mut store, &mut entries, "a/b.txt", b"one");
    staged(&mut store, &mut entries, "a/c.txt", b"two");
    staged(&mut store, &mut entries, "d.txt", b"three");
    sort_entries(&mut entries);
    let root_hex = write_tree(&mut store, &entries).unwrap();
    let root = hex_to_sha_bytes(&root_hex);
    let framed = store.load(&root).unwrap().clone();
    let payload = object_payload(&framed).unwrap();
    let tes = parse_tree_exec(&payload).unwrap();
    assert_eq!(tes.len(), 2);
    assert!(tes[0].0, "first root entry is the directory");
    assert_eq!(tes[0].1, b"a".to_vec());
    assert!(!tes[1].0, "second root entry is the file");
    assert_eq!(tes[1].1, b"d.txt".to_vec());
    let sub_framed = store.load(&tes[0].2).unwrap().clone();
    let sub_payload = object_payload(&sub_framed).unwrap();
    let sub = parse_tree_exec(&sub_payload).unwrap();
    assert_eq!(sub.len(), 2);
    assert!(!sub[0].0);
    assert_eq!(sub[0].1, b"b.txt".to_vec());
    assert!(!sub[1].0);
    assert_eq!(sub[1].1, b"c.txt".to_vec());
}

#[test]
fn build_then_restore_reproduces_the_files() {
    let mut store = ObjectStore::new();
    let mut entries: Vec<IndexEntry> = Vec::new();
    staged(&mut store, &mut entries, "src/lib.rs", b"pub fn answer() {}\n");
    staged(&mut store, &mut entries, "src/nested/deep.txt", b"deep bytes");
    staged(&mut store, &mut entries, "readme.md", b"hello");
    sort_entries(&mut entries);
    let files = build_and_restore(&mut store, &entries).unwrap();
    assert_eq!(files.len(), 3);
    assert_eq!(files[0].0, b"readme.md".to_vec());
    assert_eq!(files[0].1, b"hello".to_vec());
    assert_eq!(files[1].0, b"src/lib.rs".to_vec());
    assert_eq!(files[1].1, b"pub fn answer() {}\n".to_vec());
    assert_eq!(files[2].0, b"src/nested/deep.txt".to_vec());
    assert_eq!(files[2].1, b"deep bytes".to_vec());
}

#[test]
fn restore_walks_the_tree_by_hash() {
    let mut store = ObjectStore::new();
    let mut entries: Vec<IndexEntry> = Vec::new();
    staged(&mut store, &mut entries, "x/y.bin", &[0u8, 1, 2, 255]);
    sort_entries(&mut entries);
    let root_hex = build_tree(&mut store, &entries, b"").unwrap();
    let root = hex_to_sha_bytes(&root_hex);
    let files = restore_tree(&store, &root, b"", 64).unwrap();
    assert_eq!(files, vec![(b"x/y.bin".to_vec(), vec![0u8, 1, 2, 255])]);
}

#[test]
fn empty_index_is_nothing_to_commit() {
    let mut store = ObjectStore::new();
    let entries: Vec<IndexEntry> = Vec::new();
    assert_eq!(write_tree(&mut store, &entries), Err(ItError::EmptyIndex));
}

#[test]
fn file_and_directory_under_one_name_conflict() {
    let mut store = ObjectStore::new();
    let mut entries: Vec<IndexEntry> = Vec::new();
    staged(&mut store, &mut entries, "a", b"file body");
    staged(&mut store, &mut entries, "a/b.txt", b"nested body");
    sort_entries(&mut entries);
    assert_eq!(write_tree(&mut store, &entries), Err(ItError::NameConflict));
}

#[test]
fn restoring_a_missing_tree_is_not_found() {
    let store = ObjectStore::new();
    assert_eq!(restore_tree(&store, &[5u8; 20], b"", 8), Err(ItError::NotFound));
}

#[test]
fn a_garbled_tree_payload_is_malformed() {
    assert_eq!(parse_tree_exec(b"junk with no space-delimited mode"), Err(ItError::MalformedTree));
    assert_eq!(parse_tree_exec(b"100644 name-without-nul"), Err(ItError::MalformedTree));
    assert_eq!(parse_tree_exec(b"100644 short\0abc"), Err(ItError::MalformedTree));
}

#[test]
fn build_tree_with_a_prefix_builds_the_subtree() {
    let mut store = ObjectStore::new();
    let mut entries: Vec<IndexEntry> = Vec::new();
    staged(&mut store, &mut entries, "a/b.txt", b"one");
    staged(&mut store, &mut entries, "a/c.txt", b"two");
    staged(&mut store, &mut entries, "d.txt", b"three");
    sort_entries(&mut entries);
    let sub_hex = build_tree(&mut store, &entries, b"a").unwrap();
    let root_hex = build_tree(&mut store, &entries, b"").unwrap();
    let root = hex_to_sha_bytes(&root_hex);
    let framed = store.load(&root).unwrap().clone();
    let payload = object_payload(&framed).unwrap();
    let tes = parse_tree_exec(&payload).unwrap();
    // the root's "a" child is exactly the subtree built under the prefix
    assert_eq!(tes[0].1, b"a".to_vec());
    assert_eq!(tes[0].2, hex_to_sha_bytes(&sub_hex));
}

#[test]
fn build_tree_with_an_unmatched_prefix_is_the_empty_tree() {
    let mut store = ObjectStore::new();
    let mut entries: Vec<IndexEntry> = Vec::new();
    staged(&mut store, &mut entries, "d.txt", b"three");
    sort_entries(&mut entries);
    let hex = build_tree(&mut store, &entries, b"zzz").unwrap();
    assert_eq!(hex, "4b825dc642cb6eb9a060e54bf8d69288fbee4904");
}

#[test]
fn equal_indexes_build_equal_tree_digests() {
    let mut store1 = ObjectStore::new();
    let mut store2 = ObjectStore::new();
    let mut e1: Vec<IndexEntry> = Vec::new();
    let mut e2: Vec<IndexEntry> = Vec::new();
    staged(&mut store1, &mut e1, "a/b.txt", b"one");
    staged(&mut store1, &mut e1, "c.txt", b"two");
    staged(&mut store2, &mut e2, "a/b.txt", b"one");
    staged(&mut store2, &mut e2, "c.txt", b"two");
    sort_entries(&mut e1);
    sort_entries(&mut e2);
    let h1 = write_tree(&mut store1, &e1).unwrap();
    let h2 = write_tree(&mut store2, &e2).unwrap();
    assert_eq!(h1, h2);
    // and write_tree agrees with the empty-prefix form
    let h3 = build_tree(&mut store1, &e1, b"").unwrap();
    assert_eq!(h1, h3);
}

#[test]
fn entries_outside_the_prefix_do_not_change_the_subtree() {
    let mut store1 = ObjectStore::new();
    let mut store2 = ObjectStore::new();
    let mut full: Vec<IndexEntry> = Vec::new();
    staged(&mut store1, &mut full, "a/b.txt", b"one");
    staged(&mut store1, &mut full, "a/c.txt", b"two");
    staged(&mut store1, &mut full, "d.txt", b"three");
    sort_entries(&mut full);
    let mut only_a: Vec<IndexEntry> = Vec::new();
    staged(&mut store2, &mut only_a, "a/b.txt", b"one");
    staged(&mut store2, &mut only_a, "a/c.txt", b"two");
    sort_entries(&mut only_a);
    let h_full = build_tree(&mut store1, &full, b"a").unwrap();
    let h_only = build_tree(&mut store2, &only_a, b"a").unwrap();
    assert_eq!(h_full, h_only);
}

#[test]
fn a_directory_sorts_before_a_file_that_extends_its_name() {
    // "a.txt" precedes "a/x" in path order, but the tree must list the
    // directory "a" before the file "a.txt": ascending name order
    let mut store = ObjectStore::new();
    let mut entries: Vec<IndexEntry> = Vec::new();
    staged(&mut store, &mut entries, "a.txt", b"file body");
    staged(&mut store, &mut entries, "a/x", b"nested body");
    sort_entries(&mut entries);
    let root_hex = write_tree(&mut store, &entries).unwrap();
    let root = hex_to_sha_bytes(&root_hex);
    let framed = store.load(&root).unwrap().clone();
    let payload = object_payload(&framed).unwrap();
    let tes = parse_tree_exec(&payload).unwrap();
    assert_eq!(tes.len(), 2);
    assert!(tes[0].0, "the directory comes first");
    assert_eq!(tes[0].1, b"a".to_vec());
    assert!(!tes[1].0);
    assert_eq!(tes[1].1, b"a.txt".to_vec());
}
