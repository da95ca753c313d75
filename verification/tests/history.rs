use it::commit::{commit, find_line_exec, get_parent, parse_head, reset, restore_from_hash,
    CommitOutcome, HeadState, RefStore, ResetOutcome};
use it::index::{sort_entries, stage, IndexEntry};
use it::objects::object_payload;
use it::store::{hash_object, ObjectStore};
use it::hashing::hex_to_sha_bytes;
use it::ItError;

fn staged(store: &mut ObjectStore, entries: &mut Vec<IndexEntry>, path: &str, data: &[u8]) {
    let hex = hash_object(store, data).unwrap();
    let sha = hex_to_sha_bytes(&hex);
    stage(entries, path.as_bytes().to_vec(), sha);
}

const BRANCH: &[u8] = b"refs/heads/main";

fn head_attached() -> HeadState {
    HeadState::Attached { ref_path: BRANCH.to_vec() }
}

fn do_commit(
    store: &mut ObjectStore,
    refs: &mut RefStore,
    entries: &Vec<IndexEntry>,
    msg: &[u8],
) -> CommitOutcome {
    commit(
        store,
        refs,
        &head_attached(),
        entries,
        b"A U Thor",
        b"author@example.com",
        1700000000,
        b"+0000",
        msg,
    )
    .unwrap()
}

#[test]
fn parse_head_attached_and_detached() {
    match parse_head(b"ref: refs/heads/main\n") {
        HeadState::Attached { ref_path } => assert_eq!(ref_path, b"refs/heads/main".to_vec()),
        HeadState::Detached { .. } => panic!("expected an attached head"),
    }
    match parse_head(b"0123456789abcdef0123456789abcdef01234567\n") {
        HeadState::Detached { hash } => {
            assert_eq!(hash, b"0123456789abcdef0123456789abcdef01234567".to_vec())
        },
        HeadState::Attached { .. } => panic!("expected a detached head"),
    }
}

#[test]
fn committing_an_empty_index_reports_and_moves_nothing() {
    let mut store = ObjectStore::new();
    let mut refs = RefStore::new();
    refs.write(BRANCH, b"0123456789abcdef0123456789abcdef01234567");
    let entries: Vec<IndexEntry> = Vec::new();
    let out = do_commit(&mut store, &mut refs, &entries, b"nothing staged");
    assert!(matches!(out, CommitOutcome::NothingToCommit));
    assert_eq!(store.len(), 0);
    assert_eq!(
        refs.read(BRANCH),
        Some(b"0123456789abcdef0123456789abcdef01234567".to_vec())
    );
}

#[test]
fn a_commit_records_its_parent_and_advances_the_ref() {
    let mut store = ObjectStore::new();
    let mut refs = RefStore::new();
    let mut entries: Vec<IndexEntry> = Vec::new();
    staged(&mut store, &mut entries, "f.txt", b"v1");
    sort_entries(&mut entries);
    let first = match do_commit(&mut store, &mut refs, &entries, b"first") {
        CommitOutcome::Committed { hash_hex } => hash_hex,
        _ => panic!("expected a commit"),
    };
    assert_eq!(refs.read(BRANCH), Some(first.as_bytes().to_vec()));

    let mut entries2: Vec<IndexEntry> = Vec::new();
    staged(&mut store, &mut entries2, "f.txt", b"v2");
    sort_entries(&mut entries2);
    let second = match do_commit(&mut store, &mut refs, &entries2, b"second") {
        CommitOutcome::Committed { hash_hex } => hash_hex,
        _ => panic!("expected a commit"),
    };
    // the ref now names the new commit
    assert_eq!(refs.read(BRANCH), Some(second.as_bytes().to_vec()));
    // and the new commit's parent line names the pre-commit ref value
    let d = hex_to_sha_bytes(&second);
    let framed = store.load(&d).unwrap().clone();
    let payload = object_payload(&framed).unwrap();
    let parent = find_line_exec(&payload, b"parent ").unwrap();
    assert_eq!(parent, first.as_bytes().to_vec());
    let tree_line = find_line_exec(&payload, b"tree ");
    assert!(tree_line.is_some());
    let author = find_line_exec(&payload, b"author ").unwrap();
    assert_eq!(author, b"A U Thor <author@example.com> 1700000000 +0000".to_vec());
}

#[test]
fn the_first_commit_has_no_parent_line() {
    let mut store = ObjectStore::new();
    let mut refs = RefStore::new();
    let mut entries: Vec<IndexEntry> = Vec::new();
    staged(&mut store, &mut entries, "f.txt", b"v1");
    sort_entries(&mut entries);
    let first = match do_commit(&mut store, &mut refs, &entries, b"root") {
        CommitOutcome::Committed { hash_hex } => hash_hex,
        _ => panic!("expected a commit"),
    };
    let d = hex_to_sha_bytes(&first);
    let framed = store.load(&d).unwrap().clone();
    let payload = object_payload(&framed).unwrap();
    assert_eq!(find_line_exec(&payload, b"parent "), None);
}

#[test]
fn a_detached_head_commits_without_touching_refs() {
    let mut store = ObjectStore::new();
    let mut refs = RefStore::new();
    let mut entries: Vec<IndexEntry> = Vec::new();
    staged(&mut store, &mut entries, "f.txt", b"v1");
    sort_entries(&mut entries);
    let head = HeadState::Detached { hash: b"0123456789abcdef0123456789abcdef01234567".to_vec() };
    let out = commit(
        &mut store,
        &mut refs,
        &head,
        &entries,
        b"A U Thor",
        b"author@example.com",
        1700000000,
        b"+0000",
        b"adrift",
    )
    .unwrap();
    match out {
        CommitOutcome::DetachedHead { hash_hex } => {
            // the commit exists, but no ref was created or moved
            let d = hex_to_sha_bytes(&hash_hex);
            assert!(store.load(&d).is_some());
            assert_eq!(refs.read(BRANCH), None);
        },
        _ => panic!("expected a detached-head commit"),
    }
}

#[test]
fn get_parent_reads_the_ref_or_the_detached_hash() {
    let mut refs = RefStore::new();
    assert_eq!(get_parent(&refs, &head_attached()), None);
    refs.write(BRANCH, b"aaaa");
    assert_eq!(get_parent(&refs, &head_attached()), Some(b"aaaa".to_vec()));
    let detached = HeadState::Detached { hash: b"bbbb".to_vec() };
    assert_eq!(get_parent(&refs, &detached), Some(b"bbbb".to_vec()));
}

#[test]
fn reset_on_a_root_commit_changes_nothing() {
    let mut store = ObjectStore::new();
    let mut refs = RefStore::new();
    let mut entries: Vec<IndexEntry> = Vec::new();
    staged(&mut store, &mut entries, "f.txt", b"v1");
    sort_entries(&mut entries);
    let first = match do_commit(&mut store, &mut refs, &entries, b"root") {
        CommitOutcome::Committed { hash_hex } => hash_hex,
        _ => panic!("expected a commit"),
    };
    let out = reset(&store, &mut refs, BRANCH, 64).unwrap();
    assert!(matches!(out, ResetOutcome::NoParent));
    assert_eq!(refs.read(BRANCH), Some(first.as_bytes().to_vec()));
}

#[test]
fn reset_moves_the_ref_to_the_parent_and_restores_its_tree() {
    let mut store = ObjectStore::new();
    let mut refs = RefStore::new();
    let mut entries: Vec<IndexEntry> = Vec::new();
    staged(&mut store, &mut entries, "f.txt", b"old bytes");
    sort_entries(&mut entries);
    let first = match do_commit(&mut store, &mut refs, &entries, b"first") {
        CommitOutcome::Committed { hash_hex } => hash_hex,
        _ => panic!("expected a commit"),
    };
    let mut entries2: Vec<IndexEntry> = Vec::new();
    staged(&mut store, &mut entries2, "f.txt", b"new bytes");
    sort_entries(&mut entries2);
    do_commit(&mut store, &mut refs, &entries2, b"second");

    let out = reset(&store, &mut refs, BRANCH, 64).unwrap();
    match out {
        ResetOutcome::MovedTo { parent_hex, files } => {
            assert_eq!(parent_hex, first.as_bytes().to_vec());
            assert_eq!(files, vec![(b"f.txt".to_vec(), b"old bytes".to_vec())]);
        },
        ResetOutcome::NoParent => panic!("expected a parent"),
    }
    assert_eq!(refs.read(BRANCH), Some(first.as_bytes().to_vec()));
}

#[test]
fn restore_from_hash_rebuilds_the_commits_file_set() {
    let mut store = ObjectStore::new();
    let mut refs = RefStore::new();
    let mut entries: Vec<IndexEntry> = Vec::new();
    staged(&mut store, &mut entries, "dir/a.txt", b"alpha");
    staged(&mut store, &mut entries, "b.txt", b"beta");
    sort_entries(&mut entries);
    let hash = match do_commit(&mut store, &mut refs, &entries, b"snapshot") {
        CommitOutcome::Committed { hash_hex } => hash_hex,
        _ => panic!("expected a commit"),
    };
    let files = restore_from_hash(&store, hash.as_bytes(), 64).unwrap();
    assert_eq!(files, vec![
        (b"b.txt".to_vec(), b"beta".to_vec()),
        (b"dir/a.txt".to_vec(), b"alpha".to_vec()),
    ]);
}

#[test]
fn resetting_a_missing_branch_is_not_found() {
    let store = ObjectStore::new();
    let mut refs = RefStore::new();
    assert!(matches!(reset(&store, &mut refs, BRANCH, 8), Err(ItError::NotFound)));
}

#[test]
fn a_ref_pointing_at_garbage_is_malformed() {
    let store = ObjectStore::new();
    let mut refs = RefStore::new();
    refs.write(BRANCH, b"not-a-hex-name");
    assert!(matches!(reset(&store, &mut refs, BRANCH, 8), Err(ItError::MalformedObject)));
}

#[test]
fn switching_writes_a_head_that_parses_back() {
    let content = it::commit::head_content_for(b"refs/heads/dev");
    assert_eq!(content, b"ref: refs/heads/dev\n".to_vec());
    match parse_head(&content) {
        HeadState::Attached { ref_path } => assert_eq!(ref_path, b"refs/heads/dev".to_vec()),
        HeadState::Detached { .. } => panic!("expected an attached head"),
    }
}
