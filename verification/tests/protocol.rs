#![allow(unused_mut)]

use kappa_registry::git::envelope::{git_object_id_sha1, git_object_id_sha256, unwrap, wrap};
use kappa_registry::git::need::{compute_need_set, FetchOptions, FilterSpec};
use kappa_registry::git::object::{HashKind, Kind};
use kappa_registry::git::packgen::generate_pack;
use kappa_registry::git::protocol::write_ref_advertisement;
use kappa_registry::git::refs::{set_symbolic_ref, update_ref};
use kappa_registry::git::request::read_updates;
use kappa_registry::git::walk::{extract_children, kappa_to_hex_oid, oid_to_kappa_string};
use kappa_registry::store::memory::{InMemoryStore, MemoryStoreConfig};
use kappa_registry::types::NamespaceRef;

fn test_store() -> InMemoryStore {
    InMemoryStore::new(MemoryStoreConfig::new("blobs".to_string()))
}

fn ns(name: &str) -> NamespaceRef {
    NamespaceRef::deterministic(name)
}

// -- Test helpers: construct valid Git objects and store them --------------

/// Store a Git blob, return its kappa-label.
fn store_git_blob(store: &mut InMemoryStore, content: &[u8]) -> String {
    let envelope_bytes = wrap(Kind::Blob, content);
    let kappa = git_object_id_sha1(Kind::Blob, content).unwrap();
    store.ingest_verified(&kappa, &envelope_bytes).unwrap();
    kappa
}

/// Store a Git tree with the given entries, return its kappa-label.
/// Each entry is (name, blob_or_tree_kappa). Mode is 100644 for all.
fn store_git_tree(store: &mut InMemoryStore, entries: &[(&str, &str)]) -> String {
    let mut content = Vec::new();
    // Entries must be sorted by name (Git requirement)
    let mut sorted: Vec<_> = entries.to_vec();
    sorted.sort_by(|a, b| a.0.cmp(b.0));
    for (name, kappa) in &sorted {
        // mode name\0{20-byte-hash}
        content.extend_from_slice(b"100644 ");
        content.extend_from_slice(name.as_bytes());
        content.push(0);
        // Extract hex from kappa "sha1:{hex}" and decode to raw bytes
        let hex_str = kappa.split_once(':').map(|(_, h)| h).unwrap_or(kappa);
        let hash_bytes = hex::decode(hex_str).unwrap();
        content.extend_from_slice(&hash_bytes);
    }
    let envelope_bytes = wrap(Kind::Tree, &content);
    let kappa = git_object_id_sha1(Kind::Tree, &content).unwrap();
    store.ingest_verified(&kappa, &envelope_bytes).unwrap();
    kappa
}

/// Store a Git commit, return its kappa-label.
fn store_git_commit(
    store: &mut InMemoryStore,
    tree_kappa: &str,
    parent_kappas: &[&str],
    message: &str,
) -> String {
    let tree_hex = kappa_to_hex_oid(tree_kappa);
    let mut body = format!("tree {}\n", tree_hex);
    for parent in parent_kappas {
        let parent_hex = kappa_to_hex_oid(parent);
        body.push_str(&format!("parent {}\n", parent_hex));
    }
    body.push_str("author Test <test@test.com> 1000000000 +0000\n");
    body.push_str("committer Test <test@test.com> 1000000000 +0000\n");
    body.push('\n');
    body.push_str(message);
    let content = body.as_bytes();
    let envelope_bytes = wrap(Kind::Commit, content);
    let kappa = git_object_id_sha1(Kind::Commit, content).unwrap();
    store.ingest_verified(&kappa, &envelope_bytes).unwrap();
    kappa
}

/// Extract hex OID from a kappa-label for test assertions.
fn hex_oid(kappa: &str) -> String {
    kappa_to_hex_oid(kappa)
}

// -- Advertisements -------------------------------------------------------

#[test]
fn ref_advertisement_empty_repo() {
    let mut store = test_store();
    let repo = ns("test-repo");
    let mut output = Vec::new();
    write_ref_advertisement(&store, &repo, "git-upload-pack", &mut output, HashKind::Sha1).unwrap();

    let text = String::from_utf8_lossy(&output);
    assert!(text.contains("git-upload-pack"));
    assert!(text.contains("capabilities"));
}

#[test]
fn ref_advertisement_with_refs() {
    let mut store = test_store();
    let repo = ns("repo");
    update_ref(&mut store, &repo, "refs/heads/main", "sha1:aabbccddee", None).unwrap();
    set_symbolic_ref(&mut store, &repo, "HEAD", "refs/heads/main").unwrap();

    let mut output = Vec::new();
    write_ref_advertisement(&store, &repo, "git-upload-pack", &mut output, HashKind::Sha1).unwrap();

    let text = String::from_utf8_lossy(&output);
    assert!(text.contains("aabbccddee"));
    assert!(text.contains("HEAD"));
    assert!(text.contains("refs/heads/main"));
}

#[test]
fn kappa_to_hex_oid_strips_prefix() {
    assert_eq!(kappa_to_hex_oid("sha1:abc123"), "abc123");
    assert_eq!(kappa_to_hex_oid("sha256:def456"), "def456");
    assert_eq!(kappa_to_hex_oid("noprefix"), "noprefix");
}

// -- hash prefix parameterization verified ----------------------

#[test]
fn oid_to_kappa_string_sha1() {
    assert_eq!(oid_to_kappa_string(HashKind::Sha1, "abc"), "sha1:abc");
}

#[test]
fn oid_to_kappa_string_sha256() {
    assert_eq!(oid_to_kappa_string(HashKind::Sha256, "def"), "sha256:def");
}

// -- compute_need_set full graph traversal ------------------------

#[test]
fn compute_need_set_walks_full_graph() {
    let mut store = test_store();
    let blob1 = store_git_blob(&mut store, b"file1 content");
    let blob2 = store_git_blob(&mut store, b"file2 content");
    let tree = store_git_tree(&mut store, &[("file1.txt", &blob1), ("file2.txt", &blob2)]);
    let commit = store_git_commit(&mut store, &tree, &[], "initial commit");

    let (need, _shallows) = compute_need_set(
        &store, &ns("repo"), &[hex_oid(&commit)], &[], HashKind::Sha1,
        &FetchOptions::default(),
    );

    assert!(need.contains(&commit), "commit must be in need set");
    assert!(need.contains(&tree), "tree must be in need set");
    assert!(need.contains(&blob1), "blob1 must be in need set");
    assert!(need.contains(&blob2), "blob2 must be in need set");
    assert_eq!(need.len(), 4);
}

// -- compute_need_set common set exclusion ------------------------

#[test]
fn compute_need_set_excludes_common_reachable() {
    let mut store = test_store();
    let shared_blob = store_git_blob(&mut store, b"shared content");
    let tree1 = store_git_tree(&mut store, &[("shared.txt", &shared_blob)]);
    let commit1 = store_git_commit(&mut store, &tree1, &[], "first commit");

    let new_blob = store_git_blob(&mut store, b"new content");
    let tree2 = store_git_tree(&mut store, &[
        ("new.txt", &new_blob),
        ("shared.txt", &shared_blob),
    ]);
    let commit2 = store_git_commit(&mut store, &tree2, &[&commit1], "second commit");

    let common = vec![hex_oid(&commit1)];
    let (need, _shallows) = compute_need_set(
        &store, &ns("repo"), &[hex_oid(&commit2)], &common, HashKind::Sha1,
        &FetchOptions::default(),
    );

    assert!(need.contains(&commit2), "commit2 must be in need set");
    assert!(need.contains(&tree2), "tree2 must be in need set");
    assert!(need.contains(&new_blob), "new_blob must be in need set");
    assert!(!need.contains(&shared_blob), "shared blob must NOT be in need set");
    assert!(!need.contains(&commit1), "commit1 must NOT be in need set");
    assert!(!need.contains(&tree1), "tree1 must NOT be in need set");
}

// -- Shallow clone test ----------------------------------------

#[test]
fn shallow_clone_depth_1_returns_head_only() {
    let mut store = test_store();
    let blob = store_git_blob(&mut store, b"content");
    let tree = store_git_tree(&mut store, &[("file.txt", &blob)]);
    let commit1 = store_git_commit(&mut store, &tree, &[], "first");
    let commit2 = store_git_commit(&mut store, &tree, &[&commit1], "second");
    let commit3 = store_git_commit(&mut store, &tree, &[&commit2], "third");

    let opts = FetchOptions {
        deepen: Some(1),
        ..Default::default()
    };
    let (need, shallows) = compute_need_set(
        &store, &ns("repo"), &[hex_oid(&commit3)], &[],
        HashKind::Sha1, &opts,
    );

    // Depth 1: only commit3, its tree, and blob. commit2 and commit1 excluded.
    assert!(need.contains(&commit3), "HEAD commit must be in need set");
    assert!(need.contains(&tree), "tree must be in need set");
    assert!(need.contains(&blob), "blob must be in need set");
    assert!(!need.contains(&commit2), "parent must NOT be in need set at depth 1");
    assert!(!need.contains(&commit1), "grandparent must NOT be in need set at depth 1");
    // commit3 is the shallow boundary
    assert!(shallows.contains(&hex_oid(&commit3)), "HEAD must be marked shallow");
}

#[test]
fn shallow_clone_depth_2_returns_two_commits() {
    let mut store = test_store();
    let blob = store_git_blob(&mut store, b"content");
    let tree = store_git_tree(&mut store, &[("file.txt", &blob)]);
    let commit1 = store_git_commit(&mut store, &tree, &[], "first");
    let commit2 = store_git_commit(&mut store, &tree, &[&commit1], "second");
    let commit3 = store_git_commit(&mut store, &tree, &[&commit2], "third");

    let opts = FetchOptions {
        deepen: Some(2),
        ..Default::default()
    };
    let (need, shallows) = compute_need_set(
        &store, &ns("repo"), &[hex_oid(&commit3)], &[],
        HashKind::Sha1, &opts,
    );

    assert!(need.contains(&commit3), "HEAD commit in need set");
    assert!(need.contains(&commit2), "parent in need set at depth 2");
    assert!(!need.contains(&commit1), "grandparent NOT in need set at depth 2");
    // commit2 is at the boundary
    assert!(shallows.contains(&hex_oid(&commit2)), "parent must be marked shallow");
}

// -- Partial clone test -----------------------------------------

#[test]
fn partial_clone_blob_none_excludes_blobs() {
    let mut store = test_store();
    let blob1 = store_git_blob(&mut store, b"file1 content");
    let blob2 = store_git_blob(&mut store, b"file2 content");
    let tree = store_git_tree(&mut store, &[("file1.txt", &blob1), ("file2.txt", &blob2)]);
    let commit = store_git_commit(&mut store, &tree, &[], "initial");

    let opts = FetchOptions {
        filter: Some(FilterSpec::BlobNone),
        ..Default::default()
    };
    let (need, _) = compute_need_set(
        &store, &ns("repo"), &[hex_oid(&commit)], &[],
        HashKind::Sha1, &opts,
    );

    assert!(need.contains(&commit), "commit in need set");
    assert!(need.contains(&tree), "tree in need set");
    assert!(!need.contains(&blob1), "blob1 must NOT be in need set with blob:none");
    assert!(!need.contains(&blob2), "blob2 must NOT be in need set with blob:none");
}

// -- into_inner buffer preservation test --------------------------

#[test]
fn pktline_into_inner_preserves_pack_data() {
    let mut stream = Vec::new();
    // Pkt-line: ref update command
    let cmd = format!("{} {} refs/heads/main\0\n", "0".repeat(40), "a".repeat(40));
    let pkt_len = format!("{:04x}", cmd.len() + 4);
    stream.extend_from_slice(pkt_len.as_bytes());
    stream.extend_from_slice(cmd.as_bytes());
    // Flush
    stream.extend_from_slice(b"0000");
    // Pack data after flush
    let pack_marker = b"PACK\x00\x00\x00\x02\x00\x00\x00\x00";
    stream.extend_from_slice(pack_marker);
    // Pad with some trailing bytes to simulate a trailer
    stream.extend_from_slice(&[0xDE, 0xAD, 0xBE, 0xEF]);

    let (updates, next) = read_updates(&stream).unwrap();
    assert_eq!(updates.len(), 1, "should read the command line");

    let remaining = &stream[next..];
    assert!(
        remaining.len() >= 4,
        "remaining bytes must contain pack data, got {} bytes",
        remaining.len()
    );
    // Find PACK magic in the remaining bytes (after flush)
    let pack_pos = remaining.windows(4).position(|w| w == b"PACK");
    assert!(
        pack_pos.is_some(),
        "PACK magic must appear in the remaining bytes"
    );
}

// -- SHA-256 Git object tests -----------------------------------------------

/// Store a Git blob under SHA-256, return its kappa-label.
fn store_git_blob_sha256(store: &mut InMemoryStore, content: &[u8]) -> String {
    let envelope_bytes = wrap(Kind::Blob, content);
    let kappa = git_object_id_sha256(Kind::Blob, content).unwrap();
    store.ingest_verified(&kappa, &envelope_bytes).unwrap();
    kappa
}

/// Store a SHA-256 Git tree with entries using 32-byte hashes.
fn store_git_tree_sha256(store: &mut InMemoryStore, entries: &[(&str, &str)]) -> String {
    let mut content = Vec::new();
    let mut sorted: Vec<_> = entries.to_vec();
    sorted.sort_by(|a, b| a.0.cmp(b.0));
    for (name, kappa) in &sorted {
        content.extend_from_slice(b"100644 ");
        content.extend_from_slice(name.as_bytes());
        content.push(0);
        let hex_str = kappa.split_once(':').map(|(_, h)| h).unwrap_or(kappa);
        let hash_bytes = hex::decode(hex_str).unwrap();
        assert_eq!(hash_bytes.len(), 32, "SHA-256 tree entry must be 32 bytes");
        content.extend_from_slice(&hash_bytes);
    }
    let envelope_bytes = wrap(Kind::Tree, &content);
    let kappa = git_object_id_sha256(Kind::Tree, &content).unwrap();
    store.ingest_verified(&kappa, &envelope_bytes).unwrap();
    kappa
}

/// Store a SHA-256 Git commit.
fn store_git_commit_sha256(
    store: &mut InMemoryStore,
    tree_kappa: &str,
    parent_kappas: &[&str],
    message: &str,
) -> String {
    let tree_hex = kappa_to_hex_oid(tree_kappa);
    let mut body = format!("tree {}\n", tree_hex);
    for parent in parent_kappas {
        let parent_hex = kappa_to_hex_oid(parent);
        body.push_str(&format!("parent {}\n", parent_hex));
    }
    body.push_str("author Test <test@test.com> 1000000000 +0000\n");
    body.push_str("committer Test <test@test.com> 1000000000 +0000\n");
    body.push('\n');
    body.push_str(message);
    let content = body.as_bytes();
    let envelope_bytes = wrap(Kind::Commit, content);
    let kappa = git_object_id_sha256(Kind::Commit, content).unwrap();
    store.ingest_verified(&kappa, &envelope_bytes).unwrap();
    kappa
}

#[test]
fn sha256_blob_roundtrip() {
    let mut store = test_store();
    let content = b"sha256 test blob content";
    let kappa = store_git_blob_sha256(&mut store, content);
    assert!(kappa.starts_with("sha256:"));
    assert_eq!(kappa.len(), 7 + 64); // "sha256:" + 64 hex chars
    let retrieved = store.blob_get(&kappa).unwrap();
    let (kind, inner) = unwrap(&retrieved).unwrap();
    assert_eq!(kind, Kind::Blob);
    assert_eq!(inner, content);
}

#[test]
fn sha256_tree_parsing_32_byte_entries() {
    let mut store = test_store();
    let blob = store_git_blob_sha256(&mut store, b"sha256 file");
    let tree = store_git_tree_sha256(&mut store, &[("file.txt", &blob)]);

    let envelope_bytes = store.blob_get(&tree).unwrap();
    let children = extract_children(&envelope_bytes, 32, "sha256");
    assert_eq!(children.len(), 1);
    assert!(children[0].starts_with("sha256:"));
    assert_eq!(children[0].len(), 7 + 64);
    assert_eq!(children[0], blob);
}

#[test]
fn sha256_ref_advertisement_64_char_oids() {
    let mut store = test_store();
    let blob = store_git_blob_sha256(&mut store, b"content");
    let tree = store_git_tree_sha256(&mut store, &[("f.txt", &blob)]);
    let commit = store_git_commit_sha256(&mut store, &tree, &[], "init");
    let commit_hex = kappa_to_hex_oid(&commit);

    let repo = ns("repo256");
    update_ref(&mut store, &repo, "refs/heads/main", &commit, None).unwrap();
    set_symbolic_ref(&mut store, &repo, "HEAD", "refs/heads/main").unwrap();

    let mut output = Vec::new();
    write_ref_advertisement(&store, &repo, "git-upload-pack", &mut output, HashKind::Sha256).unwrap();

    let text = String::from_utf8_lossy(&output);
    assert!(text.contains(commit_hex.as_str()), "advertisement must contain 64-char OID");
    assert!(text.contains("object-format=sha256"), "capabilities must include object-format=sha256");
}

#[test]
fn sha256_compute_need_set() {
    let mut store = test_store();
    let blob1 = store_git_blob_sha256(&mut store, b"sha256 file1");
    let blob2 = store_git_blob_sha256(&mut store, b"sha256 file2");
    let tree = store_git_tree_sha256(&mut store, &[("a.txt", &blob1), ("b.txt", &blob2)]);
    let commit = store_git_commit_sha256(&mut store, &tree, &[], "sha256 commit");

    let (need, _shallows) = compute_need_set(
        &store, &ns("repo256"), &[hex_oid(&commit)], &[],
        HashKind::Sha256, &FetchOptions::default(),
    );

    assert!(need.iter().all(|k| k.starts_with("sha256:")), "all need set kappas must have sha256 prefix");
    assert!(need.contains(&commit));
    assert!(need.contains(&tree));
    assert!(need.contains(&blob1));
    assert!(need.contains(&blob2));
    assert_eq!(need.len(), 4);
}

#[test]
fn sha256_pack_trailer_32_bytes() {
    let mut store = test_store();
    let blob = store_git_blob_sha256(&mut store, b"pack trailer test");

    let mut pack_buf = Vec::new();
    generate_pack(&store, &[blob], HashKind::Sha256, &mut pack_buf).unwrap();

    // Pack header: 12 bytes. At least one entry. Trailer: 32 bytes.
    assert!(pack_buf.len() > 12 + 32, "pack must have header + entry + trailer");
    // Trailer is last 32 bytes
    let trailer = &pack_buf[pack_buf.len() - 32..];
    assert_ne!(trailer, &[0u8; 32], "trailer must not be all zeros");
}

#[test]
fn repo_object_format_default_sha1() {
    let mut store = test_store();
    // No _config/object_format tag -- defaults to SHA-1
    let repo = ns("newrepo");
    let kind = match store.tag_get(&repo, "_config/object_format") {
        Ok(entry) => match entry.kappa.as_str() {
            "sha256" => HashKind::Sha256,
            _ => HashKind::Sha1,
        },
        Err(_) => HashKind::Sha1,
    };
    assert_eq!(kind, HashKind::Sha1);
}

#[test]
fn repo_object_format_stored_sha256() {
    let mut store = test_store();
    let repo = ns("repo256");
    store.tag_set(&repo, "_config/object_format", "sha256").unwrap();
    let kind = match store.tag_get(&repo, "_config/object_format") {
        Ok(entry) => match entry.kappa.as_str() {
            "sha256" => HashKind::Sha256,
            _ => HashKind::Sha1,
        },
        Err(_) => HashKind::Sha1,
    };
    assert_eq!(kind, HashKind::Sha256);
}
