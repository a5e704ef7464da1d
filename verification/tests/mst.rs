use kappa_registry::atproto::cid::cid_for_cbor;
use kappa_registry::atproto::mst::{
    count_prefix_len, is_valid_mst_key, leading_zeros, BlockStore, MemoryBlockStore, Mst,
};
use kappa_registry::atproto::node::{decode_node, encode_node, MstEntry};

#[test]
fn leading_zeros_computation() {
    // The function is deterministic
    let a = leading_zeros("app.bsky.feed.post/abc123");
    let b = leading_zeros("app.bsky.feed.post/abc123");
    assert_eq!(a, b);
}

#[test]
fn leading_zeros_range() {
    // Most keys should have 0-4 leading zeros
    let mut counts = [0usize; 20];
    for i in 0..1000 {
        let key = format!("app.bsky.feed.post/{:010}", i);
        let z = leading_zeros(&key);
        if z < counts.len() {
            counts[z] += 1;
        }
    }
    // Layer 0 should have the most keys (~75%)
    assert!(counts[0] > 500, "layer 0 should dominate: {:?}", counts);
}

#[test]
fn valid_mst_keys() {
    assert!(is_valid_mst_key("app.bsky.feed.post/abc123"));
    assert!(is_valid_mst_key("a/b"));
    assert!(is_valid_mst_key("com.example/rkey-with-dashes"));
    assert!(is_valid_mst_key("com.example/rkey_with_underscores"));
    assert!(is_valid_mst_key("com.example/rkey.with.dots"));
    assert!(is_valid_mst_key("com.example/rkey:with:colons"));
    assert!(is_valid_mst_key("com.example/rkey~with~tildes"));
}

#[test]
fn invalid_mst_keys() {
    assert!(!is_valid_mst_key("no-slash"));
    assert!(!is_valid_mst_key("too/many/slashes"));
    assert!(!is_valid_mst_key("/leading-slash"));
    assert!(!is_valid_mst_key("trailing-slash/"));
    assert!(!is_valid_mst_key("has spaces/key"));
    assert!(!is_valid_mst_key("has/spc key"));
    assert!(!is_valid_mst_key("")); // empty
}

#[test]
fn mst_insert_get() {
    let mut mst = Mst::new();
    let cid = cid_for_cbor(b"test value");
    mst.insert("app.bsky.feed.post/abc", cid).unwrap();
    assert_eq!(mst.get("app.bsky.feed.post/abc"), Some(&cid));
    assert_eq!(mst.get("app.bsky.feed.post/xyz"), None);
}

#[test]
fn mst_insert_duplicate_rejected() {
    let mut mst = Mst::new();
    let cid = cid_for_cbor(b"v");
    mst.insert("a/b", cid).unwrap();
    assert!(mst.insert("a/b", cid).is_err());
}

#[test]
fn mst_update() {
    let mut mst = Mst::new();
    let v1 = cid_for_cbor(b"v1");
    let v2 = cid_for_cbor(b"v2");
    mst.insert("a/b", v1).unwrap();
    mst.update("a/b", v2).unwrap();
    assert_eq!(mst.get("a/b"), Some(&v2));
}

#[test]
fn mst_delete() {
    let mut mst = Mst::new();
    let cid = cid_for_cbor(b"v");
    mst.insert("a/b", cid).unwrap();
    let deleted = mst.delete("a/b").unwrap();
    assert_eq!(deleted, cid);
    assert!(mst.get("a/b").is_none());
}

#[test]
fn mst_write_to_store() {
    let mut mst = Mst::new();
    for i in 0..50 {
        let key = format!("app.bsky.feed.post/{:06}", i);
        let cid = cid_for_cbor(format!("value-{}", i).as_bytes());
        mst.insert(&key, cid).unwrap();
    }

    let mut store = MemoryBlockStore::new();
    let root = mst.write_to_store(&mut store);

    // Root CID should be 36 bytes
    assert_eq!(root.len(), 36);
    // Root block should exist in store
    assert!(store.get(&root).is_some());
}

#[test]
fn mst_empty_tree() {
    let mst = Mst::new();
    let mut store = MemoryBlockStore::new();
    let root = mst.write_to_store(&mut store);
    assert!(store.get(&root).is_some());
}

#[test]
fn mst_diff() {
    let mut old = Mst::new();
    let v1 = cid_for_cbor(b"v1");
    let v2 = cid_for_cbor(b"v2");
    let v3 = cid_for_cbor(b"v3");
    old.insert("a/1", v1).unwrap();
    old.insert("a/2", v2).unwrap();

    let mut new = Mst::new();
    let v2_updated = cid_for_cbor(b"v2-updated");
    new.insert("a/2", v2_updated).unwrap();
    new.insert("a/3", v3).unwrap();

    let diff = new.diff(&old);
    assert_eq!(diff.created.len(), 1); // a/3
    assert_eq!(diff.updated.len(), 1); // a/2
    assert_eq!(diff.deleted.len(), 1); // a/1
    assert_eq!(diff.created[0].0, "a/3");
    assert_eq!(diff.updated[0].0, "a/2");
    assert_eq!(diff.deleted[0].0, "a/1");
}

#[test]
fn mst_sorted_iteration() {
    let mut mst = Mst::new();
    let cid = cid_for_cbor(b"v");
    mst.insert("z/z", cid).unwrap();
    mst.insert("a/a", cid).unwrap();
    mst.insert("m/m", cid).unwrap();

    let listed = mst.iter();
    let keys: Vec<&str> = listed.iter().map(|(k, _)| k.as_str()).collect();
    assert_eq!(keys, vec!["a/a", "m/m", "z/z"]);
}

#[test]
fn count_prefix_len_works() {
    assert_eq!(count_prefix_len("abcdef", "abcxyz"), 3);
    assert_eq!(count_prefix_len("abc", "abc"), 3);
    assert_eq!(count_prefix_len("abc", "xyz"), 0);
    assert_eq!(count_prefix_len("", "abc"), 0);
}

#[test]
fn node_encode_decode_roundtrip() {
    let cid1 = cid_for_cbor(b"value1");
    let cid2 = cid_for_cbor(b"value2");
    let left_cid = cid_for_cbor(b"left-subtree");

    let entries = vec![
        MstEntry {
            prefix_len: 0,
            key_suffix: b"app.bsky.feed.post/abc".to_vec(),
            value: cid1,
            tree: None,
        },
        MstEntry {
            prefix_len: 22,
            key_suffix: b"def".to_vec(),
            value: cid2,
            tree: None,
        },
    ];

    let encoded = encode_node(Some(&left_cid), &entries);
    let (decoded_left, decoded_entries) = decode_node(&encoded).unwrap();

    assert!(decoded_left.is_some());
    assert_eq!(decoded_left.unwrap(), left_cid);
    assert_eq!(decoded_entries.len(), 2);
    assert_eq!(decoded_entries[0].prefix_len, 0);
    assert_eq!(decoded_entries[0].key_suffix, b"app.bsky.feed.post/abc");
    assert_eq!(decoded_entries[0].value, cid1);
    assert_eq!(decoded_entries[1].prefix_len, 22);
    assert_eq!(decoded_entries[1].key_suffix, b"def");
    assert_eq!(decoded_entries[1].value, cid2);
}

fn walk(store: &MemoryBlockStore, cid: &[u8], out: &mut Vec<(String, [u8; 36])>) {
    let (left, entries) = decode_node(&store.get(cid).unwrap()).unwrap();
    if let Some(left) = left {
        walk(store, &left, out);
    }
    let mut key: Vec<u8> = Vec::new();
    for e in entries {
        key.truncate(e.prefix_len);
        key.extend_from_slice(&e.key_suffix);
        out.push((String::from_utf8(key.clone()).unwrap(), e.value));
        if let Some(tree) = e.tree {
            walk(store, &tree, out);
        }
    }
}

#[test]
fn walking_the_blocks_gives_the_pairs_back() {
    let mut mst = Mst::new();
    let mut want = Vec::new();
    for i in 0..200 {
        let key = format!("app.bsky.feed.post/{:05}", i);
        let value = cid_for_cbor(key.as_bytes());
        mst.insert(&key, value).unwrap();
        want.push((key, value));
    }
    let mut store = MemoryBlockStore::new();
    let root = mst.write_to_store(&mut store);
    let mut got = Vec::new();
    walk(&store, &root, &mut got);
    assert_eq!(got, want);
}
