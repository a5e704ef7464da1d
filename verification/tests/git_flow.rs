use std::io::Write;

use kappa_registry::git::delta::compute_delta;
use kappa_registry::git::envelope::{git_object_id_sha1, wrap};
use kappa_registry::git::fetch::{handle_upload_pack, handle_v2_upload_pack};
use kappa_registry::git::hooks::{
    delete_hook, hook_stdin, hook_verdict, load_hook, post_receive_script, pre_receive_script,
    store_hook, HookError, HookExit, RefUpdate,
};
use kappa_registry::git::ingest::{ingest_pack, ingest_streaming, resolve_delta, IngestError};
use kappa_registry::git::object::{HashKind, Kind};
use kappa_registry::git::packgen::{generate_pack, generate_pack_sorted};
use kappa_registry::git::protocol::write_v2_capability_advertisement;
use kappa_registry::git::receive::{handle_receive_pack, hook_rejection};
use kappa_registry::git::refs::{resolve_ref, set_symbolic_ref, update_ref};
use kappa_registry::git::request::ProtocolError;
use kappa_registry::git::walk::{kappa_to_hex_oid, peel_tag, walk_reachable};
use kappa_registry::store::memory::{InMemoryStore, MemoryStoreConfig};
use kappa_registry::table::Table;
use kappa_registry::types::NamespaceRef;

fn test_store() -> InMemoryStore {
    InMemoryStore::new(MemoryStoreConfig::new("blobs".to_string()))
}

fn repo() -> NamespaceRef {
    NamespaceRef::deterministic("repo")
}

fn put(store: &mut InMemoryStore, kind: Kind, content: &[u8]) -> String {
    let kappa = git_object_id_sha1(kind, content).unwrap();
    store.ingest_verified(&kappa, &wrap(kind, content)).unwrap();
    kappa
}

fn commit(store: &mut InMemoryStore, files: &[(&str, &[u8])], parent: Option<&str>) -> String {
    let mut tree = Vec::new();
    for (name, content) in files {
        let blob = put(store, Kind::Blob, content);
        tree.extend_from_slice(format!("100644 {}\0", name).as_bytes());
        tree.extend_from_slice(&hex::decode(kappa_to_hex_oid(&blob)).unwrap());
    }
    let tree = put(store, Kind::Tree, &tree);
    let mut body = format!("tree {}\n", kappa_to_hex_oid(&tree));
    if let Some(p) = parent {
        body.push_str(&format!("parent {}\n", kappa_to_hex_oid(p)));
    }
    body.push_str("author A <a@b> 1 +0000\ncommitter A <a@b> 1 +0000\n\nm");
    put(store, Kind::Commit, body.as_bytes())
}

fn pkt(line: &str) -> Vec<u8> {
    let mut out = format!("{:04x}", line.len() + 4).into_bytes();
    out.extend_from_slice(line.as_bytes());
    out
}

fn text(data: &[u8]) -> String {
    String::from_utf8_lossy(data).to_string()
}

fn deflated(data: &[u8]) -> Vec<u8> {
    let mut e = flate2::write::ZlibEncoder::new(Vec::new(), flate2::Compression::default());
    e.write_all(data).unwrap();
    e.finish().unwrap()
}

fn push(old: &str, new: &str, name: &str, pack: &[u8]) -> Vec<u8> {
    let mut out = pkt(&format!("{} {} {}\0report-status\n", old, new, name));
    out.extend_from_slice(b"0000");
    out.extend_from_slice(pack);
    out
}

#[test]
fn a_pack_is_read_back_as_it_was_written() {
    let mut store = test_store();
    let text_a: Vec<u8> = (0..4000u32).flat_map(|i| (i * 7919).to_le_bytes()).collect();
    let mut text_b = text_a.clone();
    text_b[9000] ^= 0xff;
    let c = commit(&mut store, &[("a", &text_a), ("b", &text_b)], None);
    let all = walk_reachable(&store, &[kappa_to_hex_oid(&c)], HashKind::Sha1);
    assert_eq!(all.len(), 4);
    let hints: Table<String, String> = Table::new();
    let mut pack = Vec::new();
    let mut seen = vec![(7, 7)];
    let made =
        generate_pack_sorted(&store, &all, HashKind::Sha1, &hints, &mut seen, &mut pack).unwrap();
    assert_eq!(made.objects_written, 4);
    assert_eq!(seen, vec![(7, 7), (1, 4), (2, 4), (3, 4), (4, 4)]);
    // One of the two near-identical blobs went in as a delta.
    assert!(pack.len() < text_a.len() + text_b.len());

    let mut other = test_store();
    let r = ingest_pack(&mut other, &repo(), &pack, HashKind::Sha1, 1).unwrap();
    assert_eq!(r.objects_ingested + r.objects_deduplicated, 4);
    for k in &all {
        assert_eq!(other.blob_get(k).unwrap(), store.blob_get(k).unwrap());
    }
    let again = ingest_pack(&mut other, &repo(), &pack, HashKind::Sha1, 1).unwrap();
    assert_eq!(again.objects_deduplicated, 4);
    pack[20] ^= 0xff;
    assert!(ingest_pack(&mut test_store(), &repo(), &pack, HashKind::Sha1, 1).is_err());
}

#[test]
fn a_pack_of_objects_in_full_is_read_back() {
    let mut store = test_store();
    let texts: Vec<Vec<u8>> = vec![vec![], b"one".to_vec(), vec![9u8; 40_000]];
    let mut all = Vec::new();
    for text in &texts {
        all.push(put(&mut store, Kind::Blob, text));
    }
    let mut pack = Vec::new();
    let made = generate_pack(&store, &all, HashKind::Sha1, &mut pack).unwrap();
    assert_eq!(made.objects_written, 3);
    assert_eq!(made.bytes_written, pack.len() as u64);

    let mut other = test_store();
    let r = ingest_pack(&mut other, &repo(), &pack, HashKind::Sha1, 1).unwrap();
    assert_eq!((r.objects_ingested, r.objects_deduplicated), (3, 0));
    for (k, text) in all.iter().zip(&texts) {
        assert_eq!(other.blob_get(k).unwrap(), wrap(Kind::Blob, text));
    }

    let mut empty = Vec::new();
    generate_pack(&store, &[], HashKind::Sha1, &mut empty).unwrap();
    let r = ingest_pack(&mut other, &repo(), &empty, HashKind::Sha1, 1).unwrap();
    assert_eq!((r.objects_ingested, r.objects_deduplicated), (0, 0));
}

#[test]
fn large_objects_are_streamed_and_deltas_resolved() {
    let mut store = test_store();
    let big = vec![7u8; 300_000];
    let kappa = git_object_id_sha1(Kind::Blob, &big).unwrap();
    let packed = deflated(&big);
    assert_eq!(
        ingest_streaming(&mut store, &repo(), Kind::Blob, &packed, 300_000, HashKind::Sha1, 1).unwrap(),
        kappa
    );
    assert_eq!(store.blob_get(&kappa).unwrap(), wrap(Kind::Blob, &big));
    assert!(matches!(
        ingest_streaming(&mut store, &repo(), Kind::Blob, &packed, 5, HashKind::Sha1, 1),
        Err(IngestError::Pack(_))
    ));
    let base: Vec<u8> = (0..2000u32).flat_map(|i| i.to_le_bytes()).collect();
    let mut target = base.clone();
    target.extend_from_slice(b"the end");
    let from = put(&mut store, Kind::Blob, &base);
    let delta = compute_delta(&base, &target).unwrap();
    let made = resolve_delta(&mut store, &deflated(&delta), delta.len() as u64, &from, HashKind::Sha1);
    assert_eq!(made.unwrap(), git_object_id_sha1(Kind::Blob, &target).unwrap());
    assert!(matches!(
        resolve_delta(&mut store, &deflated(&delta), delta.len() as u64, "sha1:none", HashKind::Sha1),
        Err(IngestError::Delta(_))
    ));
}

#[test]
fn a_push_moves_its_refs_together() {
    let mut source = test_store();
    let c = commit(&mut source, &[("f", b"1")], None);
    let all = walk_reachable(&source, &[kappa_to_hex_oid(&c)], HashKind::Sha1);
    let mut pack = Vec::new();
    generate_pack(&source, &all, HashKind::Sha1, &mut pack).unwrap();

    let mut store = test_store();
    let zero = "0".repeat(40);
    let oid = kappa_to_hex_oid(&c);
    let mut reply = Vec::new();
    let request = push(&zero, &oid, "refs/heads/main", &pack);
    handle_receive_pack(&mut store, &repo(), &request, None, &mut reply, HashKind::Sha1, 1).unwrap();
    assert!(text(&reply).contains("unpack ok"));
    assert!(text(&reply).contains("ok refs/heads/main"));
    assert_eq!(resolve_ref(&store, &repo(), "refs/heads/main").unwrap(), Some(c.clone()));

    // A push that would make the ref anew is refused, and the ref stays; so
    // does the one that it would make beside it.
    let mut reply = Vec::new();
    let mut stale = pkt(&format!("{} {} refs/heads/new\0report-status\n", zero, oid));
    stale.extend_from_slice(&push(&zero, &oid, "refs/heads/main", &pack));
    handle_receive_pack(&mut store, &repo(), &stale, None, &mut reply, HashKind::Sha1, 1).unwrap();
    assert!(text(&reply).contains("ng refs/heads/main"));
    assert!(text(&reply).contains("ng refs/heads/new"));
    assert_eq!(resolve_ref(&store, &repo(), "refs/heads/new").unwrap(), None);
    assert_eq!(resolve_ref(&store, &repo(), "refs/heads/main").unwrap(), Some(c.clone()));

    // A hook turns a push down.
    let mut reply = Vec::new();
    let second = push(&zero, &oid, "refs/heads/dev", &pack);
    let verdict = hook_verdict(
        HookExit::Ended { success: false, status: "exit status: 1".into(), stderr: "no".into() },
        30,
    );
    let why = hook_rejection(verdict).unwrap();
    handle_receive_pack(&mut store, &repo(), &second, Some(&why), &mut reply, HashKind::Sha1, 1).unwrap();
    assert!(text(&reply).contains("ng refs/heads/dev"));
    assert_eq!(resolve_ref(&store, &repo(), "refs/heads/dev").unwrap(), None);
}

#[test]
fn a_clone_is_answered_in_both_versions() {
    let mut store = test_store();
    let c1 = commit(&mut store, &[("f", b"1")], None);
    let c2 = commit(&mut store, &[("f", b"2")], Some(&c1));
    update_ref(&mut store, &repo(), "refs/heads/main", &c2, None).unwrap();
    set_symbolic_ref(&mut store, &repo(), "HEAD", "refs/heads/main").unwrap();
    let oid = kappa_to_hex_oid(&c2);

    let mut request = pkt(&format!("want {} ofs-delta\n", oid));
    request.extend_from_slice(b"0000");
    request.extend_from_slice(&pkt("done\n"));
    let mut reply = Vec::new();
    handle_upload_pack(&store, &repo(), &request, &mut reply, HashKind::Sha1).unwrap();
    assert!(text(&reply).contains("NAK"));
    assert!(reply.windows(4).any(|w| w == b"PACK"));

    let mut listing = pkt("command=ls-refs\n");
    listing.extend_from_slice(&pkt("symrefs\n"));
    listing.extend_from_slice(b"0000");
    let mut reply = Vec::new();
    handle_v2_upload_pack(&store, &repo(), &listing, &mut reply, HashKind::Sha1).unwrap();
    assert!(text(&reply).contains(&format!("{} refs/heads/main", oid)));
    assert!(text(&reply).contains("symref-target:refs/heads/main"));

    let mut fetch = pkt("command=fetch\n");
    fetch.extend_from_slice(b"0001");
    fetch.extend_from_slice(&pkt(&format!("want {}\n", oid)));
    fetch.extend_from_slice(&pkt("done\n"));
    fetch.extend_from_slice(b"0000");
    let mut reply = Vec::new();
    handle_v2_upload_pack(&store, &repo(), &fetch, &mut reply, HashKind::Sha1).unwrap();
    assert!(text(&reply).contains("packfile"));
    assert!(reply.windows(4).any(|w| w == b"PACK"));

    let mut reply = Vec::new();
    assert!(matches!(
        handle_v2_upload_pack(&store, &repo(), &pkt("command=dance\n"), &mut reply, HashKind::Sha1),
        Err(ProtocolError::Protocol(_))
    ));
    let mut reply = Vec::new();
    write_v2_capability_advertisement(&mut reply, HashKind::Sha256).unwrap();
    assert!(text(&reply).contains("object-format=sha256"));
}

#[test]
fn annotated_tags_are_peeled() {
    let mut store = test_store();
    let c = commit(&mut store, &[("f", b"1")], None);
    let body = format!(
        "object {}\ntype commit\ntag v1\ntagger A <a@b> 1 +0000\n\nm",
        kappa_to_hex_oid(&c)
    );
    let tag = put(&mut store, Kind::Tag, body.as_bytes());
    assert_eq!(peel_tag(&store, "refs/tags/v1", &tag), Some(kappa_to_hex_oid(&c)));
    assert_eq!(peel_tag(&store, "refs/heads/main", &c), None);
}

#[test]
fn hooks_are_kept_fed_and_judged() {
    let mut store = test_store();
    assert!(pre_receive_script(&store, &repo()).unwrap().is_none());
    store_hook(&mut store, &repo(), "pre-receive", b"#!/bin/sh\n").unwrap();
    assert_eq!(load_hook(&store, &repo(), "pre-receive").unwrap(), b"#!/bin/sh\n");
    assert_eq!(pre_receive_script(&store, &repo()).unwrap().unwrap(), b"#!/bin/sh\n");
    assert!(post_receive_script(&store, &repo()).is_none());
    delete_hook(&mut store, &repo(), "pre-receive").unwrap();
    assert!(matches!(
        load_hook(&store, &repo(), "pre-receive"),
        Err(HookError::NotFound(_))
    ));
    let updates = vec![RefUpdate {
        old_oid: "a".into(),
        new_oid: "b".into(),
        ref_name: "refs/heads/m".into(),
    }];
    assert_eq!(hook_stdin(&updates), b"a b refs/heads/m\n");
    let ended = |success: bool, stderr: &str| HookExit::Ended {
        success,
        status: "exit status: 1".into(),
        stderr: stderr.into(),
    };
    assert!(hook_verdict(ended(true, ""), 30).is_ok());
    assert!(matches!(hook_verdict(ended(false, "no"), 30), Err(HookError::Rejected(_))));
    assert!(matches!(hook_verdict(HookExit::TimedOut, 30), Err(HookError::Timeout(30))));
    assert!(matches!(
        hook_verdict(HookExit::Failed("x".into()), 30),
        Err(HookError::ExecutionFailed(_))
    ));
    assert_eq!(
        hook_rejection(hook_verdict(HookExit::TimedOut, 30)).unwrap(),
        "hook timed out after 30s"
    );
}

/// What the packets of an answer carry on a band.
fn on_band(reply: &[u8], band: u8) -> Vec<u8> {
    let mut out = Vec::new();
    let mut at = 0;
    while at < reply.len() {
        let n = usize::from_str_radix(std::str::from_utf8(&reply[at..at + 4]).unwrap(), 16).unwrap();
        if n > 4 {
            assert!(n <= 65520);
            if reply[at + 4] == band {
                out.extend_from_slice(&reply[at + 5..at + n]);
            }
            at += n;
        } else {
            at += 4;
        }
    }
    out
}

#[test]
fn a_large_clone_is_read_from_the_first_band() {
    let mut store = test_store();
    let mut x: u32 = 1;
    let noise: Vec<u8> = (0..200_000)
        .map(|_| {
            x = x.wrapping_mul(1664525).wrapping_add(1013904223);
            (x >> 24) as u8
        })
        .collect();
    let c = commit(&mut store, &[("f", &noise)], None);
    let oid = kappa_to_hex_oid(&c);
    let mut old = pkt(&format!("want {} ofs-delta\n", oid));
    old.extend_from_slice(b"0000");
    old.extend_from_slice(&pkt("done\n"));
    let mut new = pkt("command=fetch\n");
    new.extend_from_slice(b"0001");
    new.extend_from_slice(&pkt(&format!("want {}\n", oid)));
    new.extend_from_slice(&pkt("done\n"));
    new.extend_from_slice(b"0000");
    let (mut first, mut second) = (Vec::new(), Vec::new());
    handle_upload_pack(&store, &repo(), &old, &mut first, HashKind::Sha1).unwrap();
    handle_v2_upload_pack(&store, &repo(), &new, &mut second, HashKind::Sha1).unwrap();
    for reply in [first, second] {
        let pack = on_band(&reply, 1);
        assert!(pack.len() > 3 * 65515);
        let mut other = test_store();
        let r = ingest_pack(&mut other, &repo(), &pack, HashKind::Sha1, 1).unwrap();
        assert_eq!(r.objects_ingested, 3);
        for k in walk_reachable(&store, &[oid.clone()], HashKind::Sha1) {
            assert_eq!(other.blob_get(&k).unwrap(), store.blob_get(&k).unwrap());
        }
    }
}
