use kappa_registry::distribution::bundle::{gather, ingest_bundle, BundleEntry, BundleError};
use kappa_registry::distribution::compose::{
    canonical_e6, canonical_e7, canonical_f4, canonical_g2, compose, witness, witness_blob,
    ComposeError, FormFault,
};
use kappa_registry::distribution::crdt::CrdtManager;
use kappa_registry::distribution::edge::{
    delete_edge, edge_diff, put_edge, query_edges, EdgeRefusal,
};
use kappa_registry::distribution::events::{
    stream_log, stream_tags, ClientCommand, EventConnection, EventStep, LoggedEvent,
};
use kappa_registry::distribution::gc::{cascade, gc_status, pin, run_sweep, unpin};
use kappa_registry::distribution::query::{percent_decode, query_param, query_value};
use kappa_registry::distribution::reconcile::{
    answer_fingerprint, handle_fingerprint, handle_items, items_in_range, FingerprintReply,
};
use kappa_registry::distribution::roots::{namespace_root, root_message, tag_position};
use kappa_registry::distribution::scoped::{
    delete_filter, get_schema, list_filters, list_schemas, register_filter, register_schema,
};
use kappa_registry::kappa::{kappa_from_bytes, KappaLabel};
use kappa_registry::store::compression::blob_put_computed;
use kappa_registry::store::memory::{InMemoryStore, MemoryStoreConfig};
use kappa_registry::types::{EdgeRelation, NamespaceRef, StoreError};

fn test_store() -> InMemoryStore {
    InMemoryStore::new(MemoryStoreConfig::new("blobs".to_string()))
}

fn ns() -> NamespaceRef {
    NamespaceRef::deterministic("ns")
}

fn put(store: &mut InMemoryStore, content: &[u8]) -> String {
    blob_put_computed(store, content).unwrap()
}

fn link(store: &mut InMemoryStore, from: &str, to: &str) -> String {
    put_edge(store, &ns(), from, "refers-to", to, "me", None).unwrap()
}

// -- Collection ---------------------------------------------------------------

#[test]
fn sweep_keeps_what_tags_pins_and_edges_lead_to() {
    let mut store = test_store();
    let tagged = put(&mut store, b"tagged");
    let linked = put(&mut store, b"linked");
    let pinned = put(&mut store, b"pinned");
    let loose = put(&mut store, b"loose");
    store.tag_set(&ns(), "t", &tagged).unwrap();
    link(&mut store, &tagged, &linked);
    let pk = pin(&mut store, &ns(), &pinned, 60, "").unwrap();
    let before = store.blob_list().unwrap().len();

    let r = run_sweep(&mut store, &ns(), "sweep-1").unwrap();
    assert_eq!(r.objects_scanned, before);
    assert_eq!(r.objects_reachable, 4);
    // The loose blob and the blob of the edge itself.
    assert_eq!(r.objects_evicted, 2);
    for k in [&tagged, &linked, &pinned, &pk] {
        assert!(store.blob_exists(k).unwrap());
    }
    assert!(!store.blob_exists(&loose).unwrap());

    let status = gc_status(&store, &ns());
    assert_eq!(status.pin_count, 1);
    assert!(status.pending_finalizers.is_empty());
    let record = String::from_utf8(status.last_sweep.unwrap()).unwrap();
    assert_eq!(
        record,
        "{\"last_sweep\":\"sweep-1\",\"objects_evicted\":2,\"objects_reachable\":4,\"objects_scanned\":6}"
    );
}

#[test]
fn a_controller_holds_its_pin_until_it_lets_go() {
    let mut store = test_store();
    let k = put(&mut store, b"held");
    let pk = pin(&mut store, &ns(), &k, 0, "ctl").unwrap();
    let record = String::from_utf8(store.blob_get(&pk).unwrap()).unwrap();
    assert_eq!(record, format!("{{\"controller\":\"ctl\",\"kappa\":\"{}\",\"ttl\":0}}", k));
    assert_eq!(
        gc_status(&store, &ns()).pending_finalizers,
        vec![(k.clone(), "ctl".to_string())]
    );
    match unpin(&mut store, &ns(), &pk, false) {
        Err(StoreError::Conflict(m)) => assert_eq!(m, "ctl"),
        other => panic!("not held: {:?}", other),
    }
    unpin(&mut store, &ns(), &pk, true).unwrap();
    assert_eq!(gc_status(&store, &ns()).pin_count, 1);
    unpin(&mut store, &ns(), &pk, false).unwrap();
    assert_eq!(gc_status(&store, &ns()).pin_count, 0);
    assert!(matches!(unpin(&mut store, &ns(), &pk, false), Err(StoreError::NotFound(_))));
}

#[test]
fn cascade_deletes_what_the_roots_lead_to() {
    let mut store = test_store();
    let a = put(&mut store, b"a");
    let b = put(&mut store, b"b");
    let c = put(&mut store, b"c");
    link(&mut store, &a, &b);
    link(&mut store, &b, &a);
    let r = cascade(&mut store, &ns(), &[a.clone()]).unwrap();
    assert_eq!((r.deleted, r.reachable), (2, 2));
    assert!(!store.blob_exists(&a).unwrap());
    assert!(!store.blob_exists(&b).unwrap());
    assert!(store.blob_exists(&c).unwrap());
    assert_eq!(cascade(&mut store, &ns(), &[]).unwrap_err(), "empty roots list");
}

// -- Composition --------------------------------------------------------------

#[test]
fn canonical_forms() {
    assert_eq!(canonical_g2("sha256:b", "sha256:a"), b"sha256:asha256:b".to_vec());
    assert_eq!(canonical_g2("sha256:a", "sha256:b"), b"sha256:asha256:b".to_vec());
    let label = KappaLabel::sha256(b"abc");
    let other = label.complement();
    assert_eq!(canonical_f4(label.as_str()).unwrap(), other.as_str().as_bytes());
    assert_eq!(canonical_f4(other.as_str()).unwrap(), other.as_str().as_bytes());
    assert!(canonical_f4("nolabel").is_err());
    assert_eq!(canonical_e6("x:08").unwrap(), b"\x06x:08".to_vec());
    assert_eq!(canonical_e6("x:09").unwrap(), b"\x05x:09".to_vec());
    assert_eq!(canonical_e6("x:zz").unwrap_err(), FormFault::BadHex);
    assert_eq!(canonical_e6("x").unwrap_err(), FormFault::EmptyDigest);
    assert_eq!(canonical_e7("x:04030201").unwrap(), b"x:01020304".to_vec());
    assert_eq!(canonical_e7("x:01040302").unwrap(), b"x:01020304".to_vec());
    assert_eq!(canonical_e7("x").unwrap_err(), FormFault::NoAxis);
    assert_eq!(canonical_e7("x:010203").unwrap_err(), FormFault::NotQuarters);
    assert_eq!(FormFault::NotQuarters.message(), "digest not divisible by 4");
    assert_eq!(witness_blob(71, 32, b"t"), vec![71, 0, 32, 0, 1, 0, b't']);
}

#[test]
fn composing_stores_links_and_witnesses() {
    let mut store = test_store();
    let a = put(&mut store, b"a");
    let b = put(&mut store, b"b");
    let c = compose(&mut store, &ns(), "g2", &[a.clone(), b.clone()], "me").unwrap();
    let form = canonical_g2(&a, &b);
    assert_eq!(c.composed, kappa_from_bytes(&form));
    assert_eq!(store.blob_get(&c.composed).unwrap(), form);
    assert_eq!(store.blob_get_meta(&c.composed, "object-type").unwrap(), b"composition");
    assert_eq!(
        store.meta_query(&ns(), "object-type", "witness").unwrap(),
        vec![c.witness.clone()]
    );
    let edges = query_edges(&store, &ns(), &c.composed, "outbound", Some("composed-of"), None);
    assert_eq!(edges.len(), 2);
    assert_eq!(edges[0].target, a);
    assert_eq!(edges[0].metadata.as_ref().unwrap(), b"{\"operation\":\"g2\"}");
    let (w, content) = witness(&store, &ns(), &c.composed).unwrap();
    assert_eq!(w, c.witness);
    assert_eq!(content, witness_blob(71, 32, &form));
    let again = compose(&mut store, &ns(), "g2", &[b, a], "me").unwrap();
    assert_eq!(again.composed, c.composed);
}

#[test]
fn compositions_are_refused_for_their_faults() {
    let mut store = test_store();
    let a = put(&mut store, b"a");
    let k = KappaLabel::blake3(b"a").as_str().to_string();
    let one = |op: &str, list: &[String], store: &mut InMemoryStore| {
        compose(store, &ns(), op, list, "me")
    };
    assert!(matches!(one("g2", &[], &mut store), Err(ComposeError::NoOperands)));
    assert!(matches!(
        one("g2", &[a.clone(), k], &mut store),
        Err(ComposeError::AxisMismatch)
    ));
    assert!(matches!(one("g2", &[a.clone()], &mut store), Err(ComposeError::WrongCount(2))));
    assert!(matches!(
        one("e8", &[a.clone(), a.clone()], &mut store),
        Err(ComposeError::WrongCount(1))
    ));
    assert!(matches!(one("x9", &[a], &mut store), Err(ComposeError::UnknownOperation)));
    assert!(matches!(
        one("f4", &["sha256:zz".to_string()], &mut store),
        Err(ComposeError::Label(_))
    ));
    assert!(matches!(
        one("e6", &["sha256:zz".to_string()], &mut store),
        Err(ComposeError::Form(FormFault::BadHex))
    ));
    assert!(matches!(
        one("e8", &["crc:00".to_string()], &mut store),
        Err(ComposeError::Label(_))
    ));
    assert!(witness(&store, &ns(), "sha256:none").is_err());
}

// -- Edges --------------------------------------------------------------------

#[test]
fn edges_are_put_asked_for_and_deleted() {
    let mut store = test_store();
    let a = put(&mut store, b"a");
    assert!(matches!(
        put_edge(&mut store, &ns(), &a, "likes", "x", "me", None),
        Err(EdgeRefusal::UnknownRelation(_))
    ));
    assert!(matches!(
        put_edge(&mut store, &ns(), "gone", "owns", &a, "me", None),
        Err(EdgeRefusal::SourceAbsent)
    ));
    put_edge(&mut store, &ns(), "anchor", "delegation", &a, "me", None).unwrap();
    let ek = link(&mut store, &a, "sha256:t");
    assert_eq!(store.blob_get_meta(&ek, "object-type").unwrap(), b"edge");
    link(&mut store, &a, &a);
    assert_eq!(query_edges(&store, &ns(), &a, "outbound", None, None).len(), 2);
    assert_eq!(query_edges(&store, &ns(), &a, "inbound", None, None).len(), 2);
    // The loop is found both ways and listed once.
    assert_eq!(query_edges(&store, &ns(), &a, "both", None, None).len(), 3);
    assert_eq!(query_edges(&store, &ns(), &a, "both", None, Some(1)).len(), 1);
    let only = query_edges(&store, &ns(), &a, "both", Some("delegation"), None);
    assert_eq!(only.len(), 1);
    assert_eq!(only[0].relation, EdgeRelation::Delegation);
    assert_eq!(query_edges(&store, &ns(), &a, "both", Some("nonsense"), None).len(), 3);
    assert!(delete_edge(&mut store, &ns(), &ek));
    assert_eq!(query_edges(&store, &ns(), &a, "outbound", None, None).len(), 1);
    assert!(!delete_edge(&mut store, &ns(), &ek));
    assert!(!delete_edge(&mut store, &ns(), &a));
}

#[test]
fn diff_is_what_is_wanted_and_not_had() {
    let mut store = test_store();
    let a = put(&mut store, b"a");
    let b = put(&mut store, b"b");
    link(&mut store, &a, "t1");
    link(&mut store, &b, "t1");
    link(&mut store, &b, "t2");
    let mut want = vec![b.clone(), "t2".to_string()];
    want.sort();
    assert_eq!(edge_diff(&store, &ns(), &[a.clone()], &[b.clone()]), want);
    assert!(edge_diff(&store, &ns(), &[b.clone()], &[b]).is_empty());
    let mut all = vec![a.clone(), "t1".to_string()];
    all.sort();
    assert_eq!(edge_diff(&store, &ns(), &[], &[a]), all);
}

// -- Reconciliation -----------------------------------------------------------

#[test]
fn fingerprints_are_answered() {
    let mut store = test_store();
    for (name, k) in [("a", "k1"), ("b", "k2"), ("_x", "k3"), ("z", "k4")] {
        store.tag_set(&ns(), name, k).unwrap();
    }
    assert_eq!(items_in_range(&store, &ns(), "a", "z"), vec!["k1", "k2"]);
    let same = hex::encode(blake3::hash(b"k1,k2").as_bytes());
    assert!(matches!(
        handle_fingerprint(&store, &ns(), "a", "z", &same),
        Ok(FingerprintReply::Done)
    ));
    match handle_fingerprint(&store, &ns(), "a", "z", "00") {
        Ok(FingerprintReply::Items(items)) => assert_eq!(items, vec!["k1", "k2"]),
        other => panic!("not items: {:?}", other),
    }
    assert!(handle_fingerprint(&store, &ns(), "a", "z", "zz").is_err());
    assert_eq!(
        handle_items(&store, &ns(), "a", "zz", &vec!["k2".to_string()]),
        vec!["k1", "k4"]
    );
}

#[test]
fn many_items_are_subdivided() {
    let items: Vec<String> = (0..34).map(|i| format!("k{:02}", i)).collect();
    let names: Vec<String> = (0..34).map(|i| format!("t{:02}", i)).collect();
    match answer_fingerprint(names, items.clone(), "lo", "up", "00") {
        Ok(FingerprintReply::Subdivide(parts)) => {
            assert_eq!(parts.len(), 4);
            let counts: Vec<usize> = parts.iter().map(|p| p.count).collect();
            assert_eq!(counts, vec![9, 9, 9, 7]);
            assert_eq!((parts[0].lower.as_str(), parts[0].upper.as_str()), ("lo", "t09"));
            assert_eq!((parts[3].lower.as_str(), parts[3].upper.as_str()), ("t27", "up"));
            let want = hex::encode(blake3::hash(items[0..9].join(",").as_bytes()).as_bytes());
            assert_eq!(parts[0].fingerprint, want);
        }
        other => panic!("not subdivided: {:?}", other),
    }
}

// -- Scoped records, roots, bundles -------------------------------------------

#[test]
fn filters_and_schemas_are_registered() {
    let mut store = test_store();
    let f = register_filter(&mut store, &ns(), "all", b"filter").unwrap();
    assert_eq!(list_filters(&store, &ns()), vec![("all".to_string(), f.clone())]);
    delete_filter(&mut store, &ns(), &f);
    assert!(list_filters(&store, &ns()).is_empty());
    register_filter(&mut store, &ns(), "all", b"filter").unwrap();
    delete_filter(&mut store, &ns(), "all");
    assert!(list_filters(&store, &ns()).is_empty());

    let s1 = register_schema(&mut store, &ns(), "doc", b"v1", "me").unwrap();
    let s2 = register_schema(&mut store, &ns(), "doc", b"v2", "me").unwrap();
    register_schema(&mut store, &ns(), "doc", b"v2", "me").unwrap();
    assert_eq!(get_schema(&store, &ns(), "doc").unwrap(), (s2.clone(), b"v2".to_vec()));
    assert!(matches!(get_schema(&store, &ns(), "none"), Err(StoreError::NotFound(_))));
    assert_eq!(list_schemas(&store, &ns()), vec![("doc".to_string(), s2.clone())]);
    let edges = query_edges(&store, &ns(), &s2, "outbound", Some("derived-from"), None);
    assert_eq!(edges.len(), 1);
    assert_eq!(edges[0].target, s1);
}

#[test]
fn roots_and_positions() {
    let mut store = test_store();
    assert_eq!(namespace_root(&store, &ns()), (None, 0));
    match tag_position(&store, &ns(), "b") {
        Err(StoreError::NotFound(m)) => assert_eq!(m, "no epoch root"),
        other => panic!("{:?}", other),
    }
    for name in ["b", "a", "_c"] {
        store.tag_set(&ns(), name, "k").unwrap();
    }
    let root = store.epoch_advance_at(&ns(), vec![], 77).unwrap();
    assert_eq!(namespace_root(&store, &ns()), (Some(root.clone()), 2));
    let p = tag_position(&store, &ns(), "b").unwrap();
    assert_eq!((p.root, p.epoch_number, p.tag_index, p.timestamp_ms), (root, 1, 1, 77));
    match tag_position(&store, &ns(), "_c") {
        Err(StoreError::NotFound(m)) => assert_eq!(m, "tag _c not found"),
        other => panic!("{:?}", other),
    }
    assert_eq!(root_message(&ns(), "r", "t"), "ns\nr\nt");
}

#[test]
fn bundles_go_out_and_come_in() {
    let mut store = test_store();
    let a = put(&mut store, b"a");
    let out = gather(&store, &[a.clone()]).unwrap();
    assert!(matches!(gather(&store, &[]), Err(BundleError::Empty)));
    assert!(matches!(gather(&store, &[a.clone(), "x".into()]), Err(BundleError::Missing(_))));
    let mut other = test_store();
    assert_eq!(ingest_bundle(&mut other, &out).unwrap(), vec![a.clone()]);
    assert_eq!(other.blob_get(&a).unwrap(), b"a");
    let bad = vec![BundleEntry { kappa: a.clone(), content: b"b".to_vec() }];
    let mut third = test_store();
    assert!(matches!(ingest_bundle(&mut third, &bad), Err(BundleError::Mismatch(0))));
    assert!(!third.blob_exists(&a).unwrap());
}

// -- Documents, events, queries -----------------------------------------------

#[test]
fn documents_are_saved_when_the_last_client_leaves() {
    let mut store = test_store();
    let mut rooms = CrdtManager::new();
    assert!(rooms.join(&store, &ns(), "doc").is_empty());
    assert!(rooms.join(&store, &ns(), "doc").is_empty());
    assert!(rooms.apply_update(&ns(), "doc", b"ab"));
    assert!(rooms.apply_update(&ns(), "doc", b"cd"));
    assert!(!rooms.apply_update(&ns(), "other", b"x"));
    rooms.leave(&mut store, &ns(), "doc");
    assert!(store.tag_get(&ns(), "_crdt/doc").is_err());
    rooms.leave(&mut store, &ns(), "doc");
    let saved = store.tag_get(&ns(), "_crdt/doc").unwrap();
    assert_eq!(saved.kappa, kappa_from_bytes(b"abcd"));
    assert_eq!(rooms.join(&store, &ns(), "doc"), b"abcd");
}

#[test]
fn event_streams() {
    let log = vec![
        LoggedEvent { operation: "tag_set".into(), name: "a/1".into(), sequence: 3, json: "{}".into() },
        LoggedEvent { operation: "tag_del".into(), name: "b".into(), sequence: 4, json: "{}".into() },
    ];
    assert_eq!(stream_log(&log, Some("a/")), "event: tag_set\nid: 3\ndata: {}\n\n");
    let mut store = test_store();
    for name in ["a", "_b", "c"] {
        store.tag_set(&ns(), name, "k").unwrap();
    }
    assert_eq!(
        stream_tags(&store, &ns(), None, 2),
        "event: tag_set\nid: 3\ndata: {\"namespace\":\"ns\",\"name\":\"c\",\"kappa\":\"k\"}\n\n"
    );

    let mut client = EventConnection::new();
    assert_eq!(client.command(ClientCommand::Replay(5)), EventStep::Send(5));
    assert!(client.take_event("tag_set", 9, false));
    assert_eq!(client.tick(), EventStep::Send(9));
    assert_eq!(client.command(ClientCommand::Filter(vec!["tag_del".into()])), EventStep::Wait);
    assert!(!client.take_event("tag_set", 10, false));
    assert!(client.take_event("tag_set", 11, true));
    assert_eq!(client.tick(), EventStep::Send(11));
}

#[test]
fn queries_are_decoded() {
    assert_eq!(percent_decode("a%20b+c"), "a b c");
    assert_eq!(percent_decode("100%"), "100%");
    assert_eq!(percent_decode("%zz!"), "%!");
    assert_eq!(query_param("a=1&b=x%2Fy&b=2", "b"), Some("x/y".to_string()));
    assert_eq!(query_value("a=1&b=x%2Fy", "b"), Some("x%2Fy".to_string()));
    assert_eq!(query_param("a&c=", "a"), None);
    assert_eq!(query_param("a&c=", "c"), Some(String::new()));
}
