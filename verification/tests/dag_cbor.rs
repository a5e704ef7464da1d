use kappa_registry::atproto::firehose::{
    advance_frame, change_of, commit_frame, label_cid, lag_frame, outdated_frame, Subscriber,
};
use kappa_registry::kappa::kappa_from_bytes;
use kappa_registry::atproto::dag_cbor::{
    encode_commit_body, encode_handle_body, encode_header, encode_info_body, frame,
};

#[test]
fn header_roundtrip() {
    let header = encode_header(1, "#commit");
    assert!(!header.is_empty());
    // Should contain "op" and "t" keys
    assert!(header.windows(2).any(|w| w == b"op"));
}

#[test]
fn header_error_op() {
    let header = encode_header(-1, "#error");
    assert!(!header.is_empty());
}

#[test]
fn commit_body_has_all_fields() {
    let body = encode_commit_body(
        42, "did:plc:test", &[0x01; 36], "rev123",
        Some("prev_rev"), b"car-bytes",
        &[("create", "app.bsky.feed.post/abc", Some(&[0x01; 36]))],
    );
    assert!(!body.is_empty());
}

#[test]
fn handle_body() {
    let body = encode_handle_body(1, "did:plc:test", "alice.bsky.social");
    assert!(!body.is_empty());
}

#[test]
fn info_body() {
    let body = encode_info_body("OutdatedCursor", "lagged 500 events");
    assert!(!body.is_empty());
}

#[test]
fn frame_concatenates() {
    let h = encode_header(1, "#commit");
    let b = encode_commit_body(1, "did:plc:x", &[], "", None, &[], &[]);
    let h_len = h.len();
    let b_len = b.len();
    let f = frame(h, b);
    assert_eq!(f.len(), h_len + b_len);
}

#[test]
fn low_numbers_keep_all_their_bytes() {
    let want = [0xA2, 0x62, 0x6F, 0x70, 0x39, 0x01, 0x00, 0x61, 0x74, 0x60];
    assert_eq!(encode_header(-257, ""), want);
    let lowest = encode_header(i64::MIN, "");
    assert_eq!(lowest[4..13], [0x3B, 0x7F, 0xFF, 0xFF, 0xFF, 0xFF, 0xFF, 0xFF, 0xFF]);
}

#[test]
fn subscribers_are_sent_binary_frames() {
    let mut client = Subscriber::new(Some(4), 10);
    let label = kappa_from_bytes(b"x");
    let cid = label_cid(&label).unwrap();
    assert_eq!(cid, cid_for_raw(b"x"));
    let got = commit_frame(&mut client, "did:plc:x", change_of("tag_set"), "c/r", Some(&cid));
    let ops: [(&str, &str, Option<&[u8]>); 1] = [("create", "c/r", Some(&cid))];
    let body = encode_commit_body(5, "did:plc:x", &[], "", None, &[], &ops);
    assert_eq!(got, frame(encode_header(1, "#commit"), body));
    assert_eq!(client.seq, 5);
    assert!(label_cid("sha1:00").is_none());

    assert!(lag_frame(&mut client, 10).is_none());
    assert_eq!(client.seq, 15);
    let closing = encode_info_body("OutdatedCursor", "lagged 11 events, closing");
    let want = frame(encode_header(1, "#info"), closing);
    assert_eq!(lag_frame(&mut client, 11), Some(want));
    let next = frame(encode_header(1, "#info"), encode_info_body("SequenceAdvance", "16"));
    assert_eq!(advance_frame(&mut client, 16), Some(next));
    assert_eq!(advance_frame(&mut client, 16), None);
    assert!(outdated_frame(&client, 26).is_none());
    let gone = encode_info_body("OutdatedCursor", "cursor too far behind");
    assert_eq!(outdated_frame(&client, 27), Some(frame(encode_header(1, "#info"), gone)));
}

fn cid_for_raw(data: &[u8]) -> Vec<u8> {
    kappa_registry::atproto::cid::cid_for_cbor(data).to_vec()
}
