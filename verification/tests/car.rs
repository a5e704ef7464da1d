use kappa_registry::atproto::car::{decode_car, encode_car, read_varint, CarBlock};
use kappa_registry::atproto::cid::cid_for_cbor;
use kappa_registry::varint::push_varint;

#[test]
fn varint_roundtrip() {
    for n in [0u64, 1, 127, 128, 255, 256, 16383, 16384, 1_000_000] {
        let mut buf = Vec::new();
        push_varint(&mut buf, n);
        let (decoded, pos) = read_varint(&buf, 0).unwrap();
        assert_eq!(decoded, n, "varint roundtrip failed for {}", n);
        assert_eq!(pos, buf.len());
    }
}

#[test]
fn car_encode_decode_roundtrip() {
    let cid = cid_for_cbor(b"block content");
    let blocks = vec![CarBlock {
        cid: cid.to_vec(),
        bytes: b"block content".to_vec(),
    }];
    let encoded = encode_car(Some(&cid), &blocks);
    let (roots, decoded_blocks) = decode_car(&encoded).unwrap();
    assert_eq!(roots.len(), 1);
    assert_eq!(roots[0], cid);
    assert_eq!(decoded_blocks.len(), 1);
    assert_eq!(decoded_blocks[0].cid, cid);
    assert_eq!(decoded_blocks[0].bytes, b"block content");
}

#[test]
fn car_empty_roots() {
    let encoded = encode_car(None, &[]);
    let (roots, blocks) = decode_car(&encoded).unwrap();
    assert!(roots.is_empty());
    assert!(blocks.is_empty());
}

#[test]
fn car_multiple_blocks() {
    let cid1 = cid_for_cbor(b"one");
    let cid2 = cid_for_cbor(b"two");
    let cid3 = cid_for_cbor(b"three");
    let blocks = vec![
        CarBlock { cid: cid1.to_vec(), bytes: b"one".to_vec() },
        CarBlock { cid: cid2.to_vec(), bytes: b"two".to_vec() },
        CarBlock { cid: cid3.to_vec(), bytes: b"three".to_vec() },
    ];
    let encoded = encode_car(Some(&cid1), &blocks);
    let (roots, decoded) = decode_car(&encoded).unwrap();
    assert_eq!(roots.len(), 1);
    assert_eq!(decoded.len(), 3);
    assert_eq!(decoded[0].bytes, b"one");
    assert_eq!(decoded[1].bytes, b"two");
    assert_eq!(decoded[2].bytes, b"three");
}

#[test]
fn car_truncated_rejected() {
    let cid = cid_for_cbor(b"data");
    let blocks = vec![CarBlock {
        cid: cid.to_vec(),
        bytes: b"data".to_vec(),
    }];
    let encoded = encode_car(Some(&cid), &blocks);
    // Truncate the encoded data
    let truncated = &encoded[..encoded.len() / 2];
    assert!(decode_car(truncated).is_err());
}
