use kappa_registry::git::delta::{compute_delta, encode_copy};
use kappa_registry::git::ingest::apply_delta;
use kappa_registry::git::packheader::encode_ofs_delta_header;
use kappa_registry::varint::{front_varint, push_varint};

#[test]
fn read_varint_single_byte() {
    let (v, next) = front_varint(&[5], 0).unwrap();
    assert_eq!(v, 5);
    assert_eq!(next, 1);
}

#[test]
fn read_varint_two_bytes() {
    let (v, _) = front_varint(&[0x80 | 0x01, 0x02], 0).unwrap();
    assert_eq!(v, 1 | (2 << 7));
}

#[test]
fn apply_delta_insert_only() {
    let mut delta = Vec::new();
    delta.push(0); // base_size = 0
    delta.push(5); // result_size = 5
    delta.push(5); // INSERT 5 bytes
    delta.extend_from_slice(b"hello");
    assert_eq!(apply_delta(b"", &delta).unwrap(), b"hello");
}

#[test]
fn apply_delta_copy_only() {
    let base = b"hello world";
    let mut delta = Vec::new();
    delta.push(base.len() as u8);
    delta.push(5);
    delta.push(0x80 | 0x01 | 0x10);
    delta.push(0);
    delta.push(5);
    assert_eq!(apply_delta(base, &delta).unwrap(), b"hello");
}

#[test]
fn apply_delta_copy_from_middle() {
    let base = b"hello world";
    let mut delta = Vec::new();
    delta.push(base.len() as u8);
    delta.push(5);
    delta.push(0x80 | 0x01 | 0x10);
    delta.push(6);
    delta.push(5);
    assert_eq!(apply_delta(base, &delta).unwrap(), b"world");
}

#[test]
fn apply_delta_mixed() {
    let base = b"hello world";
    let mut delta = Vec::new();
    delta.push(base.len() as u8);
    delta.push(6);
    delta.push(0x80 | 0x01 | 0x10);
    delta.push(0);
    delta.push(5);
    delta.push(1);
    delta.push(b'!');
    assert_eq!(apply_delta(base, &delta).unwrap(), b"hello!");
}

#[test]
fn apply_delta_rejects_reserved() {
    let delta = vec![0, 0, 0];
    assert!(apply_delta(b"", &delta).is_err());
}

#[test]
fn apply_delta_rejects_oob_copy() {
    let base = b"short";
    let mut delta = Vec::new();
    delta.push(base.len() as u8);
    delta.push(10);
    delta.push(0x80 | 0x01 | 0x10);
    delta.push(0);
    delta.push(10);
    assert!(apply_delta(base, &delta).is_err());
}

// -- compute_delta tests -----------------------------------------

#[test]
fn compute_delta_roundtrip() {
    let base = b"the quick brown fox jumps over the lazy dog and more text to exceed the window size threshold";
    let target = b"the quick brown cat jumps over the lazy dog and more text to exceed the window size threshold";
    let delta = compute_delta(base, target).unwrap();
    assert!(delta.len() < target.len(), "delta should be smaller than target");
    let reconstructed = apply_delta(base, &delta).unwrap();
    assert_eq!(reconstructed, target);
}

#[test]
fn compute_delta_identical_is_tiny() {
    let content = b"identical content repeated many times for testing delta compression algorithms and roundtrip verification";
    let delta = compute_delta(content, content).unwrap();
    assert!(delta.len() < 30, "delta of identical content should be tiny, got {}", delta.len());
    let reconstructed = apply_delta(content, &delta).unwrap();
    assert_eq!(reconstructed, content);
}

#[test]
fn compute_delta_completely_different_returns_none() {
    let base: Vec<u8> = (0..1000).map(|i| (i % 256) as u8).collect();
    let target: Vec<u8> = (0..1000).map(|i| ((i + 128) % 256) as u8).collect();
    let result = compute_delta(&base, &target);
    // Either None (no benefit) or roundtrip produces the original
    if let Some(delta) = result {
        let reconstructed = apply_delta(&base, &delta).unwrap();
        assert_eq!(reconstructed, target, "delta roundtrip must reproduce target");
    }
}

#[test]
fn compute_delta_large_with_small_change() {
    let base: Vec<u8> = (0..10000).map(|i| (i % 251) as u8).collect();
    let mut target = base.clone();
    target[5000] = 0xFF;
    let delta = compute_delta(&base, &target).unwrap();
    assert!(delta.len() < 500, "delta for one-byte change in 10KB should be small, got {}", delta.len());
    let reconstructed = apply_delta(&base, &delta).unwrap();
    assert_eq!(reconstructed, target);
}

#[test]
fn compute_delta_too_small_returns_none() {
    assert!(compute_delta(b"hi", b"yo").is_none());
    assert!(compute_delta(b"", b"hello").is_none());
    assert!(compute_delta(b"hello", b"").is_none());
}

#[test]
fn compute_delta_append_only() {
    let base = b"base content that is long enough to have rabin windows computed over it for matching";
    let mut target = base.to_vec();
    target.extend_from_slice(b" and then some appended content at the end");
    let delta = compute_delta(base, &target).unwrap();
    assert!(delta.len() < target.len());
    let reconstructed = apply_delta(base, &delta).unwrap();
    assert_eq!(reconstructed, target);
}

// -- encode_ofs_delta_header tests --------------------------------

#[test]
fn encode_ofs_delta_header_small() {
    let encoded = encode_ofs_delta_header(10);
    assert_eq!(encoded.len(), 1);
    assert_eq!(encoded[0], 10);
}

#[test]
fn encode_ofs_delta_header_needs_continuation() {
    let encoded = encode_ofs_delta_header(128);
    assert!(encoded.len() >= 2);
    // First byte has MSB set (continuation)
    assert!(encoded[0] & 0x80 != 0);
    // Last byte has MSB clear
    assert!(encoded[encoded.len() - 1] & 0x80 == 0);
}

#[test]
fn encode_ofs_delta_header_large_distance() {
    let encoded = encode_ofs_delta_header(0x10000);
    assert!(encoded.len() >= 3);
    // All bytes except last have MSB set
    for &b in &encoded[..encoded.len() - 1] {
        assert!(b & 0x80 != 0, "continuation bytes must have MSB set");
    }
    assert!(encoded[encoded.len() - 1] & 0x80 == 0, "last byte must not have MSB set");
}

// -- write_varint roundtrip -----------------------------------------------

#[test]
fn write_varint_roundtrip() {
    for &val in &[0u64, 1, 127, 128, 255, 256, 0x10000, u64::MAX >> 1] {
        let mut buf = Vec::new();
        push_varint(&mut buf, val);
        let (decoded, next) = front_varint(&buf, 0).unwrap();
        assert_eq!(decoded, val, "varint roundtrip failed for {}", val);
        assert_eq!(next, buf.len());
    }
}

#[test]
fn long_copies_are_split() {
    let base: Vec<u8> = (0..17_000_000u32).map(|i| (i % 251) as u8).collect();
    let mut delta = Vec::new();
    push_varint(&mut delta, base.len() as u64);
    push_varint(&mut delta, 16_777_216);
    encode_copy(&mut delta, 5, 16_777_216);
    assert_eq!(apply_delta(&base, &delta).unwrap(), &base[5..16_777_221]);
    let mut short = Vec::new();
    encode_copy(&mut short, 1, 0x10000);
    assert_eq!(short, vec![0x81, 1]);
}
