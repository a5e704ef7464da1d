use sha2::Digest;

use kappa_registry::atproto::tid::{is_valid_tid, parse_tid, s32_decode, s32_encode, TidGenerator};

#[test]
fn tid_is_13_chars() {
    let mut gen = TidGenerator::with_clock_id(0);
    let tid = gen.next();
    assert_eq!(tid.len(), 13);
}

#[test]
fn tid_monotonic() {
    let mut gen = TidGenerator::with_clock_id(5);
    let a = gen.next();
    let b = gen.next();
    let c = gen.next();
    assert!(b > a, "b={} should be > a={}", b, a);
    assert!(c > b, "c={} should be > b={}", c, b);
}

#[test]
fn tid_parse_roundtrip() {
    let mut gen = TidGenerator::with_clock_id(17);
    let tid = gen.next();
    let (ts, ck) = parse_tid(&tid).unwrap();
    assert_eq!(ck, 17);
    assert!(ts > 0);
}

#[test]
fn tid_different_clock_ids() {
    let mut gen_a = TidGenerator::new("anchor-a");
    let mut gen_b = TidGenerator::new("anchor-b");
    // Different anchors should (almost certainly) produce different clock IDs
    // but we can't guarantee it with only 5 bits. Just verify they produce valid TIDs.
    let a = gen_a.next();
    let b = gen_b.next();
    assert!(is_valid_tid(&a));
    assert!(is_valid_tid(&b));
}

#[test]
fn tid_valid_chars() {
    let mut gen = TidGenerator::with_clock_id(31);
    let tid = gen.next();
    assert!(is_valid_tid(&tid));
    assert!(tid.bytes().all(|b| matches!(b, b'2'..=b'7' | b'a'..=b'z')));
}

#[test]
fn s32_encode_decode_roundtrip() {
    for n in [0u64, 1, 31, 32, 1000, 1_000_000, u64::MAX / 2] {
        if n == 0 {
            continue; // s32_encode(0) returns empty string by design
        }
        let encoded = s32_encode(n);
        let decoded = s32_decode(&encoded);
        assert_eq!(decoded, n, "roundtrip failed for {}", n);
    }
}

#[test]
fn s32_sort_order() {
    // Smaller numbers should produce lexicographically smaller strings
    // when padded to the same length
    let a = format!("{:>11}", s32_encode(100)).replace(' ', "2");
    let b = format!("{:>11}", s32_encode(200)).replace(' ', "2");
    assert!(a < b, "a={} should be < b={}", a, b);
}

#[test]
fn invalid_tid_rejected() {
    assert!(!is_valid_tid("short"));
    assert!(!is_valid_tid("0000000000000")); // '0' not in s32 alphabet
    assert!(!is_valid_tid("AAAAAAAAAAAAA")); // uppercase not in s32
}

#[test]
fn clock_number_is_the_first_five_bits_of_the_digest() {
    for anchor in ["anchor-a", "anchor-b", ""] {
        let byte = sha2::Sha256::digest(anchor.as_bytes())[0];
        let tid = TidGenerator::new(anchor).next();
        let (_, clock) = parse_tid(&tid).unwrap();
        assert_eq!(clock, byte >> 3);
    }
}
