use kappa_registry::atproto::session::base64url_decode;
use kappa_registry::atproto::session::base64url_encode;
use kappa_registry::kappa::{
    axis_of, compute_kappa, kappa_from_bytes, verify_kappa, Axis, KappaLabel, LabelError,
};
use kappa_registry::radix::{radix_decode, radix_encode, Radix};
use kappa_registry::types::{AttestationDigest, NamespaceRef};

fn hex_of(data: &[u8]) -> String {
    hex::encode(data)
}

#[test]
fn labels_of_abc_on_every_axis() {
    let cases = [
        ("sha256", "ba7816bf8f01cfea414140de5dae2223b00361a396177a9cb410ff61f20015ad"),
        ("sha512", "ddaf35a193617abacc417349ae20413112e6fa4e89a97ea20a9eeee64b55d39a2192992a274fc1a836ba3c23a3feebbd454d4423643ce80e2a9ac94fa54ca49f"),
        ("blake3", "6437b3ac38465133ffb63b75273a8db548c558465d79db03fd359c6cd5bd9d85"),
        ("sha3-256", "3a985da74fe225b2045c172d6bd390bd855f086e3e9d525b46bfe24511431532"),
        ("keccak-256", "4e03657aea45a94fc7d47ba826c8d667c0d1e6e33a64a036ec44f58fa12d6c45"),
        ("sha1", "a9993e364706816aba3e25717850c26c9cd0d89d"),
    ];
    for (axis, digest) in cases {
        let label = compute_kappa(axis, b"abc").unwrap();
        assert_eq!(label.as_str(), format!("{}:{}", axis, digest));
        assert_eq!(verify_kappa(label.as_str(), b"abc").unwrap(), true);
        assert_eq!(verify_kappa(label.as_str(), b"abd").unwrap(), false);
    }
}

#[test]
fn labels_are_refused_for_their_faults() {
    assert!(matches!(KappaLabel::parse("nocolon"), Err(LabelError::NoSeparator)));
    assert!(matches!(KappaLabel::parse("crc:00"), Err(LabelError::UnknownAxis(_))));
    assert!(matches!(KappaLabel::parse("sha256:00"), Err(LabelError::BadDigest)));
    assert!(matches!(compute_kappa("md4", b""), Err(LabelError::UnknownAxis(_))));
    let upper = kappa_from_bytes(b"x").to_uppercase().replace("SHA256", "sha256");
    assert!(KappaLabel::parse(&upper).is_err());
}

#[test]
fn complement_turns_every_bit_and_back() {
    let label = KappaLabel::sha256(b"abc");
    let other = label.complement();
    assert!(other.as_str().starts_with("sha256:4587e940"));
    assert_eq!(other.complement().as_str(), label.as_str());
    assert_eq!(axis_of(other.as_str()), Some("sha256".to_string()));
    assert_eq!(label.axis_enum(), Axis::Sha256);
}

#[test]
fn attestations_of_the_digits() {
    let data = b"123456789";
    assert_eq!(hex_of(&AttestationDigest::Crc32.compute(data)), "cbf43926");
    assert_eq!(hex_of(&AttestationDigest::Crc32c.compute(data)), "e3069283");
    assert_eq!(hex_of(&AttestationDigest::Crc64Nvme.compute(data)), "ae8b14860a799888");
    assert_eq!(
        hex_of(&AttestationDigest::Md5.compute(b"abc")),
        "900150983cd24fb0d6963f7d28e17f72"
    );
}

#[test]
fn radix_texts() {
    assert_eq!(radix_encode(Radix::Base32, b"foobar"), "mzxw6ytboi");
    assert_eq!(radix_decode(Radix::Base32, "mzxw6ytboi"), Some(b"foobar".to_vec()));
    assert_eq!(radix_decode(Radix::Base32, "mzxw6ytbo!"), None);
    assert_eq!(base64url_encode(&[0xfb, 0xff]), "-_8");
    assert_eq!(base64url_decode("-_8").unwrap(), vec![0xfb, 0xff]);
    assert!(base64url_decode("+/8").is_err());
}

#[test]
fn generated_names_differ_and_derived_names_agree() {
    let a = NamespaceRef::generate("repo").unwrap();
    let b = NamespaceRef::generate("repo").unwrap();
    assert_ne!(a.uuid_hex(), b.uuid_hex());
    assert_eq!(a.uuid()[6] >> 4, 7);
    let c = NamespaceRef::deterministic("repo");
    assert!(c.same(&NamespaceRef::deterministic("repo")));
    assert!(!c.same(&NamespaceRef::deterministic("other")));
}
