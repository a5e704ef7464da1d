#![allow(unused_mut)]

use kappa_registry::git::envelope::{git_object_id_sha1, wrap};
use kappa_registry::git::object::{HashKind, Kind};
use kappa_registry::git::packgen::{generate_pack, read_envelope_header};
use kappa_registry::git::packheader::encode_pack_entry_header;
use kappa_registry::store::memory::{InMemoryStore, MemoryStoreConfig};

fn test_store() -> InMemoryStore {
    InMemoryStore::new(MemoryStoreConfig::new("blobs".to_string()))
}

#[test]
fn encode_header_small_blob() {
    let header = encode_pack_entry_header(3, 5);
    assert_eq!(header.len(), 1);
    assert_eq!(header[0], 0x35);
}

#[test]
fn encode_header_large_blob() {
    let header = encode_pack_entry_header(3, 16);
    assert_eq!(header.len(), 2);
    assert_eq!(header[0], 0xB0);
    assert_eq!(header[1], 0x01);
}

#[test]
fn encode_header_very_large() {
    let header = encode_pack_entry_header(3, 0x10000);
    assert!(header.len() >= 3);
    let (parsed_type, parsed_size) = decode_pack_entry_header(&header);
    assert_eq!(parsed_type, 3);
    assert_eq!(parsed_size, 0x10000);
}

fn decode_pack_entry_header(data: &[u8]) -> (u8, u64) {
    let first = data[0];
    let type_id = (first >> 4) & 0x07;
    let mut size = (first & 0x0F) as u64;
    let mut shift = 4u32;
    if first & 0x80 != 0 {
        let mut idx = 1;
        while idx < data.len() {
            let byte = data[idx];
            size |= ((byte & 0x7F) as u64) << shift;
            shift += 7;
            idx += 1;
            if byte & 0x80 == 0 { break; }
        }
    }
    (type_id, size)
}

#[test]
fn generate_empty_pack() {
    let mut store = test_store();

    let mut output = Vec::new();
    let result = generate_pack(&store, &[], HashKind::Sha1, &mut output).unwrap();
    assert_eq!(result.objects_written, 0);
    assert_eq!(output.len(), 12 + 20);
    assert_eq!(&output[0..4], b"PACK");
}

#[test]
fn generate_pack_with_blob() {
    let mut store = test_store();

    let content = b"hello pack generation";
    let envelope_bytes = wrap(Kind::Blob, content);
    let kappa = git_object_id_sha1(Kind::Blob, content).unwrap();
    store.ingest_verified(&kappa, &envelope_bytes).unwrap();

    let mut output = Vec::new();
    let result = generate_pack(
        &store, &[kappa], HashKind::Sha1, &mut output,
    ).unwrap();
    assert_eq!(result.objects_written, 1);
    assert_eq!(&output[0..4], b"PACK");
    assert_eq!(u32::from_be_bytes(output[8..12].try_into().unwrap()), 1);

    let (entry_type, entry_size) = decode_pack_entry_header(&output[12..]);
    assert_eq!(entry_type, 3);
    assert_eq!(entry_size, content.len() as u64);
}

#[test]
fn read_envelope_header_parses_correctly() {
    let content = b"test content for header parsing";
    let envelope = wrap(Kind::Blob, content);
    let (kind, size, start) = read_envelope_header(&envelope).unwrap();
    assert_eq!(kind, Kind::Blob);
    assert_eq!(size, content.len() as u64);

    // The content starts behind the header
    assert_eq!(&envelope[start..], content);
}
