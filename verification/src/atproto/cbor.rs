//! Writing DAG-CBOR items.

use vstd::prelude::*;
use vstd::string::*;
use vstd::utf8::encode_utf8;

use crate::bytes::append_bytes;
use crate::types::{be_bytes, big_endian};

verus! {

/// The head of an item: its kind, and a number in as few bytes as it needs, two
/// at most.
pub open spec fn short_head(major: u8, n: nat) -> Seq<u8> {
    if n < 24 {
        seq![(32 * major + n) as u8]
    } else if n < 256 {
        seq![(32 * major + 24) as u8, n as u8]
    } else {
        seq![(32 * major + 25) as u8] + be_bytes(n as int, 2)
    }
}

/// The head of an item: its kind, and a number in as few bytes as it needs.
pub open spec fn full_head(major: u8, n: nat) -> Seq<u8> {
    if n < 65536 {
        short_head(major, n)
    } else if n < 0x1_0000_0000 {
        seq![(32 * major + 26) as u8] + be_bytes(n as int, 4)
    } else {
        seq![(32 * major + 27) as u8] + be_bytes(n as int, 8)
    }
}

/// A text.
pub open spec fn text_item(s: Seq<char>) -> Seq<u8> {
    short_head(3, encode_utf8(s).len()) + encode_utf8(s)
}

/// A byte string of up to sixty-four kilobytes.
pub open spec fn short_bytes_item(data: Seq<u8>) -> Seq<u8> {
    short_head(2, data.len()) + data
}

/// A content identifier: tag 42 on a byte string with a zero byte in front.
pub open spec fn cid_item(cid: Seq<u8>) -> Seq<u8> {
    seq![0xD8u8, 42] + short_head(2, cid.len() + 1) + seq![0u8] + cid
}

/// Nothing.
pub open spec fn null_item() -> Seq<u8> {
    seq![0xF6u8]
}

/// A content identifier, or nothing.
pub open spec fn optional_cid_item(cid: Option<Seq<u8>>) -> Seq<u8> {
    match cid {
        Some(c) => cid_item(c),
        None => null_item(),
    }
}

/// Appends a head with a number of two bytes at most.
pub fn push_short_head(out: &mut Vec<u8>, major: u8, n: u64)
    requires
        major < 8,
    ensures
        final(out)@ == old(out)@ + short_head(major, n as nat),
{
    let ghost had = out@;
    if n < 24 {
        out.push(32 * major + n as u8);
    } else if n < 256 {
        out.push(32 * major + 24);
        out.push(n as u8);
    } else {
        out.push(32 * major + 25);
        let number = big_endian(n, 2);
        append_bytes(out, number.as_slice());
    }
    assert(out@ =~= had + short_head(major, n as nat));
}

/// Appends a head.
pub fn push_full_head(out: &mut Vec<u8>, major: u8, n: u64)
    requires
        major < 8,
    ensures
        final(out)@ == old(out)@ + full_head(major, n as nat),
{
    let ghost had = out@;
    if n < 65536 {
        push_short_head(out, major, n);
    } else if n < 0x1_0000_0000 {
        out.push(32 * major + 26);
        let number = big_endian(n, 4);
        append_bytes(out, number.as_slice());
    } else {
        out.push(32 * major + 27);
        let number = big_endian(n, 8);
        append_bytes(out, number.as_slice());
    }
    assert(out@ =~= had + full_head(major, n as nat));
}

/// Appends a text.
pub fn push_text_item(out: &mut Vec<u8>, s: &str)
    ensures
        final(out)@ == old(out)@ + text_item(s@),
{
    let ghost had = out@;
    let data = s.as_bytes();
    push_short_head(out, 3, data.len() as u64);
    append_bytes(out, data);
    assert(out@ =~= had + text_item(s@));
}

/// Appends a byte string of up to sixty-four kilobytes.
pub fn push_short_bytes_item(out: &mut Vec<u8>, data: &[u8])
    ensures
        final(out)@ == old(out)@ + short_bytes_item(data@),
{
    let ghost had = out@;
    push_short_head(out, 2, data.len() as u64);
    append_bytes(out, data);
    assert(out@ =~= had + short_bytes_item(data@));
}

/// Appends a content identifier.
pub fn push_cid_item(out: &mut Vec<u8>, cid: &[u8])
    ensures
        final(out)@ == old(out)@ + cid_item(cid@),
{
    let ghost had = out@;
    out.push(0xD8);
    out.push(42);
    assert(out@ =~= had + seq![0xD8u8, 42]);
    let n: u64 = cid.len() as u64;
    let shown: u64 = if n < u64::MAX { n + 1 } else { 65536 };
    proof {
        if n == u64::MAX {
            reveal_with_fuel(be_bytes, 3);
            assert(be_bytes(n + 1, 2) =~= be_bytes(65536, 2));
        }
    }
    push_short_head(out, 2, shown);
    out.push(0);
    append_bytes(out, cid);
    assert(out@ =~= had + cid_item(cid@));
}

/// Appends nothing, written out.
pub fn push_null_item(out: &mut Vec<u8>)
    ensures
        final(out)@ == old(out)@ + null_item(),
{
    let ghost had = out@;
    out.push(0xF6);
    assert(out@ =~= had + null_item());
}

} // verus!
