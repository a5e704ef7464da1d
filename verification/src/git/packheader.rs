//! The headers of the entries of a pack.

use vstd::prelude::*;

use crate::varint::{push_varint, varint_bytes, varint_groups};

verus! {

/// The continuation bytes of a base distance, most significant first. Each
/// continuation stands for one more than its digits say.
pub open spec fn ofs_prefix(n: nat) -> Seq<u8>
    decreases n,
{
    if n == 0 {
        Seq::empty()
    } else {
        ofs_prefix(((n - 1) / 128) as nat).push((128 + (n - 1) % 128) as u8)
    }
}

/// A base distance as bytes.
pub open spec fn ofs_bytes(distance: nat) -> Seq<u8> {
    ofs_prefix(distance / 128).push((distance % 128) as u8)
}

/// The distance that bytes stand for.
pub open spec fn ofs_value(data: Seq<u8>) -> nat
    decreases data.len(),
{
    if data.len() <= 1 {
        (data[0] % 128) as nat
    } else {
        (ofs_value(data.drop_last()) + 1) * 128 + (data.last() % 128) as nat
    }
}

proof fn lemma_ofs_prefix(n: nat)
    ensures
        n > 0 ==> ofs_prefix(n).len() > 0 && ofs_value(ofs_prefix(n)) == n - 1,
        forall|i: int| 0 <= i < ofs_prefix(n).len() ==> #[trigger] ofs_prefix(n)[i] >= 128,
    decreases n,
{
    if n > 0 {
        let m = (n - 1) as nat;
        lemma_ofs_prefix(m / 128);
        let s = ofs_prefix(n);
        assert(s.drop_last() =~= ofs_prefix(m / 128));
        assert(s.last() == 128 + m % 128);
        if m / 128 == 0 {
            assert(s.len() == 1);
            assert(s[0] == s.last());
        }
    }
}

/// A base distance can be read back, and its bytes say where it ends: every
/// byte but the last has its top bit set.
pub proof fn law_ofs_roundtrip(distance: nat)
    ensures
        ofs_value(ofs_bytes(distance)) == distance,
        ofs_bytes(distance).len() > 0,
        ofs_bytes(distance).last() < 128,
        forall|i: int|
            0 <= i < ofs_bytes(distance).len() - 1 ==> #[trigger] ofs_bytes(distance)[i] >= 128,
{
    let n = distance / 128;
    let s = ofs_bytes(distance);
    lemma_ofs_prefix(n);
    assert(s.drop_last() =~= ofs_prefix(n));
    assert forall|i: int| 0 <= i < s.len() - 1 implies #[trigger] s[i] >= 128 by {
        assert(s[i] == ofs_prefix(n)[i]);
    }
    if n == 0 {
        assert(s[0] == s.last());
    }
}

/// Encodes the distance from a delta to its base.
pub fn encode_ofs_delta_header(distance: u64) -> (out: Vec<u8>)
    ensures
        out@ == ofs_bytes(distance as nat),
{
    let mut out = ofs_prefix_vec(distance / 128);
    out.push((distance % 128) as u8);
    out
}

fn ofs_prefix_vec(n: u64) -> (out: Vec<u8>)
    ensures
        out@ == ofs_prefix(n as nat),
    decreases n,
{
    if n == 0 {
        Vec::new()
    } else {
        let mut out = ofs_prefix_vec((n - 1) / 128);
        out.push(128 + ((n - 1) % 128) as u8);
        out
    }
}

/// The first byte of an entry header: the kind above four bits of size, the
/// top bit set where more of the size follows.
pub open spec fn entry_first(type_id: u8, size: nat) -> u8 {
    let low = (type_id as int % 16) * 16 + size % 16;
    if size >= 16 && low < 128 {
        (low + 128) as u8
    } else {
        low as u8
    }
}

/// An entry header.
pub open spec fn entry_header(type_id: u8, size: nat) -> Seq<u8> {
    if size < 16 {
        seq![entry_first(type_id, size)]
    } else {
        seq![entry_first(type_id, size)] + varint_bytes(size / 16)
    }
}

/// The kind and size that an entry header stands for, and the bytes it takes.
pub open spec fn entry_header_value(data: Seq<u8>) -> Option<(u8, nat, nat)> {
    if data.len() == 0 {
        None
    } else {
        let kind = ((data[0] / 16) % 8) as u8;
        let low = (data[0] % 16) as nat;
        if data[0] < 128 {
            Some((kind, low, 1))
        } else {
            match varint_groups(data.drop_first(), 10) {
                Some((high, n)) => Some((kind, low + 16 * high, n + 1)),
                None => None,
            }
        }
    }
}

/// An entry header can be read back, whatever follows it.
pub proof fn law_entry_header_roundtrip(type_id: u8, size: u64, rest: Seq<u8>)
    requires
        type_id < 8,
    ensures
        entry_header_value(entry_header(type_id, size as nat) + rest) == Some(
            (type_id, size as nat, entry_header(type_id, size as nat).len()),
        ),
{
    let data = entry_header(type_id, size as nat) + rest;
    if size >= 16 {
        let high = (size as nat / 16) as u64;
        crate::varint::law_varint_roundtrip(high, rest);
        assert(data.drop_first() =~= varint_bytes(high as nat) + rest);
        crate::varint::lemma_varint_groups_roundtrip_ten(high, rest);
    }
}

/// Encodes the header of a pack entry.
pub fn encode_pack_entry_header(type_id: u8, size: u64) -> (out: Vec<u8>)
    ensures
        out@ == entry_header(type_id, size as nat),
{
    let low: u8 = (type_id % 16) * 16 + (size % 16) as u8;
    let first: u8 = if size >= 16 && low < 128 { low + 128 } else { low };
    let mut out: Vec<u8> = Vec::new();
    out.push(first);
    if size >= 16 {
        push_varint(&mut out, size / 16);
    }
    assert(out@ =~= entry_header(type_id, size as nat));
    out
}

} // verus!
