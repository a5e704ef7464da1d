//! Nodes of a Merkle search tree, as DAG-CBOR.

use vstd::prelude::*;
use vstd::utf8::{decode_utf8, valid_utf8};

use crate::atproto::car::{capped, number_size, without_zero};
use crate::atproto::cbor::{
    cid_item, null_item, optional_cid_item, push_cid_item, push_null_item, push_short_bytes_item,
    push_short_head, short_bytes_item, short_head, text_item,
};
use crate::bytes::{append_bytes, copy_range};
use crate::text::{same_text, utf8_text};
use crate::types::{be_bytes, big_endian};

verus! {

/// Why a tree, or a node of one, was refused.
#[derive(Debug)]
pub enum MstError {
    InvalidKey(String),
    KeyExists(String),
    KeyNotFound(String),
    InvalidNode(&'static str),
    BlockNotFound,
}

/// An entry of a node.
#[derive(Debug)]
pub struct MstEntry {
    /// Bytes that the key shares with the one before.
    pub prefix_len: usize,
    /// The rest of the key.
    pub key_suffix: Vec<u8>,
    pub value: [u8; 36],
    /// The tree between this key and the next.
    pub tree: Option<[u8; 36]>,
}

/// What an entry holds.
pub struct NodeEntry {
    pub prefix_len: nat,
    pub key_suffix: Seq<u8>,
    pub value: Seq<u8>,
    pub tree: Option<Seq<u8>>,
}

/// The bytes of an optional content identifier.
pub open spec fn shown_cid(v: Option<[u8; 36]>) -> Option<Seq<u8>> {
    match v {
        Some(c) => Some(c@),
        None => None,
    }
}

impl DeepView for MstEntry {
    type V = NodeEntry;

    open spec fn deep_view(&self) -> NodeEntry {
        NodeEntry {
            prefix_len: self.prefix_len as nat,
            key_suffix: self.key_suffix@,
            value: self.value@,
            tree: shown_cid(self.tree),
        }
    }
}

// -- Writing ----------------------------------------------------------------------------

/// A number: two bytes where they hold it, eight otherwise.
pub open spec fn uint_item(n: nat) -> Seq<u8> {
    if n < 65536 {
        short_head(0, n)
    } else {
        seq![0x1Bu8] + be_bytes(n as int, 8)
    }
}

/// A key of one letter.
pub open spec fn letter(c: u8) -> Seq<u8> {
    seq![0x61u8, c]
}

/// A content identifier, or nothing.
pub open spec fn maybe_cid(cid: Option<Seq<u8>>) -> Seq<u8> {
    match cid {
        Some(c) => cid_item(c),
        None => null_item(),
    }
}

/// An entry, as a map with its keys in order.
pub open spec fn entry_item(e: NodeEntry) -> Seq<u8> {
    seq![0xA4u8] + letter(107) + short_bytes_item(e.key_suffix) + letter(112) + uint_item(
        e.prefix_len,
    ) + letter(116) + maybe_cid(e.tree) + letter(118) + cid_item(e.value)
}

/// Entries, one after the other.
pub open spec fn entry_items(entries: Seq<NodeEntry>) -> Seq<u8>
    decreases entries.len(),
{
    if entries.len() == 0 {
        Seq::empty()
    } else {
        entry_items(entries.drop_last()) + entry_item(entries.last())
    }
}

/// A node, as a map with its keys in order.
pub open spec fn node_bytes(left: Option<Seq<u8>>, entries: Seq<NodeEntry>) -> Seq<u8> {
    seq![0xA2u8] + letter(101) + short_head(4, entries.len()) + entry_items(entries) + letter(108)
        + maybe_cid(left)
}

fn push_letter(out: &mut Vec<u8>, c: u8)
    ensures
        final(out)@ == old(out)@ + letter(c),
{
    let ghost had = out@;
    out.push(0x61);
    out.push(c);
    assert(out@ =~= had + letter(c));
}

fn push_uint(out: &mut Vec<u8>, n: u64)
    ensures
        final(out)@ == old(out)@ + uint_item(n as nat),
{
    let ghost had = out@;
    if n < 65536 {
        push_short_head(out, 0, n);
    } else {
        out.push(0x1B);
        let number = big_endian(n, 8);
        append_bytes(out, number.as_slice());
    }
    assert(out@ =~= had + uint_item(n as nat));
}

fn encode_tree_entry(entry: &MstEntry) -> (out: Vec<u8>)
    ensures
        out@ == entry_item(entry.deep_view()),
{
    let mut out: Vec<u8> = Vec::new();
    out.push(0xA4);
    assert(out@ =~= seq![0xA4u8]);
    push_letter(&mut out, 107);
    push_short_bytes_item(&mut out, entry.key_suffix.as_slice());
    push_letter(&mut out, 112);
    push_uint(&mut out, entry.prefix_len as u64);
    push_letter(&mut out, 116);
    match &entry.tree {
        Some(cid) => push_cid_item(&mut out, cid.as_slice()),
        None => push_null_item(&mut out),
    }
    push_letter(&mut out, 118);
    push_cid_item(&mut out, entry.value.as_slice());
    out
}

/// Writes a node.
pub fn encode_node(left: Option<&[u8]>, entries: &[MstEntry]) -> (out: Vec<u8>)
    ensures
        out@ == node_bytes(crate::atproto::car::shown_slice(left), entries.deep_view()),
{
    let ghost all = entries.deep_view();
    let mut out: Vec<u8> = Vec::new();
    out.push(0xA2);
    assert(out@ =~= seq![0xA2u8]);
    push_letter(&mut out, 101);
    push_short_head(&mut out, 4, entries.len() as u64);
    let ghost front = out@;
    let mut i: usize = 0;
    proof {
        assert(all.take(0) =~= Seq::<NodeEntry>::empty());
        assert(front + Seq::<u8>::empty() =~= front);
    }
    while i < entries.len()
        invariant
            i <= entries@.len(),
            all == entries.deep_view(),
            all.len() == entries@.len(),
            out@ == front + entry_items(all.take(i as int)),
        decreases entries@.len() - i,
    {
        let ghost before = entry_items(all.take(i as int));
        proof {
            assert(all.take(i + 1).drop_last() =~= all.take(i as int));
            assert(all.take(i + 1).last() == entries@[i as int].deep_view());
        }
        let one = encode_tree_entry(&entries[i]);
        append_bytes(&mut out, one.as_slice());
        assert(front + before + one@ =~= front + (before + one@));
        i += 1;
    }
    assert(all.take(i as int) =~= all);
    push_letter(&mut out, 108);
    match left {
        Some(cid) => push_cid_item(&mut out, cid),
        None => push_null_item(&mut out),
    }
    out
}

// -- Reading ----------------------------------------------------------------------------

/// The length that follows a head, in up to two bytes, and the position behind
/// it.
pub open spec fn head_length(data: Seq<u8>, pos: nat, info: u8) -> Result<(nat, nat), MstError> {
    if info < 24 {
        Ok((info as nat, pos))
    } else if info == 24 {
        if pos >= data.len() {
            Err(MstError::InvalidNode("truncated length"))
        } else {
            Ok((data[pos as int] as nat, pos + 1))
        }
    } else if info == 25 {
        if pos + 2 > data.len() {
            Err(MstError::InvalidNode("truncated length"))
        } else {
            Ok(((data[pos as int] * 256 + data[pos as int + 1]) as nat, pos + 2))
        }
    } else {
        Err(MstError::InvalidNode("unsupported CBOR length"))
    }
}

/// The text at a position, and the position behind it.
pub open spec fn node_text(data: Seq<u8>, pos: nat) -> Result<(Seq<char>, nat), MstError> {
    if pos >= data.len() {
        Err(MstError::InvalidNode("truncated text"))
    } else if data[pos as int] / 32 != 3 {
        Err(MstError::InvalidNode("expected text string"))
    } else {
        match head_length(data, pos + 1, data[pos as int] % 32) {
            Err(e) => Err(e),
            Ok((len, at)) => if at + len > data.len() {
                Err(MstError::InvalidNode("text extends past end"))
            } else if !valid_utf8(data.subrange(at as int, (at + len) as int)) {
                Err(MstError::InvalidNode("invalid UTF-8"))
            } else {
                Ok((decode_utf8(data.subrange(at as int, (at + len) as int)), at + len))
            },
        }
    }
}

/// The byte string at a position, and the position behind it.
pub open spec fn node_bytestring(data: Seq<u8>, pos: nat) -> Result<(Seq<u8>, nat), MstError> {
    if pos >= data.len() {
        Err(MstError::InvalidNode("truncated bytes"))
    } else if data[pos as int] / 32 != 2 {
        Err(MstError::InvalidNode("expected byte string"))
    } else {
        match head_length(data, pos + 1, data[pos as int] % 32) {
            Err(e) => Err(e),
            Ok((len, at)) => if at + len > data.len() {
                Err(MstError::InvalidNode("bytes extend past end"))
            } else {
                Ok((data.subrange(at as int, (at + len) as int), at + len))
            },
        }
    }
}

/// The number at a position, and the position behind it.
pub open spec fn node_uint(data: Seq<u8>, pos: nat) -> Result<(nat, nat), MstError> {
    if pos >= data.len() {
        Err(MstError::InvalidNode("truncated uint"))
    } else if data[pos as int] / 32 != 0 {
        Err(MstError::InvalidNode("expected unsigned int"))
    } else {
        let info = data[pos as int] % 32;
        if info < 24 {
            Ok((info as nat, pos + 1))
        } else if info == 24 {
            if pos + 1 >= data.len() {
                Err(MstError::InvalidNode("truncated uint"))
            } else {
                Ok((data[pos as int + 1] as nat, pos + 2))
            }
        } else if info == 25 {
            if pos + 3 > data.len() {
                Err(MstError::InvalidNode("truncated uint"))
            } else {
                Ok(((data[pos as int + 1] * 256 + data[pos as int + 2]) as nat, pos + 3))
            }
        } else {
            Err(MstError::InvalidNode("unsupported uint size"))
        }
    }
}

/// The content identifier at a position, and the position behind it.
pub open spec fn node_cid(data: Seq<u8>, pos: nat) -> Result<(Seq<u8>, nat), MstError> {
    if pos + 1 >= data.len() {
        Err(MstError::InvalidNode("truncated CID tag"))
    } else if data[pos as int] != 0xD8 || data[pos as int + 1] != 42 {
        Err(MstError::InvalidNode("expected CID tag 42"))
    } else if pos + 2 >= data.len() {
        Err(MstError::InvalidNode("truncated CID bytes"))
    } else if data[pos as int + 2] / 32 != 2 {
        Err(MstError::InvalidNode("expected byte string for CID"))
    } else {
        match head_length(data, pos + 3, data[pos as int + 2] % 32) {
            Err(e) => Err(e),
            Ok((len, at)) => if at + len > data.len() {
                Err(MstError::InvalidNode("CID data extends past end"))
            } else {
                Ok((without_zero(data.subrange(at as int, (at + len) as int)), at + len))
            },
        }
    }
}

/// The content identifier or nothing at a position, and the position behind it.
pub open spec fn node_maybe_cid(data: Seq<u8>, pos: nat) -> Result<(Option<Seq<u8>>, nat), MstError> {
    if pos >= data.len() {
        Err(MstError::InvalidNode("truncated nullable CID"))
    } else if data[pos as int] == 0xF6 {
        Ok((None, pos + 1))
    } else {
        match node_cid(data, pos) {
            Err(e) => Err(e),
            Ok((cid, next)) => Ok((Some(cid), next)),
        }
    }
}

/// The position behind the value at a position. What reaches past the end ends
/// there.
pub open spec fn node_value_end(data: Seq<u8>, pos: nat) -> Result<nat, MstError>
    decreases data.len() - pos, 0nat,
{
    if pos >= data.len() {
        Err(MstError::InvalidNode("truncated skip"))
    } else {
        let major = data[pos as int] / 32;
        let info = data[pos as int] % 32;
        if major <= 1 || major == 7 {
            Ok(capped(pos + 1 + number_size(info), data))
        } else if major == 6 {
            node_value_end(data, capped(pos + 1 + number_size(info), data))
        } else {
            match head_length(data, pos + 1, info) {
                Err(e) => Err(e),
                Ok((len, at)) => if at > data.len() {
                    Err(MstError::InvalidNode("truncated skip"))
                } else if major <= 3 {
                    Ok(capped(at + len, data))
                } else if major == 4 {
                    node_values_end(data, at, len)
                } else {
                    node_values_end(data, at, 2 * len)
                },
            }
        }
    }
}

/// The position behind so many values.
pub open spec fn node_values_end(data: Seq<u8>, pos: nat, count: nat) -> Result<nat, MstError>
    decreases data.len() - pos, count + 1,
{
    if count == 0 {
        Ok(pos)
    } else {
        match node_value_end(data, pos) {
            Err(e) => Err(e),
            Ok(next) => if pos < next <= data.len() {
                node_values_end(data, next, (count - 1) as nat)
            } else {
                Err(MstError::InvalidNode("truncated skip"))
            },
        }
    }
}

/// An entry of which nothing is known.
pub open spec fn blank_entry() -> NodeEntry {
    NodeEntry {
        prefix_len: 0,
        key_suffix: Seq::empty(),
        value: Seq::new(36, |i: int| 0u8),
        tree: None,
    }
}

/// A content identifier of thirty-six bytes; nothing where it has another
/// length.
pub open spec fn full_cid(cid: Option<Seq<u8>>) -> Option<Seq<u8>> {
    match cid {
        Some(c) => if c.len() == 36 {
            Some(c)
        } else {
            None
        },
        None => None,
    }
}

/// An entry after one more of its fields, and the position behind it.
#[verifier::opaque]
pub open spec fn entry_field(data: Seq<u8>, pos: nat, e: NodeEntry) -> Result<
    (NodeEntry, nat),
    MstError,
> {
    match node_text(data, pos) {
        Err(f) => Err(f),
        Ok((key, at)) => if key == "p"@ {
            match node_uint(data, at) {
                Err(f) => Err(f),
                Ok((n, next)) => Ok((NodeEntry { prefix_len: n, ..e }, next)),
            }
        } else if key == "k"@ {
            match node_bytestring(data, at) {
                Err(f) => Err(f),
                Ok((suffix, next)) => Ok((NodeEntry { key_suffix: suffix, ..e }, next)),
            }
        } else if key == "v"@ {
            match node_cid(data, at) {
                Err(f) => Err(f),
                Ok((cid, next)) => if cid.len() == 36 {
                    Ok((NodeEntry { value: cid, ..e }, next))
                } else {
                    Err(MstError::InvalidNode("value CID wrong length"))
                },
            }
        } else if key == "t"@ {
            match node_maybe_cid(data, at) {
                Err(f) => Err(f),
                Ok((cid, next)) => Ok((NodeEntry { tree: full_cid(cid), ..e }, next)),
            }
        } else {
            match node_value_end(data, at) {
                Err(f) => Err(f),
                Ok(next) => Ok((e, next)),
            }
        },
    }
}

/// An entry after so many of its fields, and the position behind them.
pub open spec fn entry_fields(data: Seq<u8>, pos: nat, count: nat) -> Result<
    (NodeEntry, nat),
    MstError,
>
    decreases count,
{
    if count == 0 {
        Ok((blank_entry(), pos))
    } else {
        match entry_fields(data, pos, (count - 1) as nat) {
            Err(f) => Err(f),
            Ok((e, at)) => entry_field(data, at, e),
        }
    }
}

/// The entry at a position, and the position behind it.
#[verifier::opaque]
pub open spec fn entry_at(data: Seq<u8>, pos: nat) -> Result<(NodeEntry, nat), MstError> {
    if pos >= data.len() {
        Err(MstError::InvalidNode("truncated entry"))
    } else if data[pos as int] / 32 != 5 {
        Err(MstError::InvalidNode("expected map for entry"))
    } else {
        entry_fields(data, pos + 1, (data[pos as int] % 32) as nat)
    }
}

/// The entries at a position, and the position behind them.
pub open spec fn entries_from(data: Seq<u8>, pos: nat, count: nat) -> Result<
    (Seq<NodeEntry>, nat),
    MstError,
>
    decreases count,
{
    if count == 0 {
        Ok((Seq::empty(), pos))
    } else {
        match entries_from(data, pos, (count - 1) as nat) {
            Err(f) => Err(f),
            Ok((front, at)) => match entry_at(data, at) {
                Err(f) => Err(f),
                Ok((e, next)) => Ok((front.push(e), next)),
            },
        }
    }
}

/// The list of entries at a position, and the position behind it.
pub open spec fn entries_at(data: Seq<u8>, pos: nat) -> Result<(Seq<NodeEntry>, nat), MstError> {
    if pos >= data.len() {
        Err(MstError::InvalidNode("truncated entries array"))
    } else if data[pos as int] / 32 != 4 {
        Err(MstError::InvalidNode("expected array for entries"))
    } else {
        match head_length(data, pos + 1, data[pos as int] % 32) {
            Err(f) => Err(f),
            Ok((count, at)) => entries_from(data, at, count),
        }
    }
}

/// What a node holds: the tree before its first key, and its entries.
pub type NodeParts = (Option<Seq<u8>>, Seq<NodeEntry>);

/// A node after one more of its fields, and the position behind it.
pub open spec fn node_field(data: Seq<u8>, pos: nat, parts: NodeParts) -> Result<
    (NodeParts, nat),
    MstError,
> {
    match node_text(data, pos) {
        Err(f) => Err(f),
        Ok((key, at)) => if key == "e"@ {
            match entries_at(data, at) {
                Err(f) => Err(f),
                Ok((entries, next)) => Ok(((parts.0, entries), next)),
            }
        } else if key == "l"@ {
            match node_maybe_cid(data, at) {
                Err(f) => Err(f),
                Ok((left, next)) => Ok(((left, parts.1), next)),
            }
        } else {
            match node_value_end(data, at) {
                Err(f) => Err(f),
                Ok(next) => Ok((parts, next)),
            }
        },
    }
}

/// A node after so many of its fields, and the position behind them.
pub open spec fn node_fields(data: Seq<u8>, pos: nat, count: nat) -> Result<
    (NodeParts, nat),
    MstError,
>
    decreases count,
{
    if count == 0 {
        Ok(((None, Seq::empty()), pos))
    } else {
        match node_fields(data, pos, (count - 1) as nat) {
            Err(f) => Err(f),
            Ok((parts, at)) => node_field(data, at, parts),
        }
    }
}

/// What a node holds.
pub open spec fn node_parts(data: Seq<u8>) -> Result<NodeParts, MstError> {
    if data.len() == 0 {
        Err(MstError::InvalidNode("empty data"))
    } else if data[0] / 32 != 5 {
        Err(MstError::InvalidNode("expected CBOR map"))
    } else {
        match node_fields(data, 1, (data[0] % 32) as nat) {
            Err(f) => Err(f),
            Ok((parts, _)) => Ok(parts),
        }
    }
}

fn read_cbor_length(info: u8, data: &[u8], pos: usize) -> (out: Result<(usize, usize), MstError>)
    requires
        pos <= data@.len(),
    ensures
        match (out, head_length(data@, pos as nat, info)) {
            (Ok((len, next)), Ok((n, p))) => len == n && next == p && pos <= next <= data@.len()
                && len < 65536,
            (Err(e), Err(f)) => e == f,
            _ => false,
        },
{
    if info < 24 {
        Ok((info as usize, pos))
    } else if info == 24 {
        if pos >= data.len() {
            return Err(MstError::InvalidNode("truncated length"));
        }
        Ok((data[pos] as usize, pos + 1))
    } else if info == 25 {
        if data.len() - pos < 2 {
            return Err(MstError::InvalidNode("truncated length"));
        }
        Ok((data[pos] as usize * 256 + data[pos + 1] as usize, pos + 2))
    } else {
        Err(MstError::InvalidNode("unsupported CBOR length"))
    }
}

fn read_cbor_text(data: &[u8], pos: usize) -> (out: Result<(String, usize), MstError>)
    requires
        pos <= data@.len(),
    ensures
        match (out, node_text(data@, pos as nat)) {
            (Ok((s, next)), Ok((t, p))) => s@ == t && next == p && pos < next <= data@.len(),
            (Err(e), Err(f)) => e == f,
            _ => false,
        },
{
    if pos >= data.len() {
        return Err(MstError::InvalidNode("truncated text"));
    }
    if data[pos] / 32 != 3 {
        return Err(MstError::InvalidNode("expected text string"));
    }
    let (len, at) = match read_cbor_length(data[pos] % 32, data, pos + 1) {
        Ok(r) => r,
        Err(e) => return Err(e),
    };
    if len > data.len() - at {
        return Err(MstError::InvalidNode("text extends past end"));
    }
    match utf8_text(copy_range(data, at, at + len)) {
        Some(s) => Ok((s, at + len)),
        None => Err(MstError::InvalidNode("invalid UTF-8")),
    }
}

fn read_cbor_bytestring(data: &[u8], pos: usize) -> (out: Result<(Vec<u8>, usize), MstError>)
    requires
        pos <= data@.len(),
    ensures
        match (out, node_bytestring(data@, pos as nat)) {
            (Ok((s, next)), Ok((t, p))) => s@ == t && next == p && pos < next <= data@.len(),
            (Err(e), Err(f)) => e == f,
            _ => false,
        },
{
    if pos >= data.len() {
        return Err(MstError::InvalidNode("truncated bytes"));
    }
    if data[pos] / 32 != 2 {
        return Err(MstError::InvalidNode("expected byte string"));
    }
    let (len, at) = match read_cbor_length(data[pos] % 32, data, pos + 1) {
        Ok(r) => r,
        Err(e) => return Err(e),
    };
    if len > data.len() - at {
        return Err(MstError::InvalidNode("bytes extend past end"));
    }
    Ok((copy_range(data, at, at + len), at + len))
}

fn read_cbor_uint(data: &[u8], pos: usize) -> (out: Result<(usize, usize), MstError>)
    requires
        pos <= data@.len(),
    ensures
        match (out, node_uint(data@, pos as nat)) {
            (Ok((v, next)), Ok((n, p))) => v == n && next == p && pos < next <= data@.len(),
            (Err(e), Err(f)) => e == f,
            _ => false,
        },
{
    if pos >= data.len() {
        return Err(MstError::InvalidNode("truncated uint"));
    }
    if data[pos] / 32 != 0 {
        return Err(MstError::InvalidNode("expected unsigned int"));
    }
    let info: u8 = data[pos] % 32;
    if info < 24 {
        Ok((info as usize, pos + 1))
    } else if info == 24 {
        if data.len() - pos < 2 {
            return Err(MstError::InvalidNode("truncated uint"));
        }
        Ok((data[pos + 1] as usize, pos + 2))
    } else if info == 25 {
        if data.len() - pos < 3 {
            return Err(MstError::InvalidNode("truncated uint"));
        }
        Ok((data[pos + 1] as usize * 256 + data[pos + 2] as usize, pos + 3))
    } else {
        Err(MstError::InvalidNode("unsupported uint size"))
    }
}

fn read_cbor_cid_value(data: &[u8], pos: usize) -> (out: Result<(Vec<u8>, usize), MstError>)
    requires
        pos <= data@.len(),
    ensures
        match (out, node_cid(data@, pos as nat)) {
            (Ok((s, next)), Ok((t, p))) => s@ == t && next == p && pos < next <= data@.len(),
            (Err(e), Err(f)) => e == f,
            _ => false,
        },
{
    if data.len() - pos < 2 {
        return Err(MstError::InvalidNode("truncated CID tag"));
    }
    if data[pos] != 0xD8 || data[pos + 1] != 42 {
        return Err(MstError::InvalidNode("expected CID tag 42"));
    }
    if data.len() - pos < 3 {
        return Err(MstError::InvalidNode("truncated CID bytes"));
    }
    if data[pos + 2] / 32 != 2 {
        return Err(MstError::InvalidNode("expected byte string for CID"));
    }
    let (len, at) = match read_cbor_length(data[pos + 2] % 32, data, pos + 3) {
        Ok(r) => r,
        Err(e) => return Err(e),
    };
    if len > data.len() - at {
        return Err(MstError::InvalidNode("CID data extends past end"));
    }
    if len > 0 && data[at] == 0 {
        assert(data@.subrange(at as int, at + len).skip(1) =~= data@.subrange(at + 1, at + len));
        Ok((copy_range(data, at + 1, at + len), at + len))
    } else {
        Ok((copy_range(data, at, at + len), at + len))
    }
}

fn read_nullable_cid(data: &[u8], pos: usize) -> (out: Result<(Option<Vec<u8>>, usize), MstError>)
    requires
        pos <= data@.len(),
    ensures
        match (out, node_maybe_cid(data@, pos as nat)) {
            (Ok((s, next)), Ok((t, p))) => crate::atproto::commit::shown_bytes(s) == t && next == p
                && pos < next <= data@.len(),
            (Err(e), Err(f)) => e == f,
            _ => false,
        },
{
    if pos >= data.len() {
        return Err(MstError::InvalidNode("truncated nullable CID"));
    }
    if data[pos] == 0xF6 {
        return Ok((None, pos + 1));
    }
    match read_cbor_cid_value(data, pos) {
        Ok((cid, next)) => Ok((Some(cid), next)),
        Err(e) => Err(e),
    }
}

/// Values end behind where they begin.
proof fn lemma_node_value_end(data: Seq<u8>, pos: nat)
    ensures
        node_value_end(data, pos) matches Ok(next) ==> pos < next <= data.len(),
    decreases data.len() - pos, 0nat,
{
    if pos < data.len() {
        let major = data[pos as int] / 32;
        let info = data[pos as int] % 32;
        if major == 6 {
            lemma_node_value_end(data, capped(pos + 1 + number_size(info), data));
        } else if let Ok((len, at)) = head_length(data, pos + 1, info) {
            if at <= data.len() {
                lemma_node_values_end(data, at, len);
                lemma_node_values_end(data, at, 2 * len);
            }
        }
    }
}

proof fn lemma_node_values_end(data: Seq<u8>, pos: nat, count: nat)
    requires
        pos <= data.len(),
    ensures
        node_values_end(data, pos, count) matches Ok(next) ==> pos <= next <= data.len(),
    decreases data.len() - pos, count + 1,
{
    if count > 0 {
        lemma_node_value_end(data, pos);
        if let Ok(next) = node_value_end(data, pos) {
            lemma_node_values_end(data, next, (count - 1) as nat);
        }
    }
}

fn advance(data: &[u8], at: usize, n: usize) -> (next: usize)
    requires
        at <= data@.len(),
    ensures
        next == capped((at + n) as nat, data@),
{
    if n < data.len() - at {
        at + n
    } else {
        data.len()
    }
}

/// Finds the position behind the value at a position.
pub fn skip_cbor(data: &[u8], pos: usize) -> (out: Result<usize, MstError>)
    requires
        pos <= data@.len(),
    ensures
        match (out, node_value_end(data@, pos as nat)) {
            (Ok(next), Ok(p)) => next == p && pos < next <= data@.len(),
            (Err(e), Err(f)) => e == f,
            _ => false,
        },
    decreases data@.len() - pos, 0nat,
{
    proof {
        lemma_node_value_end(data@, pos as nat);
    }
    if pos >= data.len() {
        return Err(MstError::InvalidNode("truncated skip"));
    }
    let major: u8 = data[pos] / 32;
    let info: u8 = data[pos] % 32;
    let extra: usize = if info == 24 {
        1
    } else if info == 25 {
        2
    } else if info == 26 {
        4
    } else if info == 27 {
        8
    } else {
        0
    };
    if major <= 1 || major == 7 {
        return Ok(advance(data, pos + 1, extra));
    }
    if major == 6 {
        let next: usize = advance(data, pos + 1, extra);
        return skip_cbor(data, next);
    }
    let (len, at) = match read_cbor_length(info, data, pos + 1) {
        Ok(r) => r,
        Err(e) => return Err(e),
    };
    if major <= 3 {
        Ok(advance(data, at, len))
    } else if major == 4 {
        skip_values(data, at, len)
    } else {
        skip_values(data, at, 2 * len)
    }
}

fn skip_values(data: &[u8], pos: usize, count: usize) -> (out: Result<usize, MstError>)
    requires
        pos <= data@.len(),
    ensures
        match (out, node_values_end(data@, pos as nat, count as nat)) {
            (Ok(next), Ok(p)) => next == p && pos <= next <= data@.len(),
            (Err(e), Err(f)) => e == f,
            _ => false,
        },
    decreases data@.len() - pos, count + 1,
{
    let mut at: usize = pos;
    let mut left: usize = count;
    while left > 0
        invariant
            pos <= at <= data@.len(),
            left <= count,
            node_values_end(data@, pos as nat, count as nat) == node_values_end(
                data@,
                at as nat,
                left as nat,
            ),
        decreases left,
    {
        match skip_cbor(data, at) {
            Ok(next) => {
                at = next;
                left -= 1;
            },
            Err(e) => return Err(e),
        }
    }
    Ok(at)
}

fn cid_array(cid: &Vec<u8>) -> (out: [u8; 36])
    requires
        cid@.len() == 36,
    ensures
        out@ == cid@,
{
    let mut out = [0u8; 36];
    let mut i: usize = 0;
    while i < 36
        invariant
            i <= 36,
            out@.len() == 36,
            cid@.len() == 36,
            forall|k: int| 0 <= k < i ==> out@[k] == cid@[k],
        decreases 36 - i,
    {
        out[i] = cid[i];
        i += 1;
    }
    assert(out@ =~= cid@);
    out
}

fn read_tree_entry(data: &[u8], pos: usize) -> (out: Result<(MstEntry, usize), MstError>)
    requires
        pos <= data@.len(),
    ensures
        match (out, entry_at(data@, pos as nat)) {
            (Ok((e, next)), Ok((f, p))) => e.deep_view() == f && next == p && pos < next
                <= data@.len(),
            (Err(e), Err(f)) => e == f,
            _ => false,
        },
{
    reveal(entry_at);
    if pos >= data.len() {
        return Err(MstError::InvalidNode("truncated entry"));
    }
    if data[pos] / 32 != 5 {
        return Err(MstError::InvalidNode("expected map for entry"));
    }
    let count: usize = (data[pos] % 32) as usize;
    let start: usize = pos + 1;
    let mut at: usize = start;
    let mut prefix_len: usize = 0;
    let mut key_suffix: Vec<u8> = Vec::new();
    let mut value = [0u8; 36];
    let mut tree: Option<[u8; 36]> = None;
    let ghost mut entry = blank_entry();
    let mut i: usize = 0;
    proof {
        assert(value@ =~= entry.value);
        assert(key_suffix@ =~= entry.key_suffix);
    }
    while i < count
        invariant
            i <= count,
            start <= at <= data@.len(),
            start == pos + 1,
            entry_at(data@, pos as nat) == entry_fields(data@, start as nat, count as nat),
            entry_fields(data@, start as nat, i as nat) == Ok::<(NodeEntry, nat), MstError>(
                (entry, at as nat),
            ),
            entry == (NodeEntry {
                prefix_len: prefix_len as nat,
                key_suffix: key_suffix@,
                value: value@,
                tree: shown_cid(tree),
            }),
        decreases count - i,
    {
        proof {
            reveal(entry_field);
            if entry_fields(data@, start as nat, (i + 1) as nat) is Err {
                lemma_fields_stay(data@, start as nat, (i + 1) as nat, count as nat);
            }
        }
        let (key, from) = match read_cbor_text(data, at) {
            Ok(r) => r,
            Err(e) => return Err(e),
        };
        if same_text(key.as_str(), "p") {
            let (n, next) = match read_cbor_uint(data, from) {
                Ok(r) => r,
                Err(e) => return Err(e),
            };
            prefix_len = n;
            at = next;
        } else if same_text(key.as_str(), "k") {
            let (suffix, next) = match read_cbor_bytestring(data, from) {
                Ok(r) => r,
                Err(e) => return Err(e),
            };
            key_suffix = suffix;
            at = next;
        } else if same_text(key.as_str(), "v") {
            let (cid, next) = match read_cbor_cid_value(data, from) {
                Ok(r) => r,
                Err(e) => return Err(e),
            };
            if cid.len() != 36 {
                return Err(MstError::InvalidNode("value CID wrong length"));
            }
            value = cid_array(&cid);
            at = next;
        } else if same_text(key.as_str(), "t") {
            let (cid, next) = match read_nullable_cid(data, from) {
                Ok(r) => r,
                Err(e) => return Err(e),
            };
            tree = match cid {
                Some(c) => if c.len() == 36 {
                    Some(cid_array(&c))
                } else {
                    None
                },
                None => None,
            };
            at = next;
        } else {
            at = match skip_cbor(data, from) {
                Ok(next) => next,
                Err(e) => return Err(e),
            };
        }
        proof {
            entry = (entry_fields(data@, start as nat, (i + 1) as nat)->Ok_0).0;
        }
        i += 1;
    }
    Ok((MstEntry { prefix_len, key_suffix, value, tree }, at))
}

proof fn lemma_fields_stay(data: Seq<u8>, pos: nat, n: nat, count: nat)
    requires
        n <= count,
        entry_fields(data, pos, n) is Err,
    ensures
        entry_fields(data, pos, count) == entry_fields(data, pos, n),
    decreases count - n,
{
    if n < count {
        lemma_fields_stay(data, pos, n, (count - 1) as nat);
    }
}

proof fn lemma_entries_stay(data: Seq<u8>, pos: nat, n: nat, count: nat)
    requires
        n <= count,
        entries_from(data, pos, n) is Err,
    ensures
        entries_from(data, pos, count) == entries_from(data, pos, n),
    decreases count - n,
{
    if n < count {
        lemma_entries_stay(data, pos, n, (count - 1) as nat);
    }
}

proof fn lemma_node_stays(data: Seq<u8>, pos: nat, n: nat, count: nat)
    requires
        n <= count,
        node_fields(data, pos, n) is Err,
    ensures
        node_fields(data, pos, count) == node_fields(data, pos, n),
    decreases count - n,
{
    if n < count {
        lemma_node_stays(data, pos, n, (count - 1) as nat);
    }
}

fn read_entries_array(data: &[u8], pos: usize) -> (out: Result<(Vec<MstEntry>, usize), MstError>)
    requires
        pos <= data@.len(),
    ensures
        match (out, entries_at(data@, pos as nat)) {
            (Ok((list, next)), Ok((l, p))) => list.deep_view() == l && next == p && pos < next
                <= data@.len(),
            (Err(e), Err(f)) => e == f,
            _ => false,
        },
{
    if pos >= data.len() {
        return Err(MstError::InvalidNode("truncated entries array"));
    }
    if data[pos] / 32 != 4 {
        return Err(MstError::InvalidNode("expected array for entries"));
    }
    let (count, start) = match read_cbor_length(data[pos] % 32, data, pos + 1) {
        Ok(r) => r,
        Err(e) => return Err(e),
    };
    let mut list: Vec<MstEntry> = Vec::new();
    let mut at: usize = start;
    let mut i: usize = 0;
    assert(list.deep_view() =~= Seq::<NodeEntry>::empty());
    while i < count
        invariant
            i <= count,
            pos < start <= at <= data@.len(),
            entries_at(data@, pos as nat) == entries_from(data@, start as nat, count as nat),
            entries_from(data@, start as nat, i as nat) == Ok::<(Seq<NodeEntry>, nat), MstError>(
                (list.deep_view(), at as nat),
            ),
        decreases count - i,
    {
        let ghost had = list.deep_view();
        proof {
            if entries_from(data@, start as nat, (i + 1) as nat) is Err {
                lemma_entries_stay(data@, start as nat, (i + 1) as nat, count as nat);
            }
        }
        let (entry, next) = match read_tree_entry(data, at) {
            Ok(r) => r,
            Err(e) => return Err(e),
        };
        let ghost shown = entry.deep_view();
        list.push(entry);
        assert(list.deep_view() =~= had.push(shown));
        at = next;
        i += 1;
    }
    Ok((list, at))
}

/// Reads a node: the tree before its first key, and its entries.
pub fn decode_node(data: &[u8]) -> (out: Result<(Option<Vec<u8>>, Vec<MstEntry>), MstError>)
    ensures
        match (out, node_parts(data@)) {
            (Ok((left, entries)), Ok((l, e))) => crate::atproto::commit::shown_bytes(left) == l
                && entries.deep_view() == e,
            (Err(e), Err(f)) => e == f,
            _ => false,
        },
{
    if data.len() == 0 {
        return Err(MstError::InvalidNode("empty data"));
    }
    if data[0] / 32 != 5 {
        return Err(MstError::InvalidNode("expected CBOR map"));
    }
    let count: usize = (data[0] % 32) as usize;
    let mut left: Option<Vec<u8>> = None;
    let mut entries: Vec<MstEntry> = Vec::new();
    let mut at: usize = 1;
    let mut i: usize = 0;
    assert(entries.deep_view() =~= Seq::<NodeEntry>::empty());
    while i < count
        invariant
            i <= count,
            count == data@[0] % 32,
            at <= data@.len(),
            node_parts(data@) == (match node_fields(data@, 1, count as nat) {
                Err(f) => Err(f),
                Ok((parts, _)) => Ok(parts),
            }),
            node_fields(data@, 1, i as nat) == Ok::<(NodeParts, nat), MstError>(
                (
                    (crate::atproto::commit::shown_bytes(left), entries.deep_view()),
                    at as nat,
                ),
            ),
        decreases count - i,
    {
        proof {
            if node_fields(data@, 1, (i + 1) as nat) is Err {
                lemma_node_stays(data@, 1, (i + 1) as nat, count as nat);
            }
        }
        let (key, from) = match read_cbor_text(data, at) {
            Ok(r) => r,
            Err(e) => return Err(e),
        };
        if same_text(key.as_str(), "e") {
            let (list, next) = match read_entries_array(data, from) {
                Ok(r) => r,
                Err(e) => return Err(e),
            };
            entries = list;
            at = next;
        } else if same_text(key.as_str(), "l") {
            let (cid, next) = match read_nullable_cid(data, from) {
                Ok(r) => r,
                Err(e) => return Err(e),
            };
            left = cid;
            at = next;
        } else {
            at = match skip_cbor(data, from) {
                Ok(next) => next,
                Err(e) => return Err(e),
            };
        }
        i += 1;
    }
    Ok((left, entries))
}

// -- Laws ---------------------------------------------------------------------------------

proof fn lemma_head_within(front: Seq<u8>, major: u8, n: nat, rest: Seq<u8>)
    requires
        major < 8,
        n < 65536,
    ensures
        ({
            let head = short_head(major, n);
            let data = front + head + rest;
            let at = front.len() as int;
            &&& head.len() > 0
            &&& data[at] / 32 == major
            &&& head_length(data, front.len() + 1, data[at] % 32) == Ok::<(nat, nat), MstError>(
                (n, front.len() + head.len()),
            )
        }),
{
    let head = short_head(major, n);
    let data = front + head + rest;
    let at = front.len() as int;
    assert(data[at] == head[0]);
    if n >= 24 && n < 256 {
        assert(data[at + 1] == head[1]);
    } else if n >= 256 {
        reveal_with_fuel(be_bytes, 3);
        let number = be_bytes(n as int, 2);
        assert(number =~= seq![((n / 256) % 256) as u8, (n % 256) as u8]);
        assert(head =~= seq![head[0], number[0], number[1]]);
        assert(data[at + 1] == head[1]);
        assert(data[at + 2] == head[2]);
    }
}

proof fn lemma_letter_within(front: Seq<u8>, c: u8, key: Seq<char>, rest: Seq<u8>)
    requires
        c < 128,
        key =~= seq![c as char],
    ensures
        node_text(front + letter(c) + rest, front.len()) == Ok::<(Seq<char>, nat), MstError>(
            (key, front.len() + 2),
        ),
{
    let data = front + letter(c) + rest;
    let at = front.len() as int;
    assert(data[at] == 0x61);
    let text = data.subrange(at + 1, at + 2);
    assert(text =~= seq![c]);
    vstd::utf8::is_ascii_chars_encode_utf8(key);
    assert(vstd::utf8::encode_utf8(key) =~= text);
    vstd::utf8::encode_utf8_valid_utf8(key);
    vstd::utf8::encode_utf8_decode_utf8(key);
}

proof fn lemma_bytes_within(front: Seq<u8>, bytes: Seq<u8>, rest: Seq<u8>)
    requires
        bytes.len() < 65536,
    ensures
        node_bytestring(front + short_bytes_item(bytes) + rest, front.len()) == Ok::<
            (Seq<u8>, nat),
            MstError,
        >((bytes, front.len() + short_bytes_item(bytes).len())),
{
    let head = short_head(2, bytes.len());
    let data = front + short_bytes_item(bytes) + rest;
    lemma_head_within(front, 2, bytes.len(), bytes + rest);
    assert(data =~= front + head + (bytes + rest));
    let at = (front.len() + head.len()) as int;
    assert(data.subrange(at, at + bytes.len()) =~= bytes);
}

proof fn lemma_uint_within(front: Seq<u8>, n: nat, rest: Seq<u8>)
    requires
        n < 65536,
    ensures
        node_uint(front + uint_item(n) + rest, front.len()) == Ok::<(nat, nat), MstError>(
            (n, front.len() + uint_item(n).len()),
        ),
{
    lemma_head_within(front, 0, n, rest);
    let data = front + uint_item(n) + rest;
    let at = front.len() as int;
    assert(head_length(data, (at + 1) as nat, data[at] % 32) == Ok::<(nat, nat), MstError>(
        (n, (at + uint_item(n).len()) as nat),
    ));
}

proof fn lemma_cid_within(front: Seq<u8>, cid: Seq<u8>, rest: Seq<u8>)
    requires
        cid.len() < 65535,
    ensures
        node_cid(front + cid_item(cid) + rest, front.len()) == Ok::<(Seq<u8>, nat), MstError>(
            (cid, front.len() + cid_item(cid).len()),
        ),
        cid_item(cid)[0] == 0xD8,
        cid_item(cid).len() > 0,
{
    let head = short_head(2, cid.len() + 1);
    let data = front + cid_item(cid) + rest;
    let tag = front + seq![0xD8u8, 42];
    let body = seq![0u8] + cid;
    lemma_head_within(tag, 2, cid.len() + 1, body + rest);
    assert(data =~= tag + head + (body + rest));
    let at = front.len() as int;
    assert(data[at] == 0xD8);
    assert(data[at + 1] == 42);
    let start = (tag.len() + head.len()) as int;
    assert(data.subrange(start, start + cid.len() + 1) =~= body);
    assert(body.skip(1) =~= cid);
    assert(tag.len() == at + 2);
}

proof fn lemma_maybe_cid_within(front: Seq<u8>, cid: Option<Seq<u8>>, rest: Seq<u8>)
    requires
        cid matches Some(c) ==> c.len() < 65535,
    ensures
        node_maybe_cid(front + maybe_cid(cid) + rest, front.len()) == Ok::<
            (Option<Seq<u8>>, nat),
            MstError,
        >((cid, front.len() + maybe_cid(cid).len())),
{
    let data = front + maybe_cid(cid) + rest;
    let at = front.len() as int;
    assert(maybe_cid(cid).len() > 0);
    assert(data[at] == maybe_cid(cid)[0]);
    if let Some(c) = cid {
        lemma_cid_within(front, c, rest);
    }
}

/// Whether an entry can be written and read.
pub open spec fn entry_readable(e: NodeEntry) -> bool {
    &&& e.prefix_len < 65536
    &&& e.key_suffix.len() < 65536
    &&& e.value.len() == 36
    &&& e.tree matches Some(c) ==> c.len() == 36
}

proof fn lemma_letters()
    ensures
        "k"@ == seq!['k'],
        "p"@ == seq!['p'],
        "t"@ == seq!['t'],
        "v"@ == seq!['v'],
        "e"@ == seq!['e'],
        "l"@ == seq!['l'],
{
    reveal_strlit("k");
    reveal_strlit("p");
    reveal_strlit("t");
    reveal_strlit("v");
    reveal_strlit("e");
    reveal_strlit("l");
    assert("k"@ =~= seq!['k']);
    assert("p"@ =~= seq!['p']);
    assert("t"@ =~= seq!['t']);
    assert("v"@ =~= seq!['v']);
    assert("e"@ =~= seq!['e']);
    assert("l"@ =~= seq!['l']);
}

proof fn lemma_field_k(front: Seq<u8>, suffix: Seq<u8>, rest: Seq<u8>, e: NodeEntry)
    requires
        suffix.len() < 65536,
    ensures
        entry_field(front + letter(107) + short_bytes_item(suffix) + rest, front.len(), e) == Ok::<
            (NodeEntry, nat),
            MstError,
        >(
            (
                NodeEntry { key_suffix: suffix, ..e },
                front.len() + letter(107).len() + short_bytes_item(suffix).len(),
            ),
        ),
{
    reveal(entry_field);
    lemma_letters();
    let key = front + letter(107);
    let data = key + short_bytes_item(suffix) + rest;
    lemma_letter_within(front, 107, "k"@, short_bytes_item(suffix) + rest);
    assert(data =~= front + letter(107) + (short_bytes_item(suffix) + rest));
    lemma_bytes_within(key, suffix, rest);
    assert("k"@[0] != "p"@[0]);
}

proof fn lemma_field_p(front: Seq<u8>, n: nat, rest: Seq<u8>, e: NodeEntry)
    requires
        n < 65536,
    ensures
        entry_field(front + letter(112) + uint_item(n) + rest, front.len(), e) == Ok::<
            (NodeEntry, nat),
            MstError,
        >(
            (
                NodeEntry { prefix_len: n, ..e },
                front.len() + letter(112).len() + uint_item(n).len(),
            ),
        ),
{
    reveal(entry_field);
    lemma_letters();
    let key = front + letter(112);
    let data = key + uint_item(n) + rest;
    lemma_letter_within(front, 112, "p"@, uint_item(n) + rest);
    assert(data =~= front + letter(112) + (uint_item(n) + rest));
    lemma_uint_within(key, n, rest);
}

proof fn lemma_field_t(front: Seq<u8>, tree: Option<Seq<u8>>, rest: Seq<u8>, e: NodeEntry)
    requires
        tree matches Some(c) ==> c.len() == 36,
    ensures
        entry_field(front + letter(116) + maybe_cid(tree) + rest, front.len(), e) == Ok::<
            (NodeEntry, nat),
            MstError,
        >(
            (
                NodeEntry { tree, ..e },
                front.len() + letter(116).len() + maybe_cid(tree).len(),
            ),
        ),
{
    reveal(entry_field);
    lemma_letters();
    let key = front + letter(116);
    let data = key + maybe_cid(tree) + rest;
    lemma_letter_within(front, 116, "t"@, maybe_cid(tree) + rest);
    assert(data =~= front + letter(116) + (maybe_cid(tree) + rest));
    lemma_maybe_cid_within(key, tree, rest);
    assert("t"@[0] != "p"@[0] && "t"@[0] != "k"@[0] && "t"@[0] != "v"@[0]);
}

proof fn lemma_field_v(front: Seq<u8>, value: Seq<u8>, rest: Seq<u8>, e: NodeEntry)
    requires
        value.len() == 36,
    ensures
        entry_field(front + letter(118) + cid_item(value) + rest, front.len(), e) == Ok::<
            (NodeEntry, nat),
            MstError,
        >(
            (
                NodeEntry { value, ..e },
                front.len() + letter(118).len() + cid_item(value).len(),
            ),
        ),
{
    reveal(entry_field);
    lemma_letters();
    let key = front + letter(118);
    let data = key + cid_item(value) + rest;
    lemma_letter_within(front, 118, "v"@, cid_item(value) + rest);
    assert(data =~= front + letter(118) + (cid_item(value) + rest));
    lemma_cid_within(key, value, rest);
    assert("v"@[0] != "p"@[0] && "v"@[0] != "k"@[0]);
}

proof fn lemma_four_fields(
    front: Seq<u8>,
    head: Seq<u8>,
    k: (Seq<u8>, Seq<u8>),
    p: (Seq<u8>, Seq<u8>),
    t: (Seq<u8>, Seq<u8>),
    v: (Seq<u8>, Seq<u8>),
    rest: Seq<u8>,
)
    ensures
        ({
            let item = head + k.0 + k.1 + p.0 + p.1 + t.0 + t.1 + v.0 + v.1;
            let x0 = front + head;
            let x1 = x0 + k.0 + k.1;
            let x2 = x1 + p.0 + p.1;
            let x3 = x2 + t.0 + t.1;
            let y3 = v.0 + v.1 + rest;
            let y2 = t.0 + t.1 + y3;
            let y1 = p.0 + p.1 + y2;
            &&& front + item + rest == x0 + k.0 + k.1 + y1
            &&& front + item + rest == x1 + p.0 + p.1 + y2
            &&& front + item + rest == x2 + t.0 + t.1 + y3
            &&& front + item + rest == x3 + v.0 + v.1 + rest
        }),
{
    let item = head + k.0 + k.1 + p.0 + p.1 + t.0 + t.1 + v.0 + v.1;
    let x0 = front + head;
    let x1 = x0 + k.0 + k.1;
    let x2 = x1 + p.0 + p.1;
    let x3 = x2 + t.0 + t.1;
    let y3 = v.0 + v.1 + rest;
    let y2 = t.0 + t.1 + y3;
    let y1 = p.0 + p.1 + y2;
    assert(x2 + t.0 + t.1 + y3 =~= x3 + v.0 + v.1 + rest);
    assert(x1 + p.0 + p.1 + y2 =~= x2 + t.0 + t.1 + y3);
    assert(x0 + k.0 + k.1 + y1 =~= x1 + p.0 + p.1 + y2);
    assert(front + item + rest =~= x3 + v.0 + v.1 + rest);
}

proof fn lemma_entry_within(front: Seq<u8>, e: NodeEntry, rest: Seq<u8>)
    requires
        entry_readable(e),
    ensures
        entry_at(front + entry_item(e) + rest, front.len()) == Ok::<(NodeEntry, nat), MstError>(
            (e, front.len() + entry_item(e).len()),
        ),
{
    let data = front + entry_item(e) + rest;
    let head = seq![0xA4u8];
    let x0 = front + head;
    let k = short_bytes_item(e.key_suffix);
    let p = uint_item(e.prefix_len);
    let t = maybe_cid(e.tree);
    let v = cid_item(e.value);
    let x1 = x0 + letter(107) + k;
    let x2 = x1 + letter(112) + p;
    let x3 = x2 + letter(116) + t;
    let y3 = letter(118) + v + rest;
    let y2 = letter(116) + t + y3;
    let y1 = letter(112) + p + y2;
    let b = blank_entry();
    let e1 = NodeEntry { key_suffix: e.key_suffix, ..b };
    let e2 = NodeEntry { prefix_len: e.prefix_len, ..e1 };
    let e3 = NodeEntry { tree: e.tree, ..e2 };
    let start = (front.len() + 1) as nat;
    lemma_four_fields(
        front,
        head,
        (letter(107), k),
        (letter(112), p),
        (letter(116), t),
        (letter(118), v),
        rest,
    );
    assert(data[front.len() as int] == 0xA4);
    lemma_field_k(x0, e.key_suffix, y1, b);
    lemma_field_p(x1, e.prefix_len, y2, e1);
    lemma_field_t(x2, e.tree, y3, e2);
    lemma_field_v(x3, e.value, rest, e3);
    assert(entry_fields(data, start, 0) == Ok::<(NodeEntry, nat), MstError>((b, start)));
    assert(entry_fields(data, start, 1) == Ok::<(NodeEntry, nat), MstError>((e1, x1.len())));
    assert(entry_fields(data, start, 2) == Ok::<(NodeEntry, nat), MstError>((e2, x2.len())));
    assert(entry_fields(data, start, 3) == Ok::<(NodeEntry, nat), MstError>((e3, x3.len())));
    assert(entry_fields(data, start, 4) == Ok::<(NodeEntry, nat), MstError>(
        (e, x3.len() + letter(118).len() + v.len()),
    ));
    reveal(entry_at);
}

proof fn lemma_entries_within(front: Seq<u8>, entries: Seq<NodeEntry>, n: nat, rest: Seq<u8>)
    requires
        n <= entries.len(),
        forall|i: int| 0 <= i < entries.len() ==> entry_readable(#[trigger] entries[i]),
    ensures
        entries_from(front + entry_items(entries.take(n as int)) + rest, front.len(), n) == Ok::<
            (Seq<NodeEntry>, nat),
            MstError,
        >((entries.take(n as int), front.len() + entry_items(entries.take(n as int)).len())),
    decreases n,
{
    let data = front + entry_items(entries.take(n as int)) + rest;
    if n == 0 {
        assert(entries.take(0) =~= Seq::<NodeEntry>::empty());
    } else {
        let m = (n - 1) as nat;
        let before = entries.take(m as int);
        let e = entries[m as int];
        assert(entries.take(n as int).drop_last() =~= before);
        assert(entries.take(n as int).last() == e);
        let items = entry_items(before);
        lemma_entries_within(front, entries, m, entry_item(e) + rest);
        assert(data =~= front + items + (entry_item(e) + rest));
        lemma_entry_within(front + items, e, rest);
        assert(data =~= front + items + entry_item(e) + rest);
        assert(before.push(e) =~= entries.take(n as int));
    }
}

/// What a node holds before its left child is named.
spec fn entries_part(entries: Seq<NodeEntry>) -> Seq<u8> {
    seq![0xA2u8] + letter(101) + short_head(4, entries.len()) + entry_items(entries)
}

proof fn lemma_entries_read(left: Option<Seq<u8>>, entries: Seq<NodeEntry>)
    requires
        entries.len() < 65536,
        forall|i: int| 0 <= i < entries.len() ==> entry_readable(#[trigger] entries[i]),
    ensures
        node_bytes(left, entries) == entries_part(entries) + letter(108) + maybe_cid(left),
        node_fields(node_bytes(left, entries), 1, 1) == Ok::<(NodeParts, nat), MstError>(
            ((None, entries), entries_part(entries).len()),
        ),
{
    let data = node_bytes(left, entries);
    let n = entries.len();
    let head = short_head(4, n);
    let items = entry_items(entries);
    let l = maybe_cid(left);
    let x0 = seq![0xA2u8];
    let x1 = x0 + letter(101);
    let x2 = x1 + head;
    lemma_letters();
    assert(data =~= entries_part(entries) + letter(108) + l);
    assert(data =~= x0 + letter(101) + (head + items + letter(108) + l));
    lemma_letter_within(x0, 101, "e"@, head + items + letter(108) + l);
    assert(data =~= x1 + head + (items + letter(108) + l));
    lemma_head_within(x1, 4, n, items + letter(108) + l);
    assert(entries.take(n as int) =~= entries);
    lemma_entries_within(x2, entries, n, letter(108) + l);
    assert(data =~= x2 + items + (letter(108) + l));
    assert(entries_at(data, x1.len()) == Ok::<(Seq<NodeEntry>, nat), MstError>(
        (entries, (x2 + items).len()),
    ));
    assert(node_fields(data, 1, 0) == Ok::<(NodeParts, nat), MstError>(((None, Seq::empty()), 1)));
}

/// Reading a node that was written gives its parts back.
#[verifier::spinoff_prover]
pub proof fn law_node_roundtrip(left: Option<Seq<u8>>, entries: Seq<NodeEntry>)
    requires
        left matches Some(c) ==> c.len() < 65535,
        entries.len() < 65536,
        forall|i: int| 0 <= i < entries.len() ==> entry_readable(#[trigger] entries[i]),
    ensures
        node_parts(node_bytes(left, entries)) == Ok::<NodeParts, MstError>((left, entries)),
{
    let data = node_bytes(left, entries);
    let front = entries_part(entries);
    let l = maybe_cid(left);
    let none = Seq::<u8>::empty();
    lemma_letters();
    lemma_entries_read(left, entries);
    assert(data[0] == 0xA2);
    lemma_letter_within(front, 108, "l"@, l);
    assert("l"@[0] != "e"@[0]);
    lemma_maybe_cid_within(front + letter(108), left, none);
    assert(data =~= front + letter(108) + l + none);
    assert(node_fields(data, 1, 2) == node_field(data, front.len(), (None, entries)));
}

/// A text is read back wherever it stands.
pub proof fn law_text_read(front: Seq<u8>, s: Seq<char>, rest: Seq<u8>)
    requires
        vstd::utf8::encode_utf8(s).len() < 65536,
    ensures
        node_text(front + text_item(s) + rest, front.len()) == Ok::<(Seq<char>, nat), MstError>(
            (s, front.len() + text_item(s).len()),
        ),
{
    let bytes = vstd::utf8::encode_utf8(s);
    let head = short_head(3, bytes.len());
    let data = front + text_item(s) + rest;
    lemma_head_within(front, 3, bytes.len(), bytes + rest);
    assert(data =~= front + head + (bytes + rest));
    let at = (front.len() + head.len()) as int;
    assert(data.subrange(at, at + bytes.len()) =~= bytes);
    vstd::utf8::encode_utf8_valid_utf8(s);
    vstd::utf8::encode_utf8_decode_utf8(s);
}

/// A content identifier, or nothing, is read back wherever it stands.
pub proof fn law_cid_read(front: Seq<u8>, cid: Option<Seq<u8>>, rest: Seq<u8>)
    requires
        cid matches Some(c) ==> c.len() < 65535,
    ensures
        node_maybe_cid(front + optional_cid_item(cid) + rest, front.len()) == Ok::<
            (Option<Seq<u8>>, nat),
            MstError,
        >((cid, front.len() + optional_cid_item(cid).len())),
{
    let data = front + optional_cid_item(cid) + rest;
    let at = front.len() as int;
    assert(optional_cid_item(cid).len() > 0);
    assert(data[at] == optional_cid_item(cid)[0]);
    if let Some(c) = cid {
        lemma_cid_within(front, c, rest);
    }
}

/// Whether a text is read at a position, up to the next.
#[verifier::opaque]
pub open spec fn reads_text(data: Seq<u8>, at: nat, s: Seq<char>, next: nat) -> bool {
    node_text(data, at) == Ok::<(Seq<char>, nat), MstError>((s, next))
}

/// Whether a content identifier, or nothing, is read at a position, up to the next.
#[verifier::opaque]
pub open spec fn reads_cid(data: Seq<u8>, at: nat, cid: Option<Seq<u8>>, next: nat) -> bool {
    node_maybe_cid(data, at) == Ok::<(Option<Seq<u8>>, nat), MstError>((cid, next))
}

/// Where a text stands among items, and where what follows it begins.
pub proof fn lemma_text_among(items: Seq<Seq<u8>>, i: int, s: Seq<char>)
    requires
        0 <= i < items.len(),
        items[i] == text_item(s),
        vstd::utf8::encode_utf8(s).len() < 65536,
    ensures
        reads_text(glued(items), glued(items.take(i)).len(), s, glued(items.take(i + 1)).len()),
{
    reveal(reads_text);
    lemma_glued(items, i);
    law_text_read(glued(items.take(i)), s, glued(items.skip(i + 1)));
}

/// Where a content identifier stands among items, and where what follows it begins.
pub proof fn lemma_cid_among(items: Seq<Seq<u8>>, i: int, cid: Option<Seq<u8>>)
    requires
        0 <= i < items.len(),
        items[i] == optional_cid_item(cid),
        cid matches Some(c) ==> c.len() < 65535,
    ensures
        reads_cid(glued(items), glued(items.take(i)).len(), cid, glued(items.take(i + 1)).len()),
{
    reveal(reads_cid);
    lemma_glued(items, i);
    law_cid_read(glued(items.take(i)), cid, glued(items.skip(i + 1)));
}

/// The first item ends where it ends, and the last where all do.
pub proof fn lemma_glued_ends(items: Seq<Seq<u8>>)
    requires
        items.len() > 0,
    ensures
        glued(items.take(1)).len() == items[0].len(),
        items.take(items.len() as int) == items,
{
    lemma_glued(items, 0);
    assert(items.take(0) =~= Seq::<Seq<u8>>::empty());
    assert(items.take(items.len() as int) =~= items);
}

/// A text in ASCII that is short has a short encoding.
pub proof fn lemma_short(s: Seq<char>)
    requires
        vstd::utf8::is_ascii_chars(s),
        s.len() < 65536,
    ensures
        vstd::utf8::encode_utf8(s).len() < 65536,
{
    vstd::utf8::is_ascii_chars_encode_utf8(s);
}

/// Items written one behind the other.
pub open spec fn glued(items: Seq<Seq<u8>>) -> Seq<u8>
    decreases items.len(),
{
    if items.len() == 0 {
        Seq::empty()
    } else {
        glued(items.drop_last()) + items.last()
    }
}

/// Any of the items stands behind those before it and before those behind it.
pub proof fn lemma_glued(items: Seq<Seq<u8>>, i: int)
    requires
        0 <= i < items.len(),
    ensures
        glued(items) == glued(items.take(i)) + items[i] + glued(items.skip(i + 1)),
        glued(items.take(i + 1)) == glued(items.take(i)) + items[i],
    decreases items.len(),
{
    let front = items.drop_last();
    assert(items.take(i + 1).drop_last() =~= items.take(i));
    if i < front.len() {
        lemma_glued(front, i);
        assert(front.take(i) =~= items.take(i));
        assert(front[i] == items[i]);
        let later = items.skip(i + 1);
        assert(later.drop_last() =~= front.skip(i + 1));
        assert(later.last() == items.last());
        assert(glued(items) =~= glued(items.take(i)) + items[i] + (glued(front.skip(i + 1))
            + items.last()));
    } else {
        assert(items.skip(i + 1) =~= Seq::<Seq<u8>>::empty());
        assert(items.take(i) =~= front);
        assert(glued(items) =~= glued(front) + items[i] + Seq::<u8>::empty());
    }
}

/// One more item stands behind the others.
pub proof fn lemma_glued_more(items: Seq<Seq<u8>>, x: Seq<u8>)
    ensures
        glued(items.push(x)) == glued(items) + x,
{
    assert(items.push(x).drop_last() =~= items);
}

} // verus!
