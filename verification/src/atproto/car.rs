//! Content-addressed archives: a header that names the roots, then blocks.

use vstd::prelude::*;
use vstd::slice::slice_subrange;
use vstd::string::*;
use vstd::utf8::{decode_utf8, encode_utf8, valid_utf8};

use crate::atproto::cbor::short_head;
use crate::bytes::{append_bytes, copy_range};
use crate::text::{same_text, utf8_text};
use crate::varint::{front_varint, push_varint, varint_bytes, varint_front};

verus! {

/// A block: its content identifier and its content.
#[derive(Debug)]
pub struct CarBlock {
    pub cid: Vec<u8>,
    pub bytes: Vec<u8>,
}

impl DeepView for CarBlock {
    type V = (Seq<u8>, Seq<u8>);

    open spec fn deep_view(&self) -> (Seq<u8>, Seq<u8>) {
        (self.cid@, self.bytes@)
    }
}

/// Largest block that is read.
pub const MAX_BLOCK_SIZE: usize = 268435456;

/// Most roots that are read.
pub const MAX_ROOTS: usize = 16;

/// Why an archive cannot be read.
#[derive(Debug)]
pub enum CarError {
    Truncated(&'static str),
    BlockTooLarge(usize),
    InvalidHeader,
    UnsupportedVersion(u64),
    TooManyRoots(usize),
    InvalidCid,
    VarintOverflow,
}

// -- Writing ---------------------------------------------------------------------------

/// A text as a header's key.
pub open spec fn key_item(s: Seq<char>) -> Seq<u8> {
    let n = encode_utf8(s).len();
    (if n < 24 {
        seq![(0x60 + n) as u8]
    } else {
        seq![0x78u8, (n % 256) as u8]
    }) + encode_utf8(s)
}

/// The roots of an archive, as a header's value.
pub open spec fn roots_item(root: Option<Seq<u8>>) -> Seq<u8> {
    match root {
        Some(cid) => seq![0x81u8, 0xD8, 42] + short_head(2, cid.len() + 1) + seq![0u8] + cid,
        None => seq![0x80u8],
    }
}

/// The header of an archive.
pub open spec fn car_header(root: Option<Seq<u8>>) -> Seq<u8> {
    seq![0xA2u8] + key_item("roots"@) + roots_item(root) + key_item("version"@) + seq![1u8]
}

/// A block: its length, its content identifier, its content.
pub open spec fn block_bytes(block: (Seq<u8>, Seq<u8>)) -> Seq<u8> {
    varint_bytes(block.0.len() + block.1.len()) + block.0 + block.1
}

/// Blocks, one after the other.
pub open spec fn blocks_bytes(blocks: Seq<(Seq<u8>, Seq<u8>)>) -> Seq<u8>
    decreases blocks.len(),
{
    if blocks.len() == 0 {
        Seq::empty()
    } else {
        block_bytes(blocks[0]) + blocks_bytes(blocks.drop_first())
    }
}

/// An archive.
pub open spec fn car_bytes(root: Option<Seq<u8>>, blocks: Seq<(Seq<u8>, Seq<u8>)>) -> Seq<u8> {
    let header = car_header(root);
    varint_bytes(header.len()) + header + blocks_bytes(blocks)
}

fn encode_cbor_string(s: &str, out: &mut Vec<u8>)
    ensures
        final(out)@ == old(out)@ + key_item(s@),
{
    let ghost had = out@;
    let data = s.as_bytes();
    let n: usize = data.len();
    if n < 24 {
        out.push(0x60 + n as u8);
    } else {
        out.push(0x78);
        out.push((n % 256) as u8);
    }
    append_bytes(out, data);
    assert(out@ =~= had + key_item(s@));
}

/// The bytes of an optional slice.
pub open spec fn shown_slice(v: Option<&[u8]>) -> Option<Seq<u8>> {
    match v {
        Some(b) => Some(b@),
        None => None,
    }
}

fn encode_car_header(root: Option<&[u8]>) -> (out: Vec<u8>)
    ensures
        out@ == car_header(shown_slice(root)),
{
    let mut out: Vec<u8> = Vec::new();
    out.push(0xA2);
    assert(out@ =~= seq![0xA2u8]);
    encode_cbor_string("roots", &mut out);
    let ghost had = out@;
    match root {
        Some(cid) => {
            out.push(0x81);
            crate::atproto::cbor::push_cid_item(&mut out, cid);
            assert(out@ =~= had + roots_item(Some(cid@)));
        },
        None => {
            out.push(0x80);
            assert(out@ =~= had + roots_item(None));
        },
    }
    encode_cbor_string("version", &mut out);
    let ghost so_far = out@;
    out.push(1);
    assert(out@ =~= so_far + seq![1u8]);
    out
}

/// Writes an archive.
pub fn encode_car(root: Option<&[u8]>, blocks: &[CarBlock]) -> (out: Vec<u8>)
    requires
        forall|i: int|
            0 <= i < blocks@.len() ==> (#[trigger] blocks@[i]).cid@.len() + blocks@[i].bytes@.len()
                <= usize::MAX,
    ensures
        out@ == car_bytes(shown_slice(root), blocks.deep_view()),
{
    let mut out: Vec<u8> = Vec::new();
    let header = encode_car_header(root);
    push_varint(&mut out, header.len() as u64);
    append_bytes(&mut out, header.as_slice());
    let ghost all = blocks.deep_view();
    let ghost front = out@;
    let mut i: usize = 0;
    proof {
        assert(Seq::<u8>::empty() + varint_bytes(header@.len()) =~= varint_bytes(header@.len()));
        assert(all.skip(0) =~= all);
    }
    while i < blocks.len()
        invariant
            forall|k: int|
                0 <= k < blocks@.len() ==> (#[trigger] blocks@[k]).cid@.len()
                    + blocks@[k].bytes@.len() <= usize::MAX,
            i <= blocks@.len(),
            all == blocks.deep_view(),
            all.len() == blocks@.len(),
            out@ + blocks_bytes(all.skip(i as int)) == front + blocks_bytes(all),
        decreases blocks@.len() - i,
    {
        let ghost had = out@;
        let block = &blocks[i];
        let ghost rest = all.skip(i as int);
        proof {
            assert(rest[0] == block.deep_view());
            assert(rest.drop_first() =~= all.skip(i + 1));
        }
        let n: usize = block.cid.len() + block.bytes.len();
        push_varint(&mut out, n as u64);
        append_bytes(&mut out, block.cid.as_slice());
        append_bytes(&mut out, block.bytes.as_slice());
        proof {
            let one = block_bytes(block.deep_view());
            let more = blocks_bytes(all.skip(i + 1));
            assert(out@ =~= had + one);
            assert(had + (one + more) =~= had + one + more);
        }
        i += 1;
    }
    assert(all.skip(i as int) =~= Seq::<(Seq<u8>, Seq<u8>)>::empty());
    assert(out@ + Seq::<u8>::empty() =~= out@);
    out
}

// -- Reading ---------------------------------------------------------------------------

/// The number at a position, and the position behind it.
pub open spec fn varint_at(data: Seq<u8>, pos: nat) -> Result<(u64, nat), CarError> {
    if pos >= data.len() {
        Err(CarError::Truncated("varint"))
    } else {
        match varint_front(data.skip(pos as int)) {
            Some((n, len)) => Ok((n, pos + len)),
            None => if data.len() - pos < 10 {
                Err(CarError::Truncated("varint"))
            } else {
                Err(CarError::VarintOverflow)
            },
        }
    }
}

/// The length that follows a head: in the head itself, or in one more byte.
pub open spec fn length_at(data: Seq<u8>, pos: nat, info: u8, cut: CarError, odd: CarError) -> Result<
    (nat, nat),
    CarError,
> {
    if info < 24 {
        Ok((info as nat, pos))
    } else if info == 24 {
        if pos >= data.len() {
            Err(cut)
        } else {
            Ok((data[pos as int] as nat, pos + 1))
        }
    } else {
        Err(odd)
    }
}

/// The text at a position, and the position behind it.
pub open spec fn string_at(data: Seq<u8>, pos: nat) -> Result<(Seq<char>, nat), CarError> {
    if pos >= data.len() {
        Err(CarError::Truncated("CBOR string"))
    } else if data[pos as int] / 32 != 3 {
        Err(CarError::InvalidHeader)
    } else {
        match length_at(
            data,
            pos + 1,
            data[pos as int] % 32,
            CarError::Truncated("CBOR string length"),
            CarError::InvalidHeader,
        ) {
            Err(e) => Err(e),
            Ok((len, at)) => if at + len > data.len() {
                Err(CarError::Truncated("CBOR string data"))
            } else if !valid_utf8(data.subrange(at as int, (at + len) as int)) {
                Err(CarError::InvalidHeader)
            } else {
                Ok((decode_utf8(data.subrange(at as int, (at + len) as int)), at + len))
            },
        }
    }
}

/// A content identifier without the zero byte in front.
pub open spec fn without_zero(cid: Seq<u8>) -> Seq<u8> {
    if cid.len() > 0 && cid[0] == 0 {
        cid.skip(1)
    } else {
        cid
    }
}

/// The content identifier at a position, and the position behind it.
pub open spec fn cid_at(data: Seq<u8>, pos: nat) -> Result<(Seq<u8>, nat), CarError> {
    if pos + 1 >= data.len() {
        Err(CarError::Truncated("CBOR CID tag"))
    } else if data[pos as int] != 0xD8 || data[(pos + 1) as int] != 42 {
        Err(CarError::InvalidCid)
    } else if pos + 2 >= data.len() {
        Err(CarError::Truncated("CBOR CID bytes"))
    } else if data[(pos + 2) as int] / 32 != 2 {
        Err(CarError::InvalidCid)
    } else {
        match length_at(
            data,
            pos + 3,
            data[(pos + 2) as int] % 32,
            CarError::Truncated("CBOR CID length"),
            CarError::InvalidCid,
        ) {
            Err(e) => Err(e),
            Ok((len, at)) => if at + len > data.len() {
                Err(CarError::Truncated("CBOR CID data"))
            } else {
                Ok((without_zero(data.subrange(at as int, (at + len) as int)), at + len))
            },
        }
    }
}

/// The content identifiers at a position, and the position behind them.
pub open spec fn cids_at(data: Seq<u8>, pos: nat, count: nat) -> Result<(Seq<Seq<u8>>, nat), CarError>
    decreases count,
{
    if count == 0 {
        Ok((Seq::empty(), pos))
    } else {
        match cids_at(data, pos, (count - 1) as nat) {
            Err(e) => Err(e),
            Ok((front, at)) => match cid_at(data, at) {
                Err(e) => Err(e),
                Ok((cid, next)) => Ok((front.push(cid), next)),
            },
        }
    }
}

/// A position no further than the end.
pub open spec fn capped(pos: nat, data: Seq<u8>) -> nat {
    if pos < data.len() {
        pos
    } else {
        data.len()
    }
}

/// Bytes of the number behind the head of a number: one, two, four or eight
/// where the head says so.
pub open spec fn number_size(info: u8) -> nat {
    if info == 24 {
        1
    } else if info == 25 {
        2
    } else if info == 26 {
        4
    } else if info == 27 {
        8
    } else {
        0
    }
}

/// The position behind the value at a position. What reaches past the end ends
/// there.
pub open spec fn value_end(data: Seq<u8>, pos: nat) -> Result<nat, CarError>
    decreases data.len() - pos, 0nat,
{
    if pos >= data.len() {
        Err(CarError::Truncated("CBOR value"))
    } else {
        let major = data[pos as int] / 32;
        let info = data[pos as int] % 32;
        if major <= 1 {
            Ok(capped(pos + 1 + number_size(info), data))
        } else if major <= 3 {
            match length_at(
                data,
                pos + 1,
                info,
                CarError::Truncated("skip len"),
                CarError::InvalidHeader,
            ) {
                Err(e) => Err(e),
                Ok((len, at)) => Ok(capped(at + len, data)),
            }
        } else if major == 4 {
            values_end(data, pos + 1, info as nat)
        } else if major == 5 {
            values_end(data, pos + 1, 2 * info as nat)
        } else if major == 6 {
            value_end(data, pos + 1)
        } else {
            Ok(pos + 1)
        }
    }
}

/// The position behind so many values.
pub open spec fn values_end(data: Seq<u8>, pos: nat, count: nat) -> Result<nat, CarError>
    decreases data.len() - pos, count + 1,
{
    if count == 0 {
        Ok(pos)
    } else {
        match value_end(data, pos) {
            Err(e) => Err(e),
            Ok(next) => if pos < next <= data.len() {
                values_end(data, next, (count - 1) as nat)
            } else {
                Err(CarError::InvalidHeader)
            },
        }
    }
}

/// What a header says: its roots, and whether it has a version.
pub type HeaderParts = (Seq<Seq<u8>>, bool);

/// What a header says after one more entry, and the position behind it.
pub open spec fn header_entry(data: Seq<u8>, pos: nat, so_far: HeaderParts) -> Result<
    (HeaderParts, nat),
    CarError,
> {
    match string_at(data, pos) {
        Err(e) => Err(e),
        Ok((key, at)) => if key == "roots"@ {
            if at >= data.len() || data[at as int] / 32 != 4 {
                Err(CarError::InvalidHeader)
            } else if data[at as int] % 32 > MAX_ROOTS {
                Err(CarError::TooManyRoots((data[at as int] % 32) as usize))
            } else {
                match cids_at(data, at + 1, (data[at as int] % 32) as nat) {
                    Err(e) => Err(e),
                    Ok((cids, next)) => Ok(((so_far.0 + cids, so_far.1), next)),
                }
            }
        } else if key == "version"@ {
            if at >= data.len() {
                Err(CarError::InvalidHeader)
            } else if data[at as int] != 1 {
                Err(CarError::UnsupportedVersion(data[at as int] as u64))
            } else {
                Ok(((so_far.0, true), at + 1))
            }
        } else {
            match value_end(data, at) {
                Err(e) => Err(e),
                Ok(next) => Ok((so_far, next)),
            }
        },
    }
}

/// What a header says after so many entries, and the position behind them.
pub open spec fn header_entries(data: Seq<u8>, pos: nat, count: nat) -> Result<
    (HeaderParts, nat),
    CarError,
>
    decreases count,
{
    if count == 0 {
        Ok(((Seq::empty(), false), pos))
    } else {
        match header_entries(data, pos, (count - 1) as nat) {
            Err(e) => Err(e),
            Ok((so_far, at)) => header_entry(data, at, so_far),
        }
    }
}

/// The roots that a header names.
#[verifier::opaque]
pub open spec fn header_roots(data: Seq<u8>) -> Result<Seq<Seq<u8>>, CarError> {
    if data.len() == 0 || data[0] / 32 != 5 || data[0] % 32 >= 24 {
        Err(CarError::InvalidHeader)
    } else {
        match header_entries(data, 1, (data[0] % 32) as nat) {
            Err(e) => Err(e),
            Ok((parts, _)) => if parts.1 {
                Ok(parts.0)
            } else {
                Err(CarError::InvalidHeader)
            },
        }
    }
}

/// Length of the content identifier at the front of a block.
pub open spec fn cid_len(data: Seq<u8>) -> Result<nat, CarError> {
    if data.len() == 0 {
        Err(CarError::Truncated("empty CID"))
    } else if data[0] == 0x01 {
        match varint_at(data, 1) {
            Err(e) => Err(e),
            Ok((_, a)) => match varint_at(data, a) {
                Err(e) => Err(e),
                Ok((_, b)) => match varint_at(data, b) {
                    Err(e) => Err(e),
                    Ok((n, c)) => if c + n > data.len() {
                        Err(CarError::Truncated("CID hash extends past block"))
                    } else {
                        Ok(c + n as nat)
                    },
                },
            },
        }
    } else if data[0] == 0x12 {
        if data.len() < 2 {
            Err(CarError::Truncated("CIDv0 too short"))
        } else if 2 + data[1] > data.len() {
            Err(CarError::Truncated("CIDv0 hash extends past block"))
        } else {
            Ok((2 + data[1]) as nat)
        }
    } else {
        Err(CarError::InvalidCid)
    }
}

/// The block at a position, and the position behind it.
#[verifier::opaque]
pub open spec fn block_at(data: Seq<u8>, pos: nat) -> Result<((Seq<u8>, Seq<u8>), nat), CarError> {
    match varint_at(data, pos) {
        Err(e) => Err(e),
        Ok((n, at)) => if n > MAX_BLOCK_SIZE {
            Err(CarError::BlockTooLarge(n as usize))
        } else if at + n > data.len() {
            Err(CarError::Truncated("block extends past end of data"))
        } else {
            let block = data.subrange(at as int, at + n);
            match cid_len(block) {
                Err(e) => Err(e),
                Ok(k) => Ok(((block.take(k as int), block.skip(k as int)), at + n as nat)),
            }
        },
    }
}

/// The blocks from a position to the end.
pub open spec fn blocks_at(data: Seq<u8>, pos: nat) -> Result<Seq<(Seq<u8>, Seq<u8>)>, CarError>
    decreases data.len() - pos,
{
    if pos >= data.len() {
        Ok(Seq::empty())
    } else {
        match block_at(data, pos) {
            Err(e) => Err(e),
            Ok((block, next)) => if pos < next <= data.len() {
                match blocks_at(data, next) {
                    Err(e) => Err(e),
                    Ok(more) => Ok(seq![block] + more),
                }
            } else {
                Err(CarError::InvalidHeader)
            },
        }
    }
}

/// What an archive holds: its roots and its blocks.
pub open spec fn car_parts(data: Seq<u8>) -> Result<
    (Seq<Seq<u8>>, Seq<(Seq<u8>, Seq<u8>)>),
    CarError,
> {
    match varint_at(data, 0) {
        Err(e) => Err(e),
        Ok((n, at)) => if at + n > data.len() {
            Err(CarError::Truncated("header extends past end of data"))
        } else {
            match header_roots(data.subrange(at as int, at + n)) {
                Err(e) => Err(e),
                Ok(roots) => match blocks_at(data, at + n as nat) {
                    Err(e) => Err(e),
                    Ok(blocks) => Ok((roots, blocks)),
                },
            }
        },
    }
}

/// Reads the number at a position.
pub fn read_varint(data: &[u8], pos: usize) -> (out: Result<(u64, usize), CarError>)
    requires
        pos <= data@.len(),
    ensures
        match (out, varint_at(data@, pos as nat)) {
            (Ok((n, next)), Ok((m, p))) => n == m && next == p && pos < next <= data@.len(),
            (Err(e), Err(f)) => e == f,
            _ => false,
        },
{
    if pos >= data.len() {
        return Err(CarError::Truncated("varint"));
    }
    match front_varint(data, pos) {
        Some((n, len)) => Ok((n, pos + len)),
        None => if data.len() - pos < 10 {
            Err(CarError::Truncated("varint"))
        } else {
            Err(CarError::VarintOverflow)
        },
    }
}

fn read_cbor_string(data: &[u8], pos: usize) -> (out: Result<(String, usize), CarError>)
    requires
        pos <= data@.len(),
    ensures
        match (out, string_at(data@, pos as nat)) {
            (Ok((s, next)), Ok((t, p))) => s@ == t && next == p && pos < next <= data@.len(),
            (Err(e), Err(f)) => e == f,
            _ => false,
        },
{
    if pos >= data.len() {
        return Err(CarError::Truncated("CBOR string"));
    }
    let head: u8 = data[pos];
    if head / 32 != 3 {
        return Err(CarError::InvalidHeader);
    }
    let info: u8 = head % 32;
    let mut at: usize = pos + 1;
    let len: usize = if info < 24 {
        info as usize
    } else if info == 24 {
        if at >= data.len() {
            return Err(CarError::Truncated("CBOR string length"));
        }
        at = at + 1;
        data[at - 1] as usize
    } else {
        return Err(CarError::InvalidHeader);
    };
    if len > data.len() - at {
        return Err(CarError::Truncated("CBOR string data"));
    }
    match utf8_text(copy_range(data, at, at + len)) {
        Some(s) => Ok((s, at + len)),
        None => Err(CarError::InvalidHeader),
    }
}

fn read_cbor_cid(data: &[u8], pos: usize) -> (out: Result<(Vec<u8>, usize), CarError>)
    requires
        pos <= data@.len(),
    ensures
        match (out, cid_at(data@, pos as nat)) {
            (Ok((s, next)), Ok((t, p))) => s@ == t && next == p && pos < next <= data@.len(),
            (Err(e), Err(f)) => e == f,
            _ => false,
        },
{
    if data.len() - pos < 2 {
        return Err(CarError::Truncated("CBOR CID tag"));
    }
    if data[pos] != 0xD8 || data[pos + 1] != 42 {
        return Err(CarError::InvalidCid);
    }
    if data.len() - pos < 3 {
        return Err(CarError::Truncated("CBOR CID bytes"));
    }
    let head: u8 = data[pos + 2];
    if head / 32 != 2 {
        return Err(CarError::InvalidCid);
    }
    let info: u8 = head % 32;
    let mut at: usize = pos + 3;
    let len: usize = if info < 24 {
        info as usize
    } else if info == 24 {
        if at >= data.len() {
            return Err(CarError::Truncated("CBOR CID length"));
        }
        at = at + 1;
        data[at - 1] as usize
    } else {
        return Err(CarError::InvalidCid);
    };
    if len > data.len() - at {
        return Err(CarError::Truncated("CBOR CID data"));
    }
    if len > 0 && data[at] == 0 {
        assert(data@.subrange(at as int, at + len).skip(1) =~= data@.subrange(at + 1, at + len));
        Ok((copy_range(data, at + 1, at + len), at + len))
    } else {
        Ok((copy_range(data, at, at + len), at + len))
    }
}

/// Values end behind where they begin.
proof fn lemma_value_end(data: Seq<u8>, pos: nat)
    ensures
        value_end(data, pos) matches Ok(next) ==> pos < next <= data.len(),
    decreases data.len() - pos, 0nat,
{
    if pos < data.len() {
        let major = data[pos as int] / 32;
        let info = data[pos as int] % 32;
        if major == 4 {
            lemma_values_end(data, pos + 1, info as nat);
        } else if major == 5 {
            lemma_values_end(data, pos + 1, 2 * info as nat);
        } else if major == 6 {
            lemma_value_end(data, pos + 1);
        }
    }
}

proof fn lemma_values_end(data: Seq<u8>, pos: nat, count: nat)
    requires
        pos <= data.len(),
    ensures
        values_end(data, pos, count) matches Ok(next) ==> pos <= next <= data.len(),
    decreases data.len() - pos, count + 1,
{
    if count > 0 {
        lemma_value_end(data, pos);
        if let Ok(next) = value_end(data, pos) {
            lemma_values_end(data, next, (count - 1) as nat);
        }
    }
}

fn advance(data: &[u8], at: usize, n: usize) -> (next: usize)
    requires
        at <= data@.len(),
    ensures
        next == capped((at + n) as nat, data@),
{
    if n < data.len() - at {
        at + n
    } else {
        data.len()
    }
}

/// Finds the position behind the value at a position.
pub fn skip_cbor_value(data: &[u8], pos: usize) -> (out: Result<usize, CarError>)
    requires
        pos <= data@.len(),
    ensures
        match (out, value_end(data@, pos as nat)) {
            (Ok(next), Ok(p)) => next == p && pos < next <= data@.len(),
            (Err(e), Err(f)) => e == f,
            _ => false,
        },
    decreases data@.len() - pos, 0nat,
{
    proof {
        lemma_value_end(data@, pos as nat);
    }
    if pos >= data.len() {
        return Err(CarError::Truncated("CBOR value"));
    }
    let head: u8 = data[pos];
    let major: u8 = head / 32;
    let info: u8 = head % 32;
    if major <= 1 {
        let extra: usize = if info == 24 {
            1
        } else if info == 25 {
            2
        } else if info == 26 {
            4
        } else if info == 27 {
            8
        } else {
            0
        };
        Ok(advance(data, pos + 1, extra))
    } else if major <= 3 {
        if info < 24 {
            Ok(advance(data, pos + 1, info as usize))
        } else if info == 24 {
            if pos + 1 >= data.len() {
                return Err(CarError::Truncated("skip len"));
            }
            Ok(advance(data, pos + 2, data[pos + 1] as usize))
        } else {
            Err(CarError::InvalidHeader)
        }
    } else if major == 4 {
        skip_values(data, pos + 1, info as usize)
    } else if major == 5 {
        skip_values(data, pos + 1, 2 * info as usize)
    } else if major == 6 {
        skip_cbor_value(data, pos + 1)
    } else {
        Ok(pos + 1)
    }
}

fn skip_values(data: &[u8], pos: usize, count: usize) -> (out: Result<usize, CarError>)
    requires
        pos <= data@.len(),
    ensures
        match (out, values_end(data@, pos as nat, count as nat)) {
            (Ok(next), Ok(p)) => next == p && pos <= next <= data@.len(),
            (Err(e), Err(f)) => e == f,
            _ => false,
        },
    decreases data@.len() - pos, count + 1,
{
    if count == 0 {
        return Ok(pos);
    }
    match skip_cbor_value(data, pos) {
        Ok(next) => skip_values(data, next, count - 1),
        Err(e) => Err(e),
    }
}

fn read_roots(data: &[u8], pos: usize, count: usize, roots: &mut Vec<Vec<u8>>) -> (out: Result<
    usize,
    CarError,
>)
    requires
        pos <= data@.len(),
    ensures
        match (out, cids_at(data@, pos as nat, count as nat)) {
            (Ok(next), Ok((cids, p))) => next == p && pos <= next <= data@.len() && final(
                roots).deep_view() == old(roots).deep_view() + cids,
            (Err(e), Err(f)) => e == f,
            _ => false,
        },
    decreases count,
{
    let ghost had = roots.deep_view();
    if count == 0 {
        assert(had + Seq::<Seq<u8>>::empty() =~= had);
        return Ok(pos);
    }
    let at: usize = match read_roots(data, pos, count - 1, roots) {
        Ok(at) => at,
        Err(e) => return Err(e),
    };
    let ghost front = roots.deep_view();
    match read_cbor_cid(data, at) {
        Ok((cid, next)) => {
            let ghost shown = cid@;
            roots.push(cid);
            proof {
                broadcast use crate::table::lemma_deep_bytes;

                assert(roots.deep_view() =~= front.push(shown));
                let cids = (cids_at(data@, pos as nat, (count - 1) as nat)->Ok_0).0;
                assert((had + cids).push(shown) =~= had + cids.push(shown));
            }
            Ok(next)
        },
        Err(e) => Err(e),
    }
}

/// Reads the roots out of a header.
pub fn decode_car_header(data: &[u8]) -> (out: Result<Vec<Vec<u8>>, CarError>)
    ensures
        match (out, header_roots(data@)) {
            (Ok(roots), Ok(r)) => roots.deep_view() == r,
            (Err(e), Err(f)) => e == f,
            _ => false,
        },
{
    reveal(header_roots);
    if data.len() == 0 {
        return Err(CarError::InvalidHeader);
    }
    if data[0] / 32 != 5 {
        return Err(CarError::InvalidHeader);
    }
    let count: usize = (data[0] % 32) as usize;
    if count >= 24 {
        return Err(CarError::InvalidHeader);
    }
    let mut roots: Vec<Vec<u8>> = Vec::new();
    let mut found_version = false;
    let mut pos: usize = 1;
    let mut i: usize = 0;
    assert(roots.deep_view() =~= Seq::<Seq<u8>>::empty());
    while i < count
        invariant
            i <= count,
            count == data@[0] % 32,
            data@.len() > 0,
            pos <= data@.len(),
            header_entries(data@, 1, i as nat) == Ok::<(HeaderParts, nat), CarError>(
                ((roots.deep_view(), found_version), pos as nat),
            ),
            header_roots(data@) == (match header_entries(data@, 1, count as nat) {
                Err(e) => Err(e),
                Ok((parts, _)) => if parts.1 {
                    Ok(parts.0)
                } else {
                    Err(CarError::InvalidHeader)
                },
            }),
        decreases count - i,
    {
        proof {
            if header_entries(data@, 1, (i + 1) as nat) is Err {
                lemma_header_stays(data@, 1, (i + 1) as nat, count as nat);
            }
        }
        let (key, at) = match read_cbor_string(data, pos) {
            Ok(r) => r,
            Err(e) => return Err(e),
        };
        if same_text(key.as_str(), "roots") {
            if at >= data.len() || data[at] / 32 != 4 {
                return Err(CarError::InvalidHeader);
            }
            let n: usize = (data[at] % 32) as usize;
            if n > MAX_ROOTS {
                return Err(CarError::TooManyRoots(n));
            }
            pos = match read_roots(data, at + 1, n, &mut roots) {
                Ok(next) => next,
                Err(e) => return Err(e),
            };
        } else if same_text(key.as_str(), "version") {
            if at >= data.len() {
                return Err(CarError::InvalidHeader);
            }
            if data[at] != 1 {
                return Err(CarError::UnsupportedVersion(data[at] as u64));
            }
            found_version = true;
            pos = at + 1;
        } else {
            pos = match skip_cbor_value(data, at) {
                Ok(next) => next,
                Err(e) => return Err(e),
            };
        }
        i += 1;
    }
    if found_version {
        Ok(roots)
    } else {
        Err(CarError::InvalidHeader)
    }
}

proof fn lemma_header_stays(data: Seq<u8>, pos: nat, n: nat, count: nat)
    requires
        n <= count,
        header_entries(data, pos, n) is Err,
    ensures
        header_entries(data, pos, count) == header_entries(data, pos, n),
    decreases count - n,
{
    if n < count {
        lemma_header_stays(data, pos, n, (count - 1) as nat);
    }
}

/// Finds the length of the content identifier at the front of a block.
pub fn detect_cid_len(data: &[u8]) -> (out: Result<usize, CarError>)
    ensures
        match (out, cid_len(data@)) {
            (Ok(n), Ok(m)) => n == m && n <= data@.len(),
            (Err(e), Err(f)) => e == f,
            _ => false,
        },
{
    if data.len() == 0 {
        return Err(CarError::Truncated("empty CID"));
    }
    if data[0] == 0x01 {
        let (_, a) = match read_varint(data, 1) {
            Ok(r) => r,
            Err(e) => return Err(e),
        };
        let (_, b) = match read_varint(data, a) {
            Ok(r) => r,
            Err(e) => return Err(e),
        };
        let (n, c) = match read_varint(data, b) {
            Ok(r) => r,
            Err(e) => return Err(e),
        };
        if n > (data.len() - c) as u64 {
            return Err(CarError::Truncated("CID hash extends past block"));
        }
        Ok(c + n as usize)
    } else if data[0] == 0x12 {
        if data.len() < 2 {
            return Err(CarError::Truncated("CIDv0 too short"));
        }
        let n: usize = data[1] as usize;
        if n > data.len() - 2 {
            return Err(CarError::Truncated("CIDv0 hash extends past block"));
        }
        Ok(2 + n)
    } else {
        Err(CarError::InvalidCid)
    }
}

/// A block begins at a position and ends behind it.
proof fn lemma_block_at(data: Seq<u8>, pos: nat)
    ensures
        block_at(data, pos) matches Ok((_, next)) ==> pos < next <= data.len(),
{
    reveal(block_at);
    if pos < data.len() {
        crate::varint::lemma_varint_groups_bounds(data.skip(pos as int), 10);
    }
}

/// Reads an archive: its roots and its blocks.
pub fn decode_car(data: &[u8]) -> (out: Result<(Vec<Vec<u8>>, Vec<CarBlock>), CarError>)
    ensures
        match (out, car_parts(data@)) {
            (Ok((roots, blocks)), Ok((r, b))) => roots.deep_view() == r && blocks.deep_view() == b,
            (Err(e), Err(f)) => e == f,
            _ => false,
        },
{
    let (header_len, start) = match read_varint(data, 0) {
        Ok(r) => r,
        Err(e) => return Err(e),
    };
    if header_len > (data.len() - start) as u64 {
        return Err(CarError::Truncated("header extends past end of data"));
    }
    let end: usize = start + header_len as usize;
    let roots = match decode_car_header(slice_subrange(data, start, end)) {
        Ok(roots) => roots,
        Err(e) => return Err(e),
    };
    let mut blocks: Vec<CarBlock> = Vec::new();
    let mut pos: usize = end;
    let ghost whole = blocks_at(data@, end as nat);
    proof {
        if let Ok(more) = whole {
            assert(blocks.deep_view() + more =~= more);
        }
    }
    while pos < data.len()
        invariant
            end <= pos <= data@.len(),
            whole == blocks_at(data@, end as nat),
            car_parts(data@) == (match whole {
                Err(e) => Err(e),
                Ok(b) => Ok((roots.deep_view(), b)),
            }),
            match (whole, blocks_at(data@, pos as nat)) {
                (Ok(all), Ok(more)) => all == blocks.deep_view() + more,
                (Err(e), Err(f)) => e == f,
                _ => false,
            },
        decreases data@.len() - pos,
    {
        proof {
            lemma_block_at(data@, pos as nat);
            reveal(block_at);
        }
        let (block_len, at) = match read_varint(data, pos) {
            Ok(r) => r,
            Err(e) => return Err(e),
        };
        if block_len > MAX_BLOCK_SIZE as u64 {
            return Err(CarError::BlockTooLarge(block_len as usize));
        }
        let n: usize = block_len as usize;
        if n > data.len() - at {
            return Err(CarError::Truncated("block extends past end of data"));
        }
        let block = slice_subrange(data, at, at + n);
        let k: usize = match detect_cid_len(block) {
            Ok(k) => k,
            Err(e) => return Err(e),
        };
        let cid = copy_range(block, 0, k);
        let bytes = copy_range(block, k, n);
        proof {
            assert(block@.take(k as int) =~= block@.subrange(0, k as int));
            assert(block@.skip(k as int) =~= block@.subrange(k as int, n as int));
        }
        let ghost had = blocks.deep_view();
        let ghost one = (cid@, bytes@);
        blocks.push(CarBlock { cid, bytes });
        pos = at + n;
        proof {
            assert(blocks.deep_view() =~= had.push(one));
            if let Ok(more) = blocks_at(data@, pos as nat) {
                assert(had + (seq![one] + more) =~= had.push(one) + more);
            }
        }
    }
    proof {
        assert(blocks.deep_view() + Seq::<(Seq<u8>, Seq<u8>)>::empty() =~= blocks.deep_view());
    }
    Ok((roots, blocks))
}

// -- Laws ---------------------------------------------------------------------------------

proof fn lemma_varint_within(front: Seq<u8>, n: u64, rest: Seq<u8>)
    ensures
        varint_at(front + varint_bytes(n as nat) + rest, front.len()) == Ok::<(u64, nat), CarError>(
            (n, front.len() + varint_bytes(n as nat).len()),
        ),
        varint_bytes(n as nat).len() > 0,
{
    let data = front + varint_bytes(n as nat) + rest;
    crate::varint::law_varint_roundtrip(n, rest);
    assert(data.skip(front.len() as int) =~= varint_bytes(n as nat) + rest);
}

/// Whether a block can be written and read: it is not too large, and its content
/// identifier can be told from its content.
pub open spec fn block_readable(block: (Seq<u8>, Seq<u8>)) -> bool {
    &&& block.0.len() + block.1.len() <= MAX_BLOCK_SIZE
    &&& cid_len(block.0 + block.1) == Ok::<nat, CarError>(block.0.len())
}

/// A length in front of a block, and the block where it says, are read as the
/// block.
#[verifier::spinoff_prover]
proof fn lemma_block_placed(data: Seq<u8>, pos: nat, n: u64, at: nat, body: Seq<u8>, k: nat)
    requires
        varint_at(data, pos) == Ok::<(u64, nat), CarError>((n, at)),
        n <= MAX_BLOCK_SIZE,
        at + n <= data.len(),
        data.subrange(at as int, at + n) == body,
        cid_len(body) == Ok::<nat, CarError>(k),
    ensures
        block_at(data, pos) == Ok::<((Seq<u8>, Seq<u8>), nat), CarError>(
            ((body.take(k as int), body.skip(k as int)), at + n as nat),
        ),
{
    reveal(block_at);
}

/// Where the parts of a block stand among other bytes.
#[verifier::spinoff_prover]
proof fn lemma_block_laid_out(front: Seq<u8>, head: Seq<u8>, cid: Seq<u8>, bytes: Seq<u8>, rest: Seq<u8>)
    ensures
        ({
            let data = front + (head + cid + bytes) + rest;
            let at = front.len() + head.len();
            let n = cid.len() + bytes.len();
            &&& data == front + head + (cid + bytes + rest)
            &&& at + n <= data.len()
            &&& data.subrange(at as int, (at + n) as int) == cid + bytes
            &&& (cid + bytes).take(cid.len() as int) == cid
            &&& (cid + bytes).skip(cid.len() as int) == bytes
        }),
{
    let data = front + (head + cid + bytes) + rest;
    let at = front.len() + head.len();
    let n = cid.len() + bytes.len();
    assert(data =~= front + head + (cid + bytes + rest));
    assert(data.subrange(at as int, (at + n) as int) =~= cid + bytes);
    assert((cid + bytes).take(cid.len() as int) =~= cid);
    assert((cid + bytes).skip(cid.len() as int) =~= bytes);
}

#[verifier::spinoff_prover]
proof fn lemma_block_within(front: Seq<u8>, block: (Seq<u8>, Seq<u8>), rest: Seq<u8>)
    requires
        block_readable(block),
    ensures
        block_at(front + block_bytes(block) + rest, front.len()) == Ok::<
            ((Seq<u8>, Seq<u8>), nat),
            CarError,
        >((block, front.len() + block_bytes(block).len())),
        block_bytes(block).len() > 0,
{
    let cid = block.0;
    let bytes = block.1;
    let n = (cid.len() + bytes.len()) as u64;
    let head = varint_bytes(n as nat);
    let data = front + block_bytes(block) + rest;
    lemma_varint_within(front, n, cid + bytes + rest);
    lemma_block_laid_out(front, head, cid, bytes, rest);
    lemma_block_placed(
        data,
        front.len(),
        n,
        front.len() + head.len(),
        cid + bytes,
        cid.len(),
    );
}

proof fn lemma_blocks_within(front: Seq<u8>, blocks: Seq<(Seq<u8>, Seq<u8>)>)
    requires
        forall|i: int| 0 <= i < blocks.len() ==> block_readable(#[trigger] blocks[i]),
    ensures
        blocks_at(front + blocks_bytes(blocks), front.len()) == Ok::<
            Seq<(Seq<u8>, Seq<u8>)>,
            CarError,
        >(blocks),
    decreases blocks.len(),
{
    let data = front + blocks_bytes(blocks);
    if blocks.len() == 0 {
        assert(data =~= front);
        assert(blocks =~= Seq::<(Seq<u8>, Seq<u8>)>::empty());
    } else {
        let rest = blocks.drop_first();
        let more = blocks_bytes(rest);
        let one = block_bytes(blocks[0]);
        assert(block_readable(blocks[0]));
        lemma_block_within(front, blocks[0], more);
        assert(data =~= front + one + more);
        assert forall|i: int| 0 <= i < rest.len() implies block_readable(#[trigger] rest[i]) by {
            assert(rest[i] == blocks[i + 1]);
        }
        lemma_blocks_within(front + one, rest);
        assert(seq![blocks[0]] + rest =~= blocks);
    }
}

proof fn lemma_key_within(front: Seq<u8>, key: Seq<char>, rest: Seq<u8>)
    requires
        encode_utf8(key).len() < 24,
    ensures
        string_at(front + key_item(key) + rest, front.len()) == Ok::<(Seq<char>, nat), CarError>(
            (key, front.len() + key_item(key).len()),
        ),
{
    let data = front + key_item(key) + rest;
    let n = encode_utf8(key).len();
    let at = front.len() as int;
    assert(data[at] == key_item(key)[0]);
    assert(data.subrange(at + 1, at + 1 + n) =~= encode_utf8(key));
    vstd::utf8::encode_utf8_valid_utf8(key);
    vstd::utf8::encode_utf8_decode_utf8(key);
}

proof fn lemma_cid_within(front: Seq<u8>, cid: Seq<u8>, rest: Seq<u8>)
    requires
        cid.len() < 255,
    ensures
        ({
            let item = seq![0xD8u8, 42] + short_head(2, cid.len() + 1) + seq![0u8] + cid;
            cid_at(front + item + rest, front.len()) == Ok::<(Seq<u8>, nat), CarError>(
                (cid, front.len() + item.len()),
            )
        }),
{
    let head = short_head(2, cid.len() + 1);
    let item = seq![0xD8u8, 42] + head + seq![0u8] + cid;
    let data = front + item + rest;
    let at = front.len() as int;
    assert(data[at] == item[0]);
    assert(data[at + 1] == item[1]);
    assert(item[2] == head[0]);
    assert(data[at + 2] == item[2]);
    let start = at + 2 + head.len();
    if cid.len() + 1 >= 24 {
        assert(item[3] == head[1]);
        assert(data[at + 3] == item[3]);
    }
    assert(data.subrange(start, start + cid.len() + 1) =~= seq![0u8] + cid);
    assert((seq![0u8] + cid).skip(1) =~= cid);
}

/// The roots of an archive with an optional root.
pub open spec fn root_list(root: Option<Seq<u8>>) -> Seq<Seq<u8>> {
    match root {
        Some(cid) => seq![cid],
        None => Seq::empty(),
    }
}

proof fn lemma_roots_within(front: Seq<u8>, root: Option<Seq<u8>>, rest: Seq<u8>)
    requires
        root matches Some(cid) ==> cid.len() < 255,
    ensures
        ({
            let data = front + roots_item(root) + rest;
            let at = front.len();
            &&& roots_item(root).len() > 0
            &&& data[at as int] / 32 == 4
            &&& data[at as int] % 32 == root_list(root).len()
            &&& cids_at(data, at + 1, root_list(root).len()) == Ok::<
                (Seq<Seq<u8>>, nat),
                CarError,
            >((root_list(root), at + roots_item(root).len()))
        }),
{
    let data = front + roots_item(root) + rest;
    let at = front.len();
    assert(data[at as int] == roots_item(root)[0]);
    reveal_with_fuel(cids_at, 2);
    match root {
        Some(cid) => {
            let item = seq![0xD8u8, 42] + short_head(2, cid.len() + 1) + seq![0u8] + cid;
            assert(roots_item(root) =~= seq![0x81u8] + item);
            let longer = front + seq![0x81u8];
            assert(data =~= longer + item + rest);
            lemma_cid_within(longer, cid, rest);
            assert(Seq::<Seq<u8>>::empty().push(cid) =~= seq![cid]);
        },
        None => {},
    }
}

proof fn lemma_keys()
    ensures
        encode_utf8("roots"@).len() == 5,
        encode_utf8("version"@).len() == 7,
        "roots"@ != "version"@,
{
    reveal_strlit("roots");
    reveal_strlit("version");
    assert("roots"@.len() != "version"@.len());
    vstd::utf8::is_ascii_chars_encode_utf8("roots"@);
    vstd::utf8::is_ascii_chars_encode_utf8("version"@);
}

proof fn lemma_roots_entry(root: Option<Seq<u8>>)
    requires
        root matches Some(cid) ==> cid.len() < 255,
    ensures
        ({
            let c = seq![0xA2u8] + key_item("roots"@) + roots_item(root);
            header_entry(car_header(root), 1, (Seq::empty(), false)) == Ok::<
                (HeaderParts, nat),
                CarError,
            >(((root_list(root), false), c.len()))
        }),
{
    lemma_keys();
    let data = car_header(root);
    let a = seq![0xA2u8];
    let b = a + key_item("roots"@);
    let rest = key_item("version"@) + seq![1u8];
    assert(data =~= a + key_item("roots"@) + (roots_item(root) + rest));
    lemma_key_within(a, "roots"@, roots_item(root) + rest);
    assert(data =~= b + roots_item(root) + rest);
    lemma_roots_within(b, root, rest);
    assert(Seq::<Seq<u8>>::empty() + root_list(root) =~= root_list(root));
}

proof fn lemma_version_entry(root: Option<Seq<u8>>)
    ensures
        ({
            let c = seq![0xA2u8] + key_item("roots"@) + roots_item(root);
            header_entry(car_header(root), c.len(), (root_list(root), false)) matches Ok((parts, _))
                && parts == (root_list(root), true)
        }),
{
    lemma_keys();
    let data = car_header(root);
    let c = seq![0xA2u8] + key_item("roots"@) + roots_item(root);
    lemma_key_within(c, "version"@, seq![1u8]);
    let end = c.len() + key_item("version"@).len();
    assert(data[end as int] == 1);
}

proof fn lemma_header_roundtrip(root: Option<Seq<u8>>)
    requires
        root matches Some(cid) ==> cid.len() < 255,
    ensures
        header_roots(car_header(root)) == Ok::<Seq<Seq<u8>>, CarError>(root_list(root)),
        car_header(root).len() < 1024,
{
    reveal(header_roots);
    lemma_keys();
    lemma_roots_entry(root);
    lemma_version_entry(root);
    let data = car_header(root);
    assert(data[0] == 0xA2);
    assert(header_entries(data, 1, 0) == Ok::<(HeaderParts, nat), CarError>(
        ((Seq::empty(), false), 1),
    ));
    assert(header_entries(data, 1, 1) == header_entry(data, 1, (Seq::empty(), false)));
    let c = seq![0xA2u8] + key_item("roots"@) + roots_item(root);
    assert(header_entries(data, 1, 2) == header_entry(data, c.len(), (root_list(root), false)));
}

/// Reading an archive that was written gives its root and its blocks back.
pub proof fn law_car_roundtrip(root: Option<Seq<u8>>, blocks: Seq<(Seq<u8>, Seq<u8>)>)
    requires
        root matches Some(cid) ==> cid.len() < 255,
        forall|i: int| 0 <= i < blocks.len() ==> block_readable(#[trigger] blocks[i]),
    ensures
        car_parts(car_bytes(root, blocks)) == Ok::<
            (Seq<Seq<u8>>, Seq<(Seq<u8>, Seq<u8>)>),
            CarError,
        >((root_list(root), blocks)),
{
    lemma_header_roundtrip(root);
    let header = car_header(root);
    let n = header.len() as u64;
    let head = varint_bytes(n as nat);
    let data = car_bytes(root, blocks);
    let none = Seq::<u8>::empty();
    lemma_varint_within(none, n, header + blocks_bytes(blocks));
    assert(data =~= none + head + (header + blocks_bytes(blocks)));
    let at = head.len() as int;
    assert(data.subrange(at, at + n) =~= header);
    lemma_blocks_within(head + header, blocks);
    assert(data =~= head + header + blocks_bytes(blocks));
}

/// The content identifier of a DAG-CBOR block can be told from whatever follows
/// it.
pub proof fn law_cid_len(digest: Seq<u8>, rest: Seq<u8>)
    requires
        digest.len() == 32,
    ensures
        cid_len(crate::atproto::cid::cid_prefix() + digest + rest) == Ok::<nat, CarError>(36),
{
    let data = crate::atproto::cid::cid_prefix() + digest + rest;
    assert(varint_bytes(0x71) =~= seq![0x71u8]);
    assert(varint_bytes(0x12) =~= seq![0x12u8]);
    assert(varint_bytes(0x20) =~= seq![0x20u8]);
    lemma_varint_within(seq![0x01u8], 0x71, seq![0x12u8, 0x20] + digest + rest);
    assert(data =~= seq![0x01u8] + seq![0x71u8] + (seq![0x12u8, 0x20] + digest + rest));
    lemma_varint_within(seq![0x01u8, 0x71], 0x12, seq![0x20u8] + digest + rest);
    assert(data =~= seq![0x01u8, 0x71] + seq![0x12u8] + (seq![0x20u8] + digest + rest));
    lemma_varint_within(seq![0x01u8, 0x71, 0x12], 0x20, digest + rest);
    assert(data =~= seq![0x01u8, 0x71, 0x12] + seq![0x20u8] + (digest + rest));
}

} // verus!
