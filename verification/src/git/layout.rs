//! How the entries of a pack lie one behind the other.

use vstd::prelude::*;
use vstd::utf8::{
    decode_utf8, encode_utf8, encode_utf8_decode_utf8, encode_utf8_valid_utf8, is_ascii_chars,
    is_ascii_chars_encode_utf8, valid_utf8,
};

use crate::bytes::lemma_first_byte;
use crate::digest::git_digest_of;
use crate::git::envelope::envelope_of;
use crate::git::ingest::{EntryView, HeaderView};
use crate::git::object::{kind_name, law_kind_named, loose_header_of, HashKind, Kind};
use crate::git::packgen::{envelope_head, kind_type, pack_header, HeadFault};
use crate::git::packheader::{entry_header, ofs_bytes};
use crate::git::zlib::deflated_of;
use crate::text::{
    decimal, decimal_bytes, law_decimal_roundtrip, lemma_decimal, lemma_decimal_bytes,
    lemma_first_index,
};

verus! {

/// An entry to be written: what it is, its data, and the data compressed.
pub struct PackItem {
    pub header: HeaderView,
    pub data: Seq<u8>,
    pub stream: Seq<u8>,
}

/// The number that stands for what an entry is.
pub open spec fn item_type(h: HeaderView) -> u8 {
    match h {
        HeaderView::Object(kind) => kind_type(kind),
        HeaderView::OfsDelta(_) => 6,
        HeaderView::RefDelta(_) => 7,
    }
}

/// What tells the base of a delta.
pub open spec fn item_base(h: HeaderView) -> Seq<u8> {
    match h {
        HeaderView::Object(_) => Seq::empty(),
        HeaderView::OfsDelta(distance) => ofs_bytes(distance as nat),
        HeaderView::RefDelta(id) => id,
    }
}

/// The bytes of an entry.
pub open spec fn item_bytes(x: PackItem) -> Seq<u8> {
    entry_header(item_type(x.header), x.data.len()) + item_base(x.header) + x.stream
}

/// The bytes of entries, one behind the other.
pub open spec fn items_bytes(items: Seq<PackItem>) -> Seq<u8>
    decreases items.len(),
{
    if items.len() == 0 {
        Seq::empty()
    } else {
        items_bytes(items.drop_last()) + item_bytes(items.last())
    }
}

/// Where an entry begins: behind the header of the pack and the entries before
/// it.
pub open spec fn item_at(items: Seq<PackItem>, i: int) -> nat {
    12 + items_bytes(items.take(i)).len()
}

/// An entry as it is read.
pub open spec fn item_entry(items: Seq<PackItem>, i: int) -> EntryView {
    EntryView {
        offset: item_at(items, i) as u64,
        header: items[i].header,
        compressed: items[i].stream,
        size: items[i].data.len() as u64,
    }
}

/// Entries as they are read.
pub open spec fn items_entries(items: Seq<PackItem>) -> Seq<EntryView> {
    Seq::new(items.len(), |i: int| item_entry(items, i))
}

/// Whether an entry is an object in full, or a delta to an entry not too far
/// before it, and its data is compressed as this library does.
pub open spec fn item_plain(x: PackItem) -> bool {
    &&& deflated_of(x.data) == Some(x.stream)
    &&& x.data.len() <= u64::MAX
    &&& match x.header {
        HeaderView::Object(_) => true,
        HeaderView::OfsDelta(distance) => distance < 0x100_0000_0000_0000,
        HeaderView::RefDelta(_) => false,
    }
}

/// Whether bytes are a pack with these entries, its checksum behind them.
pub open spec fn is_pack_of(hash: HashKind, pack: Seq<u8>, items: Seq<PackItem>) -> bool {
    let body = pack_header(items.len()) + items_bytes(items);
    &&& items.len() <= u32::MAX
    &&& pack.len() <= u64::MAX
    &&& git_digest_of(hash, body) matches Some(digest) && pack == body + digest
    &&& forall|i: int| 0 <= i < items.len() ==> item_plain(#[trigger] items[i])
}

/// An entry begins behind those before it, and before the end of the pack.
pub proof fn lemma_item_at(items: Seq<PackItem>, i: int, j: int)
    requires
        0 <= i < j <= items.len(),
    ensures
        12 <= item_at(items, i) < item_at(items, j) <= 12 + items_bytes(items).len(),
    decreases items.len() - i,
{
    let next = items.take(i + 1);
    assert(next.drop_last() =~= items.take(i));
    assert(items_bytes(next) == items_bytes(items.take(i)) + item_bytes(next.last()));
    assert(item_bytes(next.last()).len() > 0);
    if i + 1 < j {
        lemma_item_at(items, i + 1, j);
    } else if j < items.len() {
        lemma_item_at(items, j, items.len() as int);
    } else {
        assert(next =~= items);
    }
}

// -- The head of a stored object --------------------------------------------------

spec fn kind_chars(kind: Kind) -> Seq<char> {
    match kind {
        Kind::Tree => seq!['t', 'r', 'e', 'e'],
        Kind::Blob => seq!['b', 'l', 'o', 'b'],
        Kind::Commit => seq!['c', 'o', 'm', 'm', 'i', 't'],
        Kind::Tag => seq!['t', 'a', 'g'],
    }
}

proof fn lemma_kind_chars(kind: Kind)
    ensures
        is_ascii_chars(kind_chars(kind)),
        encode_utf8(kind_chars(kind)) == kind_name(kind),
        kind_chars(kind).len() == kind_name(kind).len(),
        kind_name(kind).len() <= 6,
        forall|i: int| 0 <= i < kind_chars(kind).len() ==> #[trigger] kind_chars(kind)[i] != ' ',
{
    let s = kind_chars(kind);
    is_ascii_chars_encode_utf8(s);
    assert(encode_utf8(s) =~= kind_name(kind));
}

/// The head of an object, as a text.
proof fn lemma_header_text(kind: Kind, size: nat)
    ensures
        ({
            let header = kind_name(kind) + seq![32u8] + decimal_bytes(size);
            &&& valid_utf8(header)
            &&& decode_utf8(header) == kind_chars(kind) + seq![' '] + decimal(size)
        }),
{
    let name = kind_chars(kind);
    let text = name + seq![' '] + decimal(size);
    let header = kind_name(kind) + seq![32u8] + decimal_bytes(size);
    lemma_kind_chars(kind);
    lemma_decimal(size);
    lemma_decimal_bytes(size);
    is_ascii_chars_encode_utf8(name);
    assert(is_ascii_chars(decimal(size)));
    is_ascii_chars_encode_utf8(decimal(size));
    assert(is_ascii_chars(text));
    is_ascii_chars_encode_utf8(text);
    assert(encode_utf8(text) =~= header);
    encode_utf8_valid_utf8(text);
    encode_utf8_decode_utf8(text);
}

/// The head of a stored object says what it is, how long its content is, and
/// where that begins.
pub proof fn law_envelope_head(kind: Kind, content: Seq<u8>)
    requires
        content.len() <= u64::MAX,
    ensures
        ({
            let envelope = envelope_of(kind, content);
            let at = loose_header_of(kind, content.len()).len() as int;
            &&& envelope_head(envelope) == Ok::<(Kind, u64, int), HeadFault>(
                (kind, content.len() as u64, at),
            )
            &&& envelope.skip(at) == content
        }),
{
    let name = kind_name(kind);
    let digits = decimal_bytes(content.len());
    let header = name + seq![32u8] + digits;
    let envelope = envelope_of(kind, content);
    let n = header.len() as int;
    let m = name.len() as int;
    let text = kind_chars(kind) + seq![' '] + decimal(content.len());
    law_kind_named(kind);
    lemma_kind_chars(kind);
    lemma_decimal_bytes(content.len());
    lemma_decimal_short(content.len() as u64);
    assert(envelope =~= header + seq![0u8] + content);
    assert forall|k: int| 0 <= k < n implies envelope[k] != 0 by {
        assert(envelope[k] == header[k]);
        if k < m {
            assert(header[k] == name[k]);
        } else if k > m {
            assert(header[k] == digits[k - m - 1]);
        }
    }
    lemma_first_byte(envelope, 0, n);
    assert(envelope.take(n) =~= header);
    assert(envelope.skip(n + 1) =~= content);
    lemma_header_text(kind, content.len());
    lemma_first_index(text, ' ', m);
    assert(text.take(m) =~= kind_chars(kind));
    assert(text.skip(m + 1) =~= decimal(content.len()));
    law_decimal_roundtrip(content.len() as u64);
}

spec fn ten_to(k: nat) -> nat
    decreases k,
{
    if k == 0 {
        1
    } else {
        10 * ten_to((k - 1) as nat)
    }
}

/// The numeral of a number below a power of ten has no more digits.
proof fn lemma_decimal_digits(n: nat, k: nat)
    requires
        n < ten_to(k),
        k > 0,
    ensures
        decimal(n).len() <= k,
    decreases k,
{
    if n >= 10 {
        if k == 1 {
            assert(ten_to(0) == 1);
        }
        lemma_decimal_digits(n / 10, (k - 1) as nat);
    }
}

proof fn lemma_decimal_short(n: u64)
    ensures
        decimal(n as nat).len() <= 20,
{
    assert(ten_to(20) == 100_000_000_000_000_000_000) by {
        reveal_with_fuel(ten_to, 21);
    }
    lemma_decimal_digits(n as nat, 20);
}

} // verus!
