//! Deterministic CBOR for the records that the registry addresses by content.
//!
//! A record is a map from small permanent numbers to values. Fields that are
//! absent are left out.

use dcbor::{CBORCase, CBOR};
use vstd::prelude::*;

use crate::atproto::cbor::full_head;
use crate::bytes::copy_bytes;
use crate::nesting::{is_shallow, shallow};
use crate::types::{Edge, EdgeView, EpochMutation, TagEntry, TagView};

verus! {

/// A value of a record.
pub enum CborItem {
    Unsigned(u64),
    Text(String),
    Bytes(Vec<u8>),
    Texts(Vec<String>),
}

/// What a value of a record holds.
pub enum CborView {
    Unsigned(u64),
    Text(Seq<char>),
    Bytes(Seq<u8>),
    Texts(Seq<Seq<char>>),
}

impl DeepView for CborItem {
    type V = CborView;

    open spec fn deep_view(&self) -> CborView {
        match self {
            CborItem::Unsigned(n) => CborView::Unsigned(*n),
            CborItem::Text(s) => CborView::Text(s@),
            CborItem::Bytes(b) => CborView::Bytes(b@),
            CborItem::Texts(v) => CborView::Texts(v.deep_view()),
        }
    }
}

/// What the fields of a record hold.
pub open spec fn fields_view(fields: Seq<(u64, CborItem)>) -> Seq<(u64, CborView)> {
    Seq::new(fields.len(), |i: int| (fields[i].0, fields[i].1.deep_view()))
}

/// The deterministic CBOR map with these fields.
pub uninterp spec fn record_of(fields: Seq<(u64, CborView)>) -> Seq<u8>;

/// The fields that bytes are parsed as; none where they are not the deterministic
/// CBOR of a map from numbers to numbers, texts, byte strings and lists of texts.
pub uninterp spec fn record_parsed_of(data: Seq<u8>) -> Option<Seq<(u64, CborView)>>;

/// The fields that bytes are read as: those that they are parsed as, where they
/// are not nested too deep.
pub open spec fn record_read_of(data: Seq<u8>) -> Option<Seq<(u64, CborView)>> {
    if is_shallow(data) {
        record_parsed_of(data)
    } else {
        None
    }
}

/// Whether a text is ASCII, and so has only one Unicode form.
pub open spec fn is_plain(s: Seq<char>) -> bool {
    forall|i: int| 0 <= i < s.len() ==> (#[trigger] s[i] as u32) < 128
}

/// Whether the texts of a value are ASCII.
pub open spec fn plain_value(v: CborView) -> bool {
    match v {
        CborView::Text(s) => is_plain(s),
        CborView::Texts(list) => forall|i: int| 0 <= i < list.len() ==> is_plain(#[trigger] list[i]),
        _ => true,
    }
}

/// Whether the keys of a record ascend and its texts are ASCII.
pub open spec fn plain_record(fields: Seq<(u64, CborView)>) -> bool {
    &&& forall|i: int, j: int|
        0 <= i < j < fields.len() ==> (#[trigger] fields[i]).0 < (#[trigger] fields[j]).0
    &&& forall|i: int| 0 <= i < fields.len() ==> plain_value((#[trigger] fields[i]).1)
}

/// `dcbor::Map` filled with the fields and written by `CBOR::to_cbor_data`, which
/// brings texts into Unicode Normalization Form C. `CBOR::try_from_data` reads a
/// record back whose keys ascend and whose texts are ASCII. A record is nested
/// three deep at most: the map, its lists, and their texts.
#[verifier::external_body]
pub(crate) fn encode_record(fields: &[(u64, CborItem)]) -> (out: Vec<u8>)
    ensures
        out@ == record_of(fields_view(fields@)),
        plain_record(fields_view(fields@)) ==> record_read_of(out@) == Some(fields_view(fields@)),
{
    let mut map = dcbor::Map::new();
    for (key, item) in fields {
        let value: dcbor::CBOR = match item {
            CborItem::Unsigned(n) => (*n).into(),
            CborItem::Text(s) => s.as_str().into(),
            CborItem::Bytes(b) => dcbor::CBOR::to_byte_string(b),
            CborItem::Texts(v) => v.clone().into(),
        };
        map.insert(*key, value);
    }
    dcbor::CBOR::from(map).to_cbor_data()
}

/// `dcbor::CBOR::try_from_data`, and the entries of the map that it gives. None
/// where it refuses the bytes, or the value is not a map from numbers to numbers,
/// texts, byte strings and lists of texts. The parser calls itself once for each
/// level of nesting, so bytes that are nested too deep are kept from it.
#[verifier::external_body]
pub(crate) fn parse_record(data: &[u8]) -> (out: Option<Vec<(u64, CborItem)>>)
    requires
        is_shallow(data@),
    ensures
        match out {
            Some(fields) => record_parsed_of(data@) == Some(fields_view(fields@)),
            None => record_parsed_of(data@) is None,
        },
{
    let map = CBOR::try_from_data(data).ok()?.into_map()?;
    map.iter().map(|(key, value)| {
        let item = match value.as_case() {
            CBORCase::Unsigned(n) => CborItem::Unsigned(*n),
            CBORCase::Text(s) => CborItem::Text(s.clone()),
            CBORCase::ByteString(b) => CborItem::Bytes(b.to_vec()),
            CBORCase::Array(v) => CborItem::Texts(
                v.iter().map(|t| t.clone().try_into_text().ok()).collect::<Option<_>>()?,
            ),
            _ => return None,
        };
        Some((u64::try_from(key.clone()).ok()?, item))
    }).collect()
}

/// The deterministic CBOR of a byte string: its length in as few bytes as it
/// needs, then the bytes.
pub open spec fn byte_string(data: Seq<u8>) -> Seq<u8> {
    full_head(2, data.len()) + data
}

/// `dcbor::CBOR::to_byte_string`, written by `CBOR::to_cbor_data`: the head of a
/// byte string with the length, then the bytes.
#[verifier::external_body]
pub(crate) fn encode_bytes(data: &[u8]) -> (out: Vec<u8>)
    ensures
        out@ == byte_string(data@),
{
    CBOR::to_byte_string(data).to_cbor_data()
}

/// The fields that bytes are read as.
pub(crate) fn decode_record(data: &[u8]) -> (out: Option<Vec<(u64, CborItem)>>)
    ensures
        match out {
            Some(fields) => record_read_of(data@) == Some(fields_view(fields@)),
            None => record_read_of(data@) is None,
        },
{
    if shallow(data) {
        parse_record(data)
    } else {
        None
    }
}

/// The fields of a tag entry.
pub open spec fn tag_fields(tag: TagView) -> Seq<(u64, CborView)> {
    seq![
        (0u64, CborView::Text(tag.name)),
        (1u64, CborView::Text(tag.kappa)),
        (2u64, CborView::Unsigned(tag.version)),
    ]
}

/// The fields of an edge.
pub open spec fn edge_fields(edge: EdgeView) -> Seq<(u64, CborView)> {
    let fixed = seq![
        (0u64, CborView::Text(edge.source)),
        (1u64, CborView::Text(edge.target)),
        (2u64, CborView::Unsigned(crate::types::relation_number(edge.relation))),
        (3u64, CborView::Text(edge.asserter)),
    ];
    let value = match edge.value_kappa {
        Some(k) => fixed.push((4u64, CborView::Text(k))),
        None => fixed,
    };
    match edge.metadata {
        Some(m) => value.push((5u64, CborView::Bytes(m))),
        None => value,
    }
}

/// The blob that an edge is stored as.
pub open spec fn edge_blob(edge: EdgeView) -> Seq<u8> {
    record_of(edge_fields(edge))
}

/// The fields of a change recorded in an epoch.
pub open spec fn mutation_fields(m: EpochMutation) -> Seq<(u64, CborView)> {
    let fixed = seq![
        (0u64, CborView::Unsigned(crate::types::mutation_number(m.op))),
        (1u64, CborView::Text(m.namespace@)),
        (2u64, CborView::Text(m.tag_name@)),
    ];
    let old_part = match m.old_kappa {
        Some(k) => fixed.push((3u64, CborView::Text(k@))),
        None => fixed,
    };
    match m.new_kappa {
        Some(k) => old_part.push((4u64, CborView::Text(k@))),
        None => old_part,
    }
}

/// The canonical bytes of a tag entry.
pub fn canonical_tag(tag: &TagEntry) -> (out: Vec<u8>)
    ensures
        out@ == record_of(tag_fields(tag.deep_view())),
{
    let mut fields: Vec<(u64, CborItem)> = Vec::new();
    fields.push((0, CborItem::Text(tag.name.clone())));
    fields.push((1, CborItem::Text(tag.kappa.clone())));
    fields.push((2, CborItem::Unsigned(tag.version)));
    assert(fields_view(fields@) =~= tag_fields(tag.deep_view()));
    encode_record(fields.as_slice())
}

/// The canonical bytes of an edge.
pub fn canonical_edge(edge: &Edge) -> (out: Vec<u8>)
    ensures
        out@ == edge_blob(edge.deep_view()),
        plain_record(edge_fields(edge.deep_view())) ==> record_read_of(out@) == Some(
            edge_fields(edge.deep_view()),
        ),
{
    let mut fields: Vec<(u64, CborItem)> = Vec::new();
    fields.push((0, CborItem::Text(edge.source.clone())));
    fields.push((1, CborItem::Text(edge.target.clone())));
    fields.push((2, CborItem::Unsigned(edge.relation.number())));
    fields.push((3, CborItem::Text(edge.asserter.clone())));
    if let Some(k) = &edge.value_kappa {
        fields.push((4, CborItem::Text(k.clone())));
    }
    if let Some(m) = &edge.metadata {
        fields.push((5, CborItem::Bytes(copy_bytes(m.as_slice()))));
    }
    assert(fields_view(fields@) =~= edge_fields(edge.deep_view()));
    encode_record(fields.as_slice())
}

/// The canonical bytes of a change recorded in an epoch.
pub fn canonical_mutation(m: &EpochMutation) -> (out: Vec<u8>)
    ensures
        out@ == record_of(mutation_fields(*m)),
{
    let mut fields: Vec<(u64, CborItem)> = Vec::new();
    fields.push((0, CborItem::Unsigned(m.op.number())));
    fields.push((1, CborItem::Text(m.namespace.clone())));
    fields.push((2, CborItem::Text(m.tag_name.clone())));
    if let Some(k) = &m.old_kappa {
        fields.push((3, CborItem::Text(k.clone())));
    }
    if let Some(k) = &m.new_kappa {
        fields.push((4, CborItem::Text(k.clone())));
    }
    assert(fields_view(fields@) =~= mutation_fields(*m));
    encode_record(fields.as_slice())
}

/// The value that a record has under a key: the first with that key.
pub open spec fn value_at(fields: Seq<(u64, CborView)>, key: u64) -> Option<CborView>
    decreases fields.len(),
{
    if fields.len() == 0 {
        None
    } else if fields[0].0 == key {
        Some(fields[0].1)
    } else {
        value_at(fields.drop_first(), key)
    }
}

/// The value under a key is the first with that key.
pub proof fn lemma_value_at(fields: Seq<(u64, CborView)>, key: u64, i: int)
    requires
        0 <= i <= fields.len(),
        forall|j: int| 0 <= j < i ==> (#[trigger] fields[j]).0 != key,
        i < fields.len() ==> fields[i].0 == key,
    ensures
        value_at(fields, key) == (if i < fields.len() {
            Some(fields[i].1)
        } else {
            None
        }),
    decreases fields.len(),
{
    if i > 0 {
        assert(fields[0].0 != key);
        assert forall|j: int| 0 <= j < i - 1 implies (#[trigger] fields.drop_first()[j]).0
            != key by {
            assert(fields.drop_first()[j] == fields[j + 1]);
        }
        lemma_value_at(fields.drop_first(), key, i - 1);
    }
}

/// The value under a key.
pub(crate) fn field_at(fields: &Vec<(u64, CborItem)>, key: u64) -> (out: Option<&CborItem>)
    ensures
        match out {
            Some(v) => value_at(fields_view(fields@), key) == Some(v.deep_view()),
            None => value_at(fields_view(fields@), key) is None,
        },
{
    let ghost all = fields_view(fields@);
    let mut i: usize = 0;
    while i < fields.len()
        invariant
            i <= fields@.len(),
            all == fields_view(fields@),
            all.len() == fields@.len(),
            forall|j: int| 0 <= j < i ==> (#[trigger] all[j]).0 != key,
        decreases fields@.len() - i,
    {
        assert(all[i as int] == (fields@[i as int].0, fields@[i as int].1.deep_view()));
        if fields[i].0 == key {
            proof {
                lemma_value_at(all, key, i as int);
            }
            return Some(&fields[i].1);
        }
        i += 1;
    }
    proof {
        lemma_value_at(all, key, i as int);
    }
    None
}

/// Whether a record is that of an edge: the two ends, a known relation and the
/// asserter, and where they are there, the address of a value and metadata.
pub open spec fn reads_edge(fields: Seq<(u64, CborView)>, edge: EdgeView) -> bool {
    &&& value_at(fields, 0) == Some(CborView::Text(edge.source))
    &&& value_at(fields, 1) == Some(CborView::Text(edge.target))
    &&& value_at(fields, 2) == Some(
        CborView::Unsigned(crate::types::relation_number(edge.relation)),
    )
    &&& value_at(fields, 3) == Some(CborView::Text(edge.asserter))
    &&& value_at(fields, 4) == (match edge.value_kappa {
        Some(k) => Some(CborView::Text(k)),
        None => None,
    })
    &&& value_at(fields, 5) == (match edge.metadata {
        Some(m) => Some(CborView::Bytes(m)),
        None => None,
    })
}

/// The text under a key.
pub(crate) fn text_at(fields: &Vec<(u64, CborItem)>, key: u64) -> (out: Option<String>)
    ensures
        match out {
            Some(s) => value_at(fields_view(fields@), key) == Some(CborView::Text(s@)),
            None => !(value_at(fields_view(fields@), key) matches Some(CborView::Text(_))),
        },
{
    match field_at(fields, key) {
        Some(CborItem::Text(s)) => Some(s.clone()),
        _ => None,
    }
}

/// The edge that canonical bytes stand for; none where they are not those of an
/// edge.
pub fn edge_from_canonical(data: &[u8]) -> (out: Option<Edge>)
    ensures
        match out {
            Some(edge) => record_read_of(data@) is Some && reads_edge(
                record_read_of(data@)->0,
                edge.deep_view(),
            ),
            None => record_read_of(data@) is None || forall|edge: EdgeView|
                !reads_edge(record_read_of(data@)->0, edge),
        },
{
    let fields = match decode_record(data) {
        Some(fields) => fields,
        None => return None,
    };
    let source = match text_at(&fields, 0) {
        Some(s) => s,
        None => return None,
    };
    let target = match text_at(&fields, 1) {
        Some(s) => s,
        None => return None,
    };
    let relation = match field_at(&fields, 2) {
        Some(CborItem::Unsigned(n)) => match crate::types::EdgeRelation::from_number(*n) {
            Some(r) => r,
            None => return None,
        },
        _ => return None,
    };
    let asserter = match text_at(&fields, 3) {
        Some(s) => s,
        None => return None,
    };
    let value_kappa = match field_at(&fields, 4) {
        Some(CborItem::Text(s)) => Some(s.clone()),
        Some(_) => return None,
        None => None,
    };
    let metadata = match field_at(&fields, 5) {
        Some(CborItem::Bytes(b)) => Some(copy_bytes(b.as_slice())),
        Some(_) => return None,
        None => None,
    };
    Some(Edge { source, target, relation, asserter, value_kappa, metadata })
}

/// An edge is read back from its fields, and from no others than its own is
/// another read.
pub proof fn law_edge_fields(edge: EdgeView, other: EdgeView)
    ensures
        reads_edge(edge_fields(edge), edge),
        reads_edge(edge_fields(edge), other) ==> other == edge,
{
    let f = edge_fields(edge);
    lemma_value_at(f, 0, 0);
    lemma_value_at(f, 1, 1);
    lemma_value_at(f, 2, 2);
    lemma_value_at(f, 3, 3);
    if edge.value_kappa is Some {
        lemma_value_at(f, 4, 4);
    } else {
        lemma_value_at(f, 4, f.len() as int);
    }
    if edge.metadata is Some {
        lemma_value_at(f, 5, f.len() - 1);
    } else {
        lemma_value_at(f, 5, f.len() as int);
    }
    if reads_edge(f, other) {
        assert(other.value_kappa == edge.value_kappa);
        assert(other.metadata == edge.metadata);
    }
}

} // verus!
