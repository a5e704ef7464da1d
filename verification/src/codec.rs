//! Canonical bytes of the smaller types, and reading them back.

use vstd::prelude::*;

use crate::canonical::{
    decode_record, encode_record, field_at, fields_view, lemma_value_at,
    mutation_fields, record_of, record_read_of, tag_fields, text_at, value_at, CborItem, CborView,
};
use crate::nesting::{is_shallow, shallow};
use crate::store::namespaces::copy_texts;
use crate::types::{
    mutation_number, relation_number, ConflictResolution, Direction, EdgeRelation, EpochMutation,
    FederationConfig, FederationMode, MutationOp, TagEntry, TagUpdate, TagView, UpdateView,
};

verus! {

// -- Numbers ----------------------------------------------------------------------

/// The deterministic CBOR of a number.
pub uninterp spec fn number_of(n: u64) -> Seq<u8>;

/// The number that bytes are parsed as; none where they are not the
/// deterministic CBOR of one.
pub uninterp spec fn number_parsed_of(data: Seq<u8>) -> Option<u64>;

/// The number that bytes are read as: the one that they are parsed as, where they
/// are not nested too deep.
pub open spec fn number_read_of(data: Seq<u8>) -> Option<u64> {
    if is_shallow(data) {
        number_parsed_of(data)
    } else {
        None
    }
}

/// `dcbor::CBOR::from` on a number, written by `CBOR::to_cbor_data`, which
/// `CBOR::try_from_data` reads back. It is a single item, with nothing nested in
/// it.
#[verifier::external_body]
pub(crate) fn encode_number(n: u64) -> (out: Vec<u8>)
    ensures
        out@ == number_of(n),
        number_read_of(out@) == Some(n),
{
    dcbor::CBOR::from(n).to_cbor_data()
}

/// `dcbor::CBOR::try_from_data`, and the number that it gives. None where it
/// refuses the bytes, or gives something other than a number that is not
/// negative. The parser calls itself once for each level of nesting, so bytes
/// that are nested too deep are kept from it.
#[verifier::external_body]
pub(crate) fn parse_number(data: &[u8]) -> (out: Option<u64>)
    requires
        is_shallow(data@),
    ensures
        out == number_parsed_of(data@),
{
    match dcbor::CBOR::try_from_data(data).ok()?.as_case() {
        dcbor::CBORCase::Unsigned(n) => Some(*n),
        _ => None,
    }
}

/// The number that bytes are read as.
fn decode_number(data: &[u8]) -> (out: Option<u64>)
    ensures
        out == number_read_of(data@),
{
    if shallow(data) {
        parse_number(data)
    } else {
        None
    }
}

/// The number that stands for a direction.
pub open spec fn direction_number(d: Direction) -> u64 {
    match d {
        Direction::Outbound => 0,
        Direction::Inbound => 1,
    }
}

/// The number that stands for a mode.
pub open spec fn mode_number(m: FederationMode) -> u64 {
    match m {
        FederationMode::Disabled => 0,
        FederationMode::Active => 1,
        FederationMode::Passive => 2,
    }
}

/// The number that stands for a resolution.
pub open spec fn resolution_number(r: ConflictResolution) -> u64 {
    match r {
        ConflictResolution::Reject => 0,
        ConflictResolution::AcceptAll => 1,
        ConflictResolution::VersionWins => 2,
    }
}

/// The canonical bytes of a relation.
pub fn canonical_relation(r: EdgeRelation) -> (out: Vec<u8>)
    ensures
        out@ == number_of(relation_number(r)),
        number_read_of(out@) == Some(relation_number(r)),
{
    encode_number(r.number())
}

/// The relation that canonical bytes stand for.
pub fn relation_from_canonical(data: &[u8]) -> (out: Option<EdgeRelation>)
    ensures
        match out {
            Some(r) => number_read_of(data@) == Some(relation_number(r)),
            None => number_read_of(data@) is None || number_read_of(data@)->0 > 16,
        },
{
    match decode_number(data) {
        Some(n) => EdgeRelation::from_number(n),
        None => None,
    }
}

fn op_from_number(n: u64) -> (out: Option<MutationOp>)
    ensures
        match out {
            Some(op) => mutation_number(op) == n,
            None => n > 8,
        },
{
    match n {
        0 => Some(MutationOp::TagSet),
        1 => Some(MutationOp::TagDelete),
        2 => Some(MutationOp::EdgePut),
        3 => Some(MutationOp::EdgeDelete),
        4 => Some(MutationOp::AssertionPublish),
        5 => Some(MutationOp::RevocationPublish),
        6 => Some(MutationOp::AnchorOrigin),
        7 => Some(MutationOp::BlobPut),
        8 => Some(MutationOp::BlobDelete),
        _ => None,
    }
}

/// The canonical bytes of a kind of change.
pub fn canonical_op(op: MutationOp) -> (out: Vec<u8>)
    ensures
        out@ == number_of(mutation_number(op)),
        number_read_of(out@) == Some(mutation_number(op)),
{
    encode_number(op.number())
}

/// The kind of change that canonical bytes stand for.
pub fn op_from_canonical(data: &[u8]) -> (out: Option<MutationOp>)
    ensures
        match out {
            Some(op) => number_read_of(data@) == Some(mutation_number(op)),
            None => number_read_of(data@) is None || number_read_of(data@)->0 > 8,
        },
{
    match decode_number(data) {
        Some(n) => op_from_number(n),
        None => None,
    }
}

/// The canonical bytes of a direction.
pub fn canonical_direction(d: Direction) -> (out: Vec<u8>)
    ensures
        out@ == number_of(direction_number(d)),
        number_read_of(out@) == Some(direction_number(d)),
{
    encode_number(
        match d {
            Direction::Outbound => 0,
            Direction::Inbound => 1,
        },
    )
}

/// The direction that canonical bytes stand for.
pub fn direction_from_canonical(data: &[u8]) -> (out: Option<Direction>)
    ensures
        match out {
            Some(d) => number_read_of(data@) == Some(direction_number(d)),
            None => number_read_of(data@) is None || number_read_of(data@)->0 > 1,
        },
{
    match decode_number(data) {
        Some(n) => if n == 0 {
            Some(Direction::Outbound)
        } else if n == 1 {
            Some(Direction::Inbound)
        } else {
            None
        },
        None => None,
    }
}

/// The canonical bytes of a mode.
pub fn canonical_mode(m: FederationMode) -> (out: Vec<u8>)
    ensures
        out@ == number_of(mode_number(m)),
        number_read_of(out@) == Some(mode_number(m)),
{
    encode_number(number_of_mode(m))
}

fn number_of_mode(m: FederationMode) -> (n: u64)
    ensures
        n == mode_number(m),
{
    match m {
        FederationMode::Disabled => 0,
        FederationMode::Active => 1,
        FederationMode::Passive => 2,
    }
}

fn mode_from_number(n: u64) -> (out: Option<FederationMode>)
    ensures
        match out {
            Some(m) => mode_number(m) == n,
            None => n > 2,
        },
{
    match n {
        0 => Some(FederationMode::Disabled),
        1 => Some(FederationMode::Active),
        2 => Some(FederationMode::Passive),
        _ => None,
    }
}

fn resolution_from_number(n: u64) -> (out: Option<ConflictResolution>)
    ensures
        match out {
            Some(r) => resolution_number(r) == n,
            None => n > 2,
        },
{
    match n {
        0 => Some(ConflictResolution::Reject),
        1 => Some(ConflictResolution::AcceptAll),
        2 => Some(ConflictResolution::VersionWins),
        _ => None,
    }
}

// -- Records ----------------------------------------------------------------------

fn count_at(fields: &Vec<(u64, CborItem)>, key: u64) -> (out: Option<u64>)
    ensures
        match out {
            Some(n) => value_at(fields_view(fields@), key) == Some(CborView::Unsigned(n)),
            None => !(value_at(fields_view(fields@), key) matches Some(CborView::Unsigned(_))),
        },
{
    match field_at(fields, key) {
        Some(CborItem::Unsigned(n)) => Some(*n),
        _ => None,
    }
}

/// Whether a record is that of a tag entry.
pub open spec fn reads_tag(fields: Seq<(u64, CborView)>, tag: TagView) -> bool {
    &&& value_at(fields, 0) == Some(CborView::Text(tag.name))
    &&& value_at(fields, 1) == Some(CborView::Text(tag.kappa))
    &&& value_at(fields, 2) == Some(CborView::Unsigned(tag.version))
}

/// The tag entry that canonical bytes stand for.
pub fn tag_from_canonical(data: &[u8]) -> (out: Option<TagEntry>)
    ensures
        match out {
            Some(tag) => record_read_of(data@) is Some && reads_tag(
                record_read_of(data@)->0,
                tag.deep_view(),
            ),
            None => record_read_of(data@) is None || forall|tag: TagView|
                !reads_tag(record_read_of(data@)->0, tag),
        },
{
    let fields = match decode_record(data) {
        Some(fields) => fields,
        None => return None,
    };
    match (text_at(&fields, 0), text_at(&fields, 1), count_at(&fields, 2)) {
        (Some(name), Some(kappa), Some(version)) => Some(TagEntry { name, kappa, version }),
        _ => None,
    }
}

/// A tag entry is read back from its fields.
pub proof fn law_tag_fields(tag: TagView, other: TagView)
    ensures
        reads_tag(tag_fields(tag), tag),
        reads_tag(tag_fields(tag), other) ==> other == tag,
{
    lemma_value_at(tag_fields(tag), 0, 0);
    lemma_value_at(tag_fields(tag), 1, 1);
    lemma_value_at(tag_fields(tag), 2, 2);
}

/// The fields of an update of a tag.
pub open spec fn update_fields(u: UpdateView) -> Seq<(u64, CborView)> {
    let fixed = seq![(0u64, CborView::Text(u.name)), (1u64, CborView::Text(u.kappa))];
    match u.expected_version {
        Some(v) => fixed.push((2u64, CborView::Unsigned(v))),
        None => fixed,
    }
}

/// The canonical bytes of an update of a tag.
pub fn canonical_update(u: &TagUpdate) -> (out: Vec<u8>)
    ensures
        out@ == record_of(update_fields(u.deep_view())),
{
    let mut fields: Vec<(u64, CborItem)> = Vec::new();
    fields.push((0, CborItem::Text(u.name.clone())));
    fields.push((1, CborItem::Text(u.kappa.clone())));
    if let Some(v) = u.expected_version {
        fields.push((2, CborItem::Unsigned(v)));
    }
    assert(fields_view(fields@) =~= update_fields(u.deep_view()));
    encode_record(fields.as_slice())
}

/// Whether an optional text is what a record has under a key.
pub open spec fn reads_optional(
    fields: Seq<(u64, CborView)>,
    key: u64,
    text: Option<Seq<char>>,
) -> bool {
    value_at(fields, key) == (match text {
        Some(s) => Some(CborView::Text(s)),
        None => None,
    })
}

/// What an optional text holds.
pub open spec fn shown_text(s: Option<String>) -> Option<Seq<char>> {
    match s {
        Some(t) => Some(t@),
        None => None,
    }
}

/// Whether a record is that of a change.
pub open spec fn reads_mutation(fields: Seq<(u64, CborView)>, m: EpochMutation) -> bool {
    &&& value_at(fields, 0) == Some(CborView::Unsigned(mutation_number(m.op)))
    &&& value_at(fields, 1) == Some(CborView::Text(m.namespace@))
    &&& value_at(fields, 2) == Some(CborView::Text(m.tag_name@))
    &&& reads_optional(fields, 3, shown_text(m.old_kappa))
    &&& reads_optional(fields, 4, shown_text(m.new_kappa))
}

/// Why a record is not that of a change: a field is missing or of another type.
pub open spec fn not_mutation(fields: Seq<(u64, CborView)>) -> bool {
    ||| !(value_at(fields, 0) matches Some(CborView::Unsigned(n)) && n <= 8)
    ||| !(value_at(fields, 1) matches Some(CborView::Text(_)))
    ||| !(value_at(fields, 2) matches Some(CborView::Text(_)))
    ||| (value_at(fields, 3) is Some && !(value_at(fields, 3) matches Some(CborView::Text(_))))
    ||| (value_at(fields, 4) is Some && !(value_at(fields, 4) matches Some(CborView::Text(_))))
}

/// The change that canonical bytes stand for.
pub fn mutation_from_canonical(data: &[u8]) -> (out: Option<EpochMutation>)
    ensures
        match out {
            Some(m) => record_read_of(data@) is Some && reads_mutation(
                record_read_of(data@)->0,
                m,
            ),
            None => record_read_of(data@) is None || not_mutation(record_read_of(data@)->0),
        },
{
    let fields = match decode_record(data) {
        Some(fields) => fields,
        None => return None,
    };
    let op = match count_at(&fields, 0) {
        Some(n) => match op_from_number(n) {
            Some(op) => op,
            None => return None,
        },
        None => return None,
    };
    let (namespace, tag_name) = match (text_at(&fields, 1), text_at(&fields, 2)) {
        (Some(namespace), Some(tag_name)) => (namespace, tag_name),
        _ => return None,
    };
    let old_kappa = match field_at(&fields, 3) {
        Some(CborItem::Text(s)) => Some(s.clone()),
        Some(_) => return None,
        None => None,
    };
    let new_kappa = match field_at(&fields, 4) {
        Some(CborItem::Text(s)) => Some(s.clone()),
        Some(_) => return None,
        None => None,
    };
    Some(EpochMutation { op, namespace, tag_name, old_kappa, new_kappa })
}

/// A change is read back from its fields.
pub proof fn law_mutation_fields(m: EpochMutation)
    ensures
        reads_mutation(mutation_fields(m), m),
{
    let f = mutation_fields(m);
    lemma_value_at(f, 0, 0);
    lemma_value_at(f, 1, 1);
    lemma_value_at(f, 2, 2);
    if m.old_kappa is Some {
        lemma_value_at(f, 3, 3);
    } else {
        lemma_value_at(f, 3, f.len() as int);
    }
    if m.new_kappa is Some {
        lemma_value_at(f, 4, f.len() - 1);
    } else {
        lemma_value_at(f, 4, f.len() as int);
    }
}

/// The fields of a federation configuration.
pub open spec fn config_fields(c: FederationConfig) -> Seq<(u64, CborView)> {
    seq![
        (0u64, CborView::Unsigned(mode_number(c.mode))),
        (1u64, CborView::Texts(c.peers.deep_view())),
        (2u64, CborView::Unsigned(c.sync_interval_secs)),
        (3u64, CborView::Unsigned(resolution_number(c.conflict_resolution))),
    ]
}

/// The canonical bytes of a federation configuration.
pub fn canonical_config(c: &FederationConfig) -> (out: Vec<u8>)
    ensures
        out@ == record_of(config_fields(*c)),
{
    let mut fields: Vec<(u64, CborItem)> = Vec::new();
    fields.push((0, CborItem::Unsigned(number_of_mode(c.mode))));
    fields.push((1, CborItem::Texts(copy_texts(&c.peers))));
    fields.push((2, CborItem::Unsigned(c.sync_interval_secs)));
    let resolution: u64 = match c.conflict_resolution {
        ConflictResolution::Reject => 0,
        ConflictResolution::AcceptAll => 1,
        ConflictResolution::VersionWins => 2,
    };
    fields.push((3, CborItem::Unsigned(resolution)));
    assert(fields_view(fields@) =~= config_fields(*c));
    encode_record(fields.as_slice())
}

/// Whether a record is that of a federation configuration.
pub open spec fn reads_config(fields: Seq<(u64, CborView)>, c: FederationConfig) -> bool {
    &&& value_at(fields, 0) == Some(CborView::Unsigned(mode_number(c.mode)))
    &&& value_at(fields, 1) == Some(CborView::Texts(c.peers.deep_view()))
    &&& value_at(fields, 2) == Some(CborView::Unsigned(c.sync_interval_secs))
    &&& value_at(fields, 3) == Some(CborView::Unsigned(resolution_number(c.conflict_resolution)))
}

/// Why a record is not that of a federation configuration.
pub open spec fn not_config(fields: Seq<(u64, CborView)>) -> bool {
    ||| !(value_at(fields, 0) matches Some(CborView::Unsigned(n)) && n <= 2)
    ||| !(value_at(fields, 1) matches Some(CborView::Texts(_)))
    ||| !(value_at(fields, 2) matches Some(CborView::Unsigned(_)))
    ||| !(value_at(fields, 3) matches Some(CborView::Unsigned(n)) && n <= 2)
}

/// The federation configuration that canonical bytes stand for.
pub fn config_from_canonical(data: &[u8]) -> (out: Option<FederationConfig>)
    ensures
        match out {
            Some(c) => record_read_of(data@) is Some && reads_config(record_read_of(data@)->0, c),
            None => record_read_of(data@) is None || not_config(record_read_of(data@)->0),
        },
{
    let fields = match decode_record(data) {
        Some(fields) => fields,
        None => return None,
    };
    let mode = match count_at(&fields, 0) {
        Some(n) => match mode_from_number(n) {
            Some(mode) => mode,
            None => return None,
        },
        None => return None,
    };
    let peers = match field_at(&fields, 1) {
        Some(CborItem::Texts(list)) => copy_texts(list),
        _ => return None,
    };
    let sync_interval_secs: u64 = match count_at(&fields, 2) {
        Some(n) => n,
        None => return None,
    };
    let conflict_resolution = match count_at(&fields, 3) {
        Some(n) => match resolution_from_number(n) {
            Some(r) => r,
            None => return None,
        },
        None => return None,
    };
    Some(FederationConfig { mode, peers, sync_interval_secs, conflict_resolution })
}

/// A federation configuration is read back from its fields.
pub proof fn law_config_fields(c: FederationConfig)
    ensures
        reads_config(config_fields(c), c),
{
    let f = config_fields(c);
    lemma_value_at(f, 0, 0);
    lemma_value_at(f, 1, 1);
    lemma_value_at(f, 2, 2);
    lemma_value_at(f, 3, 3);
}

} // verus!
