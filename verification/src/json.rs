//! The small JSON records that the registry keeps as blobs.

use vstd::prelude::*;

verus! {

/// A value of a record.
pub enum JsonItem {
    Text(String),
    Number(u64),
}

/// What a value of a record holds.
pub enum JsonView {
    Text(Seq<char>),
    Number(u64),
}

impl DeepView for JsonItem {
    type V = JsonView;

    open spec fn deep_view(&self) -> JsonView {
        match self {
            JsonItem::Text(s) => JsonView::Text(s@),
            JsonItem::Number(n) => JsonView::Number(*n),
        }
    }
}

/// What the fields of a record hold.
pub open spec fn json_fields(fields: Seq<(String, JsonItem)>) -> Seq<(Seq<char>, JsonView)> {
    Seq::new(fields.len(), |i: int| (fields[i].0@, fields[i].1.deep_view()))
}

/// The text that a record has under a key, where the last field with that key
/// is a text.
pub open spec fn field_text(fields: Seq<(Seq<char>, JsonView)>, key: Seq<char>) -> Option<Seq<char>>
    decreases fields.len(),
{
    if fields.len() == 0 {
        None
    } else if fields.last().0 == key {
        match fields.last().1 {
            JsonView::Text(s) => Some(s),
            JsonView::Number(_) => None,
        }
    } else {
        field_text(fields.drop_last(), key)
    }
}

/// The JSON object with these fields.
pub uninterp spec fn json_object_of(fields: Seq<(Seq<char>, JsonView)>) -> Seq<u8>;

/// A value in a JSON object: the text, the number or the list that it is, if it
/// is one, the texts of the list where its items are texts, and the value written
/// out.
pub struct JsonPart {
    pub text: Option<String>,
    pub number: Option<u64>,
    pub list: Option<Vec<Option<String>>>,
    pub bytes: Vec<u8>,
}

/// What a value in a JSON object holds.
pub struct PartView {
    pub text: Option<Seq<char>>,
    pub number: Option<u64>,
    pub list: Option<Seq<Option<Seq<char>>>>,
    pub bytes: Seq<u8>,
}

/// A text, if there is one.
pub open spec fn shown_text(v: Option<String>) -> Option<Seq<char>> {
    match v {
        Some(s) => Some(s@),
        None => None,
    }
}

impl DeepView for JsonPart {
    type V = PartView;

    open spec fn deep_view(&self) -> PartView {
        PartView {
            text: shown_text(self.text),
            number: self.number,
            list: match self.list {
                Some(v) => Some(Seq::new(v@.len(), |i: int| shown_text(v@[i]))),
                None => None,
            },
            bytes: self.bytes@,
        }
    }
}

/// A value, if there is one.
pub open spec fn shown_part(v: Option<JsonPart>) -> Option<PartView> {
    match v {
        Some(p) => Some(p.deep_view()),
        None => None,
    }
}

/// The value under a key of a JSON object: nothing at all where the bytes are not
/// JSON, none where they have no such value.
pub uninterp spec fn json_part_of(data: Seq<u8>, key: Seq<char>) -> Option<Option<PartView>>;

/// What the items of the list under a key of a JSON object have under some names,
/// item by item: nothing at all where the bytes are not JSON, none where they have
/// no such list.
pub uninterp spec fn json_rows_of(data: Seq<u8>, key: Seq<char>, names: Seq<Seq<char>>) -> Option<
    Option<Seq<Seq<Option<PartView>>>>,
>;

/// Texts.
pub open spec fn shown_names(names: Seq<&str>) -> Seq<Seq<char>> {
    Seq::new(names.len(), |i: int| names[i]@)
}

/// What an item has under some names.
pub open spec fn shown_row(row: Seq<Option<JsonPart>>) -> Seq<Option<PartView>> {
    Seq::new(row.len(), |i: int| shown_part(row[i]))
}

/// What items have under some names.
pub open spec fn shown_rows(rows: Seq<Vec<Option<JsonPart>>>) -> Seq<Seq<Option<PartView>>> {
    Seq::new(rows.len(), |i: int| shown_row(rows[i]@))
}

/// The text under a key of a JSON object: nothing at all where the bytes are not
/// JSON, none where they have no such text.
pub open spec fn json_text_of(data: Seq<u8>, key: Seq<char>) -> Option<Option<Seq<char>>> {
    match json_part_of(data, key) {
        None => None,
        Some(None) => Some(None),
        Some(Some(part)) => Some(part.text),
    }
}

/// `serde_json::to_vec` on a `serde_json::Map` filled with the fields, a later
/// field in place of an earlier one with the same key. `serde_json::from_slice`
/// reads the texts back.
#[verifier::external_body]
pub(crate) fn json_object(fields: &[(String, JsonItem)]) -> (out: Vec<u8>)
    ensures
        out@ == json_object_of(json_fields(fields@)),
        forall|key: Seq<char>| #[trigger]
            json_text_of(out@, key) == Some(field_text(json_fields(fields@), key)),
{
    let mut map = serde_json::Map::new();
    for (key, item) in fields {
        let value: serde_json::Value = match item {
            JsonItem::Text(s) => s.as_str().into(),
            JsonItem::Number(n) => (*n).into(),
        };
        map.insert(key.clone(), value);
    }
    serde_json::to_vec(&serde_json::Value::Object(map)).unwrap_or_default()
}

/// `serde_json::from_slice`, and `Value::get` on what it gives: nothing where the
/// bytes are not JSON, none where the value is not an object with the key. Of what
/// is there, `Value::as_str`, `Value::as_u64`, `Value::as_array` with
/// `Value::as_str` on each item, and `serde_json::to_vec`.
#[verifier::external_body]
pub(crate) fn json_part(data: &[u8], key: &str) -> (out: Option<Option<JsonPart>>)
    ensures
        match out {
            Some(part) => json_part_of(data@, key@) == Some(shown_part(part)),
            None => json_part_of(data@, key@) is None,
        },
{
    let value: serde_json::Value = serde_json::from_slice(data).ok()?;
    Some(value.get(key).map(|v| JsonPart {
        text: v.as_str().map(str::to_owned),
        number: v.as_u64(),
        list: v.as_array().map(|a| a.iter().map(|i| i.as_str().map(str::to_owned)).collect()),
        bytes: serde_json::to_vec(v).unwrap_or_default(),
    }))
}

/// `serde_json::from_slice`, and `Value::get` and `Value::as_array` on what it
/// gives: nothing where the bytes are not JSON, none where the value is not an
/// object with a list under the key. Of each item of the list, what `Value::get`
/// gives for each of the names, taken as a value by itself is.
#[verifier::external_body]
pub(crate) fn json_rows(data: &[u8], key: &str, names: &[&str]) -> (out: Option<
    Option<Vec<Vec<Option<JsonPart>>>>,
>)
    ensures
        match out {
            Some(Some(rows)) => json_rows_of(data@, key@, shown_names(names@)) == Some(
                Some(shown_rows(rows@)),
            ) && forall|i: int| 0 <= i < rows@.len() ==> (#[trigger] rows@[i])@.len() == names@.len(),
            Some(None) => json_rows_of(data@, key@, shown_names(names@)) matches Some(None),
            None => json_rows_of(data@, key@, shown_names(names@)) is None,
        },
{
    let value: serde_json::Value = serde_json::from_slice(data).ok()?;
    Some(value.get(key).and_then(|v| v.as_array()).map(|items| items.iter().map(|item| {
        names.iter().map(|name| item.get(*name).map(|v| JsonPart {
            text: v.as_str().map(str::to_owned),
            number: v.as_u64(),
            list: v.as_array().map(|a| a.iter().map(|i| i.as_str().map(str::to_owned)).collect()),
            bytes: serde_json::to_vec(v).unwrap_or_default(),
        })).collect()
    }).collect()))
}

/// The text under a key of a JSON object.
pub(crate) fn json_text(data: &[u8], key: &str) -> (out: Option<Option<String>>)
    ensures
        match out {
            Some(Some(s)) => json_text_of(data@, key@) == Some(Some(s@)),
            Some(None) => json_text_of(data@, key@) == Some(None::<Seq<char>>),
            None => json_text_of(data@, key@) is None,
        },
{
    match json_part(data, key) {
        Some(Some(part)) => Some(part.text),
        Some(None) => Some(None),
        None => None,
    }
}

} // verus!
