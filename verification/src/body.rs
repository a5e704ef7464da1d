//! What a request says in a JSON body.

use vstd::prelude::*;

use crate::json::{json_part, json_part_of, json_text_of, JsonPart};
use crate::text::joined;

verus! {

/// Why a body was refused.
#[derive(Debug)]
pub enum BodyError {
    NotJson,
    /// Something that has to be there is not.
    Missing(String),
}

/// What is wrong with a body.
pub enum BodyFault {
    NotJson,
    Missing(Seq<char>),
}

impl DeepView for BodyError {
    type V = BodyFault;

    open spec fn deep_view(&self) -> BodyFault {
        match self {
            BodyError::NotJson => BodyFault::NotJson,
            BodyError::Missing(key) => BodyFault::Missing(key@),
        }
    }
}

/// What a fault of a body is reported as.
pub open spec fn body_fault_text(f: BodyFault) -> Seq<char> {
    match f {
        BodyFault::NotJson => "invalid JSON"@,
        BodyFault::Missing(key) => "missing "@ + key,
    }
}

impl BodyError {
    /// What the error is reported as.
    pub fn message(&self) -> (out: String)
        ensures
            out@ == body_fault_text(self.deep_view()),
    {
        match self {
            BodyError::NotJson => "invalid JSON".to_owned(),
            BodyError::Missing(key) => joined("missing ", key.as_str()),
        }
    }
}

/// Why a request was refused: for its body, or for what it asks.
#[derive(Debug)]
pub enum Denied<E> {
    Body(BodyError),
    Refused(E),
}

/// Whether a request was refused for its body.
pub open spec fn denied<T, E>(out: Result<T, Denied<E>>, f: BodyFault) -> bool {
    out matches Err(Denied::Body(e)) && e.deep_view() == f
}

/// What was made of a request with a sound body.
pub open spec fn answer<T, E>(out: Result<T, Denied<E>>) -> Option<Result<T, E>> {
    match out {
        Ok(v) => Some(Ok(v)),
        Err(Denied::Refused(e)) => Some(Err(e)),
        Err(Denied::Body(_)) => None,
    }
}

/// Two parts of a body, the fault of the first before that of the second.
pub open spec fn both<A, B>(a: Result<A, BodyFault>, b: Result<B, BodyFault>) -> Result<
    (A, B),
    BodyFault,
> {
    match (a, b) {
        (Err(f), _) => Err(f),
        (_, Err(f)) => Err(f),
        (Ok(x), Ok(y)) => Ok((x, y)),
    }
}

// -- Parts of a body ----------------------------------------------------------------

/// The text under a key, if there is one.
pub open spec fn text_in(body: Seq<u8>, key: Seq<char>) -> Result<Option<Seq<char>>, BodyFault> {
    match json_text_of(body, key) {
        None => Err(BodyFault::NotJson),
        Some(text) => Ok(text),
    }
}

/// The text under a key, which has to be there.
pub open spec fn needed_text(body: Seq<u8>, key: Seq<char>) -> Result<Seq<char>, BodyFault> {
    match text_in(body, key) {
        Err(f) => Err(f),
        Ok(Some(text)) => Ok(text),
        Ok(None) => Err(BodyFault::Missing(key)),
    }
}

/// The text under a key, or another where there is none.
pub open spec fn text_else(body: Seq<u8>, key: Seq<char>, other: Seq<char>) -> Result<
    Seq<char>,
    BodyFault,
> {
    match text_in(body, key) {
        Err(f) => Err(f),
        Ok(Some(text)) => Ok(text),
        Ok(None) => Ok(other),
    }
}

/// The number under a key, if there is one.
pub open spec fn number_in(body: Seq<u8>, key: Seq<char>) -> Result<Option<u64>, BodyFault> {
    match json_part_of(body, key) {
        None => Err(BodyFault::NotJson),
        Some(None) => Ok(None),
        Some(Some(part)) => Ok(part.number),
    }
}

/// The value under a key written out, if there is one.
pub open spec fn value_in(body: Seq<u8>, key: Seq<char>) -> Result<Option<Seq<u8>>, BodyFault> {
    match json_part_of(body, key) {
        None => Err(BodyFault::NotJson),
        Some(None) => Ok(None),
        Some(Some(part)) => Ok(Some(part.bytes)),
    }
}

/// The value under a key written out, which has to be there.
pub open spec fn needed_value(body: Seq<u8>, key: Seq<char>) -> Result<Seq<u8>, BodyFault> {
    match value_in(body, key) {
        Err(f) => Err(f),
        Ok(Some(bytes)) => Ok(bytes),
        Ok(None) => Err(BodyFault::Missing(key)),
    }
}

/// The texts among the items of a list, in order.
pub open spec fn kept_texts(list: Seq<Option<Seq<char>>>) -> Seq<Seq<char>>
    decreases list.len(),
{
    if list.len() == 0 {
        Seq::empty()
    } else {
        let before = kept_texts(list.drop_last());
        match list.last() {
            Some(text) => before.push(text),
            None => before,
        }
    }
}

/// The texts in the list under a key; none where there is no list.
pub open spec fn texts_in(body: Seq<u8>, key: Seq<char>) -> Result<Seq<Seq<char>>, BodyFault> {
    match json_part_of(body, key) {
        None => Err(BodyFault::NotJson),
        Some(None) => Ok(Seq::empty()),
        Some(Some(part)) => match part.list {
            None => Ok(Seq::empty()),
            Some(list) => Ok(kept_texts(list)),
        },
    }
}

/// The value under a key, if there is one.
fn part_at(body: &[u8], key: &str) -> (out: Result<Option<JsonPart>, BodyError>)
    ensures
        match (out, json_part_of(body@, key@)) {
            (Ok(part), Some(p)) => crate::json::shown_part(part) == p,
            (Err(e), None) => e.deep_view() == BodyFault::NotJson,
            _ => false,
        },
{
    match json_part(body, key) {
        Some(part) => Ok(part),
        None => Err(BodyError::NotJson),
    }
}

/// Reads the text under a key, if there is one.
pub fn read_text(body: &[u8], key: &str) -> (out: Result<Option<String>, BodyError>)
    ensures
        match (out, text_in(body@, key@)) {
            (Ok(v), Ok(s)) => crate::json::shown_text(v) == s,
            (Err(e), Err(f)) => e.deep_view() == f,
            _ => false,
        },
{
    match part_at(body, key) {
        Ok(Some(part)) => Ok(part.text),
        Ok(None) => Ok(None),
        Err(e) => Err(e),
    }
}

/// Reads the text under a key, which has to be there.
pub fn read_needed_text(body: &[u8], key: &str) -> (out: Result<String, BodyError>)
    ensures
        match (out, needed_text(body@, key@)) {
            (Ok(v), Ok(s)) => v@ == s,
            (Err(e), Err(f)) => e.deep_view() == f,
            _ => false,
        },
{
    match read_text(body, key) {
        Ok(Some(text)) => Ok(text),
        Ok(None) => Err(BodyError::Missing(key.to_owned())),
        Err(e) => Err(e),
    }
}

/// Reads the text under a key, or takes another where there is none.
pub fn read_text_else(body: &[u8], key: &str, other: &str) -> (out: Result<String, BodyError>)
    ensures
        match (out, text_else(body@, key@, other@)) {
            (Ok(v), Ok(s)) => v@ == s,
            (Err(e), Err(f)) => e.deep_view() == f,
            _ => false,
        },
{
    match read_text(body, key) {
        Ok(Some(text)) => Ok(text),
        Ok(None) => Ok(other.to_owned()),
        Err(e) => Err(e),
    }
}

/// Reads the number under a key, if there is one.
pub fn read_number(body: &[u8], key: &str) -> (out: Result<Option<u64>, BodyError>)
    ensures
        match (out, number_in(body@, key@)) {
            (Ok(v), Ok(n)) => v == n,
            (Err(e), Err(f)) => e.deep_view() == f,
            _ => false,
        },
{
    match part_at(body, key) {
        Ok(Some(part)) => Ok(part.number),
        Ok(None) => Ok(None),
        Err(e) => Err(e),
    }
}

/// Reads the value under a key written out, if there is one.
pub fn read_value(body: &[u8], key: &str) -> (out: Result<Option<Vec<u8>>, BodyError>)
    ensures
        match (out, value_in(body@, key@)) {
            (Ok(v), Ok(b)) => crate::atproto::commit::shown_bytes(v) == b,
            (Err(e), Err(f)) => e.deep_view() == f,
            _ => false,
        },
{
    match part_at(body, key) {
        Ok(Some(part)) => Ok(Some(part.bytes)),
        Ok(None) => Ok(None),
        Err(e) => Err(e),
    }
}

/// Reads the value under a key written out, which has to be there.
pub fn read_needed_value(body: &[u8], key: &str) -> (out: Result<Vec<u8>, BodyError>)
    ensures
        match (out, needed_value(body@, key@)) {
            (Ok(v), Ok(b)) => v@ == b,
            (Err(e), Err(f)) => e.deep_view() == f,
            _ => false,
        },
{
    match read_value(body, key) {
        Ok(Some(bytes)) => Ok(bytes),
        Ok(None) => Err(BodyError::Missing(key.to_owned())),
        Err(e) => Err(e),
    }
}

/// Reads the texts in the list under a key.
pub fn read_texts(body: &[u8], key: &str) -> (out: Result<Vec<String>, BodyError>)
    ensures
        match (out, texts_in(body@, key@)) {
            (Ok(v), Ok(s)) => v.deep_view() == s,
            (Err(e), Err(f)) => e.deep_view() == f,
            _ => false,
        },
{
    let mut out: Vec<String> = Vec::new();
    assert(out.deep_view() =~= Seq::<Seq<char>>::empty());
    let list = match part_at(body, key) {
        Ok(Some(part)) => match part.list {
            Some(list) => list,
            None => return Ok(out),
        },
        Ok(None) => return Ok(out),
        Err(e) => return Err(e),
    };
    let ghost all = Seq::new(list@.len(), |i: int| crate::json::shown_text(list@[i]));
    let mut i: usize = 0;
    assert(all.take(0) =~= Seq::<Option<Seq<char>>>::empty());
    while i < list.len()
        invariant
            i <= list@.len(),
            all == Seq::new(list@.len(), |i: int| crate::json::shown_text(list@[i])),
            out.deep_view() == kept_texts(all.take(i as int)),
        decreases list@.len() - i,
    {
        proof {
            assert(all.take(i + 1).drop_last() =~= all.take(i as int));
            assert(all.take(i + 1).last() == crate::json::shown_text(list@[i as int]));
        }
        let ghost had = out.deep_view();
        if let Some(text) = &list[i] {
            out.push(text.clone());
            assert(out.deep_view() =~= had.push(text@));
        }
        i += 1;
    }
    assert(all.take(i as int) =~= all);
    Ok(out)
}

/// Of the items of a list just the texts are kept.
pub proof fn law_kept_texts(list: Seq<Option<Seq<char>>>, x: Seq<char>)
    ensures
        kept_texts(list).contains(x) <==> list.contains(Some(x)),
        kept_texts(list).len() <= list.len(),
    decreases list.len(),
{
    if list.len() > 0 {
        let front = list.drop_last();
        let before = kept_texts(front);
        law_kept_texts(front, x);
        if let Some(text) = list.last() {
            crate::git::walk::lemma_push_contains(before, text, x);
        }
        if front.contains(Some(x)) {
            let i = choose|i: int| 0 <= i < front.len() && front[i] == Some(x);
            assert(list[i] == Some(x));
        }
        if list.contains(Some(x)) {
            let i = choose|i: int| 0 <= i < list.len() && list[i] == Some(x);
            if i < front.len() {
                assert(front[i] == Some(x));
            }
        }
        if list.last() == Some(x) {
            assert(list[list.len() - 1] == Some(x));
        }
    }
}

} // verus!
