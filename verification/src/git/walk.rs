//! Walking the graph of objects: what an object refers to, what can be reached,
//! and what a client lacks.

use vstd::prelude::*;
use vstd::slice::slice_subrange;
use vstd::utf8::{
    decode_utf8, encode_utf8, encode_utf8_decode_utf8, encode_utf8_valid_utf8, valid_utf8,
};

use crate::bytes::{begins_with, copy_range, find_byte, first_byte};
use crate::git::envelope::{envelope_parts, hash_name, hash_prefix, unwrap};
use crate::git::object::{hash_len, HashKind, Kind};
use crate::hexadecimal::{hex_encode, hex_of};
use crate::store::memory::InMemoryStore;
use crate::text::{
    holds_text, joined3, split_once, split_once_spec, text_begins_with, trim_text, trimmed,
    utf8_text,
};

verus! {

/// `tree `
pub open spec fn tree_word() -> Seq<u8> {
    seq![116u8, 114, 101, 101, 32]
}

/// `parent `
pub open spec fn parent_word() -> Seq<u8> {
    seq![112u8, 97, 114, 101, 110, 116, 32]
}

/// `object `
pub open spec fn object_word() -> Seq<u8> {
    seq![111u8, 98, 106, 101, 99, 116, 32]
}

/// The address of an object name in hexadecimal.
pub open spec fn label_with(prefix: Seq<char>, digits: Seq<char>) -> Seq<char> {
    prefix + ":"@ + digits
}

/// What follows the colon of an address, or all of it where there is none.
pub open spec fn hex_part(kappa: Seq<char>) -> Seq<char> {
    match split_once_spec(kappa, ':') {
        Some((_, digits)) => digits,
        None => kappa,
    }
}

/// What follows the colon of an address.
pub fn kappa_to_hex_oid(kappa: &str) -> (out: String)
    ensures
        out@ == hex_part(kappa@),
{
    match split_once(kappa, ':') {
        Some(parts) => parts.1,
        None => kappa.to_owned(),
    }
}

/// The address of an object name under a repository's hash.
pub fn oid_to_kappa_string(hash: HashKind, hex_oid: &str) -> (out: String)
    ensures
        out@ == label_with(hash_name(hash), hex_oid@),
{
    joined3(hash_prefix(hash), ":", hex_oid)
}

/// The objects that the rest of a line names: one, or none where it is not
/// text.
pub open spec fn line_children(prefix: Seq<char>, rest: Seq<u8>) -> Seq<Seq<char>> {
    if valid_utf8(rest) {
        seq![label_with(prefix, trimmed(decode_utf8(rest)))]
    } else {
        Seq::empty()
    }
}

/// The first line of content.
pub open spec fn first_line(content: Seq<u8>) -> Seq<u8> {
    content.take(first_byte(content, 10))
}

/// What follows the first line.
pub open spec fn later_lines(content: Seq<u8>) -> Seq<u8> {
    let n = first_byte(content, 10);
    if n < content.len() {
        content.skip(n + 1)
    } else {
        Seq::empty()
    }
}

/// A line ends within the content, and what follows it is shorter.
pub proof fn lemma_line(content: Seq<u8>)
    requires
        content.len() > 0,
    ensures
        0 <= first_byte(content, 10) <= content.len(),
        later_lines(content).len() < content.len(),
{
    crate::bytes::lemma_first_byte_bounds(content, 10);
}

/// What a commit refers to: its tree and its parents, in the lines before the
/// first empty one.
pub open spec fn commit_children(prefix: Seq<char>, content: Seq<u8>) -> Seq<Seq<char>>
    decreases content.len(),
{
    if content.len() == 0 {
        Seq::empty()
    } else {
        let line = first_line(content);
        proof {
            lemma_line(content);
        }
        if tree_word().is_prefix_of(line) {
            line_children(prefix, line.skip(5)) + commit_children(prefix, later_lines(content))
        } else if parent_word().is_prefix_of(line) {
            line_children(prefix, line.skip(7)) + commit_children(prefix, later_lines(content))
        } else if line.len() == 0 {
            Seq::empty()
        } else {
            commit_children(prefix, later_lines(content))
        }
    }
}

/// What a tag refers to: the objects that its lines name.
pub open spec fn tag_children(prefix: Seq<char>, content: Seq<u8>) -> Seq<Seq<char>>
    decreases content.len(),
{
    if content.len() == 0 {
        Seq::empty()
    } else {
        let line = first_line(content);
        proof {
            lemma_line(content);
        }
        if object_word().is_prefix_of(line) {
            line_children(prefix, line.skip(7)) + tag_children(prefix, later_lines(content))
        } else {
            tag_children(prefix, later_lines(content))
        }
    }
}

/// What a tree refers to: the objects of its entries, each a mode and a name up
/// to a zero byte and a digest.
pub open spec fn tree_children(prefix: Seq<char>, digest_len: nat, content: Seq<u8>) -> Seq<Seq<char>>
    decreases content.len(),
{
    let nul = first_byte(content, 0);
    let end = nul + 1 + digest_len;
    if nul < 0 || end > content.len() {
        Seq::empty()
    } else {
        seq![label_with(prefix, hex_of(content.subrange(nul + 1, end)))] + tree_children(
            prefix,
            digest_len,
            content.skip(end),
        )
    }
}

/// What the object in an envelope refers to.
pub open spec fn children(prefix: Seq<char>, digest_len: nat, envelope: Seq<u8>) -> Seq<Seq<char>> {
    match envelope_parts(envelope) {
        Ok((Kind::Commit, content)) => commit_children(prefix, content),
        Ok((Kind::Tree, content)) => tree_children(prefix, digest_len, content),
        Ok((Kind::Tag, content)) => tag_children(prefix, content),
        _ => Seq::empty(),
    }
}

/// Appends the object that the rest of a line names.
fn push_line_child(out: &mut Vec<String>, prefix: &str, rest: &[u8])
    ensures
        final(out).deep_view() == old(out).deep_view() + line_children(prefix@, rest@),
{
    let ghost had = out.deep_view();
    match utf8_text(crate::bytes::copy_bytes(rest)) {
        Some(digits) => {
            let trimmed_digits = trim_text(digits.as_str());
            let label = joined3(prefix, ":", trimmed_digits.as_str());
            let ghost shown = label@;
            out.push(label);
            assert(out.deep_view() =~= had + seq![shown]);
        },
        None => {
            assert(out.deep_view() =~= had + Seq::<Seq<char>>::empty());
        },
    }
}

/// Cuts off the first line: the line, and where the next one begins.
fn next_line(content: &[u8], from: usize) -> (out: (&[u8], usize))
    requires
        from < content@.len(),
    ensures
        out.0@ == first_line(content@.skip(from as int)),
        from < out.1 <= content@.len(),
        content@.skip(out.1 as int) == later_lines(content@.skip(from as int)),
{
    let rest = slice_subrange(content, from, content.len());
    assert(rest@ =~= content@.skip(from as int));
    match find_byte(rest, 10) {
        Some(n) => {
            assert(rest@.take(n as int) =~= content@.subrange(from as int, from + n));
            assert(rest@.skip(n + 1) =~= content@.skip(from + n + 1));
            (slice_subrange(content, from, from + n), from + n + 1)
        },
        None => {
            assert(rest@.take(rest@.len() as int) =~= rest@);
            assert(content@.skip(content@.len() as int) =~= Seq::<u8>::empty());
            (rest, content.len())
        },
    }
}

fn commit_child_list(prefix: &str, content: &[u8]) -> (out: Vec<String>)
    ensures
        out.deep_view() == commit_children(prefix@, content@),
{
    let mut out: Vec<String> = Vec::new();
    let mut at: usize = 0;
    proof {
        assert(content@.skip(0) =~= content@);
        assert(out.deep_view() + commit_children(prefix@, content@) =~= commit_children(
            prefix@,
            content@,
        ));
    }
    while at < content.len()
        invariant
            at <= content@.len(),
            out.deep_view() + commit_children(prefix@, content@.skip(at as int))
                == commit_children(prefix@, content@),
        decreases content@.len() - at,
    {
        let ghost had = out.deep_view();
        let (line, next) = next_line(content, at);
        let ghost more = commit_children(prefix@, content@.skip(next as int));
        let tree: [u8; 5] = [116, 114, 101, 101, 32];
        let parent: [u8; 7] = [112, 97, 114, 101, 110, 116, 32];
        proof {
            assert(tree@ =~= tree_word());
            assert(parent@ =~= parent_word());
        }
        if begins_with(line, tree.as_slice()) {
            let rest = slice_subrange(line, 5, line.len());
            assert(rest@ =~= line@.skip(5));
            push_line_child(&mut out, prefix, rest);
            assert(had + (line_children(prefix@, rest@) + more) =~= had + line_children(
                prefix@,
                rest@,
            ) + more);
        } else if begins_with(line, parent.as_slice()) {
            let rest = slice_subrange(line, 7, line.len());
            assert(rest@ =~= line@.skip(7));
            push_line_child(&mut out, prefix, rest);
            assert(had + (line_children(prefix@, rest@) + more) =~= had + line_children(
                prefix@,
                rest@,
            ) + more);
        } else if line.is_empty() {
            assert(out.deep_view() + Seq::<Seq<char>>::empty() =~= out.deep_view());
            return out;
        }
        at = next;
    }
    assert(content@.skip(at as int) =~= Seq::<u8>::empty());
    assert(out.deep_view() + Seq::<Seq<char>>::empty() =~= out.deep_view());
    out
}

fn tag_child_list(prefix: &str, content: &[u8]) -> (out: Vec<String>)
    ensures
        out.deep_view() == tag_children(prefix@, content@),
{
    let mut out: Vec<String> = Vec::new();
    let mut at: usize = 0;
    proof {
        assert(content@.skip(0) =~= content@);
        assert(out.deep_view() + tag_children(prefix@, content@) =~= tag_children(
            prefix@,
            content@,
        ));
    }
    while at < content.len()
        invariant
            at <= content@.len(),
            out.deep_view() + tag_children(prefix@, content@.skip(at as int)) == tag_children(
                prefix@,
                content@,
            ),
        decreases content@.len() - at,
    {
        let ghost had = out.deep_view();
        let (line, next) = next_line(content, at);
        let ghost more = tag_children(prefix@, content@.skip(next as int));
        let object: [u8; 7] = [111, 98, 106, 101, 99, 116, 32];
        assert(object@ =~= object_word());
        if begins_with(line, object.as_slice()) {
            let rest = slice_subrange(line, 7, line.len());
            assert(rest@ =~= line@.skip(7));
            push_line_child(&mut out, prefix, rest);
            assert(had + (line_children(prefix@, rest@) + more) =~= had + line_children(
                prefix@,
                rest@,
            ) + more);
        }
        at = next;
    }
    assert(content@.skip(at as int) =~= Seq::<u8>::empty());
    assert(out.deep_view() + Seq::<Seq<char>>::empty() =~= out.deep_view());
    out
}

fn tree_child_list(prefix: &str, digest_len: usize, content: &[u8]) -> (out: Vec<String>)
    ensures
        out.deep_view() == tree_children(prefix@, digest_len as nat, content@),
{
    let mut out: Vec<String> = Vec::new();
    let mut at: usize = 0;
    let ghost d = digest_len as nat;
    proof {
        assert(content@.skip(0) =~= content@);
        assert(out.deep_view() + tree_children(prefix@, d, content@) =~= tree_children(
            prefix@,
            d,
            content@,
        ));
    }
    while at < content.len()
        invariant
            at <= content@.len(),
            d == digest_len,
            out.deep_view() + tree_children(prefix@, d, content@.skip(at as int)) == tree_children(
                prefix@,
                d,
                content@,
            ),
        decreases content@.len() - at,
    {
        let ghost had = out.deep_view();
        let rest = slice_subrange(content, at, content.len());
        assert(rest@ =~= content@.skip(at as int));
        let nul: usize = match find_byte(rest, 0) {
            Some(n) => n,
            None => {
                assert(out.deep_view() + Seq::<Seq<char>>::empty() =~= out.deep_view());
                return out;
            },
        };
        let from: usize = nul + 1;
        if digest_len > rest.len() - from {
            assert(out.deep_view() + Seq::<Seq<char>>::empty() =~= out.deep_view());
            return out;
        }
        let digest = slice_subrange(rest, from, from + digest_len);
        let digits = hex_encode(digest);
        let label = joined3(prefix, ":", digits.as_str());
        let ghost shown = label@;
        out.push(label);
        proof {
            let more = tree_children(prefix@, d, rest@.skip(from + digest_len));
            assert(out.deep_view() =~= had.push(shown));
            assert(rest@.skip(from + digest_len) =~= content@.skip(at + from + digest_len));
            assert(had + (seq![shown] + more) =~= had.push(shown) + more);
        }
        at = at + from + digest_len;
    }
    proof {
        assert(content@.skip(at as int) =~= Seq::<u8>::empty());
        crate::bytes::lemma_first_byte_bounds(content@.skip(at as int), 0);
        assert(out.deep_view() + Seq::<Seq<char>>::empty() =~= out.deep_view());
    }
    out
}

/// What the object in an envelope refers to; nothing where it is not one.
pub fn extract_children(envelope: &[u8], digest_len: usize, prefix: &str) -> (out: Vec<String>)
    ensures
        out.deep_view() == children(prefix@, digest_len as nat, envelope@),
{
    let (kind, content) = match unwrap(envelope) {
        Ok(parts) => parts,
        Err(_) => {
            let none: Vec<String> = Vec::new();
            assert(none.deep_view() =~= Seq::<Seq<char>>::empty());
            return none;
        },
    };
    match kind {
        Kind::Commit => commit_child_list(prefix, content),
        Kind::Tree => tree_child_list(prefix, digest_len, content),
        Kind::Tag => tag_child_list(prefix, content),
        Kind::Blob => {
            let none: Vec<String> = Vec::new();
            assert(none.deep_view() =~= Seq::<Seq<char>>::empty());
            none
        },
    }
}

/// The first object that a tag's lines name, where the line is text.
pub open spec fn tag_object(content: Seq<u8>) -> Option<Seq<char>>
    decreases content.len(),
{
    if content.len() == 0 {
        None
    } else {
        let line = first_line(content);
        proof {
            lemma_line(content);
        }
        if object_word().is_prefix_of(line) {
            if valid_utf8(line.skip(7)) {
                Some(trimmed(decode_utf8(line.skip(7))))
            } else {
                None
            }
        } else {
            tag_object(later_lines(content))
        }
    }
}

/// What a tag ref leads to beyond its annotated tag.
pub open spec fn peeled(blobs: Map<Seq<char>, Seq<u8>>, name: Seq<char>, value: Seq<char>) -> Option<
    Seq<char>,
> {
    if "refs/tags/"@.is_prefix_of(name) && blobs.dom().contains(value) {
        match envelope_parts(blobs[value]) {
            Ok((Kind::Tag, content)) => tag_object(content),
            _ => None,
        }
    } else {
        None
    }
}

/// What a tag ref leads to beyond its annotated tag: the name of that object.
pub fn peel_tag(store: &InMemoryStore, ref_name: &str, ref_value: &str) -> (out: Option<String>)
    requires
        store.wf(),
    ensures
        match (out, peeled(store.state().blobs, ref_name@, ref_value@)) {
            (Some(oid), Some(o)) => oid@ == o,
            (None, None) => true,
            _ => false,
        },
{
    if !text_begins_with(ref_name, "refs/tags/") {
        return None;
    }
    let envelope = match store.blob_get(ref_value) {
        Ok(envelope) => envelope,
        Err(_) => return None,
    };
    let (kind, content) = match unwrap(envelope.as_slice()) {
        Ok(parts) => parts,
        Err(_) => return None,
    };
    if kind != Kind::Tag {
        return None;
    }
    let mut at: usize = 0;
    assert(content@.skip(0) =~= content@);
    while at < content.len()
        invariant
            at <= content@.len(),
            tag_object(content@.skip(at as int)) == tag_object(content@),
            peeled(store.state().blobs, ref_name@, ref_value@) == tag_object(content@),
        decreases content@.len() - at,
    {
        let (line, next) = next_line(content, at);
        let object: [u8; 7] = [111, 98, 106, 101, 99, 116, 32];
        assert(object@ =~= object_word());
        if begins_with(line, object.as_slice()) {
            assert(line@.subrange(7, line@.len() as int) =~= line@.skip(7));
            return match utf8_text(copy_range(line, 7, line.len())) {
                Some(digits) => Some(trim_text(digits.as_str())),
                None => None,
            };
        }
        at = next;
    }
    assert(content@.skip(at as int) =~= Seq::<u8>::empty());
    None
}

// -- What can be reached -----------------------------------------------------------

/// What is stored.
pub type Blobs = Map<Seq<char>, Seq<u8>>;

/// What a stored object refers to.
pub open spec fn refers_to(blobs: Blobs, hash: HashKind, kappa: Seq<char>) -> Seq<Seq<char>> {
    if blobs.dom().contains(kappa) {
        children(hash_name(hash), hash_len(hash), blobs[kappa])
    } else {
        Seq::empty()
    }
}

/// Whether each address of a path is referred to by the one before it.
pub open spec fn is_path(blobs: Blobs, hash: HashKind, path: Seq<Seq<char>>) -> bool {
    forall|i: int|
        0 < i < path.len() ==> refers_to(blobs, hash, path[i - 1]).contains(#[trigger] path[i])
}

/// Whether a path leads from one of the roots to an address.
pub open spec fn leads(
    blobs: Blobs,
    hash: HashKind,
    roots: Seq<Seq<char>>,
    kappa: Seq<char>,
    path: Seq<Seq<char>>,
) -> bool {
    &&& path.len() > 0
    &&& roots.contains(path[0])
    &&& is_path(blobs, hash, path)
    &&& path.last() == kappa
}

/// Whether an address can be reached from the roots.
pub open spec fn reaches(blobs: Blobs, hash: HashKind, roots: Seq<Seq<char>>, kappa: Seq<char>) -> bool {
    exists|path: Seq<Seq<char>>| leads(blobs, hash, roots, kappa, path)
}

/// The addresses of object names.
pub open spec fn labels(hash: HashKind, oids: Seq<Seq<char>>) -> Seq<Seq<char>> {
    Seq::new(oids.len(), |i: int| label_with(hash_name(hash), oids[i]))
}

proof fn lemma_root_reached(blobs: Blobs, hash: HashKind, roots: Seq<Seq<char>>, kappa: Seq<char>)
    requires
        roots.contains(kappa),
    ensures
        reaches(blobs, hash, roots, kappa),
{
    assert(leads(blobs, hash, roots, kappa, seq![kappa]));
}

proof fn lemma_step_reached(
    blobs: Blobs,
    hash: HashKind,
    roots: Seq<Seq<char>>,
    from: Seq<char>,
    to: Seq<char>,
)
    requires
        reaches(blobs, hash, roots, from),
        refers_to(blobs, hash, from).contains(to),
    ensures
        reaches(blobs, hash, roots, to),
{
    let path = choose|path: Seq<Seq<char>>| leads(blobs, hash, roots, from, path);
    let longer = path.push(to);
    assert forall|i: int| 0 < i < longer.len() implies refers_to(blobs, hash, longer[i - 1]).contains(
        #[trigger] longer[i],
    ) by {
        if i < path.len() {
            assert(longer[i] == path[i]);
            assert(longer[i - 1] == path[i - 1]);
        } else {
            assert(longer[i - 1] == path.last());
        }
    }
    assert(longer[0] == path[0]);
    assert(leads(blobs, hash, roots, to, longer));
}

/// A set that holds the roots and whatever its members refer to holds all that
/// can be reached.
proof fn lemma_closed(
    blobs: Blobs,
    hash: HashKind,
    roots: Seq<Seq<char>>,
    set: Set<Seq<char>>,
    path: Seq<Seq<char>>,
)
    requires
        forall|i: int| 0 <= i < roots.len() ==> set.contains(#[trigger] roots[i]),
        forall|k: Seq<char>, c: Seq<char>|
            set.contains(k) && #[trigger] refers_to(blobs, hash, k).contains(c) ==> set.contains(c),
        path.len() > 0,
        roots.contains(path[0]),
        is_path(blobs, hash, path),
    ensures
        set.contains(path.last()),
    decreases path.len(),
{
    if path.len() > 1 {
        let front = path.drop_last();
        assert forall|i: int| 0 < i < front.len() implies refers_to(
            blobs,
            hash,
            front[i - 1],
        ).contains(#[trigger] front[i]) by {
            assert(front[i] == path[i]);
            assert(front[i - 1] == path[i - 1]);
        }
        lemma_closed(blobs, hash, roots, set, front);
        let last = path.len() - 1;
        assert(refers_to(blobs, hash, path[last - 1]).contains(path[last]));
        assert(front.last() == path[last - 1]);
    } else {
        let i = choose|i: int| 0 <= i < roots.len() && roots[i] == path[0];
        assert(set.contains(roots[i]));
    }
}

/// The set of all texts in a list.
pub open spec fn text_set(list: Seq<Seq<char>>) -> Set<Seq<char>> {
    Set::new(|k: Seq<char>| list.contains(k))
}

/// Visiting one more address that is stored leaves one fewer to visit.
pub proof fn lemma_one_fewer(dom: Set<Seq<char>>, list: Seq<Seq<char>>, k: Seq<char>)
    requires
        dom.finite(),
    ensures
        dom.contains(k) && !list.contains(k) ==> dom.difference(text_set(list.push(k))).len()
            < dom.difference(text_set(list)).len(),
        !dom.contains(k) || list.contains(k) ==> dom.difference(text_set(list.push(k)))
            == dom.difference(text_set(list)),
{
    let before = dom.difference(text_set(list));
    let after = dom.difference(text_set(list.push(k)));
    assert forall|x: Seq<char>| after.contains(x) == before.remove(k).contains(x) by {
        assert(list.push(k).contains(x) == (list.contains(x) || x == k)) by {
            if list.contains(x) {
                let i = choose|i: int| 0 <= i < list.len() && list[i] == x;
                assert(list.push(k)[i] == x);
            }
            if list.push(k).contains(x) {
                let i = choose|i: int| 0 <= i < list.push(k).len() && list.push(k)[i] == x;
                if i < list.len() {
                    assert(list[i] == x);
                }
            }
            assert(list.push(k)[list.len() as int] == k);
        }
    }
    assert(after =~= before.remove(k));
    if !dom.contains(k) || list.contains(k) {
        assert(before.remove(k) =~= before);
    }
}

/// A longer list holds what it held before, and the text at its end.
pub proof fn lemma_push_contains(list: Seq<Seq<char>>, k: Seq<char>, x: Seq<char>)
    ensures
        list.push(k).contains(x) == (list.contains(x) || x == k),
{
    if list.contains(x) {
        let i = choose|i: int| 0 <= i < list.len() && list[i] == x;
        assert(list.push(k)[i] == x);
    }
    if list.push(k).contains(x) {
        let i = choose|i: int| 0 <= i < list.push(k).len() && list.push(k)[i] == x;
        if i < list.len() {
            assert(list[i] == x);
        }
    }
    assert(list.push(k)[list.len() as int] == k);
}

/// The addresses of object names, as texts.
pub fn label_list(hash: HashKind, oids: &[String]) -> (out: Vec<String>)
    ensures
        out.deep_view() == labels(hash, oids.deep_view()),
{
    let mut out: Vec<String> = Vec::new();
    let mut i: usize = 0;
    while i < oids.len()
        invariant
            i <= oids@.len(),
            out.deep_view() =~= labels(hash, oids.deep_view()).take(i as int),
        decreases oids@.len() - i,
    {
        let ghost had = out.deep_view();
        let label = oid_to_kappa_string(hash, oids[i].as_str());
        let ghost shown = label@;
        out.push(label);
        assert(out.deep_view() =~= had.push(shown));
        i += 1;
    }
    assert(out.deep_view() =~= labels(hash, oids.deep_view()));
    out
}

/// Bytes of a digest of this kind.
pub fn digest_len(hash: HashKind) -> (n: usize)
    ensures
        n == hash_len(hash),
{
    match hash {
        HashKind::Sha1 => 20,
        HashKind::Sha256 => 32,
    }
}

/// All addresses that can be reached from object names, each once.
pub fn walk_reachable(store: &InMemoryStore, roots: &[String], hash: HashKind) -> (out: Vec<String>)
    requires
        store.wf(),
    ensures
        out.deep_view().no_duplicates(),
        forall|k: Seq<char>| #[trigger]
            out.deep_view().contains(k) <==> reaches(
                store.state().blobs,
                hash,
                labels(hash, roots.deep_view()),
                k,
            ),
{
    let ghost blobs = store.state().blobs;
    let ghost starts = labels(hash, roots.deep_view());
    let mut queue = label_list(hash, roots);
    let mut reachable: Vec<String> = Vec::new();
    let mut head: usize = 0;
    proof {
        store.blobs.lemma_len();
        assert forall|i: int| 0 <= i < queue@.len() implies reaches(
            blobs,
            hash,
            starts,
            #[trigger] queue.deep_view()[i],
        ) by {
            assert(starts.contains(queue.deep_view()[i]));
            lemma_root_reached(blobs, hash, starts, queue.deep_view()[i]);
        }
        assert(reachable.deep_view() =~= Seq::<Seq<char>>::empty());
    }
    while head < queue.len()
        invariant
            store.wf(),
            head <= queue@.len(),
            blobs == store.state().blobs,
            blobs.dom().finite(),
            starts == labels(hash, roots.deep_view()),
            starts.len() <= queue@.len(),
            forall|i: int| 0 <= i < starts.len() ==> queue.deep_view()[i] == #[trigger] starts[i],
            forall|i: int|
                0 <= i < queue@.len() ==> reaches(
                    blobs,
                    hash,
                    starts,
                    #[trigger] queue.deep_view()[i],
                ),
            reachable.deep_view().no_duplicates(),
            forall|i: int|
                0 <= i < reachable@.len() ==> reaches(
                    blobs,
                    hash,
                    starts,
                    #[trigger] reachable.deep_view()[i],
                ),
            forall|i: int|
                0 <= i < head ==> reachable.deep_view().contains(#[trigger] queue.deep_view()[i]),
            forall|k: Seq<char>, c: Seq<char>|
                reachable.deep_view().contains(k) && #[trigger] refers_to(blobs, hash, k).contains(
                    c,
                ) ==> reachable.deep_view().contains(c) || queue.deep_view().contains(c),
        decreases
                blobs.dom().difference(text_set(reachable.deep_view())).len(),
                queue@.len() - head,
    {
        let kappa = queue[head].clone();
        let ghost seen = reachable.deep_view();
        let ghost waiting = queue.deep_view();
        assert(waiting[head as int] == kappa@);
        head += 1;
        if holds_text(&reachable, kappa.as_str()) {
            assert(reachable.deep_view().contains(kappa@));
            continue;
        }
        proof {
            lemma_one_fewer(blobs.dom(), seen, kappa@);
        }
        let ghost name = kappa@;
        let found = store.blob_get(kappa.as_str());
        reachable.push(kappa);
        proof {
            assert(reachable.deep_view() =~= seen.push(name));
            assert forall|x: Seq<char>| #[trigger]
                reachable.deep_view().contains(x) == (seen.contains(x) || x == name) by {
                lemma_push_contains(seen, name, x);
            }
            assert forall|i: int, j: int|
                0 <= i < reachable@.len() && 0 <= j < reachable@.len() && i
                    != j implies reachable.deep_view()[i] != reachable.deep_view()[j] by {
                if i == seen.len() {
                    assert(seen[j] != name);
                }
                if j == seen.len() {
                    assert(seen[i] != name);
                }
            }
        }
        if let Ok(envelope) = found {
            let more = extract_children(envelope.as_slice(), digest_len(hash), hash_prefix(hash));
            let ghost kids = more.deep_view();
            let mut i: usize = 0;
            while i < more.len()
                invariant
                    i <= more@.len(),
                    kids == more.deep_view(),
                    kids == refers_to(blobs, hash, name),
                    reaches(blobs, hash, starts, name),
                    waiting.len() <= queue@.len(),
                    forall|j: int|
                        0 <= j < waiting.len() ==> queue.deep_view()[j] == #[trigger] waiting[j],
                    forall|j: int|
                        0 <= j < queue@.len() ==> reaches(
                            blobs,
                            hash,
                            starts,
                            #[trigger] queue.deep_view()[j],
                        ),
                    forall|j: int|
                        0 <= j < i ==> reachable.deep_view().contains(#[trigger] kids[j])
                            || queue.deep_view().contains(kids[j]),
                decreases more@.len() - i,
            {
                let child = more[i].clone();
                let ghost c = child@;
                assert(kids[i as int] == c);
                if !holds_text(&reachable, child.as_str()) {
                    let ghost had = queue.deep_view();
                    queue.push(child);
                    proof {
                        assert(queue.deep_view() =~= had.push(c));
                        lemma_step_reached(blobs, hash, starts, name, c);
                        assert(queue.deep_view()[had.len() as int] == c);
                        assert forall|j: int| 0 <= j < i + 1 implies reachable.deep_view().contains(
                            #[trigger] kids[j],
                        ) || queue.deep_view().contains(kids[j]) by {
                            lemma_push_contains(had, c, kids[j]);
                        }
                    }
                }
                i += 1;
            }
        }
        proof {
            assert forall|k: Seq<char>, c: Seq<char>|
                reachable.deep_view().contains(k) && #[trigger] refers_to(blobs, hash, k).contains(
                    c,
                ) implies reachable.deep_view().contains(c) || queue.deep_view().contains(c) by {
                if k != name {
                    if waiting.contains(c) {
                        let j = choose|j: int| 0 <= j < waiting.len() && waiting[j] == c;
                        assert(queue.deep_view()[j] == c);
                    }
                } else {
                    let kids = refers_to(blobs, hash, name);
                    let j = choose|j: int| 0 <= j < kids.len() && kids[j] == c;
                    assert(kids[j] == c);
                }
            }
            assert forall|i: int| 0 <= i < head implies reachable.deep_view().contains(
                #[trigger] queue.deep_view()[i],
            ) by {
                assert(queue.deep_view()[i] == waiting[i]);
            }
            assert forall|i: int| 0 <= i < reachable@.len() implies reaches(
                blobs,
                hash,
                starts,
                #[trigger] reachable.deep_view()[i],
            ) by {
                if i < seen.len() {
                    assert(reachable.deep_view()[i] == seen[i]);
                }
            }
        }
    }
    proof {
        let list = reachable.deep_view();
        let set = text_set(list);
        assert forall|i: int| 0 <= i < starts.len() implies set.contains(#[trigger] starts[i]) by {
            assert(queue.deep_view()[i] == starts[i]);
        }
        assert forall|k: Seq<char>, c: Seq<char>|
            set.contains(k) && #[trigger] refers_to(blobs, hash, k).contains(c) implies set.contains(
            c,
        ) by {
            if queue.deep_view().contains(c) {
                let j = choose|j: int| 0 <= j < queue@.len() && queue.deep_view()[j] == c;
                assert(list.contains(queue.deep_view()[j]));
            }
        }
        assert forall|k: Seq<char>| #[trigger] list.contains(k) <==> reaches(
            blobs,
            hash,
            starts,
            k,
        ) by {
            if reaches(blobs, hash, starts, k) {
                let path = choose|path: Seq<Seq<char>>| leads(blobs, hash, starts, k, path);
                lemma_closed(blobs, hash, starts, set, path);
            }
            if list.contains(k) {
                let i = choose|i: int| 0 <= i < list.len() && list[i] == k;
                assert(reaches(blobs, hash, starts, list[i]));
            }
        }
    }
    reachable
}

// -- Laws ---------------------------------------------------------------------------

/// Each entry of a tree refers to the object that its digest names: an entry is
/// a mode and a name without a zero byte, a zero byte and the digest.
pub proof fn law_tree_entry(
    prefix: Seq<char>,
    digest_len: nat,
    head: Seq<u8>,
    digest: Seq<u8>,
    rest: Seq<u8>,
)
    requires
        !head.contains(0u8),
        digest.len() == digest_len,
    ensures
        tree_children(prefix, digest_len, head + seq![0u8] + digest + rest) == seq![
            prefix + ":"@ + hex_of(digest),
        ] + tree_children(prefix, digest_len, rest),
{
    let content = head + seq![0u8] + digest + rest;
    let n = head.len() as int;
    assert forall|k: int| 0 <= k < n implies content[k] != 0 by {
        assert(content[k] == head[k]);
        assert(head.contains(head[k]));
    }
    assert(content[n] == 0);
    crate::bytes::lemma_first_byte(content, 0, n);
    let end = n + 1 + digest_len;
    assert(content.subrange(n + 1, end) =~= digest);
    assert(content.skip(end) =~= rest);
}

/// Bytes up to a line feed and what follows it.
proof fn lemma_cut(line: Seq<u8>, rest: Seq<u8>)
    requires
        !line.contains(10u8),
    ensures
        first_line(line + seq![10u8] + rest) == line,
        later_lines(line + seq![10u8] + rest) == rest,
{
    let content = line + seq![10u8] + rest;
    let n = line.len() as int;
    assert forall|k: int| 0 <= k < n implies content[k] != 10 by {
        assert(content[k] == line[k]);
        assert(line.contains(line[k]));
    }
    assert(content[n] == 10);
    crate::bytes::lemma_first_byte(content, 10, n);
    assert(content.take(n) =~= line);
    assert(content.skip(n + 1) =~= rest);
}

/// What stands behind a word is what a line names.
proof fn lemma_named(prefix: Seq<char>, word: Seq<u8>, name: Seq<char>)
    requires
        trimmed(name) == name,
    ensures
        word.is_prefix_of(word + encode_utf8(name)),
        line_children(prefix, (word + encode_utf8(name)).skip(word.len() as int)) == seq![
            prefix + ":"@ + name,
        ],
{
    let line = word + encode_utf8(name);
    assert(word =~= line.subrange(0, word.len() as int));
    assert(line.skip(word.len() as int) =~= encode_utf8(name));
    encode_utf8_valid_utf8(name);
    encode_utf8_decode_utf8(name);
}

/// The lines `tree` and `parent` of a commit name what it refers to, in their
/// order; other lines name nothing, and nothing behind the first empty line
/// counts.
pub proof fn law_commit_lines(prefix: Seq<char>, name: Seq<char>, other: Seq<u8>, rest: Seq<u8>)
    requires
        trimmed(name) == name,
        !encode_utf8(name).contains(10u8),
        !other.contains(10u8),
        other.len() > 0,
        !tree_word().is_prefix_of(other),
        !parent_word().is_prefix_of(other),
    ensures
        commit_children(
            prefix,
            seq![116u8, 114, 101, 101, 32] + encode_utf8(name) + seq![10u8] + rest,
        ) == seq![prefix + ":"@ + name] + commit_children(prefix, rest),
        commit_children(
            prefix,
            seq![112u8, 97, 114, 101, 110, 116, 32] + encode_utf8(name) + seq![10u8] + rest,
        ) == seq![prefix + ":"@ + name] + commit_children(prefix, rest),
        commit_children(prefix, other + seq![10u8] + rest) == commit_children(prefix, rest),
        commit_children(prefix, seq![10u8] + rest) == Seq::<Seq<char>>::empty(),
{
    let tree = tree_word() + encode_utf8(name);
    let parent = parent_word() + encode_utf8(name);
    lemma_word_line(tree_word(), name);
    lemma_word_line(parent_word(), name);
    lemma_cut(tree, rest);
    lemma_cut(parent, rest);
    lemma_cut(other, rest);
    lemma_cut(Seq::empty(), rest);
    lemma_named(prefix, tree_word(), name);
    lemma_named(prefix, parent_word(), name);
    assert(!tree_word().is_prefix_of(parent)) by {
        if tree_word().is_prefix_of(parent) {
            assert(tree_word()[0] == parent.subrange(0, 5)[0]);
        }
    }
    assert(Seq::<u8>::empty() + seq![10u8] + rest =~= seq![10u8] + rest);
    assert(!tree_word().is_prefix_of(Seq::<u8>::empty()));
    assert(!parent_word().is_prefix_of(Seq::<u8>::empty()));
}

/// A word without a line feed and a name without one make a line.
proof fn lemma_word_line(word: Seq<u8>, name: Seq<char>)
    requires
        word == tree_word() || word == parent_word() || word == object_word(),
        !encode_utf8(name).contains(10u8),
    ensures
        !(word + encode_utf8(name)).contains(10u8),
{
    let line = word + encode_utf8(name);
    if line.contains(10u8) {
        let i = choose|i: int| 0 <= i < line.len() && line[i] == 10u8;
        if i >= word.len() {
            assert(encode_utf8(name)[i - word.len()] == 10u8);
            assert(encode_utf8(name).contains(10u8));
        } else {
            assert(word[i] == 10u8);
        }
    }
}

/// The line `object` of a tag names what it refers to, and what a ref to it is
/// peeled to; other lines name nothing.
pub proof fn law_tag_lines(prefix: Seq<char>, name: Seq<char>, other: Seq<u8>, rest: Seq<u8>)
    requires
        trimmed(name) == name,
        !encode_utf8(name).contains(10u8),
        !other.contains(10u8),
        !object_word().is_prefix_of(other),
    ensures
        tag_children(
            prefix,
            seq![111u8, 98, 106, 101, 99, 116, 32] + encode_utf8(name) + seq![10u8] + rest,
        ) == seq![prefix + ":"@ + name] + tag_children(prefix, rest),
        tag_children(prefix, other + seq![10u8] + rest) == tag_children(prefix, rest),
        tag_object(
            seq![111u8, 98, 106, 101, 99, 116, 32] + encode_utf8(name) + seq![10u8] + rest,
        ) == Some(name),
        tag_object(other + seq![10u8] + rest) == tag_object(rest),
{
    let object = object_word() + encode_utf8(name);
    lemma_word_line(object_word(), name);
    lemma_cut(object, rest);
    lemma_cut(other, rest);
    lemma_named(prefix, object_word(), name);
    assert(object.skip(7) =~= encode_utf8(name));
    encode_utf8_valid_utf8(name);
    encode_utf8_decode_utf8(name);
}

/// A ref under `refs/tags/` to a stored annotated tag is peeled to what the tag
/// names; no other ref is.
pub proof fn law_peeled(
    blobs: Blobs,
    name: Seq<char>,
    value: Seq<char>,
    target: Seq<char>,
    rest: Seq<u8>,
)
    requires
        trimmed(target) == target,
        !encode_utf8(target).contains(10u8),
        blobs.dom().contains(value),
        envelope_parts(blobs[value]) matches Ok(object) && object.0 == Kind::Tag && object.1
            == seq![111u8, 98, 106, 101, 99, 116, 32] + encode_utf8(target) + seq![10u8] + rest,
    ensures
        "refs/tags/"@.is_prefix_of(name) ==> peeled(blobs, name, value) == Some(target),
        !"refs/tags/"@.is_prefix_of(name) ==> peeled(blobs, name, value) is None,
{
    let other = seq![0u8];
    assert(!other.contains(10u8));
    assert(!object_word().is_prefix_of(other));
    law_tag_lines(Seq::empty(), target, other, rest);
}

/// A blob refers to nothing, and so does what is not stored.
pub proof fn law_blob_refers_to_nothing(blobs: Blobs, hash: HashKind, kappa: Seq<char>)
    requires
        blobs.dom().contains(kappa) ==> (envelope_parts(blobs[kappa]) matches Ok(object) && object.0
            == Kind::Blob),
    ensures
        refers_to(blobs, hash, kappa).len() == 0,
{
}

/// Roots can be reached, and what a reached object refers to; a set that holds
/// the roots and is closed under that holds all that can be reached.
pub proof fn law_reached(
    blobs: Blobs,
    hash: HashKind,
    roots: Seq<Seq<char>>,
    from: Seq<char>,
    to: Seq<char>,
    set: Set<Seq<char>>,
)
    ensures
        roots.contains(from) ==> reaches(blobs, hash, roots, from),
        reaches(blobs, hash, roots, from) && refers_to(blobs, hash, from).contains(to) ==> reaches(
            blobs,
            hash,
            roots,
            to,
        ),
        (forall|i: int| 0 <= i < roots.len() ==> set.contains(#[trigger] roots[i])) && (forall|
            k: Seq<char>,
            c: Seq<char>,
        |
            set.contains(k) && #[trigger] refers_to(blobs, hash, k).contains(c) ==> set.contains(c))
            && reaches(blobs, hash, roots, to) ==> set.contains(to),
{
    if roots.contains(from) {
        lemma_root_reached(blobs, hash, roots, from);
    }
    if reaches(blobs, hash, roots, from) && refers_to(blobs, hash, from).contains(to) {
        lemma_step_reached(blobs, hash, roots, from, to);
    }
    if (forall|i: int| 0 <= i < roots.len() ==> set.contains(#[trigger] roots[i])) && (forall|
        k: Seq<char>,
        c: Seq<char>,
    |
        set.contains(k) && #[trigger] refers_to(blobs, hash, k).contains(c) ==> set.contains(c))
        && reaches(blobs, hash, roots, to) {
        let path = choose|path: Seq<Seq<char>>| leads(blobs, hash, roots, to, path);
        lemma_closed(blobs, hash, roots, set, path);
    }
}

} // verus!
