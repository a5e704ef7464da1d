//! Reconciliation: two registries compare ranges of names by fingerprint and
//! exchange what the other lacks.

use vstd::prelude::*;
use vstd::utf8::encode_utf8;

use crate::bytes::same_bytes;
use crate::digest::{blake3_hash, blake3_of};
use crate::hexadecimal::{hex_bytes, hex_decode, hex_encode, hex_of};
use crate::store::memory::InMemoryStore;
use crate::store::state::{tag_names, StoreState};
use crate::text::{
    holds_text, lemma_text_below_irreflexive, lemma_text_below_total, lemma_text_below_transitive,
    less_text, text_begins_with, text_below,
};
use crate::types::{NamespaceRef, TagView};

verus! {

/// Up to this many items are sent outright.
pub const PAYLOAD_THRESHOLD: usize = 32;

/// Whether a tag is public and its name is in a range: at or above the lower
/// end, and below the upper.
pub open spec fn in_range(tag: TagView, lower: Seq<char>, upper: Seq<char>) -> bool {
    !"_"@.is_prefix_of(tag.name) && !text_below(tag.name, lower) && text_below(tag.name, upper)
}

/// The tags in a range, in their order.
pub open spec fn range_tags(tags: Seq<TagView>, lower: Seq<char>, upper: Seq<char>) -> Seq<TagView>
    decreases tags.len(),
{
    if tags.len() == 0 {
        Seq::empty()
    } else {
        let before = range_tags(tags.drop_last(), lower, upper);
        if in_range(tags.last(), lower, upper) {
            before.push(tags.last())
        } else {
            before
        }
    }
}

/// The addresses of tags.
pub open spec fn tag_items(tags: Seq<TagView>) -> Seq<Seq<char>> {
    Seq::new(tags.len(), |i: int| tags[i].kappa)
}

/// The addresses of the tags in a range, in their order.
pub open spec fn range_items(tags: Seq<TagView>, lower: Seq<char>, upper: Seq<char>) -> Seq<
    Seq<char>,
> {
    tag_items(range_tags(tags, lower, upper))
}

/// Texts with commas between them.
pub open spec fn with_commas(items: Seq<Seq<char>>) -> Seq<char>
    decreases items.len(),
{
    if items.len() == 0 {
        Seq::empty()
    } else if items.len() == 1 {
        items[0]
    } else {
        with_commas(items.drop_last()) + ","@ + items.last()
    }
}

/// The fingerprint of a list of addresses.
pub open spec fn fingerprint_of(items: Seq<Seq<char>>) -> Seq<u8> {
    blake3_of(encode_utf8(with_commas(items)))
}

/// The names and the addresses of the public tags whose names are in a range, by
/// ascending name.
fn tags_in_range(store: &InMemoryStore, ns: &NamespaceRef, lower: &str, upper: &str) -> (out: (
    Vec<String>,
    Vec<String>,
))
    requires
        store.wf(),
    ensures
        exists|tags: Seq<TagView>| #[trigger]
            store.state().is_listing(*ns, Seq::empty(), tags) && out.0.deep_view() == tag_names(
                range_tags(tags, lower@, upper@),
            ) && out.1.deep_view() == range_items(tags, lower@, upper@),
{
    let tags = match store.tag_list(ns) {
        Ok(tags) => tags,
        Err(_) => Vec::new(),
    };
    let ghost all = tags.deep_view();
    assert(store.state().is_listing(*ns, Seq::empty(), all));
    let mut names: Vec<String> = Vec::new();
    let mut items: Vec<String> = Vec::new();
    let mut i: usize = 0;
    proof {
        assert(all.take(0) =~= Seq::<TagView>::empty());
        assert(items.deep_view() =~= range_items(all.take(0), lower@, upper@));
        assert(names.deep_view() =~= tag_names(range_tags(all.take(0), lower@, upper@)));
    }
    while i < tags.len()
        invariant
            i <= tags@.len(),
            all == tags.deep_view(),
            all.len() == tags@.len(),
            names.deep_view() == tag_names(range_tags(all.take(i as int), lower@, upper@)),
            items.deep_view() == range_items(all.take(i as int), lower@, upper@),
        decreases tags@.len() - i,
    {
        let ghost had = (names.deep_view(), items.deep_view());
        let ghost tag = all[i as int];
        proof {
            assert(all[i as int] == tags@[i as int].deep_view());
            assert(all.take(i + 1).drop_last() =~= all.take(i as int));
            assert(all.take(i + 1).last() == all[i as int]);
        }
        let name = tags[i].name.as_str();
        if !text_begins_with(name, "_") && !less_text(name, lower) && less_text(name, upper) {
            names.push(tags[i].name.clone());
            items.push(tags[i].kappa.clone());
            proof {
                assert(names.deep_view() =~= had.0.push(tag.name));
                assert(items.deep_view() =~= had.1.push(tag.kappa));
                let found = range_tags(all.take(i as int), lower@, upper@);
                assert(tag_names(found.push(tag)) =~= tag_names(found).push(tag.name));
                assert(tag_items(found.push(tag)) =~= tag_items(found).push(tag.kappa));
            }
        }
        i += 1;
    }
    assert(all.take(all.len() as int) =~= all);
    (names, items)
}

/// The addresses of the public tags whose names are in a range, by ascending
/// name.
pub fn items_in_range(store: &InMemoryStore, ns: &NamespaceRef, lower: &str, upper: &str) -> (out: Vec<
    String,
>)
    requires
        store.wf(),
    ensures
        exists|tags: Seq<TagView>| #[trigger]
            store.state().is_listing(*ns, Seq::empty(), tags) && out.deep_view() == range_items(
                tags,
                lower@,
                upper@,
            ),
{
    tags_in_range(store, ns, lower, upper).1
}

/// The fingerprint of part of a list of addresses.
fn fingerprint(items: &Vec<String>, from: usize, to: usize) -> (out: [u8; 32])
    requires
        from <= to <= items@.len(),
    ensures
        out@ == fingerprint_of(items.deep_view().subrange(from as int, to as int)),
{
    let ghost all = items.deep_view();
    let mut text = String::new();
    let mut i: usize = from;
    assert(all.subrange(from as int, from as int) =~= Seq::<Seq<char>>::empty());
    assert(text@ =~= Seq::<char>::empty());
    while i < to
        invariant
            from <= i <= to <= items@.len(),
            all == items.deep_view(),
            all.len() == items@.len(),
            text@ == with_commas(all.subrange(from as int, i as int)),
        decreases to - i,
    {
        proof {
            let longer = all.subrange(from as int, i + 1);
            assert(longer.drop_last() =~= all.subrange(from as int, i as int));
            assert(longer.last() == all[i as int]);
            assert(all[i as int] == items@[i as int]@);
        }
        if i > from {
            text.append(",");
        }
        text.append(items[i].as_str());
        proof {
            let longer = all.subrange(from as int, i + 1);
            assert(i == from ==> text@ =~= longer[0]);
        }
        i += 1;
    }
    blake3_hash(text.as_str().as_bytes())
}

/// A part of a range with its fingerprint.
#[derive(Debug)]
pub struct SubRange {
    pub lower: String,
    pub upper: String,
    /// In hexadecimal.
    pub fingerprint: String,
    pub count: usize,
}

/// What a part of a range holds.
pub struct SubRangeView {
    pub lower: Seq<char>,
    pub upper: Seq<char>,
    pub fingerprint: Seq<char>,
    pub count: nat,
}

impl DeepView for SubRange {
    type V = SubRangeView;

    open spec fn deep_view(&self) -> SubRangeView {
        SubRangeView {
            lower: self.lower@,
            upper: self.upper@,
            fingerprint: self.fingerprint@,
            count: self.count as nat,
        }
    }
}

/// What a fingerprint is answered with.
#[derive(Debug)]
pub enum FingerprintReply {
    /// Both sides hold the same.
    Done,
    /// What this side holds.
    Items(Vec<String>),
    /// Smaller ranges to compare.
    Subdivide(Vec<SubRange>),
}

/// Items of each of the four parts of a range: a quarter, rounded up.
pub open spec fn part_len(n: nat) -> nat {
    ((n + 3) / 4) as nat
}

/// The part of a range that begins at an item: its ends are the names of the
/// first items of this part and the next, but for the ends of the whole range.
pub open spec fn part_from(
    names: Seq<Seq<char>>,
    items: Seq<Seq<char>>,
    lower: Seq<char>,
    upper: Seq<char>,
    from: int,
) -> SubRangeView {
    let end = from + part_len(items.len());
    let to = if end < items.len() {
        end
    } else {
        items.len() as int
    };
    SubRangeView {
        lower: if from == 0 {
            lower
        } else {
            names[from]
        },
        upper: if end < items.len() {
            names[end]
        } else {
            upper
        },
        fingerprint: hex_of(fingerprint_of(items.subrange(from, to))),
        count: (to - from) as nat,
    }
}

/// The parts of a range, one quarter of its items each, of those before an item.
pub open spec fn parts_before(
    names: Seq<Seq<char>>,
    items: Seq<Seq<char>>,
    lower: Seq<char>,
    upper: Seq<char>,
    n: nat,
) -> Seq<SubRangeView> {
    Seq::new(n, |i: int| part_from(names, items, lower, upper, i * part_len(items.len())))
}

/// The parts of a range: as many as it takes to hold all items.
pub open spec fn parts_of(
    names: Seq<Seq<char>>,
    items: Seq<Seq<char>>,
    lower: Seq<char>,
    upper: Seq<char>,
) -> Seq<SubRangeView> {
    let size = part_len(items.len());
    parts_before(names, items, lower, upper, ((items.len() + size - 1) / (size as int)) as nat)
}

fn subdivide(names: &Vec<String>, items: &Vec<String>, lower: &str, upper: &str) -> (out: Vec<
    SubRange,
>)
    requires
        items@.len() > 0,
        names@.len() == items@.len(),
    ensures
        out.deep_view() == parts_of(names.deep_view(), items.deep_view(), lower@, upper@),
{
    let ghost all = items.deep_view();
    let ghost called = names.deep_view();
    let n: usize = items.len();
    let size: usize = n / 4 + (if n % 4 == 0 {
        0
    } else {
        1
    });
    assert(size == part_len(all.len()));
    let mut out: Vec<SubRange> = Vec::new();
    let mut from: usize = 0;
    let ghost mut k: nat = 0;
    assert(out.deep_view() =~= parts_before(called, all, lower@, upper@, 0));
    while from < n
        invariant
            n == items@.len(),
            all == items.deep_view(),
            all.len() == n,
            called == names.deep_view(),
            names@.len() == n,
            0 < size <= n,
            size == part_len(all.len()),
            out.deep_view() == parts_before(called, all, lower@, upper@, k),
            from == (if k * size < n {
                k * size
            } else {
                n as int
            }),
            k > 0 ==> (k - 1) * size < n,
        decreases n - from,
    {
        let ghost had = out.deep_view();
        let last = n - from <= size;
        let to: usize = if last {
            n
        } else {
            from + size
        };
        let ghost want = part_from(called, all, lower@, upper@, from as int);
        let low = if from == 0 {
            lower.to_owned()
        } else {
            names[from].clone()
        };
        let up = if to < n {
            names[to].clone()
        } else {
            upper.to_owned()
        };
        let digest = fingerprint(items, from, to);
        let part = SubRange {
            lower: low,
            upper: up,
            fingerprint: hex_encode(digest.as_slice()),
            count: to - from,
        };
        proof {
            assert(part.deep_view() == want);
        }
        out.push(part);
        proof {
            assert(out.deep_view() =~= had.push(want));
            assert(out.deep_view() =~= parts_before(called, all, lower@, upper@, k + 1));
            assert((k + 1) * size == k * size + size) by (nonlinear_arith);
            k = k + 1;
        }
        from = to;
    }
    proof {
        let m = n + size - 1;
        assert(k > 0) by {
            if k == 0 {
                assert(k * size == 0);
            }
        }
        assert(m / (size as int) == k) by (nonlinear_arith)
            requires
                m == n + size - 1,
                size > 0,
                k * size >= n,
                (k - 1) * size < n,
        {}
    }
    out
}

/// The fingerprint that a peer sent is not hexadecimal.
#[derive(Debug, Clone, Copy, PartialEq, Eq, Structural)]
pub struct BadFingerprint;

/// Answers a fingerprint of a range, given the names and items of this side: done
/// where it is the same, a few items outright, and many by parts.
pub fn answer_fingerprint(
    names: Vec<String>,
    items: Vec<String>,
    lower: &str,
    upper: &str,
    peer: &str,
) -> (out: Result<FingerprintReply, BadFingerprint>)
    requires
        names@.len() == items@.len(),
    ensures
        fingerprint_answered(names.deep_view(), items.deep_view(), lower@, upper@, peer@, out),
{
    let ghost all = items.deep_view();
    let theirs = match hex_decode(peer) {
        Some(bytes) => bytes,
        None => return Err(BadFingerprint),
    };
    let ours = fingerprint(&items, 0, items.len());
    assert(all.subrange(0, all.len() as int) =~= all);
    if same_bytes(theirs.as_slice(), ours.as_slice()) {
        return Ok(FingerprintReply::Done);
    }
    if items.len() <= PAYLOAD_THRESHOLD {
        return Ok(FingerprintReply::Items(items));
    }
    Ok(FingerprintReply::Subdivide(subdivide(&names, &items, lower, upper)))
}

/// Answers a fingerprint of a range of names.
pub fn handle_fingerprint(
    store: &InMemoryStore,
    ns: &NamespaceRef,
    lower: &str,
    upper: &str,
    peer: &str,
) -> (out: Result<FingerprintReply, BadFingerprint>)
    requires
        store.wf(),
    ensures
        exists|tags: Seq<TagView>| #[trigger]
            store.state().is_listing(*ns, Seq::empty(), tags) && fingerprint_answered(
                tag_names(range_tags(tags, lower@, upper@)),
                range_items(tags, lower@, upper@),
                lower@,
                upper@,
                peer@,
                out,
            ),
{
    let (names, items) = tags_in_range(store, ns, lower, upper);
    assert(names.deep_view().len() == items.deep_view().len());
    answer_fingerprint(names, items, lower, upper, peer)
}

/// Whether a fingerprint is answered as it should, given the items of this side.
pub open spec fn fingerprint_answered(
    names: Seq<Seq<char>>,
    all: Seq<Seq<char>>,
    lower: Seq<char>,
    upper: Seq<char>,
    peer: Seq<char>,
    out: Result<FingerprintReply, BadFingerprint>,
) -> bool {
    let theirs = hex_bytes(peer);
    let same = theirs == Some(fingerprint_of(all));
    match out {
        Err(_) => theirs is None,
        Ok(FingerprintReply::Done) => same,
        Ok(FingerprintReply::Items(list)) => theirs is Some && !same && all.len()
            <= PAYLOAD_THRESHOLD && list.deep_view() == all,
        Ok(FingerprintReply::Subdivide(parts)) => theirs is Some && !same && all.len()
            > PAYLOAD_THRESHOLD && parts.deep_view() == parts_of(names, all, lower, upper),
    }
}

/// The texts of a list that another lacks, in their order.
pub open spec fn lacking(ours: Seq<Seq<char>>, theirs: Seq<Seq<char>>) -> Seq<Seq<char>>
    decreases ours.len(),
{
    if ours.len() == 0 {
        Seq::empty()
    } else {
        let before = lacking(ours.drop_last(), theirs);
        if theirs.contains(ours.last()) {
            before
        } else {
            before.push(ours.last())
        }
    }
}

/// Answers the items of a peer in a range of names with those that it lacks.
pub fn handle_items(
    store: &InMemoryStore,
    ns: &NamespaceRef,
    lower: &str,
    upper: &str,
    peer: &Vec<String>,
) -> (out: Vec<String>)
    requires
        store.wf(),
    ensures
        exists|tags: Seq<TagView>| #[trigger]
            store.state().is_listing(*ns, Seq::empty(), tags) && out.deep_view() == lacking(
                range_items(tags, lower@, upper@),
                peer.deep_view(),
            ),
{
    let ours = items_in_range(store, ns, lower, upper);
    let ghost all = ours.deep_view();
    let mut out: Vec<String> = Vec::new();
    let mut i: usize = 0;
    assert(all.take(0) =~= Seq::<Seq<char>>::empty());
    assert(out.deep_view() =~= Seq::<Seq<char>>::empty());
    while i < ours.len()
        invariant
            i <= ours@.len(),
            all == ours.deep_view(),
            all.len() == ours@.len(),
            out.deep_view() == lacking(all.take(i as int), peer.deep_view()),
        decreases ours@.len() - i,
    {
        let ghost had = out.deep_view();
        proof {
            assert(all[i as int] == ours@[i as int]@);
            assert(all.take(i + 1).drop_last() =~= all.take(i as int));
            assert(all.take(i + 1).last() == all[i as int]);
        }
        if !holds_text(peer, ours[i].as_str()) {
            out.push(ours[i].clone());
            assert(out.deep_view() =~= had.push(all[i as int]));
        }
        i += 1;
    }
    assert(all.take(all.len() as int) =~= all);
    out
}

/// The parts of a range hold all of its items, each once and in order.
pub proof fn law_parts_cover(
    names: Seq<Seq<char>>,
    items: Seq<Seq<char>>,
    lower: Seq<char>,
    upper: Seq<char>,
    i: int,
)
    requires
        items.len() > 0,
        0 <= i < items.len(),
    ensures
        ({
            let size = part_len(items.len()) as int;
            let parts = parts_of(names, items, lower, upper);
            let from = (i / size) * size;
            &&& 0 <= i / size < parts.len() <= 4
            &&& from <= i < from + parts[i / size].count
            &&& parts[i / size] == part_from(names, items, lower, upper, from)
        }),
{
    let n = items.len() as int;
    let size = part_len(items.len()) as int;
    let m = (n + size - 1) / size;
    let q = i / size;
    vstd::arithmetic::div_mod::lemma_fundamental_div_mod(i, size);
    vstd::arithmetic::div_mod::lemma_fundamental_div_mod(n + size - 1, size);
    assert(q * size <= i < q * size + size) by (nonlinear_arith)
        requires
            i == size * q + i % size,
            0 <= i % size < size,
    {}
    assert(0 <= q) by (nonlinear_arith)
        requires
            q * size + size > i,
            i >= 0,
            size > 0,
    {}
    assert(q < m) by (nonlinear_arith)
        requires
            q * size <= i < n,
            n + size - 1 == size * m + (n + size - 1) % size,
            0 <= (n + size - 1) % size < size,
            size > 0,
    {}
    assert(m <= 4) by (nonlinear_arith)
        requires
            n + size - 1 == size * m + (n + size - 1) % size,
            0 <= (n + size - 1) % size < size,
            4 * size >= n,
            size > 0,
    {}
}

/// Tags in ascending order by name.
pub open spec fn by_name(tags: Seq<TagView>) -> bool {
    forall|i: int, j: int|
        0 <= i < j < tags.len() ==> text_below((#[trigger] tags[i]).name, (#[trigger] tags[j]).name)
}

/// The tags in a range are tags of the list, in its order, and in the range.
proof fn lemma_range_tags(tags: Seq<TagView>, lower: Seq<char>, upper: Seq<char>)
    requires
        by_name(tags),
    ensures
        by_name(range_tags(tags, lower, upper)),
        forall|k: int|
            0 <= k < range_tags(tags, lower, upper).len() ==> in_range(
                #[trigger] range_tags(tags, lower, upper)[k],
                lower,
                upper,
            ) && tags.contains(range_tags(tags, lower, upper)[k]),
    decreases tags.len(),
{
    if tags.len() > 0 {
        let front = tags.drop_last();
        let before = range_tags(front, lower, upper);
        let all = range_tags(tags, lower, upper);
        lemma_range_tags(front, lower, upper);
        assert forall|k: int| 0 <= k < all.len() implies in_range(#[trigger] all[k], lower, upper)
            && tags.contains(all[k]) by {
            if k < before.len() {
                assert(all[k] == before[k]);
                assert(front.contains(before[k]));
                let i = choose|i: int| 0 <= i < front.len() && front[i] == before[k];
                assert(tags[i] == all[k]);
            } else {
                assert(tags[tags.len() - 1] == all[k]);
            }
        }
        assert forall|i: int, j: int| 0 <= i < j < all.len() implies text_below(
            (#[trigger] all[i]).name,
            (#[trigger] all[j]).name,
        ) by {
            assert(all[i] == before[i]);
            if j < before.len() {
                assert(all[j] == before[j]);
            } else {
                assert(front.contains(before[i]));
                let k = choose|k: int| 0 <= k < front.len() && front[k] == before[i];
                assert(tags[k] == all[i] && tags[tags.len() - 1] == all[j]);
            }
        }
    }
}

/// A narrower range of a list is that range of what a wider one holds.
proof fn lemma_range_nested(
    tags: Seq<TagView>,
    lower: Seq<char>,
    upper: Seq<char>,
    low: Seq<char>,
    up: Seq<char>,
)
    requires
        !text_below(low, lower),
        !text_below(upper, up),
    ensures
        range_tags(tags, low, up) == range_tags(range_tags(tags, lower, upper), low, up),
    decreases tags.len(),
{
    if tags.len() > 0 {
        let last = tags.last();
        let before = range_tags(tags.drop_last(), lower, upper);
        lemma_range_nested(tags.drop_last(), lower, upper, low, up);
        if in_range(last, low, up) {
            if text_below(last.name, lower) {
                lemma_text_below_total(low, lower);
                if text_below(lower, low) {
                    lemma_text_below_transitive(last.name, lower, low);
                }
            }
            lemma_text_below_total(up, upper);
            if text_below(up, upper) {
                lemma_text_below_transitive(last.name, up, upper);
            }
        }
        if in_range(last, lower, upper) {
            assert(before.push(last).drop_last() =~= before);
        }
    }
}

/// The range between two tags of a list, the first with it and the last without.
proof fn lemma_range_between(
    tags: Seq<TagView>,
    lower: Seq<char>,
    upper: Seq<char>,
    from: int,
    to: int,
    n: int,
)
    requires
        by_name(tags),
        0 <= from <= to <= tags.len(),
        0 <= n <= tags.len(),
        forall|k: int| 0 <= k < tags.len() ==> !"_"@.is_prefix_of((#[trigger] tags[k]).name),
        forall|k: int| from <= k < tags.len() ==> !text_below((#[trigger] tags[k]).name, lower),
        forall|k: int| 0 <= k < from ==> text_below((#[trigger] tags[k]).name, lower),
        forall|k: int| 0 <= k < to ==> text_below((#[trigger] tags[k]).name, upper),
        forall|k: int| to <= k < tags.len() ==> !text_below((#[trigger] tags[k]).name, upper),
    ensures
        range_tags(tags.take(n), lower, upper) == (if n <= from {
            Seq::empty()
        } else if n <= to {
            tags.subrange(from, n)
        } else {
            tags.subrange(from, to)
        }),
    decreases n,
{
    if n > 0 {
        lemma_range_between(tags, lower, upper, from, to, n - 1);
        assert(tags.take(n).drop_last() =~= tags.take(n - 1));
        assert(tags.take(n).last() == tags[n - 1]);
        if from < n <= to {
            let before = if n - 1 <= from {
                Seq::empty()
            } else {
                tags.subrange(from, n - 1)
            };
            assert(before.push(tags[n - 1]) =~= tags.subrange(from, n));
        }
    }
}

/// The range that a part names holds just the items of that part.
pub proof fn law_part_holds(
    tags: Seq<TagView>,
    lower: Seq<char>,
    upper: Seq<char>,
    from: int,
)
    requires
        by_name(tags),
        0 <= from < range_items(tags, lower, upper).len(),
    ensures
        ({
            let items = range_items(tags, lower, upper);
            let names = tag_names(range_tags(tags, lower, upper));
            let part = part_from(names, items, lower, upper, from);
            &&& range_items(tags, part.lower, part.upper) == items.subrange(
                from,
                from + part.count,
            )
            &&& part.fingerprint == hex_of(
                fingerprint_of(range_items(tags, part.lower, part.upper)),
            )
        }),
{
    let found = range_tags(tags, lower, upper);
    let items = range_items(tags, lower, upper);
    let names = tag_names(found);
    let part = part_from(names, items, lower, upper, from);
    let to = from + part.count;
    let end = from + part_len(items.len());
    lemma_range_tags(tags, lower, upper);
    assert forall|k: int| 0 <= k < found.len() implies in_range(#[trigger] found[k], lower, upper) by {}
    lemma_text_below_irreflexive(part.lower);
    lemma_text_below_irreflexive(part.upper);
    if from > 0 {
        assert(part.lower == found[from].name);
        assert(in_range(found[from], lower, upper));
    }
    if end < items.len() {
        assert(part.upper == found[end].name);
        assert(in_range(found[end], lower, upper));
        lemma_text_below_asymmetric(found[end].name, upper);
    }
    assert forall|k: int| from <= k < found.len() implies !text_below(
        (#[trigger] found[k]).name,
        part.lower,
    ) by {
        assert(in_range(found[k], lower, upper));
        if 0 < from < k {
            lemma_text_below_asymmetric(found[from].name, found[k].name);
        }
    }
    assert forall|k: int| to <= k < found.len() implies !text_below(
        (#[trigger] found[k]).name,
        part.upper,
    ) by {
        if to < k {
            lemma_text_below_asymmetric(found[to].name, found[k].name);
        }
    }
    assert forall|k: int| 0 <= k < to implies text_below((#[trigger] found[k]).name, part.upper) by {
        assert(in_range(found[k], lower, upper));
    }
    lemma_range_nested(tags, lower, upper, part.lower, part.upper);
    lemma_range_between(found, part.lower, part.upper, from, to, found.len() as int);
    assert(found.take(found.len() as int) =~= found);
    assert(tag_items(found.subrange(from, to)) =~= items.subrange(from, to));
}

proof fn lemma_text_below_asymmetric(a: Seq<char>, b: Seq<char>)
    requires
        text_below(a, b),
    ensures
        !text_below(b, a),
{
    if text_below(b, a) {
        lemma_text_below_transitive(a, b, a);
        lemma_text_below_irreflexive(a);
    }
}

/// Nothing that a peer holds is sent to it, and whatever it lacks is.
pub proof fn law_lacking(ours: Seq<Seq<char>>, theirs: Seq<Seq<char>>, k: Seq<char>)
    ensures
        lacking(ours, theirs).contains(k) <==> (ours.contains(k) && !theirs.contains(k)),
    decreases ours.len(),
{
    if ours.len() > 0 {
        let front = ours.drop_last();
        let last = ours.last();
        law_lacking(front, theirs, k);
        assert(ours =~= front.push(last));
        crate::git::walk::lemma_push_contains(front, last, k);
        crate::git::walk::lemma_push_contains(lacking(front, theirs), last, k);
    }
}

proof fn lemma_range_holds(tags: Seq<TagView>, lower: Seq<char>, upper: Seq<char>, tag: TagView)
    ensures
        range_tags(tags, lower, upper).contains(tag) <==> tags.contains(tag) && in_range(
            tag,
            lower,
            upper,
        ),
    decreases tags.len(),
{
    let all = range_tags(tags, lower, upper);
    if tags.len() > 0 {
        let front = tags.drop_last();
        let before = range_tags(front, lower, upper);
        lemma_range_holds(front, lower, upper, tag);
        if before.contains(tag) {
            let i = choose|i: int| 0 <= i < before.len() && before[i] == tag;
            assert(all[i] == tag);
            let j = choose|j: int| 0 <= j < front.len() && front[j] == tag;
            assert(tags[j] == tag);
        }
        if tags.contains(tag) && in_range(tag, lower, upper) {
            let j = choose|j: int| 0 <= j < tags.len() && tags[j] == tag;
            if j < front.len() {
                assert(front[j] == tag);
            } else {
                assert(all[all.len() - 1] == tag);
            }
        }
        if all.contains(tag) {
            let i = choose|i: int| 0 <= i < all.len() && all[i] == tag;
            if i < before.len() {
                assert(before[i] == tag);
            } else {
                assert(tags[tags.len() - 1] == tag);
            }
        }
    }
}

/// The items of a range are the addresses of the tags on file whose names begin
/// with no underscore, are not below the lower end and are below the upper.
pub proof fn law_range_items(
    st: StoreState,
    ns: NamespaceRef,
    tags: Seq<TagView>,
    lower: Seq<char>,
    upper: Seq<char>,
    h: u64,
)
    requires
        st.is_listing(ns, Seq::empty(), tags),
    ensures
        st.tags.dom().contains((ns.id(), h)) && !"_"@.is_prefix_of(st.tags[(ns.id(), h)].name)
            && !text_below(st.tags[(ns.id(), h)].name, lower) && text_below(
            st.tags[(ns.id(), h)].name,
            upper,
        ) ==> range_items(tags, lower, upper).contains(st.tags[(ns.id(), h)].kappa),
        forall|k: Seq<char>| #[trigger]
            range_items(tags, lower, upper).contains(k) ==> exists|g: u64|
                is_item_of(st, ns.id(), g, lower, upper, k),
{
    let all = range_tags(tags, lower, upper);
    let items = range_items(tags, lower, upper);
    if st.tags.dom().contains((ns.id(), h)) && !"_"@.is_prefix_of(st.tags[(ns.id(), h)].name)
        && !text_below(st.tags[(ns.id(), h)].name, lower) && text_below(
        st.tags[(ns.id(), h)].name,
        upper,
    ) {
        let tag = st.tags[(ns.id(), h)];
        assert(Seq::<char>::empty().is_prefix_of(tag.name));
        assert(tags.contains(tag));
        lemma_range_holds(tags, lower, upper, tag);
        let i = choose|i: int| 0 <= i < all.len() && all[i] == tag;
        assert(items[i] == tag.kappa);
    }
    assert forall|k: Seq<char>| #[trigger] items.contains(k) implies exists|g: u64|
        is_item_of(st, ns.id(), g, lower, upper, k) by {
        let i = choose|i: int| 0 <= i < items.len() && items[i] == k;
        let tag = all[i];
        assert(all.contains(tag));
        lemma_range_holds(tags, lower, upper, tag);
        let j = choose|j: int| 0 <= j < tags.len() && tags[j] == tag;
        let g = crate::types::name_hash(tags[j].name);
        assert(StoreState::filed(ns, tags[j].name) == (ns.id(), g));
        assert(is_item_of(st, ns.id(), g, lower, upper, k));
    }
}

/// Whether an address is that of a public tag on file whose name is in a range.
pub open spec fn is_item_of(
    st: StoreState,
    id: Seq<u8>,
    h: u64,
    lower: Seq<char>,
    upper: Seq<char>,
    kappa: Seq<char>,
) -> bool {
    &&& st.tags.dom().contains((id, h))
    &&& st.tags[(id, h)].kappa == kappa
    &&& !"_"@.is_prefix_of(st.tags[(id, h)].name)
    &&& !text_below(st.tags[(id, h)].name, lower)
    &&& text_below(st.tags[(id, h)].name, upper)
}

/// A fingerprint is answered according to the items of this side: that there is
/// nothing to do where it is the BLAKE3 digest, in hexadecimal, of the items with
/// commas between them; otherwise with the items themselves, up to thirty-two of
/// them, or with smaller ranges.
pub proof fn law_fingerprint_compared(
    names: Seq<Seq<char>>,
    all: Seq<Seq<char>>,
    lower: Seq<char>,
    upper: Seq<char>,
    peer: Seq<u8>,
    out: Result<FingerprintReply, BadFingerprint>,
)
    requires
        fingerprint_answered(names, all, lower, upper, hex_of(peer), out),
    ensures
        out is Ok,
        out->Ok_0 is Done <==> peer == blake3_of(encode_utf8(with_commas(all))),
        out->Ok_0 matches FingerprintReply::Items(list) ==> list.deep_view() == all,
        !(out->Ok_0 is Done) ==> (out->Ok_0 is Items <==> all.len() <= 32),
{
    crate::hexadecimal::law_hex_roundtrip(peer);
}

/// A list with commas is its items with a comma between each and the next.
pub proof fn law_with_commas(items: Seq<Seq<char>>, x: Seq<char>)
    ensures
        with_commas(Seq::empty()) == Seq::<char>::empty(),
        with_commas(seq![x]) == x,
        items.len() > 0 ==> with_commas(items.push(x)) == with_commas(items) + ","@ + x,
{
    assert(items.push(x).drop_last() =~= items);
}

/// No part of a range holds more than a quarter of the items, rounded up, and only the
/// last one less.
pub proof fn law_parts_even(
    names: Seq<Seq<char>>,
    items: Seq<Seq<char>>,
    lower: Seq<char>,
    upper: Seq<char>,
    i: int,
)
    requires
        0 <= i < parts_of(names, items, lower, upper).len(),
        items.len() > 0,
    ensures
        ({
            let parts = parts_of(names, items, lower, upper);
            let quarter = (items.len() + 3) / 4;
            &&& parts[i].count <= quarter
            &&& i + 1 < parts.len() ==> parts[i].count == quarter
        }),
{
    let n = items.len() as int;
    let size = part_len(items.len()) as int;
    let m = (n + size - 1) / size;
    let r = (n + size - 1) % size;
    vstd::arithmetic::div_mod::lemma_fundamental_div_mod(n + size - 1, size);
    assert(size > 0 && 0 <= i < m);
    assert(i * size < n) by (nonlinear_arith)
        requires
            i <= m - 1,
            n + size - 1 == size * m + r,
            0 <= r < size,
            size > 0,
    {}
    if i + 1 < m {
        assert(i * size + size < n) by (nonlinear_arith)
            requires
                i + 1 <= m - 1,
                n + size - 1 == size * m + r,
                0 <= r < size,
                size > 0,
        {}
    }
    assert(parts_of(names, items, lower, upper)[i] == part_from(
        names,
        items,
        lower,
        upper,
        i * size,
    ));
}

} // verus!
