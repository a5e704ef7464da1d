//! Resolution: what stands of the assertions about a subject, after what was
//! revoked, what watermarks void, and the time.

use vstd::prelude::*;

use crate::hexadecimal::{hex_decode, hex_of, law_hex_roundtrip};
use crate::identity::{
    assertion_blob, assertion_from_canonical, assertion_in, canonical_assertion,
    gather_assertions, gather_tagged, revocation_from_canonical, revocation_in, stored_blobs,
    tag_targets, watermark_from_canonical, watermark_in, AssertionView, IdentityAssertion,
    Revocation, RevocationView,
};
use crate::kappa::{kappa_from_bytes, kappa_of};
use crate::sorted::ascending;
use crate::store::identity::{
    asserted_of, is_anchor_ns, succeeded, succession_watermark, watermark_kappa,
    watermark_readable, IdentitySuccession, Watermark, WatermarkView,
};
use crate::store::memory::{InMemoryStore, NamespaceRecord};
use crate::store::namespaces::{is_namespace_list, namespace_listed};
use crate::store::state::{RecordView, StoreState};
use crate::text::same_text;
use crate::types::{NamespaceRef, TagView};

verus! {

// -- Gathering ----------------------------------------------------------------------

/// What bears on a subject: the assertions about it, and all revocations and
/// watermarks.
#[derive(Debug)]
pub struct Gathered {
    pub assertions: Vec<IdentityAssertion>,
    pub revocations: Vec<Revocation>,
    pub watermarks: Vec<Watermark>,
}

/// What bears on a subject.
pub struct GatheredView {
    pub assertions: Seq<AssertionView>,
    pub revocations: Seq<RevocationView>,
    pub watermarks: Seq<WatermarkView>,
}

impl DeepView for Gathered {
    type V = GatheredView;

    open spec fn deep_view(&self) -> GatheredView {
        GatheredView {
            assertions: self.assertions.deep_view(),
            revocations: self.revocations.deep_view(),
            watermarks: self.watermarks.deep_view(),
        }
    }
}

/// The assertions that blobs stand for; what stands for none is left out.
pub open spec fn assertions_read(blobs: Seq<Seq<u8>>) -> Seq<AssertionView>
    decreases blobs.len(),
{
    if blobs.len() == 0 {
        Seq::empty()
    } else {
        let before = assertions_read(blobs.drop_last());
        match assertion_in(blobs.last()) {
            Some(a) => before.push(a),
            None => before,
        }
    }
}

/// The revocations that blobs stand for; what stands for none is left out.
pub open spec fn revocations_read(blobs: Seq<Seq<u8>>) -> Seq<RevocationView>
    decreases blobs.len(),
{
    if blobs.len() == 0 {
        Seq::empty()
    } else {
        let before = revocations_read(blobs.drop_last());
        match revocation_in(blobs.last()) {
            Some(r) => before.push(r),
            None => before,
        }
    }
}

/// The watermarks that blobs stand for; what stands for none is left out.
pub open spec fn watermarks_read(blobs: Seq<Seq<u8>>) -> Seq<WatermarkView>
    decreases blobs.len(),
{
    if blobs.len() == 0 {
        Seq::empty()
    } else {
        let before = watermarks_read(blobs.drop_last());
        match watermark_in(blobs.last()) {
            Some(w) => before.push(w),
            None => before,
        }
    }
}

/// Whether a list is the tags with a prefix of the namespace that a record is of.
pub open spec fn is_tags_of(
    st: StoreState,
    record: RecordView,
    prefix: Seq<char>,
    list: Seq<TagView>,
) -> bool {
    exists|ns: NamespaceRef| #[trigger]
        st.is_listing(ns, prefix, list) && hex_of(ns.id()) == record.uuid_hex
}

/// Whether lists are the tags with a prefix of the namespaces that records are of.
pub open spec fn tags_listed(
    st: StoreState,
    records: Seq<RecordView>,
    prefix: Seq<char>,
    lists: Seq<Seq<TagView>>,
) -> bool {
    &&& lists.len() == records.len()
    &&& forall|i: int| 0 <= i < lists.len() ==> is_tags_of(st, records[i], prefix, #[trigger] lists[i])
}

/// The blobs that lists of tags are bound to, one list after the other.
pub open spec fn tagged_blobs(st: StoreState, lists: Seq<Seq<TagView>>) -> Seq<Seq<u8>>
    decreases lists.len(),
{
    if lists.len() == 0 {
        Seq::empty()
    } else {
        tagged_blobs(st, lists.drop_last()) + stored_blobs(st, tag_targets(lists.last()))
    }
}

/// Whether blobs are those that the tags with a prefix are bound to, over all
/// namespaces in their order.
pub open spec fn is_tagged(st: StoreState, prefix: Seq<char>, blobs: Seq<Seq<u8>>) -> bool {
    exists|records: Seq<RecordView>, lists: Seq<Seq<TagView>>|
        #![trigger tags_listed(st, records, prefix, lists)]
        namespace_listed(st, None, records) && tags_listed(st, records, prefix, lists) && blobs
            == tagged_blobs(st, lists)
}

/// Whether blobs are the stored assertions of a subject, in the order of the
/// index.
pub open spec fn is_indexed(st: StoreState, subject: Seq<char>, blobs: Seq<Seq<u8>>) -> bool {
    exists|kappas: Seq<Seq<char>>|
        #![trigger ascending(kappas)]
        ascending(kappas) && (forall|k: Seq<char>| #[trigger]
            kappas.contains(k) <==> asserted_of(st, subject, k)) && blobs == stored_blobs(
            st,
            kappas,
        )
}

/// Whether all is gathered that bears on a subject: the assertions that the index
/// has of it, and over all namespaces the revocations and watermarks that are
/// tagged.
pub open spec fn is_gathered(st: StoreState, subject: Seq<char>, g: GatheredView) -> bool {
    &&& exists|blobs: Seq<Seq<u8>>| #[trigger]
        is_indexed(st, subject, blobs) && g.assertions == assertions_read(blobs)
    &&& exists|blobs: Seq<Seq<u8>>| #[trigger]
        is_tagged(st, "revocation/"@, blobs) && g.revocations == revocations_read(blobs)
    &&& exists|blobs: Seq<Seq<u8>>| #[trigger]
        is_tagged(st, "watermark/"@, blobs) && g.watermarks == watermarks_read(blobs)
}

fn record_namespace(record: &NamespaceRecord) -> (out: NamespaceRef)
    requires
        exists|id: Seq<u8>| id.len() == 16 && record.uuid_hex@ == #[trigger] hex_of(id),
    ensures
        hex_of(out.id()) == record.uuid_hex@,
{
    proof {
        let id = choose|id: Seq<u8>| id.len() == 16 && record.uuid_hex@ == #[trigger] hex_of(id);
        law_hex_roundtrip(id);
    }
    let mut uuid = [0u8; 16];
    if let Some(bytes) = hex_decode(record.uuid_hex.as_str()) {
        let mut i: usize = 0;
        while i < 16
            invariant
                i <= 16,
                bytes@.len() == 16,
                uuid@.len() == 16,
                forall|k: int| 0 <= k < i ==> uuid@[k] == bytes@[k],
            decreases 16 - i,
        {
            uuid[i] = bytes[i];
            i += 1;
        }
        assert(uuid@ =~= bytes@);
    }
    NamespaceRef::new(uuid)
}

fn gather_everywhere(store: &InMemoryStore, prefix: &str) -> (out: Vec<Vec<u8>>)
    requires
        store.wf(),
    ensures
        is_tagged(store.state(), prefix@, out.deep_view()),
{
    proof {
        store.lemma_wf();
    }
    let ghost st = store.state();
    let records = match store.namespace_list(None) {
        Ok(records) => records,
        Err(_) => Vec::new(),
    };
    let ghost all = records.deep_view();
    assert(namespace_listed(st, None, all));
    let ghost ids = choose|ids: Seq<Seq<u8>>| is_namespace_list(st, None, ids, all);
    let mut out: Vec<Vec<u8>> = Vec::new();
    let ghost mut lists: Seq<Seq<TagView>> = Seq::empty();
    let mut i: usize = 0;
    proof {
        assert(all.take(0) =~= Seq::<RecordView>::empty());
        assert(out.deep_view() =~= Seq::<Seq<u8>>::empty());
    }
    while i < records.len()
        invariant
            store.wf(),
            st == store.state(),
            st.wf(),
            i <= records@.len(),
            all == records.deep_view(),
            all.len() == records@.len(),
            is_namespace_list(st, None, ids, all),
            tags_listed(st, all.take(i as int), prefix@, lists),
            out.deep_view() == tagged_blobs(st, lists),
        decreases records@.len() - i,
    {
        proof {
            assert(all[i as int] == records@[i as int].deep_view());
            assert(st.records.dom().contains(ids[i as int]));
            assert(records@[i as int].uuid_hex@ == hex_of(ids[i as int]));
        }
        let ns = record_namespace(&records[i]);
        let found = gather_tagged(store, &ns, prefix);
        let ghost tags = choose|tags: Seq<TagView>| #[trigger]
            st.is_listing(ns, prefix@, tags) && found.deep_view() == stored_blobs(
                st,
                tag_targets(tags),
            );
        let ghost had = out.deep_view();
        append_blobs(&mut out, found);
        proof {
            let more = lists.push(tags);
            assert(more.drop_last() =~= lists);
            assert(is_tags_of(st, all[i as int], prefix@, tags));
            assert forall|k: int| 0 <= k < more.len() implies is_tags_of(
                st,
                all.take(i + 1)[k],
                prefix@,
                #[trigger] more[k],
            ) by {
                if k < lists.len() {
                    assert(more[k] == lists[k]);
                    assert(all.take(i + 1)[k] == all.take(i as int)[k]);
                }
            }
            lists = more;
        }
        i += 1;
    }
    assert(all.take(i as int) =~= all);
    out
}

fn append_blobs(out: &mut Vec<Vec<u8>>, more: Vec<Vec<u8>>)
    ensures
        final(out).deep_view() == old(out).deep_view() + more.deep_view(),
{
    let ghost before = out.deep_view();
    let ghost all = more.deep_view();
    let mut i: usize = 0;
    assert(before + all.take(0) =~= before);
    while i < more.len()
        invariant
            i <= more@.len(),
            all == more.deep_view(),
            all.len() == more@.len(),
            out.deep_view() == before + all.take(i as int),
        decreases more@.len() - i,
    {
        let ghost had = out.deep_view();
        let blob = crate::bytes::copy_bytes(more[i].as_slice());
        proof {
            crate::table::lemma_deep_bytes(blob);
            crate::table::lemma_deep_bytes(more@[i as int]);
        }
        let ghost shown = blob.deep_view();
        out.push(blob);
        proof {
            assert(all[i as int] == more@[i as int].deep_view());
            assert(out.deep_view() =~= had.push(shown));
            assert(before + all.take(i + 1) =~= (before + all.take(i as int)).push(all[i as int]));
        }
        i += 1;
    }
    assert(all.take(i as int) =~= all);
}

fn read_assertions(blobs: &Vec<Vec<u8>>) -> (out: Vec<IdentityAssertion>)
    ensures
        out.deep_view() == assertions_read(blobs.deep_view()),
{
    let ghost all = blobs.deep_view();
    let mut out: Vec<IdentityAssertion> = Vec::new();
    let mut i: usize = 0;
    proof {
        assert(all.take(0) =~= Seq::<Seq<u8>>::empty());
        assert(out.deep_view() =~= Seq::<AssertionView>::empty());
    }
    while i < blobs.len()
        invariant
            i <= blobs@.len(),
            all == blobs.deep_view(),
            all.len() == blobs@.len(),
            out.deep_view() == assertions_read(all.take(i as int)),
        decreases blobs@.len() - i,
    {
        let ghost had = out.deep_view();
        proof {
            crate::table::lemma_deep_bytes(blobs@[i as int]);
            assert(all.take(i + 1).drop_last() =~= all.take(i as int));
            assert(all.take(i + 1).last() == blobs@[i as int]@);
        }
        if let Some(a) = assertion_from_canonical(blobs[i].as_slice()) {
            let ghost shown = a.deep_view();
            out.push(a);
            assert(out.deep_view() =~= had.push(shown));
        }
        i += 1;
    }
    assert(all.take(i as int) =~= all);
    out
}

fn read_revocations(blobs: &Vec<Vec<u8>>) -> (out: Vec<Revocation>)
    ensures
        out.deep_view() == revocations_read(blobs.deep_view()),
{
    let ghost all = blobs.deep_view();
    let mut out: Vec<Revocation> = Vec::new();
    let mut i: usize = 0;
    proof {
        assert(all.take(0) =~= Seq::<Seq<u8>>::empty());
        assert(out.deep_view() =~= Seq::<RevocationView>::empty());
    }
    while i < blobs.len()
        invariant
            i <= blobs@.len(),
            all == blobs.deep_view(),
            all.len() == blobs@.len(),
            out.deep_view() == revocations_read(all.take(i as int)),
        decreases blobs@.len() - i,
    {
        let ghost had = out.deep_view();
        proof {
            crate::table::lemma_deep_bytes(blobs@[i as int]);
            assert(all.take(i + 1).drop_last() =~= all.take(i as int));
            assert(all.take(i + 1).last() == blobs@[i as int]@);
        }
        if let Some(r) = revocation_from_canonical(blobs[i].as_slice()) {
            let ghost shown = r.deep_view();
            out.push(r);
            assert(out.deep_view() =~= had.push(shown));
        }
        i += 1;
    }
    assert(all.take(i as int) =~= all);
    out
}

fn read_watermarks(blobs: &Vec<Vec<u8>>) -> (out: Vec<Watermark>)
    ensures
        out.deep_view() == watermarks_read(blobs.deep_view()),
{
    let ghost all = blobs.deep_view();
    let mut out: Vec<Watermark> = Vec::new();
    let mut i: usize = 0;
    proof {
        assert(all.take(0) =~= Seq::<Seq<u8>>::empty());
        assert(out.deep_view() =~= Seq::<WatermarkView>::empty());
    }
    while i < blobs.len()
        invariant
            i <= blobs@.len(),
            all == blobs.deep_view(),
            all.len() == blobs@.len(),
            out.deep_view() == watermarks_read(all.take(i as int)),
        decreases blobs@.len() - i,
    {
        let ghost had = out.deep_view();
        proof {
            crate::table::lemma_deep_bytes(blobs@[i as int]);
            assert(all.take(i + 1).drop_last() =~= all.take(i as int));
            assert(all.take(i + 1).last() == blobs@[i as int]@);
        }
        if let Some(w) = watermark_from_canonical(blobs[i].as_slice()) {
            let ghost shown = w.deep_view();
            out.push(w);
            assert(out.deep_view() =~= had.push(shown));
        }
        i += 1;
    }
    assert(all.take(i as int) =~= all);
    out
}

/// Gathers what bears on a subject: the assertions that the index has of it, and
/// over all namespaces the revocations and watermarks that are tagged. What cannot
/// be read is left out.
pub fn gather_identity(store: &InMemoryStore, subject: &str) -> (out: Gathered)
    requires
        store.wf(),
    ensures
        is_gathered(store.state(), subject@, out.deep_view()),
{
    let asserted = gather_assertions(store, subject);
    assert(is_indexed(store.state(), subject@, asserted.deep_view()));
    let revoked = gather_everywhere(store, "revocation/");
    let marked = gather_everywhere(store, "watermark/");
    Gathered {
        assertions: read_assertions(&asserted),
        revocations: read_revocations(&revoked),
        watermarks: read_watermarks(&marked),
    }
}

// -- Resolving ----------------------------------------------------------------------

/// What an assertion comes to.
#[derive(Debug, Clone, Copy, PartialEq, Eq, Structural)]
pub enum Standing {
    Valid,
    /// Its asserter took it back.
    Revoked,
    /// A watermark of its asserter voids it.
    Watermarked,
    /// It does not hold at the time that was asked for.
    Untimely,
}

/// Whether a revocation takes an assertion back: both have the same asserter, and
/// it names the assertion's address.
pub open spec fn revokes(r: RevocationView, a: AssertionView) -> bool {
    r.asserter == a.asserter && r.assertion_kappa == kappa_of(assertion_blob(a))
}

/// Whether a watermark voids an assertion: both have the same asserter, and it
/// voids everything, or the assertion holds from before it.
pub open spec fn voids(w: WatermarkView, a: AssertionView) -> bool {
    w.asserter == a.asserter && (w.invalidate_before_ms == 0 || a.valid_from_ms
        < w.invalidate_before_ms)
}

/// Whether an assertion holds at a time: from its beginning to its end, both with
/// it.
pub open spec fn holds_at(a: AssertionView, at_ms: u64) -> bool {
    &&& a.valid_from_ms <= at_ms
    &&& a.valid_until_ms matches Some(end) ==> at_ms <= end
}

/// Whether an assertion was taken back.
pub open spec fn is_revoked(a: AssertionView, revocations: Seq<RevocationView>) -> bool {
    exists|i: int| 0 <= i < revocations.len() && revokes(#[trigger] revocations[i], a)
}

/// Whether an assertion is void.
pub open spec fn is_void(a: AssertionView, watermarks: Seq<WatermarkView>) -> bool {
    exists|i: int| 0 <= i < watermarks.len() && voids(#[trigger] watermarks[i], a)
}

/// What an assertion comes to, at a time or overall.
pub open spec fn standing(a: AssertionView, g: GatheredView, at_ms: Option<u64>) -> Standing {
    if is_revoked(a, g.revocations) {
        Standing::Revoked
    } else if is_void(a, g.watermarks) {
        Standing::Watermarked
    } else if at_ms matches Some(t) && !holds_at(a, t) {
        Standing::Untimely
    } else {
        Standing::Valid
    }
}

/// The assertions of a list that come to a standing, in their order.
pub open spec fn with_standing(
    list: Seq<AssertionView>,
    g: GatheredView,
    at_ms: Option<u64>,
    s: Standing,
) -> Seq<AssertionView>
    decreases list.len(),
{
    if list.len() == 0 {
        Seq::empty()
    } else {
        let before = with_standing(list.drop_last(), g, at_ms, s);
        if standing(list.last(), g, at_ms) == s {
            before.push(list.last())
        } else {
            before
        }
    }
}

/// The assertions about a subject, by what they come to. Those that contradict
/// each other stand side by side.
#[derive(Debug)]
pub struct Resolved {
    pub valid: Vec<IdentityAssertion>,
    pub revoked: Vec<IdentityAssertion>,
    pub watermarked: Vec<IdentityAssertion>,
    pub untimely: Vec<IdentityAssertion>,
}

fn any_revokes(a: &IdentityAssertion, revocations: &Vec<Revocation>) -> (yes: bool)
    ensures
        yes == is_revoked(a.deep_view(), revocations.deep_view()),
{
    let kappa = kappa_from_bytes(canonical_assertion(a).as_slice());
    let ghost all = revocations.deep_view();
    let mut i: usize = 0;
    while i < revocations.len()
        invariant
            i <= revocations@.len(),
            all == revocations.deep_view(),
            kappa@ == kappa_of(assertion_blob(a.deep_view())),
            forall|k: int| 0 <= k < i ==> !revokes(#[trigger] all[k], a.deep_view()),
        decreases revocations@.len() - i,
    {
        let r = &revocations[i];
        assert(all[i as int] == r.deep_view());
        if same_text(r.asserter.as_str(), a.asserter.as_str()) && same_text(
            r.assertion_kappa.as_str(),
            kappa.as_str(),
        ) {
            assert(revokes(all[i as int], a.deep_view()));
            return true;
        }
        i += 1;
    }
    false
}

fn any_voids(a: &IdentityAssertion, watermarks: &Vec<Watermark>) -> (yes: bool)
    ensures
        yes == is_void(a.deep_view(), watermarks.deep_view()),
{
    let ghost all = watermarks.deep_view();
    let mut i: usize = 0;
    while i < watermarks.len()
        invariant
            i <= watermarks@.len(),
            all == watermarks.deep_view(),
            forall|k: int| 0 <= k < i ==> !voids(#[trigger] all[k], a.deep_view()),
        decreases watermarks@.len() - i,
    {
        let w = &watermarks[i];
        assert(all[i as int] == w.deep_view());
        if same_text(w.asserter.as_str(), a.asserter.as_str()) && (w.invalidate_before_ms == 0
            || a.valid_from_ms < w.invalidate_before_ms) {
            assert(voids(all[i as int], a.deep_view()));
            return true;
        }
        i += 1;
    }
    false
}

fn judge(a: &IdentityAssertion, g: &Gathered, at_ms: Option<u64>) -> (out: Standing)
    ensures
        out == standing(a.deep_view(), g.deep_view(), at_ms),
{
    if any_revokes(a, &g.revocations) {
        return Standing::Revoked;
    }
    if any_voids(a, &g.watermarks) {
        return Standing::Watermarked;
    }
    if let Some(t) = at_ms {
        let over = match a.valid_until_ms {
            Some(end) => t > end,
            None => false,
        };
        if t < a.valid_from_ms || over {
            return Standing::Untimely;
        }
    }
    Standing::Valid
}

/// Parts the assertions about a subject by what they come to, at a time or
/// overall: taken back, void, not of that time, or valid.
pub fn resolve_subject(g: &Gathered, at_ms: Option<u64>) -> (out: Resolved)
    ensures
        ({
            let v = g.deep_view();
            &&& out.valid.deep_view() == with_standing(v.assertions, v, at_ms, Standing::Valid)
            &&& out.revoked.deep_view() == with_standing(v.assertions, v, at_ms, Standing::Revoked)
            &&& out.watermarked.deep_view() == with_standing(
                v.assertions,
                v,
                at_ms,
                Standing::Watermarked,
            )
            &&& out.untimely.deep_view() == with_standing(
                v.assertions,
                v,
                at_ms,
                Standing::Untimely,
            )
        }),
{
    let ghost v = g.deep_view();
    let ghost all = v.assertions;
    let mut valid: Vec<IdentityAssertion> = Vec::new();
    let mut revoked: Vec<IdentityAssertion> = Vec::new();
    let mut watermarked: Vec<IdentityAssertion> = Vec::new();
    let mut untimely: Vec<IdentityAssertion> = Vec::new();
    let mut i: usize = 0;
    proof {
        assert(all.take(0) =~= Seq::<AssertionView>::empty());
        assert(valid.deep_view() =~= Seq::<AssertionView>::empty());
        assert(revoked.deep_view() =~= Seq::<AssertionView>::empty());
        assert(watermarked.deep_view() =~= Seq::<AssertionView>::empty());
        assert(untimely.deep_view() =~= Seq::<AssertionView>::empty());
    }
    while i < g.assertions.len()
        invariant
            i <= g.assertions@.len(),
            v == g.deep_view(),
            all == g.assertions.deep_view(),
            all.len() == g.assertions@.len(),
            valid.deep_view() == with_standing(all.take(i as int), v, at_ms, Standing::Valid),
            revoked.deep_view() == with_standing(all.take(i as int), v, at_ms, Standing::Revoked),
            watermarked.deep_view() == with_standing(
                all.take(i as int),
                v,
                at_ms,
                Standing::Watermarked,
            ),
            untimely.deep_view() == with_standing(
                all.take(i as int),
                v,
                at_ms,
                Standing::Untimely,
            ),
        decreases g.assertions@.len() - i,
    {
        let a = &g.assertions[i];
        proof {
            assert(all[i as int] == a.deep_view());
            assert(all.take(i + 1).drop_last() =~= all.take(i as int));
            assert(all.take(i + 1).last() == all[i as int]);
        }
        let copy = a.copied();
        match judge(a, g, at_ms) {
            Standing::Valid => {
                let ghost had = valid.deep_view();
                valid.push(copy);
                assert(valid.deep_view() =~= had.push(all[i as int]));
            },
            Standing::Revoked => {
                let ghost had = revoked.deep_view();
                revoked.push(copy);
                assert(revoked.deep_view() =~= had.push(all[i as int]));
            },
            Standing::Watermarked => {
                let ghost had = watermarked.deep_view();
                watermarked.push(copy);
                assert(watermarked.deep_view() =~= had.push(all[i as int]));
            },
            Standing::Untimely => {
                let ghost had = untimely.deep_view();
                untimely.push(copy);
                assert(untimely.deep_view() =~= had.push(all[i as int]));
            },
        }
        i += 1;
    }
    assert(all.take(i as int) =~= all);
    Resolved { valid, revoked, watermarked, untimely }
}

/// The assertions of a list whose asserters are trusted, in their order, given the
/// verdict on each.
pub open spec fn trusted_of(list: Seq<AssertionView>, verdicts: Seq<bool>) -> Seq<AssertionView>
    decreases list.len(),
{
    if list.len() == 0 {
        Seq::empty()
    } else {
        let before = trusted_of(list.drop_last(), verdicts);
        if verdicts[list.len() - 1] {
            before.push(list.last())
        } else {
            before
        }
    }
}

/// Keeps the assertions whose asserters are trusted, given the verdict on each.
pub fn keep_trusted(list: &Vec<IdentityAssertion>, verdicts: &[bool]) -> (out: Vec<
    IdentityAssertion,
>)
    requires
        list@.len() == verdicts@.len(),
    ensures
        out.deep_view() == trusted_of(list.deep_view(), verdicts@),
{
    let ghost all = list.deep_view();
    let mut out: Vec<IdentityAssertion> = Vec::new();
    let mut i: usize = 0;
    proof {
        assert(all.take(0) =~= Seq::<AssertionView>::empty());
        assert(out.deep_view() =~= Seq::<AssertionView>::empty());
    }
    while i < list.len()
        invariant
            i <= list@.len(),
            list@.len() == verdicts@.len(),
            all == list.deep_view(),
            all.len() == list@.len(),
            out.deep_view() == trusted_of(all.take(i as int), verdicts@),
        decreases list@.len() - i,
    {
        let ghost had = out.deep_view();
        proof {
            assert(all.take(i + 1).drop_last() =~= all.take(i as int));
            assert(all.take(i + 1).last() == list@[i as int].deep_view());
        }
        if verdicts[i] {
            out.push(list[i].copied());
            assert(out.deep_view() =~= had.push(all[i as int]));
        }
        i += 1;
    }
    assert(all.take(i as int) =~= all);
    out
}

// -- Laws -----------------------------------------------------------------------------

/// An assertion stands in the list of what it comes to, and in no other.
pub proof fn law_resolved_once(
    list: Seq<AssertionView>,
    g: GatheredView,
    at_ms: Option<u64>,
    s: Standing,
    a: AssertionView,
)
    ensures
        with_standing(list, g, at_ms, s).contains(a) <==> (list.contains(a) && standing(
            a,
            g,
            at_ms,
        ) == s),
        with_standing(list, g, at_ms, Standing::Valid).len() + with_standing(
            list,
            g,
            at_ms,
            Standing::Revoked,
        ).len() + with_standing(list, g, at_ms, Standing::Watermarked).len() + with_standing(
            list,
            g,
            at_ms,
            Standing::Untimely,
        ).len() == list.len(),
    decreases list.len(),
{
    if list.len() > 0 {
        let front = list.drop_last();
        let last = list.last();
        law_resolved_once(front, g, at_ms, s, a);
        let before = with_standing(front, g, at_ms, s);
        lemma_push_contains(before, last, a);
        lemma_push_contains(front, last, a);
        assert(front.push(last) =~= list);
    }
}

proof fn lemma_push_contains<T>(list: Seq<T>, x: T, y: T)
    ensures
        list.push(x).contains(y) <==> (list.contains(y) || x == y),
{
    let more = list.push(x);
    if list.contains(y) {
        let i = choose|i: int| 0 <= i < list.len() && list[i] == y;
        assert(more[i] == y);
    }
    if x == y {
        assert(more[list.len() as int] == y);
    }
    if more.contains(y) && x != y {
        let i = choose|i: int| 0 <= i < more.len() && more[i] == y;
        assert(list[i] == y);
    }
}

/// What a revocation that was gathered takes back is not valid, and neither is
/// what a watermark that was gathered voids.
pub proof fn law_not_valid(
    g: GatheredView,
    at_ms: Option<u64>,
    a: AssertionView,
    r: RevocationView,
    w: WatermarkView,
)
    requires
        (g.revocations.contains(r) && revokes(r, a)) || (g.watermarks.contains(w) && voids(w, a)),
    ensures
        !with_standing(g.assertions, g, at_ms, Standing::Valid).contains(a),
{
    if g.revocations.contains(r) && revokes(r, a) {
        let i = choose|i: int| 0 <= i < g.revocations.len() && g.revocations[i] == r;
        assert(revokes(g.revocations[i], a));
    } else {
        let i = choose|i: int| 0 <= i < g.watermarks.len() && g.watermarks[i] == w;
        assert(voids(g.watermarks[i], a));
    }
    law_resolved_once(g.assertions, g, at_ms, Standing::Valid, a);
}

proof fn lemma_stored_contains(st: StoreState, kappas: Seq<Seq<char>>, kappa: Seq<char>)
    requires
        kappas.contains(kappa),
        st.blobs.dom().contains(kappa),
    ensures
        stored_blobs(st, kappas).contains(st.blobs[kappa]),
    decreases kappas.len(),
{
    let front = kappas.drop_last();
    let before = stored_blobs(st, front);
    assert(front.push(kappas.last()) =~= kappas);
    lemma_push_contains(front, kappas.last(), kappa);
    if kappas.last() != kappa {
        lemma_stored_contains(st, front, kappa);
    }
    if st.blobs.dom().contains(kappas.last()) {
        lemma_push_contains(before, st.blobs[kappas.last()], st.blobs[kappa]);
    }
}

proof fn lemma_tagged_contains(st: StoreState, lists: Seq<Seq<TagView>>, i: int, kappa: Seq<char>)
    requires
        0 <= i < lists.len(),
        tag_targets(lists[i]).contains(kappa),
        st.blobs.dom().contains(kappa),
    ensures
        tagged_blobs(st, lists).contains(st.blobs[kappa]),
    decreases lists.len(),
{
    let front = tagged_blobs(st, lists.drop_last());
    let back = stored_blobs(st, tag_targets(lists.last()));
    let all = tagged_blobs(st, lists);
    if i < lists.len() - 1 {
        assert(lists.drop_last()[i] == lists[i]);
        lemma_tagged_contains(st, lists.drop_last(), i, kappa);
        let k = choose|k: int| 0 <= k < front.len() && front[k] == st.blobs[kappa];
        assert(all[k] == st.blobs[kappa]);
    } else {
        lemma_stored_contains(st, tag_targets(lists.last()), kappa);
        let k = choose|k: int| 0 <= k < back.len() && back[k] == st.blobs[kappa];
        assert(all[front.len() + k] == st.blobs[kappa]);
    }
}

/// What a name of a namespace on record is bound to is among the blobs of its
/// prefix.
proof fn lemma_tag_gathered(
    st: StoreState,
    ns: NamespaceRef,
    prefix: Seq<char>,
    name: Seq<char>,
    blobs: Seq<Seq<u8>>,
)
    requires
        st.wf(),
        st.records.dom().contains(ns.id()),
        st.tags.dom().contains(StoreState::filed(ns, name)),
        prefix.is_prefix_of(st.tags[StoreState::filed(ns, name)].name),
        st.blobs.dom().contains(st.tags[StoreState::filed(ns, name)].kappa),
        is_tagged(st, prefix, blobs),
    ensures
        blobs.contains(st.blobs[st.tags[StoreState::filed(ns, name)].kappa]),
{
    let tag = st.tags[StoreState::filed(ns, name)];
    let (records, lists) = choose|records: Seq<RecordView>, lists: Seq<Seq<TagView>>|
        #![trigger tags_listed(st, records, prefix, lists)]
        namespace_listed(st, None, records) && tags_listed(st, records, prefix, lists) && blobs
            == tagged_blobs(st, lists);
    let ids = choose|ids: Seq<Seq<u8>>| is_namespace_list(st, None, ids, records);
    assert(ids.contains(ns.id()));
    let i = choose|i: int| 0 <= i < ids.len() && ids[i] == ns.id();
    assert(records[i] == st.records[ids[i]]);
    assert(is_tags_of(st, records[i], prefix, lists[i]));
    let other = choose|other: NamespaceRef| #[trigger]
        st.is_listing(other, prefix, lists[i]) && hex_of(other.id()) == records[i].uuid_hex;
    law_hex_roundtrip(other.id());
    law_hex_roundtrip(ns.id());
    assert(other.id() == ns.id());
    let h = StoreState::filed(ns, name).1;
    assert(st.tags.dom().contains((other.id(), h)));
    assert(lists[i].contains(st.tags[(other.id(), h)]));
    let k = choose|k: int| 0 <= k < lists[i].len() && lists[i][k] == tag;
    assert(tag_targets(lists[i])[k] == tag.kappa);
    lemma_tagged_contains(st, lists, i, tag.kappa);
}

proof fn lemma_revocation_read(blobs: Seq<Seq<u8>>, blob: Seq<u8>, r: RevocationView)
    requires
        blobs.contains(blob),
        revocation_in(blob) == Some(r),
    ensures
        revocations_read(blobs).contains(r),
    decreases blobs.len(),
{
    let front = blobs.drop_last();
    let before = revocations_read(front);
    assert(front.push(blobs.last()) =~= blobs);
    lemma_push_contains(front, blobs.last(), blob);
    if blobs.last() != blob {
        lemma_revocation_read(front, blob, r);
    }
    if let Some(x) = revocation_in(blobs.last()) {
        lemma_push_contains(before, x, r);
    }
}

proof fn lemma_watermark_read(blobs: Seq<Seq<u8>>, blob: Seq<u8>, w: WatermarkView)
    requires
        blobs.contains(blob),
        watermark_in(blob) == Some(w),
    ensures
        watermarks_read(blobs).contains(w),
    decreases blobs.len(),
{
    let front = blobs.drop_last();
    let before = watermarks_read(front);
    assert(front.push(blobs.last()) =~= blobs);
    lemma_push_contains(front, blobs.last(), blob);
    if blobs.last() != blob {
        lemma_watermark_read(front, blob, w);
    }
    if let Some(x) = watermark_in(blobs.last()) {
        lemma_push_contains(before, x, w);
    }
}

/// A revocation that is tagged in a namespace on record is gathered, and what it
/// takes back stands as revoked.
pub proof fn law_revocation_counts(
    st: StoreState,
    ns: NamespaceRef,
    name: Seq<char>,
    r: RevocationView,
    subject: Seq<char>,
    g: GatheredView,
    a: AssertionView,
    at_ms: Option<u64>,
)
    requires
        st.wf(),
        st.records.dom().contains(ns.id()),
        st.tags.dom().contains(StoreState::filed(ns, name)),
        "revocation/"@.is_prefix_of(st.tags[StoreState::filed(ns, name)].name),
        st.blobs.dom().contains(st.tags[StoreState::filed(ns, name)].kappa),
        revocation_in(st.blobs[st.tags[StoreState::filed(ns, name)].kappa]) == Some(r),
        is_gathered(st, subject, g),
        revokes(r, a),
    ensures
        g.revocations.contains(r),
        standing(a, g, at_ms) == Standing::Revoked,
{
    let blobs = choose|blobs: Seq<Seq<u8>>| #[trigger]
        is_tagged(st, "revocation/"@, blobs) && g.revocations == revocations_read(blobs);
    lemma_tag_gathered(st, ns, "revocation/"@, name, blobs);
    lemma_revocation_read(blobs, st.blobs[st.tags[StoreState::filed(ns, name)].kappa], r);
    let i = choose|i: int| 0 <= i < g.revocations.len() && g.revocations[i] == r;
    assert(revokes(g.revocations[i], a));
}

/// A watermark that is tagged in a namespace on record is gathered, and what it
/// voids is not valid.
pub proof fn law_watermark_counts(
    st: StoreState,
    ns: NamespaceRef,
    name: Seq<char>,
    w: WatermarkView,
    subject: Seq<char>,
    g: GatheredView,
    a: AssertionView,
    at_ms: Option<u64>,
)
    requires
        st.wf(),
        st.records.dom().contains(ns.id()),
        st.tags.dom().contains(StoreState::filed(ns, name)),
        "watermark/"@.is_prefix_of(st.tags[StoreState::filed(ns, name)].name),
        st.blobs.dom().contains(st.tags[StoreState::filed(ns, name)].kappa),
        watermark_in(st.blobs[st.tags[StoreState::filed(ns, name)].kappa]) == Some(w),
        is_gathered(st, subject, g),
        voids(w, a),
    ensures
        g.watermarks.contains(w),
        standing(a, g, at_ms) == Standing::Watermarked || standing(a, g, at_ms)
            == Standing::Revoked,
{
    let blobs = choose|blobs: Seq<Seq<u8>>| #[trigger]
        is_tagged(st, "watermark/"@, blobs) && g.watermarks == watermarks_read(blobs);
    lemma_tag_gathered(st, ns, "watermark/"@, name, blobs);
    lemma_watermark_read(blobs, st.blobs[st.tags[StoreState::filed(ns, name)].kappa], w);
    let i = choose|i: int| 0 <= i < g.watermarks.len() && g.watermarks[i] == w;
    assert(voids(g.watermarks[i], a));
}

/// After a succession nothing is valid that the old anchor asserted: nothing at
/// all where its key was compromised, and otherwise nothing that holds from before
/// the succession. The watermark must be one that is read back, its address must
/// not hold something else, and its name must not be used up.
pub proof fn law_succession_voids(
    st: StoreState,
    s: IdentitySuccession,
    ns: NamespaceRef,
    now_ms: u64,
    subject: Seq<char>,
    g: GatheredView,
    a: AssertionView,
    at_ms: Option<u64>,
)
    requires
        is_anchor_ns(ns, s.old_anchor@),
        succeeded(st, s, ns, now_ms).wf(),
        watermark_readable(succession_watermark(s, now_ms)),
        ({
            let w = succession_watermark(s, now_ms);
            let kappa = watermark_kappa(w);
            &&& st.blobs.dom().contains(kappa) ==> st.blobs[kappa]
                == crate::store::identity::watermark_blob(w)
            &&& st.tag_version(ns, "watermark/"@ + kappa) < u64::MAX
        }),
        is_gathered(succeeded(st, s, ns, now_ms), subject, g),
        a.asserter == s.old_anchor@,
        s.reason@ == "key-compromise"@ || a.valid_from_ms < s.effective_at_ms,
    ensures
        standing(a, g, at_ms) != Standing::Valid,
{
    let w = succession_watermark(s, now_ms);
    let kappa = watermark_kappa(w);
    let name = "watermark/"@ + kappa;
    let after = succeeded(st, s, ns, now_ms);
    let k = StoreState::filed(ns, name);
    assert(after.records.dom().contains(ns.id()));
    assert(after.tags.dom().contains(k) && after.tags[k].kappa == kappa && after.tags[k].name
        == name);
    assert(name.subrange(0, "watermark/"@.len() as int) =~= "watermark/"@);
    assert(after.blobs[kappa] == crate::store::identity::watermark_blob(w));
    crate::identity::law_watermark_fields(w);
    law_watermark_counts(after, ns, name, w, subject, g, a, at_ms);
}

/// An assertion about a subject is valid where it was gathered, no revocation by
/// its own asserter names its address, no watermark of its asserter voids
/// everything or lies after its beginning, and the time asked about, if any, is
/// not before its beginning or after its end.
pub proof fn law_valid(g: GatheredView, at_ms: Option<u64>, a: AssertionView)
    ensures
        with_standing(g.assertions, g, at_ms, Standing::Valid).contains(a) <==> {
            &&& g.assertions.contains(a)
            &&& forall|r: RevocationView| #[trigger]
                g.revocations.contains(r) ==> r.asserter != a.asserter || r.assertion_kappa
                    != kappa_of(assertion_blob(a))
            &&& forall|w: WatermarkView| #[trigger]
                g.watermarks.contains(w) ==> w.asserter != a.asserter || (w.invalidate_before_ms > 0
                    && w.invalidate_before_ms <= a.valid_from_ms)
            &&& at_ms matches Some(t) ==> a.valid_from_ms <= t && (a.valid_until_ms matches Some(end)
                ==> t <= end)
        },
{
    law_resolved_once(g.assertions, g, at_ms, Standing::Valid, a);
    if is_revoked(a, g.revocations) {
        let i = choose|i: int| 0 <= i < g.revocations.len() && revokes(#[trigger] g.revocations[i], a);
        assert(g.revocations.contains(g.revocations[i]));
    }
    if is_void(a, g.watermarks) {
        let i = choose|i: int| 0 <= i < g.watermarks.len() && voids(#[trigger] g.watermarks[i], a);
        assert(g.watermarks.contains(g.watermarks[i]));
    }
    assert forall|r: RevocationView| #[trigger]
        g.revocations.contains(r) && !is_revoked(a, g.revocations) implies r.asserter != a.asserter
        || r.assertion_kappa != kappa_of(assertion_blob(a)) by {
        let i = choose|i: int| 0 <= i < g.revocations.len() && g.revocations[i] == r;
        assert(!revokes(g.revocations[i], a));
    }
    assert forall|w: WatermarkView| #[trigger]
        g.watermarks.contains(w) && !is_void(a, g.watermarks) implies w.asserter != a.asserter || (
    w.invalidate_before_ms > 0 && w.invalidate_before_ms <= a.valid_from_ms) by {
        let i = choose|i: int| 0 <= i < g.watermarks.len() && g.watermarks[i] == w;
        assert(!voids(g.watermarks[i], a));
    }
}

/// An assertion that its asserter took back stands as revoked, at any time and
/// whatever else voids it.
pub proof fn law_revoked(g: GatheredView, at_ms: Option<u64>, a: AssertionView, r: RevocationView)
    requires
        g.assertions.contains(a),
        g.revocations.contains(r),
        r.asserter == a.asserter,
        r.assertion_kappa == kappa_of(assertion_blob(a)),
    ensures
        with_standing(g.assertions, g, at_ms, Standing::Revoked).contains(a),
{
    law_resolved_once(g.assertions, g, at_ms, Standing::Revoked, a);
    let i = choose|i: int| 0 <= i < g.revocations.len() && g.revocations[i] == r;
    assert(revokes(g.revocations[i], a));
}

/// A stored assertion that the index has of a subject is gathered.
pub proof fn law_assertion_gathered(
    st: StoreState,
    subject: Seq<char>,
    g: GatheredView,
    kappa: Seq<char>,
    a: AssertionView,
)
    requires
        is_gathered(st, subject, g),
        asserted_of(st, subject, kappa),
        st.blobs.dom().contains(kappa),
        assertion_in(st.blobs[kappa]) == Some(a),
    ensures
        g.assertions.contains(a),
{
    let blobs = choose|blobs: Seq<Seq<u8>>| #[trigger]
        is_indexed(st, subject, blobs) && g.assertions == assertions_read(blobs);
    let kappas = choose|kappas: Seq<Seq<char>>|
        #![trigger ascending(kappas)]
        ascending(kappas) && (forall|k: Seq<char>| #[trigger]
            kappas.contains(k) <==> asserted_of(st, subject, k)) && blobs == stored_blobs(
            st,
            kappas,
        );
    assert(kappas.contains(kappa));
    lemma_stored_contains(st, kappas, kappa);
    lemma_assertion_read(blobs, st.blobs[kappa], a);
}

proof fn lemma_assertion_read(blobs: Seq<Seq<u8>>, blob: Seq<u8>, a: AssertionView)
    requires
        blobs.contains(blob),
        assertion_in(blob) == Some(a),
    ensures
        assertions_read(blobs).contains(a),
    decreases blobs.len(),
{
    let front = blobs.drop_last();
    let before = assertions_read(front);
    let all = assertions_read(blobs);
    let i = choose|i: int| 0 <= i < blobs.len() && blobs[i] == blob;
    if i < front.len() {
        assert(front[i] == blob);
        lemma_assertion_read(front, blob, a);
        let j = choose|j: int| 0 <= j < before.len() && before[j] == a;
        assert(all[j] == a);
    } else {
        assert(all[all.len() - 1] == a);
    }
}

/// Just the assertions whose asserters are trusted are kept.
pub proof fn law_trusted(list: Seq<AssertionView>, verdicts: Seq<bool>, a: AssertionView)
    requires
        list.len() == verdicts.len(),
    ensures
        trusted_of(list, verdicts).contains(a) <==> exists|i: int|
            0 <= i < list.len() && #[trigger] list[i] == a && verdicts[i],
    decreases list.len(),
{
    if list.len() > 0 {
        let front = list.drop_last();
        let fewer = verdicts.drop_last();
        let before = trusted_of(front, fewer);
        lemma_trusted_front(front, verdicts, fewer);
        law_trusted(front, fewer, a);
        lemma_push_contains(before, list.last(), a);
        if exists|i: int| 0 <= i < list.len() && #[trigger] list[i] == a && verdicts[i] {
            let i = choose|i: int| 0 <= i < list.len() && #[trigger] list[i] == a && verdicts[i];
            if i < front.len() {
                assert(front[i] == a && fewer[i]);
            }
        }
        if before.contains(a) {
            let i = choose|i: int| 0 <= i < front.len() && #[trigger] front[i] == a && fewer[i];
            assert(list[i] == a && verdicts[i]);
        }
        if list.last() == a && verdicts[list.len() - 1] {
            assert(list[list.len() - 1] == a);
        }
    }
}

proof fn lemma_trusted_front(list: Seq<AssertionView>, a: Seq<bool>, b: Seq<bool>)
    requires
        list.len() <= b.len() <= a.len(),
        forall|i: int| 0 <= i < list.len() ==> #[trigger] a[i] == b[i],
    ensures
        trusted_of(list, a) == trusted_of(list, b),
    decreases list.len(),
{
    if list.len() > 0 {
        lemma_trusted_front(list.drop_last(), a, b);
        assert(a[list.len() - 1] == b[list.len() - 1]);
    }
}

} // verus!
