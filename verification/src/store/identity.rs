//! Identity bindings, successions and the index of assertions.

use vstd::prelude::*;

use crate::canonical::{
    encode_record, fields_view, plain_record, record_of, record_read_of, CborItem, CborView,
};
use crate::kappa::{kappa_from_bytes, kappa_of};
use crate::sorted::{ascending, insert_text};
use crate::store::memory::InMemoryStore;
use crate::store::state::{BindingView, StoreState};
use crate::table::{lemma_deep_bytes, lemma_deep_sixteen, TableKey};
use crate::text::{holds_text, joined, joined3, same_text, text_begins_with};
use crate::types::{deterministic_uuid, NamespaceRef, StoreError};

verus! {

broadcast use {lemma_deep_bytes, lemma_deep_sixteen};

/// An external identifier bound to an anchor.
#[derive(Debug)]
pub struct IdentityBinding {
    pub source: String,
    pub target: String,
    pub method: String,
    pub trust_level: String,
    pub verified_at_ms: u64,
}

impl DeepView for IdentityBinding {
    type V = BindingView;

    open spec fn deep_view(&self) -> BindingView {
        BindingView {
            source: self.source@,
            target: self.target@,
            method: self.method@,
            trust_level: self.trust_level@,
            verified_at_ms: self.verified_at_ms,
        }
    }
}

impl IdentityBinding {
    /// A copy.
    pub fn copied(&self) -> (out: Self)
        ensures
            out.deep_view() == self.deep_view(),
    {
        IdentityBinding {
            source: self.source.clone(),
            target: self.target.clone(),
            method: self.method.clone(),
            trust_level: self.trust_level.clone(),
            verified_at_ms: self.verified_at_ms,
        }
    }
}

// -- Successions --------------------------------------------------------------------------

/// Most anchors in a chain of successions.
pub const MAX_CHAIN: usize = 10;

/// Why a chain of successions has no end.
pub enum SuccessionFault {
    /// It comes back to an anchor.
    Cycle(Seq<char>),
    /// It is too long.
    TooLong,
}

/// What a fault is reported as.
pub open spec fn succession_fault_text(f: SuccessionFault) -> Seq<char> {
    match f {
        SuccessionFault::Cycle(anchor) => "succession cycle detected at "@ + anchor,
        SuccessionFault::TooLong => "succession chain exceeds 10 hops"@,
    }
}

/// The chain of successions that continues some anchors, the last one first to
/// be succeeded.
pub open spec fn chain_from(successions: Map<Seq<char>, Seq<char>>, chain: Seq<Seq<char>>) -> Result<
    Seq<Seq<char>>,
    SuccessionFault,
>
    decreases MAX_CHAIN - chain.len(),
{
    let current = chain.last();
    if !successions.dom().contains(current) {
        Ok(chain)
    } else {
        let next = successions[current];
        if chain.contains(next) {
            Err(SuccessionFault::Cycle(next))
        } else if chain.len() >= MAX_CHAIN {
            Err(SuccessionFault::TooLong)
        } else {
            chain_from(successions, chain.push(next))
        }
    }
}

/// The chain of successions from an anchor to the one in force.
pub open spec fn chain_of(successions: Map<Seq<char>, Seq<char>>, anchor: Seq<char>) -> Result<
    Seq<Seq<char>>,
    SuccessionFault,
> {
    chain_from(successions, seq![anchor])
}

/// The anchor in force for an anchor.
pub open spec fn succession_of(successions: Map<Seq<char>, Seq<char>>, anchor: Seq<char>) -> Result<
    Seq<char>,
    SuccessionFault,
> {
    match chain_of(successions, anchor) {
        Ok(chain) => Ok(chain.last()),
        Err(f) => Err(f),
    }
}

/// The end of one anchor and the beginning of another.
#[derive(Debug)]
pub struct IdentitySuccession {
    pub old_anchor: String,
    pub new_anchor: String,
    pub reason: String,
    pub effective_at_ms: u64,
}

/// The fields of a succession.
pub open spec fn succession_fields(s: IdentitySuccession) -> Seq<(u64, CborView)> {
    seq![
        (0u64, CborView::Text(s.old_anchor@)),
        (1u64, CborView::Text(s.new_anchor@)),
        (2u64, CborView::Text(s.reason@)),
        (3u64, CborView::Unsigned(s.effective_at_ms)),
    ]
}

/// A point in time before which an asserter's assertions no longer count.
#[derive(Debug)]
pub struct Watermark {
    pub asserter: String,
    pub invalidate_before_ms: u64,
    pub reason: String,
    pub set_at_ms: u64,
}

/// What a watermark holds.
pub struct WatermarkView {
    pub asserter: Seq<char>,
    pub invalidate_before_ms: u64,
    pub reason: Seq<char>,
    pub set_at_ms: u64,
}

impl DeepView for Watermark {
    type V = WatermarkView;

    open spec fn deep_view(&self) -> WatermarkView {
        WatermarkView {
            asserter: self.asserter@,
            invalidate_before_ms: self.invalidate_before_ms,
            reason: self.reason@,
            set_at_ms: self.set_at_ms,
        }
    }
}

/// The watermark that a succession sets for the old anchor: at the beginning of
/// time where its key was compromised, at the succession otherwise.
pub open spec fn succession_watermark(s: IdentitySuccession, now_ms: u64) -> WatermarkView {
    WatermarkView {
        asserter: s.old_anchor@,
        invalidate_before_ms: if s.reason@ == "key-compromise"@ {
            0
        } else {
            s.effective_at_ms
        },
        reason: s.reason@ + " succession"@,
        set_at_ms: now_ms,
    }
}

/// The fields of a watermark.
pub open spec fn watermark_fields(w: WatermarkView) -> Seq<(u64, CborView)> {
    seq![
        (0u64, CborView::Text(w.asserter)),
        (1u64, CborView::Unsigned(w.invalidate_before_ms)),
        (2u64, CborView::Text(w.reason)),
        (3u64, CborView::Unsigned(w.set_at_ms)),
    ]
}

/// The blob that a watermark is stored as.
pub open spec fn watermark_blob(w: WatermarkView) -> Seq<u8> {
    record_of(watermark_fields(w))
}

/// Whether a watermark is read back from its blob.
pub open spec fn watermark_readable(w: WatermarkView) -> bool {
    record_read_of(watermark_blob(w)) == Some(watermark_fields(w))
}

/// The address of a watermark.
pub open spec fn watermark_kappa(w: WatermarkView) -> Seq<char> {
    kappa_of(watermark_blob(w))
}

/// Whether a reference is to the namespace of an anchor.
pub open spec fn is_anchor_ns(ns: NamespaceRef, anchor: Seq<char>) -> bool {
    ns.id() == deterministic_uuid(anchor) && ns.spec_name() == Some(anchor)
}

/// The state after a succession: the new anchor in place of the old one, and a
/// watermark stored and tagged in the old anchor's namespace, unless the tag has
/// run out of versions.
pub open spec fn succeeded(st: StoreState, s: IdentitySuccession, ns: NamespaceRef, now_ms: u64) -> StoreState {
    let w = succession_watermark(s, now_ms);
    let kappa = watermark_kappa(w);
    let name = "watermark/"@ + kappa;
    let stored = (StoreState {
        successions: st.successions.insert(s.old_anchor@, s.new_anchor@),
        ..st
    }).put_blob(kappa, watermark_blob(w)).ensured(ns);
    if stored.tag_version(ns, name) < u64::MAX {
        stored.bound(ns, name, kappa)
    } else {
        stored
    }
}

/// The canonical bytes of a watermark, from which it is read back where its texts
/// are ASCII.
pub fn canonical_watermark(w: &Watermark) -> (out: Vec<u8>)
    ensures
        out@ == watermark_blob(w.deep_view()),
        plain_record(watermark_fields(w.deep_view())) ==> watermark_readable(w.deep_view()),
{
    let mut fields: Vec<(u64, CborItem)> = Vec::new();
    fields.push((0, CborItem::Text(w.asserter.clone())));
    fields.push((1, CborItem::Unsigned(w.invalidate_before_ms)));
    fields.push((2, CborItem::Text(w.reason.clone())));
    fields.push((3, CborItem::Unsigned(w.set_at_ms)));
    assert(fields_view(fields@) =~= seq![
        (0u64, CborView::Text(w.asserter@)),
        (1u64, CborView::Unsigned(w.invalidate_before_ms)),
        (2u64, CborView::Text(w.reason@)),
        (3u64, CborView::Unsigned(w.set_at_ms)),
    ]);
    encode_record(fields.as_slice())
}

fn canonical_succession(s: &IdentitySuccession) -> (out: Vec<u8>)
    ensures
        out@ == record_of(succession_fields(*s)),
{
    let mut fields: Vec<(u64, CborItem)> = Vec::new();
    fields.push((0, CborItem::Text(s.old_anchor.clone())));
    fields.push((1, CborItem::Text(s.new_anchor.clone())));
    fields.push((2, CborItem::Text(s.reason.clone())));
    fields.push((3, CborItem::Unsigned(s.effective_at_ms)));
    assert(fields_view(fields@) =~= succession_fields(*s));
    encode_record(fields.as_slice())
}

impl InMemoryStore {
    /// Puts a new anchor in place of an old one, and voids what the old one
    /// asserted. Gives the address of the succession.
    pub fn identity_succession_put(&mut self, succession: &IdentitySuccession, now_ms: u64) -> (out: Result<
        String,
        StoreError,
    >)
        requires
            old(self).wf(),
        ensures
            final(self).wf(),
            match out {
                Ok(kappa) => {
                    &&& succession.old_anchor@ != succession.new_anchor@
                    &&& kappa@ == kappa_of(record_of(succession_fields(*succession)))
                    &&& plain_record(watermark_fields(succession_watermark(*succession, now_ms)))
                        ==> watermark_readable(succession_watermark(*succession, now_ms))
                    &&& exists|ns: NamespaceRef|
                        is_anchor_ns(ns, succession.old_anchor@) && final(self).state()
                            == #[trigger] succeeded(old(self).state(), *succession, ns, now_ms)
                },
                Err(StoreError::Rejected(m)) => succession.old_anchor@ == succession.new_anchor@
                    && m@ == "cannot succeed to self"@ && final(self).state() == old(self).state(),
                Err(_) => false,
            },
    {
        if same_text(succession.old_anchor.as_str(), succession.new_anchor.as_str()) {
            return Err(StoreError::Rejected("cannot succeed to self".to_owned()));
        }
        let ghost before = self.state();
        let kappa = kappa_from_bytes(canonical_succession(succession).as_slice());
        self.successions.insert(succession.old_anchor.clone(), succession.new_anchor.clone());
        let ghost first = StoreState {
            successions: before.successions.insert(
                succession.old_anchor@,
                succession.new_anchor@,
            ),
            ..before
        };
        assert(self.state() =~= first);
        assert(first.wf());
        let invalidate_before_ms: u64 = if same_text(
            succession.reason.as_str(),
            "key-compromise",
        ) {
            0
        } else {
            succession.effective_at_ms
        };
        let watermark = Watermark {
            asserter: succession.old_anchor.clone(),
            invalidate_before_ms,
            reason: joined(succession.reason.as_str(), " succession"),
            set_at_ms: now_ms,
        };
        assert(watermark.deep_view() == succession_watermark(*succession, now_ms));
        let bytes = canonical_watermark(&watermark);
        let wm_kappa = kappa_from_bytes(bytes.as_slice());
        let _ = self.blob_put(wm_kappa.as_str(), bytes.as_slice());
        let anchor_ns = NamespaceRef::deterministic(succession.old_anchor.as_str());
        let tag = joined("watermark/", wm_kappa.as_str());
        let _ = self.tag_set(&anchor_ns, tag.as_str(), wm_kappa.as_str());
        assert(self.state() == succeeded(before, *succession, anchor_ns, now_ms));
        Ok(kappa)
    }

    /// The chain of successions from an anchor to the one in force.
    pub fn identity_succession_chain(&self, anchor: &str) -> (out: Result<Vec<String>, StoreError>)
        requires
            self.wf(),
        ensures
            match (out, chain_of(self.state().successions, anchor@)) {
                (Ok(list), Ok(chain)) => list.deep_view() == chain && chain.len() > 0,
                (Err(StoreError::Rejected(m)), Err(f)) => m@ == succession_fault_text(f),
                _ => false,
            },
    {
        let ghost successions = self.state().successions;
        let mut chain: Vec<String> = Vec::new();
        chain.push(anchor.to_owned());
        assert(chain.deep_view() =~= seq![anchor@]);
        loop
            invariant
                self.wf(),
                successions == self.state().successions,
                0 < chain@.len() <= MAX_CHAIN,
                chain_of(successions, anchor@) == chain_from(successions, chain.deep_view()),
            decreases MAX_CHAIN - chain@.len(),
        {
            let ghost had = chain.deep_view();
            let last = &chain[chain.len() - 1];
            assert(had.last() == last@);
            let next = match self.successions.get(last) {
                Some(next) => next.clone(),
                None => return Ok(chain),
            };
            if holds_text(&chain, next.as_str()) {
                return Err(
                    StoreError::Rejected(joined("succession cycle detected at ", next.as_str())),
                );
            }
            if chain.len() >= MAX_CHAIN {
                return Err(StoreError::Rejected("succession chain exceeds 10 hops".to_owned()));
            }
            let ghost shown = next@;
            chain.push(next);
            assert(chain.deep_view() =~= had.push(shown));
        }
    }

    /// The anchor in force for an anchor.
    pub fn identity_succession_resolve(&self, anchor: &str) -> (out: Result<String, StoreError>)
        requires
            self.wf(),
        ensures
            match (out, succession_of(self.state().successions, anchor@)) {
                (Ok(a), Ok(b)) => a@ == b,
                (Err(StoreError::Rejected(m)), Err(f)) => m@ == succession_fault_text(f),
                _ => false,
            },
    {
        match self.identity_succession_chain(anchor) {
            Ok(chain) => {
                let last = chain[chain.len() - 1].clone();
                assert(chain.deep_view().last() == last@);
                Ok(last)
            },
            Err(e) => Err(e),
        }
    }
}

/// After a succession the anchor in force for the old anchor is the new one,
/// where that has not been succeeded itself.
pub proof fn law_succession_leads_on(
    successions: Map<Seq<char>, Seq<char>>,
    old_anchor: Seq<char>,
    new_anchor: Seq<char>,
)
    requires
        !successions.dom().contains(new_anchor),
        old_anchor != new_anchor,
    ensures
        succession_of(successions.insert(old_anchor, new_anchor), old_anchor) == Ok::<
            Seq<char>,
            SuccessionFault,
        >(new_anchor),
{
    let after = successions.insert(old_anchor, new_anchor);
    let one = seq![old_anchor];
    assert(one.last() == old_anchor);
    assert(!one.contains(new_anchor)) by {
        if one.contains(new_anchor) {
            let i = choose|i: int| 0 <= i < one.len() && one[i] == new_anchor;
            assert(one[i] == old_anchor);
        }
    }
    assert(one.push(new_anchor).last() == new_anchor);
    reveal_with_fuel(chain_from, 3);
}

// -- Bindings -------------------------------------------------------------------------------

/// The fields of a binding.
pub open spec fn binding_fields(b: BindingView) -> Seq<(u64, CborView)> {
    seq![
        (0u64, CborView::Text(b.source)),
        (1u64, CborView::Text(b.target)),
        (2u64, CborView::Text(b.method)),
        (3u64, CborView::Text(b.trust_level)),
        (4u64, CborView::Unsigned(b.verified_at_ms)),
    ]
}

/// The position of the first binding to a target, or the length.
pub open spec fn target_at(list: Seq<BindingView>, target: Seq<char>) -> int
    decreases list.len(),
{
    if list.len() == 0 || list[0].target == target {
        0
    } else {
        1 + target_at(list.drop_first(), target)
    }
}

/// A list with a binding in place of the one to the same target, or at its end.
pub open spec fn rebound(list: Seq<BindingView>, b: BindingView) -> Seq<BindingView> {
    let i = target_at(list, b.target);
    if 0 <= i < list.len() {
        list.update(i, b)
    } else {
        list.push(b)
    }
}

/// A list with a binding put in behind all that were verified no earlier.
pub open spec fn binding_inserted(list: Seq<BindingView>, b: BindingView) -> Seq<BindingView>
    decreases list.len(),
{
    if list.len() > 0 && list.last().verified_at_ms < b.verified_at_ms {
        binding_inserted(list.drop_last(), b).push(list.last())
    } else {
        list.push(b)
    }
}

/// A list in the order in which its bindings were verified, the latest first;
/// those verified at the same time stay in place.
pub open spec fn latest_first(list: Seq<BindingView>) -> Seq<BindingView>
    decreases list.len(),
{
    if list.len() == 0 {
        list
    } else {
        binding_inserted(latest_first(list.drop_last()), list.last())
    }
}

/// The bindings of a source.
pub open spec fn bindings_at(m: Map<Seq<char>, Seq<BindingView>>, source: Seq<char>) -> Seq<BindingView> {
    if m.dom().contains(source) {
        m[source]
    } else {
        Seq::empty()
    }
}

/// The bindings of a list to other targets than one.
pub open spec fn other_targets(list: Seq<BindingView>, target: Seq<char>) -> Seq<BindingView>
    decreases list.len(),
{
    if list.len() == 0 {
        list
    } else {
        let rest = other_targets(list.drop_last(), target);
        if list.last().target == target {
            rest
        } else {
            rest.push(list.last())
        }
    }
}

/// The bindings of a list to one target.
pub open spec fn same_target(list: Seq<BindingView>, target: Seq<char>) -> Seq<BindingView>
    decreases list.len(),
{
    if list.len() == 0 {
        list
    } else {
        let rest = same_target(list.drop_last(), target);
        if list.last().target == target {
            rest.push(list.last())
        } else {
            rest
        }
    }
}

impl StoreState {
    /// A binding stored, in place of the one of the same source and target.
    pub open spec fn binding_put(self, b: BindingView) -> StoreState {
        let list = latest_first(rebound(bindings_at(self.bindings, b.source), b));
        StoreState { bindings: self.bindings.insert(b.source, list), ..self }
    }

    /// The bindings of a source to a target taken away.
    pub open spec fn binding_deleted(self, source: Seq<char>, target: Seq<char>) -> StoreState {
        if !self.bindings.dom().contains(source) {
            self
        } else {
            let list = other_targets(self.bindings[source], target);
            StoreState {
                bindings: if list.len() == 0 {
                    self.bindings.remove(source)
                } else {
                    self.bindings.insert(source, list)
                },
                ..self
            }
        }
    }

    /// The bindings to a target, source by source.
    pub open spec fn bindings_to(self, sources: Seq<Seq<char>>, target: Seq<char>) -> Seq<BindingView>
        decreases sources.len(),
    {
        if sources.len() == 0 {
            Seq::empty()
        } else {
            self.bindings_to(sources.drop_last(), target) + same_target(
                self.bindings[sources.last()],
                target,
            )
        }
    }
}

fn canonical_binding(b: &IdentityBinding) -> (out: Vec<u8>)
    ensures
        out@ == record_of(binding_fields(b.deep_view())),
{
    let mut fields: Vec<(u64, CborItem)> = Vec::new();
    fields.push((0, CborItem::Text(b.source.clone())));
    fields.push((1, CborItem::Text(b.target.clone())));
    fields.push((2, CborItem::Text(b.method.clone())));
    fields.push((3, CborItem::Text(b.trust_level.clone())));
    fields.push((4, CborItem::Unsigned(b.verified_at_ms)));
    assert(fields_view(fields@) =~= binding_fields(b.deep_view()));
    encode_record(fields.as_slice())
}

fn find_target(list: &Vec<IdentityBinding>, target: &str) -> (at: usize)
    ensures
        at <= list@.len(),
        at == target_at(list.deep_view(), target@),
{
    let ghost all = list.deep_view();
    let mut i: usize = 0;
    assert(all.skip(0) =~= all);
    while i < list.len()
        invariant
            i <= list@.len(),
            all == list.deep_view(),
            all.len() == list@.len(),
            target_at(all, target@) == i + target_at(all.skip(i as int), target@),
        decreases list@.len() - i,
    {
        assert(all.skip(i as int)[0] == list@[i as int].deep_view());
        assert(all.skip(i as int).drop_first() =~= all.skip(i + 1));
        if same_text(list[i].target.as_str(), target) {
            return i;
        }
        i += 1;
    }
    assert(all.skip(i as int).len() == 0);
    i
}

proof fn lemma_binding_inserted(list: Seq<BindingView>, b: BindingView, at: int)
    requires
        0 <= at <= list.len(),
        forall|k: int| at <= k < list.len() ==> (#[trigger] list[k]).verified_at_ms < b.verified_at_ms,
        at > 0 ==> list[at - 1].verified_at_ms >= b.verified_at_ms,
    ensures
        binding_inserted(list, b) == list.insert(at, b),
    decreases list.len(),
{
    if at < list.len() {
        lemma_binding_inserted(list.drop_last(), b, at);
        assert(list.drop_last().insert(at, b).push(list.last()) =~= list.insert(at, b));
    } else {
        assert(list.insert(at, b) =~= list.push(b));
    }
}

fn sort_bindings(list: Vec<IdentityBinding>) -> (out: Vec<IdentityBinding>)
    ensures
        out.deep_view() == latest_first(list.deep_view()),
{
    let ghost all = list.deep_view();
    let mut out: Vec<IdentityBinding> = Vec::new();
    let mut i: usize = 0;
    proof {
        assert(all.take(0) =~= Seq::<BindingView>::empty());
        assert(out.deep_view() =~= latest_first(all.take(0)));
    }
    while i < list.len()
        invariant
            i <= list@.len(),
            all == list.deep_view(),
            all.len() == list@.len(),
            out.deep_view() == latest_first(all.take(i as int)),
        decreases list@.len() - i,
    {
        let b = &list[i];
        let ghost had = out.deep_view();
        proof {
            assert(all.take(i + 1).drop_last() =~= all.take(i as int));
            assert(all.take(i + 1).last() == b.deep_view());
        }
        let mut at: usize = out.len();
        while at > 0 && out[at - 1].verified_at_ms < b.verified_at_ms
            invariant
                at <= out@.len(),
                had == out.deep_view(),
                forall|k: int|
                    at <= k < had.len() ==> (#[trigger] had[k]).verified_at_ms < b.verified_at_ms,
            decreases at,
        {
            assert(had[at - 1] == out@[at - 1].deep_view());
            at -= 1;
        }
        proof {
            if at > 0 {
                assert(had[at - 1] == out@[at - 1].deep_view());
            }
            lemma_binding_inserted(had, b.deep_view(), at as int);
        }
        out.insert(at, b.copied());
        assert(out.deep_view() =~= had.insert(at as int, b.deep_view()));
        i += 1;
    }
    assert(all.take(i as int) =~= all);
    out
}

fn filter_bindings(list: &Vec<IdentityBinding>, target: &str, same: bool) -> (out: Vec<IdentityBinding>)
    ensures
        out.deep_view() == (if same {
            same_target(list.deep_view(), target@)
        } else {
            other_targets(list.deep_view(), target@)
        }),
{
    let ghost all = list.deep_view();
    let mut out: Vec<IdentityBinding> = Vec::new();
    let mut i: usize = 0;
    proof {
        assert(all.take(0) =~= Seq::<BindingView>::empty());
        assert(out.deep_view() =~= all.take(0));
    }
    while i < list.len()
        invariant
            i <= list@.len(),
            all == list.deep_view(),
            all.len() == list@.len(),
            out.deep_view() == (if same {
                same_target(all.take(i as int), target@)
            } else {
                other_targets(all.take(i as int), target@)
            }),
        decreases list@.len() - i,
    {
        let b = &list[i];
        let ghost had = out.deep_view();
        proof {
            assert(all.take(i + 1).drop_last() =~= all.take(i as int));
            assert(all.take(i + 1).last() == b.deep_view());
        }
        if same_text(b.target.as_str(), target) == same {
            out.push(b.copied());
            assert(out.deep_view() =~= had.push(b.deep_view()));
        }
        i += 1;
    }
    assert(all.take(i as int) =~= all);
    out
}

impl InMemoryStore {
    /// Stores a binding, in place of the one of the same source and target.
    /// Gives its address.
    pub fn identity_binding_put(&mut self, ns: &NamespaceRef, binding: &IdentityBinding) -> (out: Result<
        String,
        StoreError,
    >)
        requires
            old(self).wf(),
        ensures
            final(self).wf(),
            final(self).state() == old(self).state().binding_put(binding.deep_view()),
            out matches Ok(kappa) && kappa@ == kappa_of(
                record_of(binding_fields(binding.deep_view())),
            ),
    {
        let ghost before = self.state();
        let kappa = kappa_from_bytes(canonical_binding(binding).as_slice());
        let mut list: Vec<IdentityBinding> = match self.bindings.remove(&binding.source) {
            Some(list) => list,
            None => Vec::new(),
        };
        let ghost had = list.deep_view();
        assert(had =~= bindings_at(before.bindings, binding.source@));
        let at: usize = find_target(&list, binding.target.as_str());
        if at < list.len() {
            list.remove(at);
            assert(list.deep_view() =~= had.remove(at as int));
            list.insert(at, binding.copied());
            assert(list.deep_view() =~= had.update(at as int, binding.deep_view()));
        } else {
            list.push(binding.copied());
            assert(list.deep_view() =~= had.push(binding.deep_view()));
        }
        let sorted = sort_bindings(list);
        self.bindings.insert(binding.source.clone(), sorted);
        proof {
            assert(self.bindings@ =~= before.binding_put(binding.deep_view()).bindings);
            assert(self.state() =~= before.binding_put(binding.deep_view()));
        }
        Ok(kappa)
    }

    /// The bindings of a source, the latest first.
    pub fn identity_binding_get(&self, subject: &str) -> (out: Result<
        Vec<IdentityBinding>,
        StoreError,
    >)
        requires
            self.wf(),
        ensures
            out matches Ok(list) && list.deep_view() == bindings_at(
                self.state().bindings,
                subject@,
            ),
    {
        let mut out: Vec<IdentityBinding> = Vec::new();
        match self.bindings.get(&subject.to_owned()) {
            Some(list) => {
                let mut i: usize = 0;
                while i < list.len()
                    invariant
                        i <= list@.len(),
                        out@.len() == i,
                        forall|k: int|
                            0 <= k < i ==> (#[trigger] out@[k]).deep_view() == list@[k].deep_view(),
                    decreases list@.len() - i,
                {
                    out.push(list[i].copied());
                    i += 1;
                }
                assert(out.deep_view() =~= list.deep_view());
            },
            None => {
                assert(out.deep_view() =~= Seq::<BindingView>::empty());
            },
        }
        Ok(out)
    }

    /// Takes away the bindings of a source to a target.
    pub fn identity_binding_delete(&mut self, ns: &NamespaceRef, subject: &str, target: &str) -> (out: Result<
        (),
        StoreError,
    >)
        requires
            old(self).wf(),
        ensures
            final(self).wf(),
            final(self).state() == old(self).state().binding_deleted(subject@, target@),
            out is Ok,
    {
        let ghost before = self.state();
        let key = subject.to_owned();
        if let Some(list) = self.bindings.remove(&key) {
            let rest = filter_bindings(&list, target, false);
            if rest.len() > 0 {
                self.bindings.insert(key, rest);
            }
        }
        proof {
            assert(self.bindings@ =~= before.binding_deleted(subject@, target@).bindings);
            assert(self.state() =~= before.binding_deleted(subject@, target@));
        }
        Ok(())
    }

    /// The bindings to an anchor, source by source in no particular order.
    pub fn identity_binding_list_by_asserter(&self, asserter: &str) -> (out: Result<
        Vec<IdentityBinding>,
        StoreError,
    >)
        requires
            self.wf(),
        ensures
            out matches Ok(list) && exists|sources: Seq<Seq<char>>|
                sources.no_duplicates() && sources.to_set() == self.state().bindings.dom()
                    && list.deep_view() == #[trigger] self.state().bindings_to(sources, asserter@),
    {
        let ghost st = self.state();
        let ghost mut sources: Seq<Seq<char>> = Seq::empty();
        let mut out: Vec<IdentityBinding> = Vec::new();
        let mut i: usize = 0;
        assert(out.deep_view() =~= Seq::<BindingView>::empty());
        while i < self.bindings.rows.len()
            invariant
                self.wf(),
                st == self.state(),
                i <= self.bindings.rows@.len(),
                sources.len() == i,
                forall|k: int|
                    0 <= k < i ==> #[trigger] sources[k] == self.bindings.rows@[k].0.key(),
                out.deep_view() == st.bindings_to(sources, asserter@),
            decreases self.bindings.rows@.len() - i,
        {
            let ghost had = out.deep_view();
            let ghost key = self.bindings.rows@[i as int].0.key();
            proof {
                self.bindings.lemma_row(i as int);
            }
            let mut some = filter_bindings(&self.bindings.rows[i].1, asserter, true);
            let ghost more = some.deep_view();
            out.append(&mut some);
            proof {
                let longer = sources.push(key);
                assert(longer.drop_last() =~= sources);
                assert(longer.last() == key);
                assert(out.deep_view() =~= had + more);
                sources = longer;
            }
            i += 1;
        }
        proof {
            assert forall|a: int, b: int|
                0 <= a < sources.len() && 0 <= b < sources.len() && a != b implies sources[a]
                != sources[b] by {
                if a < b {
                    assert(self.bindings.rows@[a].0.key() != self.bindings.rows@[b].0.key());
                } else {
                    assert(self.bindings.rows@[b].0.key() != self.bindings.rows@[a].0.key());
                }
            }
            assert forall|k: Seq<char>| sources.to_set().contains(k)
                == st.bindings.dom().contains(k) by {
                if sources.contains(k) {
                    let j = choose|j: int| 0 <= j < sources.len() && sources[j] == k;
                    self.bindings.lemma_row(j);
                }
                if st.bindings.dom().contains(k) {
                    assert(self.bindings.has(k));
                    let j = self.bindings.row_of(k);
                    assert(self.bindings.rows@[j].0.key() == k);
                    assert(sources[j] == k);
                }
            }
            assert(sources.to_set() =~= st.bindings.dom());
        }
        Ok(out)
    }
}

// -- Assertions -------------------------------------------------------------------------------

/// What an assertion is filed under: its subject and its facet.
pub open spec fn assertion_key(subject: Seq<char>, facet: Seq<char>) -> Seq<char> {
    subject + "\0"@ + facet
}

/// The list under a key, or an empty one.
pub open spec fn assertions_at(m: Map<Seq<char>, Seq<Seq<char>>>, key: Seq<char>) -> Seq<Seq<char>> {
    if m.dom().contains(key) {
        m[key]
    } else {
        Seq::empty()
    }
}

/// Whether an assertion is filed under a subject.
pub open spec fn asserted_of(st: StoreState, subject: Seq<char>, kappa: Seq<char>) -> bool {
    exists|key: Seq<char>| #[trigger]
        st.assertions.dom().contains(key) && (subject + "\0"@).is_prefix_of(key)
            && st.assertions[key].contains(kappa)
}

impl InMemoryStore {
    /// Files an assertion under its subject and facet.
    pub fn assertion_index_put(&mut self, subject: &str, facet: &str, assertion_kappa: &str) -> (out: Result<
        (),
        StoreError,
    >)
        requires
            old(self).wf(),
        ensures
            final(self).wf(),
            ({
                let before = old(self).state();
                let key = assertion_key(subject@, facet@);
                final(self).state() == (StoreState {
                    assertions: before.assertions.insert(
                        key,
                        assertions_at(before.assertions, key).push(assertion_kappa@),
                    ),
                    ..before
                })
            }),
            out is Ok,
    {
        let ghost before = self.state();
        let key = joined3(subject, "\0", facet);
        let mut list: Vec<String> = match self.assertions.remove(&key) {
            Some(list) => list,
            None => Vec::new(),
        };
        let ghost had = list.deep_view();
        assert(had =~= assertions_at(before.assertions, key@));
        list.push(assertion_kappa.to_owned());
        assert(list.deep_view() =~= had.push(assertion_kappa@));
        let ghost name = key@;
        self.assertions.insert(key, list);
        proof {
            let want = before.assertions.insert(
                name,
                assertions_at(before.assertions, name).push(assertion_kappa@),
            );
            assert(self.assertions@ =~= want);
            assert(self.state() =~= (StoreState { assertions: want, ..before }));
        }
        Ok(())
    }

    /// The assertions filed under a subject, in ascending order, each once.
    pub fn assertion_index_query_subject(&self, subject: &str) -> (out: Result<
        Vec<String>,
        StoreError,
    >)
        requires
            self.wf(),
        ensures
            out matches Ok(list) && ascending(list.deep_view()) && forall|k: Seq<char>| #[trigger]
                list.deep_view().contains(k) <==> asserted_of(self.state(), subject@, k),
    {
        let prefix = joined(subject, "\0");
        let mut list: Vec<String> = Vec::new();
        let mut i: usize = 0;
        assert(list.deep_view() =~= Seq::<Seq<char>>::empty());
        while i < self.assertions.rows.len()
            invariant
                self.wf(),
                prefix@ == subject@ + "\0"@,
                i <= self.assertions.rows@.len(),
                ascending(list.deep_view()),
                forall|x: Seq<char>| #[trigger]
                    list.deep_view().contains(x) <==> exists|j: int|
                        0 <= j < i && #[trigger] self.asserted_row(prefix@, j, x),
            decreases self.assertions.rows@.len() - i,
        {
            let row = &self.assertions.rows[i];
            let wanted = text_begins_with(row.0.as_str(), prefix.as_str());
            let ghost before_row = list.deep_view();
            if wanted {
                let mut k: usize = 0;
                while k < row.1.len()
                    invariant
                        k <= row.1@.len(),
                        ascending(list.deep_view()),
                        forall|x: Seq<char>| #[trigger]
                            list.deep_view().contains(x) <==> before_row.contains(x) || exists|
                                m: int,
                            |
                                0 <= m < k && #[trigger] row.1@[m]@ == x,
                    decreases row.1@.len() - k,
                {
                    let ghost had = list.deep_view();
                    insert_text(&mut list, row.1[k].clone());
                    assert forall|x: Seq<char>| #[trigger]
                        list.deep_view().contains(x) <==> before_row.contains(x) || exists|m: int|
                            0 <= m < k + 1 && #[trigger] row.1@[m]@ == x by {
                        if x == row.1@[k as int]@ {
                            assert(row.1@[k as int]@ == x);
                        }
                        if had.contains(x) && !before_row.contains(x) {
                            let m = choose|m: int| 0 <= m < k && #[trigger] row.1@[m]@ == x;
                            assert(row.1@[m]@ == x);
                        }
                    }
                    k += 1;
                }
            }
            proof {
                let views = self.assertions.rows@[i as int].1.deep_view();
                assert forall|x: Seq<char>| #[trigger]
                    list.deep_view().contains(x) <==> exists|j: int|
                        0 <= j < i + 1 && #[trigger] self.asserted_row(prefix@, j, x) by {
                    if before_row.contains(x) {
                        let j = choose|j: int|
                            0 <= j < i && #[trigger] self.asserted_row(prefix@, j, x);
                        assert(self.asserted_row(prefix@, j, x));
                    }
                    if wanted && views.contains(x) {
                        let m = choose|m: int| 0 <= m < views.len() && views[m] == x;
                        assert(row.1@[m]@ == x);
                        assert(self.asserted_row(prefix@, i as int, x));
                    }
                    if list.deep_view().contains(x) && !before_row.contains(x) {
                        let m = choose|m: int| 0 <= m < row.1@.len() && #[trigger] row.1@[m]@ == x;
                        assert(views[m] == x);
                        assert(self.asserted_row(prefix@, i as int, x));
                    }
                }
            }
            i += 1;
        }
        proof {
            let st = self.state();
            assert forall|x: Seq<char>| #[trigger] list.deep_view().contains(x) <==> asserted_of(
                st,
                subject@,
                x,
            ) by {
                if list.deep_view().contains(x) {
                    let j = choose|j: int| 0 <= j < i && #[trigger] self.asserted_row(prefix@, j, x);
                    self.assertions.lemma_row(j);
                    let key = self.assertions.rows@[j].0.key();
                    assert(st.assertions.dom().contains(key));
                }
                if asserted_of(st, subject@, x) {
                    let key = choose|key: Seq<char>| #[trigger]
                        st.assertions.dom().contains(key) && (subject@ + "\0"@).is_prefix_of(key)
                            && st.assertions[key].contains(x);
                    assert(self.assertions.has(key));
                    let j = self.assertions.row_of(key);
                    assert(self.assertions.rows@[j].0.key() == key);
                    self.assertions.lemma_row(j);
                    assert(self.asserted_row(prefix@, j, x));
                }
            }
        }
        Ok(list)
    }

    spec fn asserted_row(&self, prefix: Seq<char>, j: int, x: Seq<char>) -> bool {
        prefix.is_prefix_of(self.assertions.rows@[j].0.key())
            && self.assertions.rows@[j].1.deep_view().contains(x)
    }
}

// -- Laws ---------------------------------------------------------------------------

/// Whether a path follows successions, from one anchor to the next.
pub open spec fn follows(successions: Map<Seq<char>, Seq<char>>, path: Seq<Seq<char>>) -> bool {
    forall|i: int|
        0 < i < path.len() ==> successions.dom().contains(path[i - 1]) && successions[path[i - 1]]
            == #[trigger] path[i]
}

proof fn lemma_chain_from(successions: Map<Seq<char>, Seq<char>>, chain: Seq<Seq<char>>)
    requires
        0 < chain.len() <= MAX_CHAIN,
        follows(successions, chain),
        chain.no_duplicates(),
    ensures
        chain_from(successions, chain) matches Ok(whole) ==> {
            &&& chain.is_prefix_of(whole)
            &&& follows(successions, whole)
            &&& whole.no_duplicates()
            &&& whole.len() <= MAX_CHAIN
            &&& !successions.dom().contains(whole.last())
        },
    decreases MAX_CHAIN - chain.len(),
{
    let current = chain.last();
    if successions.dom().contains(current) && !chain.contains(successions[current]) && chain.len()
        < MAX_CHAIN {
        let next = successions[current];
        let longer = chain.push(next);
        assert forall|i: int| 0 < i < longer.len() implies successions.dom().contains(longer[i - 1])
            && successions[longer[i - 1]] == #[trigger] longer[i] by {
            if i < chain.len() {
                assert(longer[i] == chain[i] && longer[i - 1] == chain[i - 1]);
            } else {
                assert(longer[i - 1] == current);
            }
        }
        assert forall|a: int, b: int|
            0 <= a < longer.len() && 0 <= b < longer.len() && a != b implies longer[a]
            != longer[b] by {
            if a == chain.len() {
                assert(chain.contains(chain[b]));
            }
            if b == chain.len() {
                assert(chain.contains(chain[a]));
            }
        }
        lemma_chain_from(successions, longer);
        if let Ok(whole) = chain_from(successions, longer) {
            assert(chain =~= whole.subrange(0, chain.len() as int)) by {
                assert(longer =~= whole.subrange(0, longer.len() as int));
                assert forall|i: int| 0 <= i < chain.len() implies chain[i] == whole[i] by {
                    assert(longer[i] == chain[i]);
                    assert(whole.subrange(0, longer.len() as int)[i] == whole[i]);
                }
            }
        }
    } else if !successions.dom().contains(current) {
        assert(chain =~= chain.subrange(0, chain.len() as int));
    }
}

/// The chain of an anchor begins with the anchor, goes from each anchor to the one
/// in its place, comes to none twice, and ends at one that is still in force.
pub proof fn law_chain_sound(successions: Map<Seq<char>, Seq<char>>, anchor: Seq<char>)
    ensures
        chain_of(successions, anchor) matches Ok(chain) ==> {
            &&& chain.len() > 0 && chain[0] == anchor
            &&& follows(successions, chain)
            &&& chain.no_duplicates()
            &&& chain.len() <= 10
            &&& !successions.dom().contains(chain.last())
            &&& succession_of(successions, anchor) == Ok::<Seq<char>, SuccessionFault>(chain.last())
        },
{
    let one = seq![anchor];
    lemma_chain_from(successions, one);
    if let Ok(chain) = chain_of(successions, anchor) {
        assert(one.is_prefix_of(chain));
        assert(chain.subrange(0, 1)[0] == chain[0]);
    }
}

proof fn lemma_chain_found(
    successions: Map<Seq<char>, Seq<char>>,
    path: Seq<Seq<char>>,
    n: int,
)
    requires
        0 < n <= path.len() <= MAX_CHAIN,
        follows(successions, path),
        path.no_duplicates(),
        !successions.dom().contains(path.last()),
    ensures
        chain_from(successions, path.take(n)) == Ok::<Seq<Seq<char>>, SuccessionFault>(path),
    decreases path.len() - n,
{
    let chain = path.take(n);
    assert(chain.last() == path[n - 1]);
    if n == path.len() {
        assert(chain =~= path);
    } else {
        let next = path[n];
        assert(successions[path[n - 1]] == path[n]);
        assert(!chain.contains(next)) by {
            if chain.contains(next) {
                let i = choose|i: int| 0 <= i < chain.len() && chain[i] == next;
                assert(path[i] == path[n]);
            }
        }
        assert(chain.push(next) =~= path.take(n + 1));
        lemma_chain_found(successions, path, n + 1);
    }
}

/// Every path of up to ten anchors that follows the successions, without coming to
/// one twice, to one that is still in force, is the chain of its first anchor; and
/// its last is the anchor in force.
pub proof fn law_chain_found(successions: Map<Seq<char>, Seq<char>>, path: Seq<Seq<char>>)
    requires
        0 < path.len() <= 10,
        follows(successions, path),
        path.no_duplicates(),
        !successions.dom().contains(path.last()),
    ensures
        chain_of(successions, path[0]) == Ok::<Seq<Seq<char>>, SuccessionFault>(path),
        succession_of(successions, path[0]) == Ok::<Seq<char>, SuccessionFault>(path.last()),
{
    assert(path.take(1) =~= seq![path[0]]);
    lemma_chain_found(successions, path, 1);
}

/// A succession puts the new anchor in place of the old one, and voids what the old
/// one asserted: from the beginning of time where its key was compromised, before
/// the succession otherwise. The watermark that says so is stored, and tagged in the
/// old anchor's namespace where a version is left.
pub proof fn law_succession(st: StoreState, s: IdentitySuccession, ns: NamespaceRef, now_ms: u64)
    ensures
        ({
            let after = succeeded(st, s, ns, now_ms);
            let w = succession_watermark(s, now_ms);
            let k = StoreState::filed(ns, "watermark/"@ + kappa_of(watermark_blob(w)));
            &&& after.successions.dom().contains(s.old_anchor@)
            &&& after.successions[s.old_anchor@] == s.new_anchor@
            &&& w.asserter == s.old_anchor@ && w.set_at_ms == now_ms
            &&& s.reason@ == "key-compromise"@ ==> w.invalidate_before_ms == 0
            &&& s.reason@ != "key-compromise"@ ==> w.invalidate_before_ms == s.effective_at_ms
            &&& after.blobs.dom().contains(kappa_of(watermark_blob(w)))
            &&& !st.tags.dom().contains(k) ==> after.tags.dom().contains(k) && after.tags[k].kappa
                == kappa_of(watermark_blob(w))
        }),
{
}

proof fn lemma_target_at(list: Seq<BindingView>, target: Seq<char>)
    ensures
        0 <= target_at(list, target) <= list.len(),
        target_at(list, target) < list.len() ==> list[target_at(list, target)].target == target,
        forall|i: int| 0 <= i < target_at(list, target) ==> (#[trigger] list[i]).target != target,
    decreases list.len(),
{
    if list.len() > 0 && list[0].target != target {
        let rest = list.drop_first();
        lemma_target_at(rest, target);
        assert forall|i: int| 0 <= i < target_at(list, target) implies (#[trigger] list[i]).target
            != target by {
            if i > 0 {
                assert(rest[i - 1] == list[i]);
            }
        }
    }
}

proof fn lemma_inserted_holds(list: Seq<BindingView>, b: BindingView, x: BindingView)
    ensures
        binding_inserted(list, b).contains(x) <==> list.contains(x) || x == b,
        binding_inserted(list, b).len() == list.len() + 1,
    decreases list.len(),
{
    let all = binding_inserted(list, b);
    if list.len() > 0 && list.last().verified_at_ms < b.verified_at_ms {
        let front = list.drop_last();
        let before = binding_inserted(front, b);
        lemma_inserted_holds(front, b, x);
        if before.contains(x) {
            let i = choose|i: int| 0 <= i < before.len() && before[i] == x;
            assert(all[i] == x);
        }
        assert(all[all.len() - 1] == list.last());
        if list.contains(x) {
            let i = choose|i: int| 0 <= i < list.len() && list[i] == x;
            if i < front.len() {
                assert(front[i] == x);
            }
        }
        if front.contains(x) {
            let i = choose|i: int| 0 <= i < front.len() && front[i] == x;
            assert(list[i] == x);
        }
        if all.contains(x) {
            let i = choose|i: int| 0 <= i < all.len() && all[i] == x;
            if i < before.len() {
                assert(before[i] == x);
            } else {
                assert(list[list.len() - 1] == x);
            }
        }
    } else {
        if list.contains(x) {
            let i = choose|i: int| 0 <= i < list.len() && list[i] == x;
            assert(all[i] == x);
        }
        assert(all[list.len() as int] == b);
        if all.contains(x) {
            let i = choose|i: int| 0 <= i < all.len() && all[i] == x;
            if i < list.len() {
                assert(list[i] == x);
            }
        }
    }
}

/// Whether bindings are in the order in which they were verified, the latest
/// first.
pub open spec fn is_latest_first(list: Seq<BindingView>) -> bool {
    forall|i: int, j: int|
        0 <= i < j < list.len() ==> (#[trigger] list[i]).verified_at_ms >= (
        #[trigger] list[j]).verified_at_ms
}

proof fn lemma_inserted_sorted(list: Seq<BindingView>, b: BindingView)
    requires
        is_latest_first(list),
    ensures
        is_latest_first(binding_inserted(list, b)),
    decreases list.len(),
{
    let all = binding_inserted(list, b);
    if list.len() > 0 && list.last().verified_at_ms < b.verified_at_ms {
        let front = list.drop_last();
        let before = binding_inserted(front, b);
        assert(is_latest_first(front)) by {
            assert forall|i: int, j: int| 0 <= i < j < front.len() implies (
            #[trigger] front[i]).verified_at_ms >= (#[trigger] front[j]).verified_at_ms by {
                assert(front[i] == list[i] && front[j] == list[j]);
            }
        }
        lemma_inserted_sorted(front, b);
        assert forall|i: int, j: int| 0 <= i < j < all.len() implies (
        #[trigger] all[i]).verified_at_ms >= (#[trigger] all[j]).verified_at_ms by {
            if j < before.len() {
                assert(all[i] == before[i] && all[j] == before[j]);
            } else {
                assert(all[i] == before[i]);
                lemma_inserted_holds(front, b, before[i]);
                assert(before.contains(before[i]));
                if front.contains(before[i]) {
                    let n = choose|n: int| 0 <= n < front.len() && front[n] == before[i];
                    assert(list[n].verified_at_ms >= list[list.len() - 1].verified_at_ms);
                }
            }
        }
    } else {
        assert forall|i: int, j: int| 0 <= i < j < all.len() implies (
        #[trigger] all[i]).verified_at_ms >= (#[trigger] all[j]).verified_at_ms by {
            if j < list.len() {
                assert(all[i] == list[i] && all[j] == list[j]);
            } else {
                assert(all[i] == list[i]);
                if i < list.len() - 1 {
                    assert(list[i].verified_at_ms >= list[list.len() - 1].verified_at_ms);
                }
            }
        }
    }
}

proof fn lemma_latest_first(list: Seq<BindingView>, x: BindingView)
    ensures
        is_latest_first(latest_first(list)),
        latest_first(list).contains(x) <==> list.contains(x),
        latest_first(list).len() == list.len(),
    decreases list.len(),
{
    if list.len() > 0 {
        let front = list.drop_last();
        lemma_latest_first(front, x);
        lemma_inserted_holds(latest_first(front), list.last(), x);
        lemma_inserted_sorted(latest_first(front), list.last());
        if front.contains(x) {
            let i = choose|i: int| 0 <= i < front.len() && front[i] == x;
            assert(list[i] == x);
        }
        if list.contains(x) {
            let i = choose|i: int| 0 <= i < list.len() && list[i] == x;
            if i < front.len() {
                assert(front[i] == x);
            }
        }
        assert(list[list.len() - 1] == list.last());
    }
}

/// A binding that was put is among the bindings of its source, which are in the
/// order in which they were verified, the latest first. The bindings of its source
/// to other targets stay, and those of other sources. Where the source had at most
/// one binding to the target, the new one is the only one.
pub proof fn law_binding_put(st: StoreState, b: BindingView, x: BindingView, other: Seq<char>)
    ensures
        ({
            let before = bindings_at(st.bindings, b.source);
            let after = bindings_at(st.binding_put(b).bindings, b.source);
            &&& after.contains(b)
            &&& is_latest_first(after)
            &&& x.target != b.target ==> (after.contains(x) <==> before.contains(x))
            &&& after.contains(x) && x != b ==> before.contains(x)
            &&& (forall|i: int, j: int|
                0 <= i < j < before.len() ==> (#[trigger] before[i]).target != (
                #[trigger] before[j]).target) && after.contains(x) && x.target == b.target ==> x == b
            &&& other != b.source ==> bindings_at(st.binding_put(b).bindings, other) == bindings_at(
                st.bindings,
                other,
            )
        }),
{
    let before = bindings_at(st.bindings, b.source);
    let list = rebound(before, b);
    let at = target_at(before, b.target);
    lemma_target_at(before, b.target);
    lemma_latest_first(list, b);
    lemma_latest_first(list, x);
    if at < before.len() {
        assert(list[at] == b);
    } else {
        assert(list[before.len() as int] == b);
    }
    if list.contains(x) {
        let i = choose|i: int| 0 <= i < list.len() && list[i] == x;
        if i < before.len() && i != at {
            assert(before[i] == x);
        }
    }
    if before.contains(x) && x.target != b.target {
        let i = choose|i: int| 0 <= i < before.len() && before[i] == x;
        assert(list[i] == x);
    }
}

proof fn lemma_other_targets(list: Seq<BindingView>, target: Seq<char>, x: BindingView)
    ensures
        other_targets(list, target).contains(x) <==> list.contains(x) && x.target != target,
    decreases list.len(),
{
    if list.len() > 0 {
        let front = list.drop_last();
        let rest = other_targets(front, target);
        let all = other_targets(list, target);
        lemma_other_targets(front, target, x);
        if rest.contains(x) {
            let i = choose|i: int| 0 <= i < rest.len() && rest[i] == x;
            assert(all[i] == x);
            let j = choose|j: int| 0 <= j < front.len() && front[j] == x;
            assert(list[j] == x);
        }
        if list.contains(x) && x.target != target {
            let i = choose|i: int| 0 <= i < list.len() && list[i] == x;
            if i < front.len() {
                assert(front[i] == x);
            } else {
                assert(all[all.len() - 1] == x);
            }
        }
        if all.contains(x) {
            let i = choose|i: int| 0 <= i < all.len() && all[i] == x;
            if i < rest.len() {
                assert(rest[i] == x);
            } else {
                assert(list[list.len() - 1] == x);
            }
        }
    }
}

/// Deleting takes every binding of a source to a target away, and no other.
pub proof fn law_binding_deleted(
    st: StoreState,
    source: Seq<char>,
    target: Seq<char>,
    x: BindingView,
    other: Seq<char>,
)
    ensures
        bindings_at(st.binding_deleted(source, target).bindings, source).contains(x) <==> bindings_at(
            st.bindings,
            source,
        ).contains(x) && x.target != target,
        other != source ==> bindings_at(st.binding_deleted(source, target).bindings, other)
            == bindings_at(st.bindings, other),
{
    let list = bindings_at(st.bindings, source);
    lemma_other_targets(list, target, x);
    if other_targets(list, target).len() == 0 {
        assert(!other_targets(list, target).contains(x));
    }
}

} // verus!
