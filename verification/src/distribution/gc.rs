//! Garbage collection: pins, finalizers, sweeps and cascading deletes.

use vstd::prelude::*;

use crate::distribution::reach::{
    arrives, compute_reachable, law_reachable_closed, law_reachable_least, leads_to, reachable,
    reachable_set, targets,
};
use crate::distribution::records::{mark_type, tag_tried, typed};
use crate::json::{field_text, json_fields, json_object, json_object_of, json_text, json_text_of, JsonItem, JsonView};
use crate::kappa::kappa_of;
use crate::store::compression::blob_put_computed;
use crate::store::memory::InMemoryStore;
use crate::store::state::{listed, Filed, StoreState};
use crate::text::{holds_text, joined, same_text};
use crate::types::{name_hash, NamespaceRef, StoreError, TagEntry, TagView};

verus! {

// -- Pins ---------------------------------------------------------------------

/// The fields of a pin.
pub open spec fn pin_fields(kappa: Seq<char>, ttl: u64, controller: Seq<char>) -> Seq<
    (Seq<char>, JsonView),
> {
    seq![
        ("kappa"@, JsonView::Text(kappa)),
        ("ttl"@, JsonView::Number(ttl)),
        ("controller"@, JsonView::Text(controller)),
    ]
}

/// The blob of a pin.
pub open spec fn pin_blob(kappa: Seq<char>, ttl: u64, controller: Seq<char>) -> Seq<u8> {
    json_object_of(pin_fields(kappa, ttl, controller))
}

/// The text that a stored JSON record has under a key.
pub open spec fn stored_text(st: StoreState, kappa: Seq<char>, key: Seq<char>) -> Option<Seq<char>> {
    if st.blobs.dom().contains(kappa) {
        match json_text_of(st.blobs[kappa], key) {
            Some(text) => text,
            None => None,
        }
    } else {
        None
    }
}

fn stored_field(store: &InMemoryStore, kappa: &str, key: &str) -> (out: Option<String>)
    requires
        store.wf(),
    ensures
        match out {
            Some(s) => stored_text(store.state(), kappa@, key@) == Some(s@),
            None => stored_text(store.state(), kappa@, key@) is None,
        },
{
    match store.blob_get(kappa) {
        Ok(bytes) => match json_text(bytes.as_slice(), key) {
            Some(text) => text,
            None => None,
        },
        Err(_) => None,
    }
}

/// Whether pinning did what it should.
pub open spec fn pin_done(
    st: StoreState,
    after: StoreState,
    ns: NamespaceRef,
    kappa: Seq<char>,
    ttl: u64,
    controller: Seq<char>,
    out: Result<String, StoreError>,
) -> bool {
    let blob = pin_blob(kappa, ttl, controller);
    let stored = st.put_blob(kappa_of(blob), blob);
    let name = "_pin/"@ + kappa;
    match out {
        Ok(pk) => pk@ == kappa_of(blob) && st.tag_version(ns, name) < u64::MAX && after == typed(
            stored.tag_set(ns, name, pk@),
            ns,
            pk@,
            "pin"@,
        ),
        Err(e) => e is Rejected && st.tag_version(ns, name) == u64::MAX && after
            == stored.ensured(ns),
    }
}

/// Pins an address: content with a controller is not let go before the
/// controller releases it. The address of the pin.
pub fn pin(store: &mut InMemoryStore, ns: &NamespaceRef, kappa: &str, ttl: u64, controller: &str) -> (out: Result<
    String,
    StoreError,
>)
    requires
        old(store).wf(),
    ensures
        final(store).wf(),
        pin_done(
            old(store).state(),
            final(store).state(),
            *ns,
            kappa@,
            ttl,
            controller@,
            out,
        ),
        json_text_of(pin_blob(kappa@, ttl, controller@), "kappa"@) == Some(Some(kappa@)),
        json_text_of(pin_blob(kappa@, ttl, controller@), "controller"@) == Some(
            Some(controller@),
        ),
{
    let mut fields: Vec<(String, JsonItem)> = Vec::new();
    fields.push(("kappa".to_owned(), JsonItem::Text(kappa.to_owned())));
    fields.push(("ttl".to_owned(), JsonItem::Number(ttl)));
    fields.push(("controller".to_owned(), JsonItem::Text(controller.to_owned())));
    let ghost want = pin_fields(kappa@, ttl, controller@);
    proof {
        assert(json_fields(fields@) =~= want);
        reveal_strlit("kappa");
        reveal_strlit("ttl");
        reveal_strlit("controller");
        assert("kappa"@.len() == 5 && "ttl"@.len() == 3 && "controller"@.len() == 10);
        let two = want.drop_last();
        let one = two.drop_last();
        assert(two.last() == want[1] && one.last() == want[0]);
        assert(field_text(one, "kappa"@) == Some(kappa@));
        assert(field_text(two, "kappa"@) == field_text(one, "kappa"@));
        assert(field_text(want, "kappa"@) == field_text(two, "kappa"@));
        assert(field_text(want, "controller"@) == Some(controller@));
    }
    let record = json_object(fields.as_slice());
    let pk = match blob_put_computed(store, record.as_slice()) {
        Ok(pk) => pk,
        Err(e) => return Err(e),
    };
    let name = joined("_pin/", kappa);
    match store.tag_set(ns, name.as_str(), pk.as_str()) {
        Ok(_) => {},
        Err(e) => return Err(e),
    }
    mark_type(store, ns, pk.as_str(), "pin");
    Ok(pk)
}

/// Position of the first tag bound to an address; the length where there is
/// none.
pub open spec fn first_bound(tags: Seq<TagView>, kappa: Seq<char>) -> int
    decreases tags.len(),
{
    if tags.len() == 0 || tags[0].kappa == kappa {
        0
    } else {
        1 + first_bound(tags.drop_first(), kappa)
    }
}

proof fn lemma_first_bound(tags: Seq<TagView>, kappa: Seq<char>, i: int)
    requires
        0 <= i <= tags.len(),
        forall|j: int| 0 <= j < i ==> (#[trigger] tags[j]).kappa != kappa,
        i < tags.len() ==> tags[i].kappa == kappa,
    ensures
        first_bound(tags, kappa) == i,
    decreases tags.len(),
{
    if i > 0 {
        assert(tags[0].kappa != kappa);
        assert forall|j: int| 0 <= j < i - 1 implies (#[trigger] tags.drop_first()[j]).kappa
            != kappa by {
            assert(tags.drop_first()[j] == tags[j + 1]);
        }
        lemma_first_bound(tags.drop_first(), kappa, i - 1);
    }
}

/// Position of the first tag bound to an address; the length where there is
/// none.
pub fn find_bound(tags: &Vec<TagEntry>, kappa: &str) -> (at: usize)
    ensures
        at == first_bound(tags.deep_view(), kappa@),
        at <= tags@.len(),
{
    let ghost all = tags.deep_view();
    let mut i: usize = 0;
    while i < tags.len()
        invariant
            i <= tags@.len(),
            all == tags.deep_view(),
            all.len() == tags@.len(),
            forall|j: int| 0 <= j < i ==> (#[trigger] all[j]).kappa != kappa@,
        decreases tags@.len() - i,
    {
        assert(all[i as int] == tags@[i as int].deep_view());
        if same_text(tags[i].kappa.as_str(), kappa) {
            proof {
                lemma_first_bound(all, kappa@, i as int);
            }
            return i;
        }
        i += 1;
    }
    proof {
        lemma_first_bound(all, kappa@, i as int);
    }
    i
}

/// How an attempt to unpin ends.
pub enum Unpinning {
    /// No pin has the address.
    Missing,
    /// A controller holds the content.
    Held(Seq<char>),
    /// The controller let go; the pin stays until it is taken away.
    Released,
    /// The pin with this name is gone.
    Gone(Seq<char>),
}

/// How an attempt to unpin ends, given the pins of the namespace.
pub open spec fn unpinning(
    st: StoreState,
    ns: NamespaceRef,
    pins: Seq<TagView>,
    pin: Seq<char>,
    release: bool,
) -> Unpinning {
    let at = first_bound(pins, pin);
    let released = st.tags.dom().contains(StoreState::filed(ns, "_released/"@ + pin));
    if at >= pins.len() {
        Unpinning::Missing
    } else {
        match stored_text(st, pin, "controller"@) {
            Some(controller) => if controller.len() > 0 && !release && !released {
                Unpinning::Held(controller)
            } else if controller.len() > 0 && release {
                Unpinning::Released
            } else {
                Unpinning::Gone(pins[at].name)
            },
            None => Unpinning::Gone(pins[at].name),
        }
    }
}

/// The content that marks a released pin.
pub open spec fn released_mark() -> Seq<u8> {
    seq![114u8, 101, 108, 101, 97, 115, 101, 100]
}

/// Whether an attempt to unpin did what it should, given the pins.
pub open spec fn unpinned(
    st: StoreState,
    after: StoreState,
    ns: NamespaceRef,
    pins: Seq<TagView>,
    pin: Seq<char>,
    release: bool,
    out: Result<(), StoreError>,
) -> bool {
    let flag = "_released/"@ + pin;
    let marked = st.put_blob(kappa_of(released_mark()), released_mark());
    match unpinning(st, ns, pins, pin, release) {
        Unpinning::Missing => after == st && (out matches Err(StoreError::NotFound(k)) && k@ == pin),
        Unpinning::Held(c) => after == st && (out matches Err(StoreError::Conflict(m)) && m@ == c),
        Unpinning::Released => after == tag_tried(marked, ns, flag, kappa_of(released_mark()))
            && (out is Ok <==> st.tag_version(ns, flag) < u64::MAX) && (out matches Err(e)
            ==> e is Rejected),
        Unpinning::Gone(name) => after == st.unbound(ns, name).unbound(ns, flag) && out is Ok,
    }
}

/// Whether an attempt to unpin did what it should.
pub open spec fn unpin_done(
    st: StoreState,
    after: StoreState,
    ns: NamespaceRef,
    pin: Seq<char>,
    release: bool,
    out: Result<(), StoreError>,
) -> bool {
    exists|pins: Seq<TagView>| #[trigger]
        st.is_listing(ns, "_pin/"@, pins) && unpinned(st, after, ns, pins, pin, release, out)
}

/// Takes a pin away. A pin with a controller is kept, with the controller as the
/// conflict, until the controller has released it; releasing it leaves the pin
/// in place.
pub fn unpin(store: &mut InMemoryStore, ns: &NamespaceRef, pin_kappa: &str, release: bool) -> (out: Result<
    (),
    StoreError,
>)
    requires
        old(store).wf(),
    ensures
        final(store).wf(),
        unpin_done(
            old(store).state(),
            final(store).state(),
            *ns,
            pin_kappa@,
            release,
            out,
        ),
{
    let flag = joined("_released/", pin_kappa);
    let was_released = store.tag_get(ns, flag.as_str()).is_ok();
    let pins = match store.tag_prefix(ns, "_pin/") {
        Ok(pins) => pins,
        Err(e) => return Err(e),
    };
    let ghost st = store.state();
    let ghost all = pins.deep_view();
    assert(st.is_listing(*ns, "_pin/"@, all));
    let i: usize = find_bound(&pins, pin_kappa);
    if i >= pins.len() {
        return Err(StoreError::NotFound(pin_kappa.to_owned()));
    }
    assert(all[i as int] == pins@[i as int].deep_view());
    if let Some(controller) = stored_field(store, pin_kappa, "controller") {
        if controller.as_str().unicode_len() > 0 {
            if !release && !was_released {
                return Err(StoreError::Conflict(controller));
            }
            if release {
                let mark = [114u8, 101, 108, 101, 97, 115, 101, 100];
                assert(mark@ =~= released_mark());
                let kappa = match blob_put_computed(store, mark.as_slice()) {
                    Ok(kappa) => kappa,
                    Err(e) => return Err(e),
                };
                return match store.tag_set(ns, flag.as_str(), kappa.as_str()) {
                    Ok(_) => Ok(()),
                    Err(e) => Err(e),
                };
            }
        }
    }
    let _ = store.tag_delete(ns, pins[i].name.as_str());
    let _ = store.tag_delete(ns, flag.as_str());
    Ok(())
}

/// What garbage collection has to say of a namespace.
#[derive(Debug)]
pub struct GcStatus {
    pub pin_count: usize,
    /// The pinned address and the controller of each pin that has one.
    pub pending_finalizers: Vec<(String, String)>,
    /// The record of the last sweep.
    pub last_sweep: Option<Vec<u8>>,
}

/// The pinned address and the controller of each pin that has one.
pub open spec fn finalizers(st: StoreState, pins: Seq<TagView>) -> Seq<(Seq<char>, Seq<char>)>
    decreases pins.len(),
{
    if pins.len() == 0 {
        Seq::empty()
    } else {
        let before = finalizers(st, pins.drop_last());
        match stored_text(st, pins.last().kappa, "controller"@) {
            Some(c) => if c.len() > 0 {
                before.push(
                    (
                        match stored_text(st, pins.last().kappa, "kappa"@) {
                            Some(k) => k,
                            None => Seq::empty(),
                        },
                        c,
                    ),
                )
            } else {
                before
            },
            None => before,
        }
    }
}

/// What pairs of texts hold.
pub open spec fn shown_pairs(list: Seq<(String, String)>) -> Seq<(Seq<char>, Seq<char>)> {
    Seq::new(list.len(), |i: int| (list[i].0@, list[i].1@))
}

/// The record of a namespace's last sweep.
pub open spec fn last_sweep(st: StoreState, ns: NamespaceRef) -> Option<Seq<u8>> {
    let k = StoreState::filed(ns, "_gc/last_sweep"@);
    if st.tags.dom().contains(k) && st.blobs.dom().contains(st.tags[k].kappa) {
        Some(st.blobs[st.tags[k].kappa])
    } else {
        None
    }
}

/// The pins of a namespace, their controllers, and its last sweep.
pub fn gc_status(store: &InMemoryStore, ns: &NamespaceRef) -> (out: GcStatus)
    requires
        store.wf(),
    ensures
        exists|pins: Seq<TagView>| #[trigger]
            store.state().is_listing(*ns, "_pin/"@, pins) && out.pin_count == pins.len()
                && shown_pairs(out.pending_finalizers@) == finalizers(store.state(), pins),
        match out.last_sweep {
            Some(record) => last_sweep(store.state(), *ns) == Some(record@),
            None => last_sweep(store.state(), *ns) is None,
        },
{
    let ghost st = store.state();
    let pins = match store.tag_prefix(ns, "_pin/") {
        Ok(pins) => pins,
        Err(_) => Vec::new(),
    };
    let ghost all = pins.deep_view();
    let mut list: Vec<(String, String)> = Vec::new();
    let mut i: usize = 0;
    assert(all.take(0) =~= Seq::<TagView>::empty());
    assert(shown_pairs(list@) =~= finalizers(st, all.take(0)));
    while i < pins.len()
        invariant
            store.wf(),
            st == store.state(),
            i <= pins@.len(),
            all == pins.deep_view(),
            all.len() == pins@.len(),
            shown_pairs(list@) == finalizers(st, all.take(i as int)),
        decreases pins@.len() - i,
    {
        let ghost had = list@;
        proof {
            assert(all[i as int] == pins@[i as int].deep_view());
            assert(all.take(i + 1).drop_last() =~= all.take(i as int));
            assert(all.take(i + 1).last() == all[i as int]);
        }
        if let Some(c) = stored_field(store, pins[i].kappa.as_str(), "controller") {
            if c.as_str().unicode_len() > 0 {
                let k = match stored_field(store, pins[i].kappa.as_str(), "kappa") {
                    Some(k) => k,
                    None => {
                        let empty = String::new();
                        assert(empty@ =~= Seq::<char>::empty());
                        empty
                    },
                };
                let ghost pair = (k@, c@);
                list.push((k, c));
                assert(shown_pairs(list@) =~= shown_pairs(had).push(pair));
            }
        }
        i += 1;
    }
    assert(all.take(all.len() as int) =~= all);
    let record = match store.tag_get(ns, "_gc/last_sweep") {
        Ok(entry) => match store.blob_get(entry.kappa.as_str()) {
            Ok(record) => Some(record),
            Err(_) => None,
        },
        Err(_) => None,
    };
    GcStatus { pin_count: pins.len(), pending_finalizers: list, last_sweep: record }
}

// -- Sweeps -------------------------------------------------------------------

/// What a sweep did.
#[derive(Debug)]
pub struct SweepResult {
    pub objects_scanned: usize,
    pub objects_reachable: usize,
    pub objects_evicted: usize,
}

/// Whether a tag keeps an address: it is bound to it, or is a pin of it.
pub open spec fn keeps(st: StoreState, tag: TagView, kappa: Seq<char>) -> bool {
    tag.kappa == kappa || ("_pin/"@.is_prefix_of(tag.name) && stored_text(st, tag.kappa, "kappa"@)
        == Some(kappa))
}

/// Whether an address is where a sweep of a namespace starts: a tag keeps it, or
/// it is the latest epoch.
pub open spec fn is_gc_root(st: StoreState, ns: NamespaceRef, kappa: Seq<char>) -> bool {
    ||| exists|h: u64| #[trigger]
        st.tags.dom().contains((ns.id(), h)) && keeps(st, st.tags[(ns.id(), h)], kappa)
    ||| st.epoch_current(ns) == Some(kappa)
}

/// Where a sweep of a namespace starts.
pub open spec fn gc_roots(st: StoreState, ns: NamespaceRef) -> Set<Seq<char>> {
    Set::new(|k: Seq<char>| is_gc_root(st, ns, k))
}

/// What a sweep of a namespace keeps.
pub open spec fn gc_kept(st: StoreState, ns: NamespaceRef) -> Set<Seq<char>> {
    reachable_set(st, ns, gc_roots(st, ns))
}

/// A store that keeps only the blobs at some addresses.
pub open spec fn only_kept(st: StoreState, kept: Set<Seq<char>>) -> StoreState {
    StoreState { blobs: st.blobs.restrict(kept), ..st }
}

/// The record of a sweep.
pub open spec fn sweep_record(id: Seq<char>, scanned: nat, kept: nat, evicted: nat) -> Seq<u8> {
    json_object_of(
        seq![
            ("last_sweep"@, JsonView::Text(id)),
            ("objects_scanned"@, JsonView::Number(scanned as u64)),
            ("objects_reachable"@, JsonView::Number(kept as u64)),
            ("objects_evicted"@, JsonView::Number(evicted as u64)),
        ],
    )
}

/// The record of a sweep of a namespace.
pub open spec fn swept_record(st: StoreState, ns: NamespaceRef, id: Seq<char>) -> Seq<u8> {
    let kept = gc_kept(st, ns);
    sweep_record(id, st.blobs.dom().len(), kept.len(), st.blobs.dom().difference(kept).len())
}

/// A store after a sweep: without the blobs that nothing keeps, and with the
/// record of the sweep.
pub open spec fn swept(st: StoreState, ns: NamespaceRef, id: Seq<char>) -> StoreState {
    let record = swept_record(st, ns, id);
    tag_tried(
        only_kept(st, gc_kept(st, ns)).put_blob(kappa_of(record), record),
        ns,
        "_gc/last_sweep"@,
        kappa_of(record),
    )
}

/// Where a sweep of a namespace starts, as a list.
fn sweep_roots(store: &InMemoryStore, ns: &NamespaceRef) -> (out: Vec<String>)
    requires
        store.wf(),
    ensures
        out.deep_view().to_set() == gc_roots(store.state(), *ns),
{
    let ghost st = store.state();
    let mut roots: Vec<String> = Vec::new();
    assert(roots.deep_view() =~= Seq::<Seq<char>>::empty());
    let tags = match store.tag_list(ns) {
        Ok(tags) => tags,
        Err(_) => Vec::new(),
    };
    let ghost all = tags.deep_view();
    let mut i: usize = 0;
    while i < tags.len()
        invariant
            store.wf(),
            st == store.state(),
            i <= tags@.len(),
            all == tags.deep_view(),
            all.len() == tags@.len(),
            st.is_listing(*ns, Seq::empty(), all),
            forall|k: Seq<char>| #[trigger]
                roots.deep_view().contains(k) ==> is_gc_root(st, *ns, k),
            forall|j: int, k: Seq<char>|
                0 <= j < i && #[trigger] keeps(st, all[j], k) ==> roots.deep_view().contains(k),
        decreases tags@.len() - i,
    {
        let ghost had = roots.deep_view();
        let ghost tag = all[i as int];
        proof {
            assert(tag == tags@[i as int].deep_view());
            let k = StoreState::filed(*ns, tag.name);
            assert(st.tags.dom().contains(k) && st.tags[k] == tag);
        }
        roots.push(tags[i].kappa.clone());
        let ghost middle = roots.deep_view();
        proof {
            assert(middle =~= had.push(tag.kappa));
            assert forall|k: Seq<char>| #[trigger] middle.contains(k) == (had.contains(k) || k
                == tag.kappa) by {
                crate::git::walk::lemma_push_contains(had, tag.kappa, k);
            }
        }
        if crate::text::text_begins_with(tags[i].name.as_str(), "_pin/") {
            if let Some(k) = stored_field(store, tags[i].kappa.as_str(), "kappa") {
                let ghost pinned = k@;
                roots.push(k);
                proof {
                    assert(roots.deep_view() =~= middle.push(pinned));
                    assert forall|k: Seq<char>| #[trigger] roots.deep_view().contains(k) == (
                    middle.contains(k) || k == pinned) by {
                        crate::git::walk::lemma_push_contains(middle, pinned, k);
                    }
                }
            }
        }
        proof {
            assert forall|k: Seq<char>| #[trigger] roots.deep_view().contains(k) <==> (had.contains(
                k,
            ) || keeps(st, tag, k)) by {}
        }
        i += 1;
    }
    let ghost had = roots.deep_view();
    if let Ok(Some(current)) = store.epoch_current(ns) {
        let ghost shown = current@;
        roots.push(current);
        proof {
            assert(roots.deep_view() =~= had.push(shown));
            assert forall|k: Seq<char>| #[trigger] roots.deep_view().contains(k) == (had.contains(k)
                || k == shown) by {
                crate::git::walk::lemma_push_contains(had, shown, k);
            }
        }
    }
    proof {
        assert forall|k: Seq<char>| is_gc_root(st, *ns, k) implies roots.deep_view().contains(
            k,
        ) by {
            if st.epoch_current(*ns) != Some(k) {
                let h = choose|h: u64| #[trigger]
                    st.tags.dom().contains((ns.id(), h)) && keeps(st, st.tags[(ns.id(), h)], k);
                let tag = st.tags[(ns.id(), h)];
                assert(Seq::<char>::empty().is_prefix_of(tag.name));
                assert(all.contains(tag));
                let j = choose|j: int| 0 <= j < all.len() && all[j] == tag;
                assert(keeps(st, all[j], k));
            }
        }
        assert(roots.deep_view().to_set() =~= gc_roots(st, *ns));
    }
    roots
}

/// As many members as a list without duplicates has texts.
proof fn lemma_counted(list: Seq<Seq<char>>, set: Set<Seq<char>>)
    requires
        list.no_duplicates(),
        forall|k: Seq<char>| #[trigger] list.contains(k) <==> set.contains(k),
    ensures
        set.finite(),
        set.len() == list.len(),
{
    list.unique_seq_to_set();
    assert(list.to_set() =~= set);
}

/// Deletes every blob that no tag, pin or epoch of a namespace leads to, and
/// records what was done.
pub fn run_sweep(store: &mut InMemoryStore, ns: &NamespaceRef, sweep_id: &str) -> (out: Result<
    SweepResult,
    StoreError,
>)
    requires
        old(store).wf(),
    ensures
        final(store).wf(),
        final(store).state() == swept(old(store).state(), *ns, sweep_id@),
        match out {
            Ok(r) => {
                let st = old(store).state();
                &&& r.objects_scanned == st.blobs.dom().len()
                &&& r.objects_reachable == gc_kept(st, *ns).len()
                &&& r.objects_evicted == st.blobs.dom().difference(gc_kept(st, *ns)).len()
            },
            Err(_) => false,
        },
{
    let ghost st = store.state();
    let roots = sweep_roots(store, ns);
    let starts = roots.as_slice();
    let kept = compute_reachable(store, ns, starts);
    let ghost set = gc_kept(st, *ns);
    let all_blobs = match store.blob_list() {
        Ok(list) => list,
        Err(e) => return Err(e),
    };
    let ghost all = all_blobs.deep_view();
    let ghost dom = st.blobs.dom();
    let ghost mut gone: Seq<Seq<char>> = Seq::empty();
    let mut evicted: usize = 0;
    let mut i: usize = 0;
    proof {
        assert(starts.deep_view() =~= roots.deep_view());
        assert forall|k: Seq<char>| #[trigger] kept.deep_view().contains(k) <==> set.contains(
            k,
        ) by {}
        lemma_counted(kept.deep_view(), set);
        assert(all.no_duplicates()) by {
            assert forall|i: int, j: int|
                0 <= i < all.len() && 0 <= j < all.len() && i != j implies all[i] != all[j] by {
                crate::text::lemma_text_below_irreflexive(all[i]);
            }
        }
        lemma_counted(all, dom);
        assert(store.state() =~= without_blobs(st, gone)) by {
            assert(st.blobs.remove_keys(gone.to_set()) =~= st.blobs);
        }
    }
    while i < all_blobs.len()
        invariant
            store.wf(),
            i <= all_blobs@.len(),
            all == all_blobs.deep_view(),
            all.len() == all_blobs@.len(),
            all.no_duplicates(),
            forall|k: Seq<char>| #[trigger] kept.deep_view().contains(k) <==> set.contains(k),
            gone.len() == evicted,
            gone.no_duplicates(),
            evicted <= i,
            forall|k: Seq<char>| #[trigger]
                gone.contains(k) <==> (all.take(i as int).contains(k) && !set.contains(k)),
            store.state() == without_blobs(st, gone),
        decreases all_blobs@.len() - i,
    {
        let ghost k = all[i as int];
        proof {
            assert(k == all_blobs@[i as int]@);
            assert(all.take(i + 1) =~= all.take(i as int).push(k));
            assert(!all.take(i as int).contains(k)) by {
                if all.take(i as int).contains(k) {
                    let j = choose|j: int| 0 <= j < i && all.take(i as int)[j] == k;
                    assert(all[j] == all[i as int]);
                }
            }
            assert forall|x: Seq<char>| #[trigger] all.take(i + 1).contains(x) == (all.take(
                i as int,
            ).contains(x) || x == k) by {
                crate::git::walk::lemma_push_contains(all.take(i as int), k, x);
            }
        }
        if !holds_text(&kept, all_blobs[i].as_str()) {
            let _ = store.blob_delete(all_blobs[i].as_str());
            proof {
                let more = gone.push(k);
                assert forall|x: Seq<char>| #[trigger] more.contains(x) == (gone.contains(x) || x
                    == k) by {
                    crate::git::walk::lemma_push_contains(gone, k, x);
                }
                assert(!gone.contains(k));
                assert(without_blobs(st, more).blobs =~= without_blobs(st, gone).blobs.remove(k))
                    by {
                    assert forall|x: Seq<char>| more.to_set().contains(x) == (
                    gone.to_set().contains(x) || x == k) by {
                        assert(more.contains(x) == (gone.contains(x) || x == k));
                    }
                }
                assert(store.state() =~= without_blobs(st, more));
                assert(more.no_duplicates()) by {
                    assert forall|a: int, b: int|
                        0 <= a < more.len() && 0 <= b < more.len() && a != b implies more[a]
                        != more[b] by {
                        if a == gone.len() {
                            assert(gone.contains(gone[b]));
                        }
                        if b == gone.len() {
                            assert(gone.contains(gone[a]));
                        }
                    }
                }
                gone = more;
            }
            evicted += 1;
        }
        i += 1;
    }
    proof {
        assert(all.take(all.len() as int) =~= all);
        assert forall|k: Seq<char>| #[trigger] gone.contains(k) <==> dom.difference(set).contains(
            k,
        ) by {
            assert(all.contains(k) <==> dom.contains(k));
        }
        lemma_counted(gone, dom.difference(set));
        assert(without_blobs(st, gone).blobs =~= st.blobs.restrict(set)) by {
            assert forall|k: Seq<char>| gone.to_set().contains(k) == (dom.contains(k)
                && !set.contains(k)) by {
                assert(gone.contains(k) <==> dom.difference(set).contains(k));
            }
        }
        assert(store.state() =~= only_kept(st, set));
    }
    let r = SweepResult {
        objects_scanned: all_blobs.len(),
        objects_reachable: kept.len(),
        objects_evicted: evicted,
    };
    let mut fields: Vec<(String, JsonItem)> = Vec::new();
    fields.push(("last_sweep".to_owned(), JsonItem::Text(sweep_id.to_owned())));
    fields.push(("objects_scanned".to_owned(), JsonItem::Number(r.objects_scanned as u64)));
    fields.push(("objects_reachable".to_owned(), JsonItem::Number(r.objects_reachable as u64)));
    fields.push(("objects_evicted".to_owned(), JsonItem::Number(r.objects_evicted as u64)));
    let record = json_object(fields.as_slice());
    proof {
        assert(json_fields(fields@) =~= seq![
            ("last_sweep"@, JsonView::Text(sweep_id@)),
            ("objects_scanned"@, JsonView::Number(dom.len() as u64)),
            ("objects_reachable"@, JsonView::Number(set.len() as u64)),
            ("objects_evicted"@, JsonView::Number(dom.difference(set).len() as u64)),
        ]);
    }
    if let Ok(kappa) = blob_put_computed(store, record.as_slice()) {
        let _ = store.tag_set(ns, "_gc/last_sweep", kappa.as_str());
    }
    Ok(r)
}

/// A store without the blobs at some addresses.
pub open spec fn without_blobs(st: StoreState, gone: Seq<Seq<char>>) -> StoreState {
    StoreState { blobs: st.blobs.remove_keys(gone.to_set()), ..st }
}

// -- Cascades -----------------------------------------------------------------

/// What a cascading delete did.
#[derive(Debug)]
pub struct CascadeReport {
    pub deleted: usize,
    pub reachable: usize,
}

/// Whether a cascading delete did what it should.
pub open spec fn cascade_done(
    st: StoreState,
    after: StoreState,
    ns: NamespaceRef,
    roots: Seq<Seq<char>>,
    out: Result<CascadeReport, String>,
) -> bool {
    let set = reachable_set(st, ns, roots.to_set());
    match out {
        Ok(r) => roots.len() > 0 && r.deleted == set.len() && r.reachable == set.len() && after == (
        StoreState { blobs: st.blobs.remove_keys(set), ..st }),
        Err(m) => roots.len() == 0 && m@ == "empty roots list"@ && after == st,
    }
}

/// Deletes every blob that edges lead to from the roots, the roots with them. An
/// empty list of roots is refused.
pub fn cascade(store: &mut InMemoryStore, ns: &NamespaceRef, roots: &[String]) -> (out: Result<
    CascadeReport,
    String,
>)
    requires
        old(store).wf(),
    ensures
        final(store).wf(),
        cascade_done(old(store).state(), final(store).state(), *ns, roots.deep_view(), out),
{
    if roots.len() == 0 {
        return Err("empty roots list".to_owned());
    }
    let ghost st = store.state();
    let found = compute_reachable(store, ns, roots);
    let ghost all = found.deep_view();
    let ghost set = reachable_set(st, *ns, roots.deep_view().to_set());
    let mut deleted: usize = 0;
    let mut i: usize = 0;
    proof {
        lemma_counted(all, set);
        assert(st.blobs.remove_keys(all.take(0).to_set()) =~= st.blobs);
        assert(store.state() =~= without_blobs(st, all.take(0)));
    }
    while i < found.len()
        invariant
            store.wf(),
            i <= found@.len(),
            all == found.deep_view(),
            all.len() == found@.len(),
            deleted == i,
            store.state() == without_blobs(st, all.take(i as int)),
        decreases found@.len() - i,
    {
        let ghost k = all[i as int];
        assert(k == found@[i as int]@);
        if store.blob_delete(found[i].as_str()).is_ok() {
            deleted += 1;
        }
        proof {
            assert(all.take(i + 1) =~= all.take(i as int).push(k));
            let front = all.take(i as int);
            assert forall|x: Seq<char>| #[trigger] front.push(k).to_set().contains(x) == (
            front.to_set().contains(x) || x == k) by {
                crate::git::walk::lemma_push_contains(front, k, x);
            }
            assert(front.push(k).to_set() =~= front.to_set().insert(k));
            assert(all.take(i + 1).to_set() =~= all.take(i as int).to_set().insert(k));
            assert(without_blobs(st, all.take(i + 1)).blobs =~= without_blobs(
                st,
                all.take(i as int),
            ).blobs.remove(k));
            assert(store.state() =~= without_blobs(st, all.take(i + 1)));
        }
        i += 1;
    }
    proof {
        assert(all.take(all.len() as int) =~= all);
        assert(all.to_set() =~= set);
    }
    Ok(CascadeReport { deleted, reachable: found.len() })
}

// -- Laws ---------------------------------------------------------------------

/// A sweep keeps the content of every address that a tag of the namespace is
/// bound to or pins, that is its latest epoch, or that an edge leads to from
/// what is kept; and what nothing keeps is gone, but for the record of the sweep.
pub proof fn law_sweep_keeps(
    st: StoreState,
    ns: NamespaceRef,
    id: Seq<char>,
    kappa: Seq<char>,
    to: Seq<char>,
)
    ensures
        is_gc_root(st, ns, kappa) ==> gc_kept(st, ns).contains(kappa),
        gc_kept(st, ns).contains(kappa) && leads_to(st, ns, kappa).contains(to) ==> gc_kept(
            st,
            ns,
        ).contains(to),
        gc_kept(st, ns).contains(kappa) && st.blobs.dom().contains(kappa) ==> swept(
            st,
            ns,
            id,
        ).blobs.dom().contains(kappa) && swept(st, ns, id).blobs[kappa] == st.blobs[kappa],
        swept(st, ns, id).blobs.dom().contains(kappa) ==> gc_kept(st, ns).contains(kappa) || kappa
            == kappa_of(swept_record(st, ns, id)),
{
    law_reachable_closed(st, ns, gc_roots(st, ns), kappa, to);
}

/// A pinned address is where a sweep starts.
pub proof fn law_pin_is_root(st: StoreState, ns: NamespaceRef, name: Seq<char>, kappa: Seq<char>)
    requires
        st.tags.dom().contains(StoreState::filed(ns, name)),
        st.tags[StoreState::filed(ns, name)].name == name,
        "_pin/"@.is_prefix_of(name),
        stored_text(st, st.tags[StoreState::filed(ns, name)].kappa, "kappa"@) == Some(kappa),
    ensures
        gc_roots(st, ns).contains(kappa),
{
    let h = crate::types::name_hash(name);
    assert(st.tags.dom().contains((ns.id(), h)) && keeps(st, st.tags[(ns.id(), h)], kappa));
}

/// A cascading delete and a sweep are inverse: what the one deletes from the
/// roots of the other is what the other keeps.
pub proof fn law_cascade_inverse(st: StoreState, ns: NamespaceRef, kappa: Seq<char>)
    ensures
        st.blobs.remove_keys(reachable_set(st, ns, gc_roots(st, ns))).dom().contains(kappa) <==> (
        st.blobs.dom().contains(kappa) && !only_kept(st, gc_kept(st, ns)).blobs.dom().contains(
            kappa,
        )),
{
}

/// Whether an edge on file leads from one address to another.
pub open spec fn edge_leads(st: StoreState, ns: NamespaceRef, from: Seq<char>, to: Seq<char>) -> bool {
    exists|i: int|
        0 <= i < st.fwd[(ns.id(), name_hash(from))].len() && st.fwd.dom().contains(
            (ns.id(), name_hash(from)),
        ) && edge_filed(st, ns.id(), #[trigger] st.fwd[(ns.id(), name_hash(from))][i], to)
}

/// Whether an edge with a target is on file under an address.
pub open spec fn edge_filed(st: StoreState, id: Seq<u8>, kappa: Seq<char>, to: Seq<char>) -> bool {
    st.edges.dom().contains((id, name_hash(kappa))) && st.edges[(id, name_hash(kappa))].target == to
}

/// An edge on file leads where its target says, and nowhere else.
pub proof fn lemma_edge_leads(st: StoreState, ns: NamespaceRef, from: Seq<char>, to: Seq<char>)
    ensures
        edge_leads(st, ns, from, to) <==> leads_to(st, ns, from).contains(to),
{
    let list = listed(st.fwd, (ns.id(), name_hash(from)));
    lemma_targets(st, ns.id(), list, to);
    if edge_leads(st, ns, from, to) {
        let i = choose|i: int|
            0 <= i < st.fwd[(ns.id(), name_hash(from))].len() && st.fwd.dom().contains(
                (ns.id(), name_hash(from)),
            ) && edge_filed(st, ns.id(), #[trigger] st.fwd[(ns.id(), name_hash(from))][i], to);
        assert(edge_filed(st, ns.id(), list[i], to));
    }
    if leads_to(st, ns, from).contains(to) {
        let i = choose|i: int| 0 <= i < list.len() && edge_filed(st, ns.id(), #[trigger] list[i], to);
        assert(edge_filed(st, ns.id(), st.fwd[(ns.id(), name_hash(from))][i], to));
    }
}

proof fn lemma_targets(st: StoreState, id: Seq<u8>, list: Seq<Seq<char>>, to: Seq<char>)
    ensures
        targets(st.edges_at(id, list, None, None)).contains(to) <==> exists|i: int|
            0 <= i < list.len() && edge_filed(st, id, #[trigger] list[i], to),
    decreases list.len(),
{
    let now = targets(st.edges_at(id, list, None, None));
    if list.len() == 0 {
        assert(now.len() == 0);
    } else {
        let front = list.drop_last();
        let before = targets(st.edges_at(id, front, None, None));
        lemma_targets(st, id, front, to);
        let k = (id, name_hash(list.last()));
        if st.edges.dom().contains(k) {
            assert(now =~= before.push(st.edges[k].target));
            crate::git::walk::lemma_push_contains(before, st.edges[k].target, to);
        } else {
            assert(now =~= before);
        }
        if before.contains(to) {
            let i = choose|i: int| 0 <= i < front.len() && edge_filed(st, id, #[trigger] front[i], to);
            assert(edge_filed(st, id, list[i], to));
        }
        if edge_filed(st, id, list.last(), to) {
            assert(edge_filed(st, id, list[list.len() - 1], to));
        }
        if exists|i: int| 0 <= i < list.len() && edge_filed(st, id, #[trigger] list[i], to) {
            let i = choose|i: int| 0 <= i < list.len() && edge_filed(st, id, #[trigger] list[i], to);
            if i < front.len() {
                assert(edge_filed(st, id, front[i], to));
            }
        }
    }
}

proof fn lemma_kept(st: StoreState, ns: NamespaceRef, id: Seq<char>, kappa: Seq<char>)
    requires
        gc_kept(st, ns).contains(kappa),
        st.blobs.dom().contains(kappa),
    ensures
        swept(st, ns, id).blobs.dom().contains(kappa),
        swept(st, ns, id).blobs[kappa] == st.blobs[kappa],
{
    law_sweep_keeps(st, ns, id, kappa, kappa);
}

/// A sweep of a namespace keeps the content that any of its tags is bound to,
/// whatever the name of the tag.
pub proof fn law_sweep_keeps_tagged(st: StoreState, ns: NamespaceRef, id: Seq<char>, h: u64)
    requires
        st.tags.dom().contains((ns.id(), h)),
        st.blobs.dom().contains(st.tags[(ns.id(), h)].kappa),
    ensures
        ({
            let kappa = st.tags[(ns.id(), h)].kappa;
            swept(st, ns, id).blobs.dom().contains(kappa) && swept(st, ns, id).blobs[kappa]
                == st.blobs[kappa]
        }),
{
    let kappa = st.tags[(ns.id(), h)].kappa;
    assert(keeps(st, st.tags[(ns.id(), h)], kappa));
    assert(is_gc_root(st, ns, kappa));
    law_sweep_keeps(st, ns, id, kappa, kappa);
}

/// A sweep keeps the content that a pin names.
pub proof fn law_sweep_keeps_pinned(
    st: StoreState,
    ns: NamespaceRef,
    id: Seq<char>,
    h: u64,
    rest: Seq<char>,
    kappa: Seq<char>,
)
    requires
        st.tags.dom().contains((ns.id(), h)),
        st.tags[(ns.id(), h)].name == "_pin/"@ + rest,
        st.blobs.dom().contains(st.tags[(ns.id(), h)].kappa),
        json_text_of(st.blobs[st.tags[(ns.id(), h)].kappa], "kappa"@) == Some(Some(kappa)),
        st.blobs.dom().contains(kappa),
    ensures
        swept(st, ns, id).blobs.dom().contains(kappa),
        swept(st, ns, id).blobs[kappa] == st.blobs[kappa],
{
    let tag = st.tags[(ns.id(), h)];
    assert("_pin/"@ =~= tag.name.subrange(0, "_pin/"@.len() as int));
    assert("_pin/"@.is_prefix_of(tag.name));
    assert(keeps(st, tag, kappa));
    assert(is_gc_root(st, ns, kappa));
    law_sweep_keeps(st, ns, id, kappa, kappa);
}

/// What was pinned survives the next sweep: where nothing else was stored at the
/// address of the pin before.
pub proof fn law_pin_protects(
    st: StoreState,
    after: StoreState,
    ns: NamespaceRef,
    kappa: Seq<char>,
    ttl: u64,
    controller: Seq<char>,
    pk: String,
    id: Seq<char>,
)
    requires
        pin_done(st, after, ns, kappa, ttl, controller, Ok(pk)),
        json_text_of(pin_blob(kappa, ttl, controller), "kappa"@) == Some(Some(kappa)),
        st.blobs.dom().contains(kappa),
        !st.blobs.dom().contains(pk@) || st.blobs[pk@] == pin_blob(kappa, ttl, controller),
    ensures
        swept(after, ns, id).blobs.dom().contains(kappa),
        swept(after, ns, id).blobs[kappa] == st.blobs[kappa],
{
    let name = "_pin/"@ + kappa;
    let k = StoreState::filed(ns, name);
    assert(after.tags.dom().contains(k));
    assert(after.tags[k].name == name && after.tags[k].kappa == pk@);
    assert(after.blobs.dom().contains(pk@) && after.blobs[pk@] == pin_blob(kappa, ttl, controller));
    assert(after.blobs.dom().contains(kappa) && after.blobs[kappa] == st.blobs[kappa]);
    law_sweep_keeps_pinned(after, ns, id, k.1, kappa, kappa);
}

/// A sweep keeps the latest epoch.
pub proof fn law_sweep_keeps_epoch(st: StoreState, ns: NamespaceRef, id: Seq<char>)
    requires
        st.current.dom().contains(ns.id()),
        st.blobs.dom().contains(st.current[ns.id()]),
    ensures
        swept(st, ns, id).blobs.dom().contains(st.current[ns.id()]),
        swept(st, ns, id).blobs[st.current[ns.id()]] == st.blobs[st.current[ns.id()]],
{
    let kappa = st.current[ns.id()];
    assert(is_gc_root(st, ns, kappa));
    law_sweep_keeps(st, ns, id, kappa, kappa);
}

/// A sweep keeps what edges lead to from what a tag is bound to, however far.
pub proof fn law_sweep_follows_edges(
    st: StoreState,
    ns: NamespaceRef,
    id: Seq<char>,
    h: u64,
    path: Seq<Seq<char>>,
)
    requires
        st.tags.dom().contains((ns.id(), h)),
        path.len() > 0,
        path[0] == st.tags[(ns.id(), h)].kappa,
        forall|i: int| 0 < i < path.len() ==> edge_leads(st, ns, path[i - 1], #[trigger] path[i]),
        st.blobs.dom().contains(path.last()),
    ensures
        swept(st, ns, id).blobs.dom().contains(path.last()),
        swept(st, ns, id).blobs[path.last()] == st.blobs[path.last()],
{
    assert(keeps(st, st.tags[(ns.id(), h)], path[0]));
    assert(is_gc_root(st, ns, path[0]));
    assert forall|i: int| 0 < i < path.len() implies leads_to(st, ns, path[i - 1]).contains(
        #[trigger] path[i],
    ) by {
        lemma_edge_leads(st, ns, path[i - 1], path[i]);
    }
    assert(gc_roots(st, ns).contains(path[0]));
    assert(arrives(st, ns, gc_roots(st, ns), path.last(), path));
    assert(gc_kept(st, ns).contains(path.last()));
    lemma_kept(st, ns, id, path.last());
}

/// A sweep lets go of everything else: content outside some addresses among
/// which are all that tags are bound to, all that pins name, the latest epoch,
/// and all that edges lead to from them, is gone, but for the record of the
/// sweep.
pub proof fn law_sweep_evicts(
    st: StoreState,
    ns: NamespaceRef,
    id: Seq<char>,
    some: Set<Seq<char>>,
    kappa: Seq<char>,
)
    requires
        forall|h: u64| #[trigger]
            st.tags.dom().contains((ns.id(), h)) ==> some.contains(st.tags[(ns.id(), h)].kappa),
        forall|h: u64, k: Seq<char>| #[trigger]
            st.tags.dom().contains((ns.id(), h)) && "_pin/"@.is_prefix_of(
                st.tags[(ns.id(), h)].name,
            ) && stored_text(st, st.tags[(ns.id(), h)].kappa, "kappa"@) == Some(k)
                ==> #[trigger] some.contains(k),
        st.current.dom().contains(ns.id()) ==> some.contains(st.current[ns.id()]),
        forall|from: Seq<char>, to: Seq<char>|
            some.contains(from) && #[trigger] edge_leads(st, ns, from, to) ==> some.contains(to),
        !some.contains(kappa),
        kappa != kappa_of(swept_record(st, ns, id)),
    ensures
        !swept(st, ns, id).blobs.dom().contains(kappa),
{
    let roots = gc_roots(st, ns);
    assert forall|k: Seq<char>| #[trigger] roots.contains(k) implies some.contains(k) by {
        if exists|h: u64| #[trigger]
            st.tags.dom().contains((ns.id(), h)) && keeps(st, st.tags[(ns.id(), h)], k) {
            let h = choose|h: u64| #[trigger]
                st.tags.dom().contains((ns.id(), h)) && keeps(st, st.tags[(ns.id(), h)], k);
            assert(some.contains(st.tags[(ns.id(), h)].kappa));
        } else {
            assert(st.epoch_current(ns) == Some(k));
            if !st.current.dom().contains(ns.id()) {
                let f = StoreState::filed(ns, "_epoch/current"@);
                assert(st.tags.dom().contains((ns.id(), f.1)));
                assert(keeps(st, st.tags[(ns.id(), f.1)], k));
            }
        }
    }
    assert forall|k: Seq<char>, c: Seq<char>|
        some.contains(k) && #[trigger] leads_to(st, ns, k).contains(c) implies some.contains(c) by {
        lemma_edge_leads(st, ns, k, c);
    }
    law_reachable_least(st, ns, roots, some, kappa);
    assert(!gc_kept(st, ns).contains(kappa));
    law_sweep_keeps(st, ns, id, kappa, kappa);
}

/// A sweep touches nothing but content: every tag stays as it is but for the one
/// that names the record of the sweep, in the namespace that is swept.
pub proof fn law_sweep_keeps_names(st: StoreState, ns: NamespaceRef, id: Seq<char>, k: Filed)
    requires
        k != StoreState::filed(ns, "_gc/last_sweep"@),
    ensures
        swept(st, ns, id).tags.dom().contains(k) == st.tags.dom().contains(k),
        swept(st, ns, id).tags[k] == st.tags[k],
        swept(st, ns, id).edges == st.edges,
        swept(st, ns, id).fwd == st.fwd,
        swept(st, ns, id).rev == st.rev,
        swept(st, ns, id).epochs == st.epochs,
        swept(st, ns, id).current == st.current,
        swept(st, ns, id).meta == st.meta,
{
}

/// After a sweep its record is what the namespace was last swept with, where
/// nothing else is stored at its address and the tag has a version left.
pub proof fn law_sweep_recorded(st: StoreState, ns: NamespaceRef, id: Seq<char>)
    requires
        st.tag_version(ns, "_gc/last_sweep"@) < u64::MAX,
        !st.blobs.dom().contains(kappa_of(swept_record(st, ns, id))),
    ensures
        last_sweep(swept(st, ns, id), ns) == Some(swept_record(st, ns, id)),
{
}

/// Whether one of the pins of a namespace is the pin at an address.
pub open spec fn is_pin(st: StoreState, ns: NamespaceRef, h: u64, pin: Seq<char>) -> bool {
    st.tags.dom().contains((ns.id(), h)) && "_pin/"@.is_prefix_of(st.tags[(ns.id(), h)].name)
        && st.tags[(ns.id(), h)].kappa == pin
}

proof fn lemma_first_bound_at(tags: Seq<TagView>, kappa: Seq<char>)
    ensures
        0 <= first_bound(tags, kappa) <= tags.len(),
        first_bound(tags, kappa) < tags.len() ==> tags[first_bound(tags, kappa)].kappa == kappa,
        forall|j: int| 0 <= j < first_bound(tags, kappa) ==> (#[trigger] tags[j]).kappa != kappa,
    decreases tags.len(),
{
    if tags.len() > 0 && tags[0].kappa != kappa {
        let rest = tags.drop_first();
        lemma_first_bound_at(rest, kappa);
        assert forall|j: int| 0 <= j < first_bound(tags, kappa) implies (
        #[trigger] tags[j]).kappa != kappa by {
            if j > 0 {
                assert(rest[j - 1] == tags[j]);
            }
        }
    }
}

/// A pin whose record names a controller cannot be taken away before it is
/// released: the attempt is answered with the controller and changes nothing.
pub proof fn law_pin_held(
    st: StoreState,
    after: StoreState,
    ns: NamespaceRef,
    h: u64,
    pin: Seq<char>,
    controller: Seq<char>,
    out: Result<(), StoreError>,
)
    requires
        unpin_done(st, after, ns, pin, false, out),
        is_pin(st, ns, h, pin),
        stored_text(st, pin, "controller"@) == Some(controller),
        controller.len() > 0,
        !st.tags.dom().contains(StoreState::filed(ns, "_released/"@ + pin)),
    ensures
        after == st,
        out matches Err(StoreError::Conflict(m)) && m@ == controller,
{
    let pins = choose|pins: Seq<TagView>| #[trigger]
        st.is_listing(ns, "_pin/"@, pins) && unpinned(st, after, ns, pins, pin, false, out);
    lemma_first_bound_at(pins, pin);
    assert(pins.contains(st.tags[(ns.id(), h)]));
}

/// Releasing a controlled pin goes well, leaves the pin in place, and lets the
/// next attempt take it away; with it goes the mark of the release.
pub proof fn law_pin_released(
    st: StoreState,
    between: StoreState,
    after: StoreState,
    ns: NamespaceRef,
    h: u64,
    pin: Seq<char>,
    controller: Seq<char>,
    first: Result<(), StoreError>,
    out: Result<(), StoreError>,
)
    requires
        unpin_done(st, between, ns, pin, true, first),
        unpin_done(between, after, ns, pin, false, out),
        is_pin(st, ns, h, pin),
        h != name_hash("_released/"@ + pin),
        stored_text(st, pin, "controller"@) == Some(controller),
        controller.len() > 0,
        !st.tags.dom().contains(StoreState::filed(ns, "_released/"@ + pin)),
    ensures
        first is Ok,
        is_pin(between, ns, h, pin),
        between.tags.dom().contains(StoreState::filed(ns, "_released/"@ + pin)),
        out is Ok,
        !after.tags.dom().contains(StoreState::filed(ns, "_released/"@ + pin)),
        exists|g: u64| #[trigger] is_pin(between, ns, g, pin) && !is_pin(after, ns, g, pin),
{
    let pins = choose|pins: Seq<TagView>| #[trigger]
        st.is_listing(ns, "_pin/"@, pins) && unpinned(st, between, ns, pins, pin, true, first);
    lemma_first_bound_at(pins, pin);
    assert(pins.contains(st.tags[(ns.id(), h)]));
    let later = choose|pins: Seq<TagView>| #[trigger]
        between.is_listing(ns, "_pin/"@, pins) && unpinned(
            between,
            after,
            ns,
            pins,
            pin,
            false,
            out,
        );
    lemma_first_bound_at(later, pin);
    assert(is_pin(between, ns, h, pin));
    assert(later.contains(between.tags[(ns.id(), h)]));
    let at = first_bound(later, pin);
    let g = name_hash(later[at].name);
    assert(StoreState::filed(ns, later[at].name) == (ns.id(), g));
    assert(is_pin(between, ns, g, pin));
    assert(!is_pin(after, ns, g, pin));
}

/// A pin without a controller is taken away at the first attempt, and nothing
/// else with it but a mark of its release. Where no pin has the address, the
/// attempt says so and changes nothing.
pub proof fn law_pin_taken_away(
    st: StoreState,
    after: StoreState,
    ns: NamespaceRef,
    pin: Seq<char>,
    release: bool,
    out: Result<(), StoreError>,
)
    requires
        unpin_done(st, after, ns, pin, release, out),
        st.wf(),
        stored_text(st, pin, "controller"@) is None || stored_text(st, pin, "controller"@)
            == Some(Seq::<char>::empty()),
    ensures
        (exists|h: u64| #[trigger] is_pin(st, ns, h, pin)) ==> out is Ok && after.blobs == st.blobs
            && exists|h: u64| #[trigger]
            is_pin(st, ns, h, pin) && after.tags == st.tags.remove((ns.id(), h)).remove(
                StoreState::filed(ns, "_released/"@ + pin),
            ),
        !(exists|h: u64| #[trigger] is_pin(st, ns, h, pin)) ==> after == st && (
        out matches Err(StoreError::NotFound(k)) && k@ == pin),
{
    let pins = choose|pins: Seq<TagView>| #[trigger]
        st.is_listing(ns, "_pin/"@, pins) && unpinned(st, after, ns, pins, pin, release, out);
    lemma_first_bound_at(pins, pin);
    let at = first_bound(pins, pin);
    if exists|h: u64| #[trigger] is_pin(st, ns, h, pin) {
        let h = choose|h: u64| #[trigger] is_pin(st, ns, h, pin);
        assert(pins.contains(st.tags[(ns.id(), h)]));
    }
    if at < pins.len() {
        let g = name_hash(pins[at].name);
        assert(StoreState::filed(ns, pins[at].name) == (ns.id(), g));
        assert(is_pin(st, ns, g, pin));
    }
}

/// The finalizers that are waited for are those of the pins with a controller.
pub proof fn law_finalizers(st: StoreState, pins: Seq<TagView>, i: int)
    requires
        0 <= i < pins.len(),
    ensures
        forall|kappa: Seq<char>, c: Seq<char>|
            stored_text(st, pins[i].kappa, "kappa"@) == Some(kappa) && stored_text(
                st,
                pins[i].kappa,
                "controller"@,
            ) == Some(c) && c.len() > 0 ==> #[trigger] finalizers(st, pins).contains((kappa, c)),
        finalizers(st, pins).len() <= pins.len(),
    decreases pins.len(),
{
    let front = pins.drop_last();
    let before = finalizers(st, front);
    let all = finalizers(st, pins);
    if front.len() > 0 {
        law_finalizers(st, front, if i < front.len() { i } else { 0 });
    }
    assert forall|kappa: Seq<char>, c: Seq<char>|
        stored_text(st, pins[i].kappa, "kappa"@) == Some(kappa) && stored_text(
            st,
            pins[i].kappa,
            "controller"@,
        ) == Some(c) && c.len() > 0 implies #[trigger] all.contains((kappa, c)) by {
        if i < front.len() {
            assert(front[i] == pins[i]);
            assert(before.contains((kappa, c)));
            let j = choose|j: int| 0 <= j < before.len() && before[j] == (kappa, c);
            assert(all[j] == before[j]);
        } else {
            assert(all[all.len() - 1] == (kappa, c));
        }
    }
}

/// A cascading delete leaves nothing at its roots, nor at anything that edges
/// lead to from them.
pub proof fn law_cascade_deletes(
    st: StoreState,
    after: StoreState,
    ns: NamespaceRef,
    roots: Seq<Seq<char>>,
    out: Result<CascadeReport, String>,
    path: Seq<Seq<char>>,
)
    requires
        cascade_done(st, after, ns, roots, out),
        path.len() > 0,
        roots.contains(path[0]),
        forall|i: int| 0 < i < path.len() ==> edge_leads(st, ns, path[i - 1], #[trigger] path[i]),
    ensures
        out is Ok,
        !after.blobs.dom().contains(path.last()),
{
    assert forall|i: int| 0 < i < path.len() implies leads_to(st, ns, path[i - 1]).contains(
        #[trigger] path[i],
    ) by {
        lemma_edge_leads(st, ns, path[i - 1], path[i]);
    }
    assert(roots.to_set().contains(path[0]));
    assert(arrives(st, ns, roots.to_set(), path.last(), path));
}

/// A cascading delete leaves everything outside some addresses as it was, where
/// the roots are among them and no edge leads out of them.
pub proof fn law_cascade_spares(
    st: StoreState,
    after: StoreState,
    ns: NamespaceRef,
    roots: Seq<Seq<char>>,
    out: Result<CascadeReport, String>,
    some: Set<Seq<char>>,
    kappa: Seq<char>,
)
    requires
        cascade_done(st, after, ns, roots, out),
        forall|i: int| 0 <= i < roots.len() ==> some.contains(#[trigger] roots[i]),
        forall|from: Seq<char>, to: Seq<char>|
            some.contains(from) && #[trigger] edge_leads(st, ns, from, to) ==> some.contains(to),
        !some.contains(kappa),
    ensures
        after.blobs.dom().contains(kappa) == st.blobs.dom().contains(kappa),
        st.blobs.dom().contains(kappa) ==> after.blobs[kappa] == st.blobs[kappa],
        after.tags == st.tags,
        after.edges == st.edges,
{
    assert forall|k: Seq<char>, c: Seq<char>|
        some.contains(k) && #[trigger] leads_to(st, ns, k).contains(c) implies some.contains(c) by {
        lemma_edge_leads(st, ns, k, c);
    }
    law_reachable_least(st, ns, roots.to_set(), some, kappa);
}

} // verus!
