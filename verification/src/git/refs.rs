//! Refs over the store's tags. A symbolic ref is a tag whose value is `ref: `
//! and the name of another ref.

use vstd::prelude::*;

use crate::store::memory::InMemoryStore;
use crate::store::state::StoreState;
use crate::text::{joined, same_text, text_begins_with, text_strip_prefix};
use crate::types::{NamespaceRef, StoreError, TagUpdate, TagView, UpdateView};

verus! {

/// Refs that are followed before a chain counts as a loop.
pub const MAX_SYMREF_DEPTH: usize = 10;

/// Why a ref operation failed.
#[derive(Debug)]
pub enum RefError {
    Store(StoreError),
    UpdateRejected { expected: String, actual: String },
    SymrefLoop { name: String },
    NotFound(String),
}

/// Whether a tag's value makes it a symbolic ref.
pub open spec fn is_symref(value: Seq<char>) -> bool {
    "ref: "@.is_prefix_of(value)
}

/// The ref that a symbolic ref points to.
pub open spec fn symref_target(value: Seq<char>) -> Seq<char> {
    value.skip("ref: "@.len() as int)
}

/// What a ref leads to within a number of steps: an object, nothing, or no
/// end.
pub open spec fn resolve_within(st: StoreState, ns: NamespaceRef, name: Seq<char>, steps: nat) -> Result<
    Option<Seq<char>>,
    (),
>
    decreases steps,
{
    let k = StoreState::filed(ns, name);
    if steps == 0 {
        Err(())
    } else if !st.tags.dom().contains(k) {
        Ok(None)
    } else if is_symref(st.tags[k].kappa) {
        resolve_within(st, ns, symref_target(st.tags[k].kappa), (steps - 1) as nat)
    } else {
        Ok(Some(st.tags[k].kappa))
    }
}

/// What a ref leads to.
pub open spec fn resolved(st: StoreState, ns: NamespaceRef, name: Seq<char>) -> Result<
    Option<Seq<char>>,
    (),
> {
    resolve_within(st, ns, name, MAX_SYMREF_DEPTH as nat)
}

/// What an update compares its expectation with: the value of the ref, or what
/// it leads to where it is symbolic.
pub open spec fn compared(st: StoreState, ns: NamespaceRef, name: Seq<char>) -> Result<
    Option<Seq<char>>,
    (),
> {
    let k = StoreState::filed(ns, name);
    if !st.tags.dom().contains(k) {
        Ok(None)
    } else if is_symref(st.tags[k].kappa) {
        resolved(st, ns, name)
    } else {
        Ok(Some(st.tags[k].kappa))
    }
}

/// Whether an update finds the ref as it expects: absent where it expects
/// none, or leading to the expected object.
pub open spec fn update_expected(st: StoreState, ns: NamespaceRef, name: Seq<char>, old_oid: Option<Seq<char>>) -> bool {
    match old_oid {
        None => st.tag_version(ns, name) == 0,
        Some(expected) => compared(st, ns, name) == Ok::<Option<Seq<char>>, ()>(Some(expected)),
    }
}

/// Follows a ref to the object it leads to; none where the ref does not exist.
pub fn resolve_ref(store: &InMemoryStore, namespace: &NamespaceRef, ref_name: &str) -> (out: Result<
    Option<String>,
    RefError,
>)
    requires
        store.wf(),
    ensures
        match (out, resolved(store.state(), *namespace, ref_name@)) {
            (Ok(Some(k)), Ok(Some(v))) => k@ == v,
            (Ok(None), Ok(None)) => true,
            (Err(RefError::SymrefLoop { name }), Err(_)) => name@ == ref_name@,
            _ => false,
        },
{
    let mut current = ref_name.to_owned();
    let mut left: usize = MAX_SYMREF_DEPTH;
    while left > 0
        invariant
            store.wf(),
            left <= MAX_SYMREF_DEPTH,
            resolve_within(store.state(), *namespace, current@, left as nat) == resolved(
                store.state(),
                *namespace,
                ref_name@,
            ),
        decreases left,
    {
        match store.tag_get(namespace, current.as_str()) {
            Ok(entry) => {
                match text_strip_prefix(entry.kappa.as_str(), "ref: ") {
                    Some(target) => {
                        proof {
                            let value = entry.kappa@;
                            assert(is_symref(value)) by {
                                assert(value.subrange(0, "ref: "@.len() as int) =~= "ref: "@);
                            }
                            assert(symref_target(value) =~= target@);
                        }
                        current = target;
                    },
                    None => {
                        return Ok(Some(entry.kappa));
                    },
                }
            },
            Err(_) => {
                return Ok(None);
            },
        }
        left -= 1;
    }
    Err(RefError::SymrefLoop { name: ref_name.to_owned() })
}

fn bind_if(
    store: &mut InMemoryStore,
    namespace: &NamespaceRef,
    ref_name: &str,
    new_oid: &str,
    version: u64,
) -> (out: Result<(), StoreError>)
    requires
        old(store).wf(),
    ensures
        final(store).wf(),
        match out {
            Ok(_) => old(store).state().tag_version(*namespace, ref_name@) == version && version
                < u64::MAX && final(store).state() == old(store).state().tag_set(
                *namespace,
                ref_name@,
                new_oid@,
            ),
            Err(StoreError::Conflict(_)) => old(store).state().tag_version(*namespace, ref_name@)
                != version && final(store).state() == old(store).state().ensured(*namespace),
            Err(StoreError::Rejected(_)) => old(store).state().tag_version(*namespace, ref_name@)
                == version && version == u64::MAX && final(store).state() == old(
                store).state().ensured(*namespace),
            Err(_) => false,
        },
{
    let mut updates: Vec<TagUpdate> = Vec::new();
    updates.push(
        TagUpdate {
            name: ref_name.to_owned(),
            kappa: new_oid.to_owned(),
            expected_version: Some(version),
        },
    );
    let list = updates.as_slice();
    let ghost shown = list.deep_view();
    proof {
        let st = store.state();
        assert(shown.len() == 1);
        assert(shown[0].name == ref_name@);
        assert(st.expected(*namespace, shown) == (st.tag_version(*namespace, ref_name@)
            == version)) by {
            if st.tag_version(*namespace, ref_name@) == version {
                assert forall|i: int| 0 <= i < shown.len() implies (
                (#[trigger] shown[i]).expected_version matches Some(v) ==> v == st.tag_version(
                    *namespace,
                    shown[i].name,
                )) by {}
            } else {
                assert(shown[0].expected_version matches Some(v) && v == version);
            }
        }
        assert(st.room_for_all(*namespace, shown) == (st.tag_version(*namespace, ref_name@)
            < u64::MAX)) by {
            assert(st.tag_version(*namespace, shown[0].name) == st.tag_version(
                *namespace,
                ref_name@,
            ));
        }
        assert(shown.drop_last() =~= Seq::<UpdateView>::empty());
        let here = st.ensured(*namespace);
        assert(here.all_bound(*namespace, shown.drop_last()) == here);
        assert(here.all_bound(*namespace, shown) == here.bound(
            *namespace,
            ref_name@,
            new_oid@,
        ));
    }
    store.tag_set_batch(namespace, list)
}

/// Moves a ref to a new object, if it is as the update expects: absent where
/// `old_oid` is none, leading to `old_oid` otherwise.
pub fn update_ref(
    store: &mut InMemoryStore,
    namespace: &NamespaceRef,
    ref_name: &str,
    new_oid: &str,
    old_oid: Option<&str>,
) -> (out: Result<(), RefError>)
    requires
        old(store).wf(),
    ensures
        final(store).wf(),
        ({
            let before = old(store).state();
            let after = final(store).state();
            let expected = match old_oid {
                Some(o) => Some(o@),
                None => None,
            };
            match out {
                Ok(_) => update_expected(before, *namespace, ref_name@, expected)
                    && before.tag_version(*namespace, ref_name@) < u64::MAX && after
                    == before.tag_set(*namespace, ref_name@, new_oid@),
                Err(RefError::UpdateRejected { expected: e, actual: a }) => {
                    &&& !update_expected(before, *namespace, ref_name@, expected)
                    &&& match expected {
                        None => e@ == "(none)"@ && a@ == "(exists)"@ && after == before.ensured(
                            *namespace,
                        ),
                        Some(want) => e@ == want && after == before && match compared(
                            before,
                            *namespace,
                            ref_name@,
                        ) {
                            Ok(Some(is)) => a@ == is,
                            Ok(None) => a@ == "(none)"@ && !before.tags.dom().contains(
                                StoreState::filed(*namespace, ref_name@),
                            ),
                            Err(_) => false,
                        },
                    }
                },
                Err(RefError::SymrefLoop { name }) => expected is Some && compared(
                    before,
                    *namespace,
                    ref_name@,
                ) is Err && name@ == ref_name@ && after == before,
                Err(RefError::NotFound(name)) => expected is Some && compared(
                    before,
                    *namespace,
                    ref_name@,
                ) == Ok::<Option<Seq<char>>, ()>(None) && before.tags.dom().contains(
                    StoreState::filed(*namespace, ref_name@),
                ) && name@ == ref_name@ && after == before,
                Err(RefError::Store(_)) => update_expected(before, *namespace, ref_name@, expected)
                    && before.tag_version(*namespace, ref_name@) == u64::MAX && after
                    == before.ensured(*namespace),
            }
        }),
{
    let expected = match old_oid {
        None => {
            return match bind_if(store, namespace, ref_name, new_oid, 0) {
                Ok(_) => Ok(()),
                Err(StoreError::Conflict(_)) => Err(
                    RefError::UpdateRejected {
                        expected: "(none)".to_owned(),
                        actual: "(exists)".to_owned(),
                    },
                ),
                Err(e) => Err(RefError::Store(e)),
            };
        },
        Some(expected) => expected,
    };
    let current = match store.tag_get(namespace, ref_name) {
        Ok(entry) => entry,
        Err(_) => {
            return Err(
                RefError::UpdateRejected {
                    expected: expected.to_owned(),
                    actual: "(none)".to_owned(),
                },
            );
        },
    };
    let resolved = if text_begins_with(current.kappa.as_str(), "ref: ") {
        match resolve_ref(store, namespace, ref_name) {
            Ok(Some(k)) => k,
            Ok(None) => return Err(RefError::NotFound(ref_name.to_owned())),
            Err(e) => return Err(e),
        }
    } else {
        current.kappa.clone()
    };
    if !same_text(resolved.as_str(), expected) {
        return Err(RefError::UpdateRejected { expected: expected.to_owned(), actual: resolved });
    }
    match bind_if(store, namespace, ref_name, new_oid, current.version) {
        Ok(_) => Ok(()),
        Err(e) => Err(RefError::Store(e)),
    }
}

/// Makes a ref point to another ref.
pub fn set_symbolic_ref(
    store: &mut InMemoryStore,
    namespace: &NamespaceRef,
    name: &str,
    target: &str,
) -> (out: Result<(), RefError>)
    requires
        old(store).wf(),
    ensures
        final(store).wf(),
        match out {
            Ok(_) => old(store).state().tag_version(*namespace, name@) < u64::MAX && final(
                store).state() == old(store).state().tag_set(*namespace, name@, "ref: "@ + target@),
            Err(e) => e is Store && old(store).state().tag_version(*namespace, name@) == u64::MAX
                && final(store).state() == old(store).state().ensured(*namespace),
        },
{
    let value = joined("ref: ", target);
    match store.tag_set(namespace, name, value.as_str()) {
        Ok(_) => Ok(()),
        Err(e) => Err(RefError::Store(e)),
    }
}

/// Names and values of a list of tags.
pub open spec fn tag_pairs(list: Seq<TagView>) -> Seq<(Seq<char>, Seq<char>)> {
    Seq::new(list.len(), |i: int| (list[i].name, list[i].kappa))
}

/// The refs whose names begin with a prefix, with their values, in ascending
/// order.
pub fn list_refs(store: &InMemoryStore, namespace: &NamespaceRef, prefix: &str) -> (out: Result<
    Vec<(String, String)>,
    RefError,
>)
    requires
        store.wf(),
    ensures
        match out {
            Ok(list) => exists|tags: Seq<TagView>| #[trigger]
                store.state().is_listing(*namespace, prefix@, tags) && crate::verified::pair_texts(
                    list@,
                ) == tag_pairs(tags),
            Err(_) => false,
        },
{
    let tags = match store.tag_prefix(namespace, prefix) {
        Ok(tags) => tags,
        Err(e) => return Err(RefError::Store(e)),
    };
    let ghost views = tags.deep_view();
    let mut list: Vec<(String, String)> = Vec::new();
    let mut i: usize = 0;
    while i < tags.len()
        invariant
            i <= tags@.len(),
            views == tags.deep_view(),
            list@.len() == i,
            forall|k: int|
                0 <= k < i ==> (#[trigger] list@[k]).0@ == views[k].name && list@[k].1@
                    == views[k].kappa,
        decreases tags@.len() - i,
    {
        list.push((tags[i].name.clone(), tags[i].kappa.clone()));
        i += 1;
    }
    assert(crate::verified::pair_texts(list@) =~= tag_pairs(views));
    Ok(list)
}

/// Deletes a ref.
pub fn delete_ref(store: &mut InMemoryStore, namespace: &NamespaceRef, ref_name: &str) -> (out: Result<
    (),
    RefError,
>)
    requires
        old(store).wf(),
    ensures
        final(store).wf(),
        final(store).state() == old(store).state().unbound(*namespace, ref_name@),
        out is Ok,
{
    match store.tag_delete(namespace, ref_name) {
        Ok(_) => Ok(()),
        Err(e) => Err(RefError::Store(e)),
    }
}

// -- Laws -----------------------------------------------------------------------

/// A ref that was moved to an object leads to that object.
pub proof fn law_update_resolves(st: StoreState, ns: NamespaceRef, name: Seq<char>, oid: Seq<char>)
    requires
        !is_symref(oid),
    ensures
        resolved(st.tag_set(ns, name, oid), ns, name) == Ok::<Option<Seq<char>>, ()>(Some(oid)),
{
}

/// A symbolic ref leads where its target leads, one step further on.
pub proof fn law_symref_follows(
    st: StoreState,
    ns: NamespaceRef,
    name: Seq<char>,
    target: Seq<char>,
    steps: nat,
)
    requires
        steps > 0,
    ensures
        ({
            let after = st.tag_set(ns, name, "ref: "@ + target);
            resolve_within(after, ns, name, steps) == resolve_within(
                after,
                ns,
                target,
                (steps - 1) as nat,
            )
        }),
{
    let value = "ref: "@ + target;
    assert(value.subrange(0, "ref: "@.len() as int) =~= "ref: "@);
    assert(symref_target(value) =~= target);
}

/// A ref that points to itself has no end.
pub proof fn law_symref_loop(st: StoreState, ns: NamespaceRef, name: Seq<char>, steps: nat)
    ensures
        resolve_within(st.tag_set(ns, name, "ref: "@ + name), ns, name, steps) is Err,
    decreases steps,
{
    if steps > 0 {
        law_symref_follows(st, ns, name, name, steps);
        law_symref_loop(st, ns, name, (steps - 1) as nat);
    }
}

/// A deleted ref does not exist.
pub proof fn law_delete_resolves(st: StoreState, ns: NamespaceRef, name: Seq<char>)
    ensures
        resolved(st.unbound(ns, name), ns, name) == Ok::<Option<Seq<char>>, ()>(None),
{
}

/// An update that expects an object is let through just where the ref is bound to
/// that object, or leads to it through a symbolic ref; one that expects nothing just
/// where the ref was never bound.
pub proof fn law_update_expected(
    st: StoreState,
    ns: NamespaceRef,
    name: Seq<char>,
    expected: Seq<char>,
)
    ensures
        ({
            let k = StoreState::filed(ns, name);
            &&& st.tags.dom().contains(k) && !"ref: "@.is_prefix_of(st.tags[k].kappa) ==> (
            update_expected(st, ns, name, Some(expected)) <==> st.tags[k].kappa == expected)
            &&& !st.tags.dom().contains(k) ==> !update_expected(st, ns, name, Some(expected))
                && update_expected(st, ns, name, None)
            &&& st.tags.dom().contains(k) && st.tags[k].version > 0 ==> !update_expected(
                st,
                ns,
                name,
                None,
            )
            &&& st.tags.dom().contains(k) && "ref: "@.is_prefix_of(st.tags[k].kappa) ==> (
            update_expected(st, ns, name, Some(expected)) <==> resolved(st, ns, name) == Ok::<
                Option<Seq<char>>,
                (),
            >(Some(expected)))
        }),
{
}

/// The refs of a listing are the tags on file whose names begin with the prefix,
/// each with what it is bound to.
pub proof fn law_refs_listed(
    st: StoreState,
    ns: NamespaceRef,
    prefix: Seq<char>,
    tags: Seq<TagView>,
    h: u64,
)
    requires
        st.is_listing(ns, prefix, tags),
        st.tags.dom().contains((ns.id(), h)),
        prefix.is_prefix_of(st.tags[(ns.id(), h)].name),
    ensures
        tag_pairs(tags).contains((st.tags[(ns.id(), h)].name, st.tags[(ns.id(), h)].kappa)),
{
    let tag = st.tags[(ns.id(), h)];
    assert(tags.contains(tag));
    let i = choose|i: int| 0 <= i < tags.len() && tags[i] == tag;
    assert(tag_pairs(tags)[i] == (tag.name, tag.kappa));
}

} // verus!
