//! Filters and schemas: content registered under a scope.

use vstd::prelude::*;

use crate::distribution::gc::shown_pairs;
use crate::distribution::records::{mark_type, typed};
use crate::kappa::kappa_of;
use crate::store::compression::blob_put_computed;
use crate::store::memory::InMemoryStore;
use crate::store::state::StoreState;
use crate::text::{joined, same_text, text_strip_prefix};
use crate::types::{Edge, EdgeRelation, EdgeView, NamespaceRef, StoreError, TagView};

verus! {

/// A store with content registered under a name and marked with its type.
pub open spec fn registered(
    st: StoreState,
    ns: NamespaceRef,
    name: Seq<char>,
    content: Seq<u8>,
    kind: Seq<char>,
) -> StoreState {
    let kappa = kappa_of(content);
    typed(st.put_blob(kappa, content).tag_set(ns, name, kappa), ns, kappa, kind)
}

/// Whether registering did what it should.
pub open spec fn registered_as(
    st: StoreState,
    after: StoreState,
    ns: NamespaceRef,
    name: Seq<char>,
    content: Seq<u8>,
    kind: Seq<char>,
    out: Result<String, StoreError>,
) -> bool {
    match out {
        Ok(kappa) => st.tag_version(ns, name) < u64::MAX && kappa@ == kappa_of(content) && after
            == registered(st, ns, name, content, kind),
        Err(e) => e is Rejected && st.tag_version(ns, name) == u64::MAX && after == st.put_blob(
            kappa_of(content),
            content,
        ).ensured(ns),
    }
}

fn register_content(
    store: &mut InMemoryStore,
    ns: &NamespaceRef,
    name: &str,
    content: &[u8],
    kind: &str,
) -> (out: Result<String, StoreError>)
    requires
        old(store).wf(),
    ensures
        final(store).wf(),
        registered_as(
            old(store).state(),
            final(store).state(),
            *ns,
            name@,
            content@,
            kind@,
            out,
        ),
{
    let kappa = match blob_put_computed(store, content) {
        Ok(kappa) => kappa,
        Err(e) => return Err(e),
    };
    match store.tag_set(ns, name, kappa.as_str()) {
        Ok(_) => {},
        Err(e) => return Err(e),
    }
    mark_type(store, ns, kappa.as_str(), kind);
    Ok(kappa)
}

/// The scope and the address of each tag whose name is a prefix and a scope.
pub open spec fn scopes(tags: Seq<TagView>, prefix: Seq<char>) -> Seq<(Seq<char>, Seq<char>)> {
    Seq::new(tags.len(), |i: int| (tags[i].name.skip(prefix.len() as int), tags[i].kappa))
}

fn list_scoped(store: &InMemoryStore, ns: &NamespaceRef, prefix: &str) -> (out: Vec<
    (String, String),
>)
    requires
        store.wf(),
    ensures
        exists|tags: Seq<TagView>| #[trigger]
            store.state().is_listing(*ns, prefix@, tags)
                && shown_pairs(out@) == scopes(tags, prefix@),
{
    let tags = match store.tag_prefix(ns, prefix) {
        Ok(tags) => tags,
        Err(_) => Vec::new(),
    };
    let ghost all = tags.deep_view();
    let ghost want = scopes(all, prefix@);
    let mut out: Vec<(String, String)> = Vec::new();
    let mut i: usize = 0;
    assert(shown_pairs(out@) =~= want.take(0));
    while i < tags.len()
        invariant
            i <= tags@.len(),
            all == tags.deep_view(),
            all.len() == tags@.len(),
            store.state().is_listing(*ns, prefix@, all),
            want == scopes(all, prefix@),
            shown_pairs(out@) == want.take(i as int),
        decreases tags@.len() - i,
    {
        let ghost had = out@;
        assert(all[i as int] == tags@[i as int].deep_view());
        assert(prefix@.is_prefix_of(all[i as int].name));
        let scope = match text_strip_prefix(tags[i].name.as_str(), prefix) {
            Some(scope) => scope,
            None => tags[i].name.clone(),
        };
        assert(scope@ =~= all[i as int].name.skip(prefix@.len() as int));
        let kappa = tags[i].kappa.clone();
        let ghost pair = (scope@, kappa@);
        out.push((scope, kappa));
        proof {
            assert(shown_pairs(out@) =~= shown_pairs(had).push(pair));
            assert(want.take(i + 1) =~= want.take(i as int).push(want[i as int]));
        }
        i += 1;
    }
    assert(want.take(want.len() as int) =~= want);
    out
}

// -- Filters ----------------------------------------------------------------------

/// Registers a filter under a scope; its address.
pub fn register_filter(store: &mut InMemoryStore, ns: &NamespaceRef, scope: &str, content: &[u8]) -> (out: Result<
    String,
    StoreError,
>)
    requires
        old(store).wf(),
    ensures
        final(store).wf(),
        registered_as(
            old(store).state(),
            final(store).state(),
            *ns,
            "_filter/"@ + scope@,
            content@,
            "filter"@,
            out,
        ),
{
    let name = joined("_filter/", scope);
    register_content(store, ns, name.as_str(), content, "filter")
}

/// The scope and the address of every filter, by ascending scope.
pub fn list_filters(store: &InMemoryStore, ns: &NamespaceRef) -> (out: Vec<(String, String)>)
    requires
        store.wf(),
    ensures
        exists|tags: Seq<TagView>| #[trigger]
            store.state().is_listing(*ns, "_filter/"@, tags)
                && shown_pairs(out@) == scopes(tags, "_filter/"@),
{
    list_scoped(store, ns, "_filter/")
}

/// The name of the first filter that a key stands for, by its address or its
/// scope; the name with the key as scope where there is none.
pub open spec fn filter_named(tags: Seq<TagView>, key: Seq<char>) -> Seq<char>
    decreases tags.len(),
{
    if tags.len() == 0 {
        "_filter/"@ + key
    } else if tags[0].kappa == key || tags[0].name == "_filter/"@ + key {
        tags[0].name
    } else {
        filter_named(tags.drop_first(), key)
    }
}

proof fn lemma_filter_named(tags: Seq<TagView>, key: Seq<char>, i: int)
    requires
        0 <= i <= tags.len(),
        forall|j: int|
            0 <= j < i ==> (#[trigger] tags[j]).kappa != key && tags[j].name != "_filter/"@ + key,
        i < tags.len() ==> tags[i].kappa == key || tags[i].name == "_filter/"@ + key,
    ensures
        filter_named(tags, key) == (if i < tags.len() {
            tags[i].name
        } else {
            "_filter/"@ + key
        }),
    decreases tags.len(),
{
    if i > 0 {
        assert(tags[0].kappa != key);
        let rest = tags.drop_first();
        assert forall|j: int| 0 <= j < i - 1 implies (#[trigger] rest[j]).kappa != key
            && rest[j].name != "_filter/"@ + key by {
            assert(rest[j] == tags[j + 1]);
        }
        lemma_filter_named(rest, key, i - 1);
    }
}

/// Deletes the filter that a key stands for, by its address or its scope.
pub fn delete_filter(store: &mut InMemoryStore, ns: &NamespaceRef, key: &str)
    requires
        old(store).wf(),
    ensures
        final(store).wf(),
        exists|tags: Seq<TagView>| #[trigger]
            old(store).state().is_listing(*ns, "_filter/"@, tags) && final(store).state() == old(
                store).state().unbound(*ns, filter_named(tags, key@)),
{
    let ghost st = store.state();
    let tags = match store.tag_prefix(ns, "_filter/") {
        Ok(tags) => tags,
        Err(_) => Vec::new(),
    };
    let ghost all = tags.deep_view();
    let name = joined("_filter/", key);
    let mut i: usize = 0;
    while i < tags.len()
        invariant
            store.wf(),
            st == store.state(),
            i <= tags@.len(),
            all == tags.deep_view(),
            all.len() == tags@.len(),
            st.is_listing(*ns, "_filter/"@, all),
            st == old(store).state(),
            name@ == "_filter/"@ + key@,
            forall|j: int|
                0 <= j < i ==> (#[trigger] all[j]).kappa != key@ && all[j].name != "_filter/"@
                    + key@,
        decreases tags@.len() - i,
    {
        assert(all[i as int] == tags@[i as int].deep_view());
        if same_text(tags[i].kappa.as_str(), key) || same_text(
            tags[i].name.as_str(),
            name.as_str(),
        ) {
            proof {
                lemma_filter_named(all, key@, i as int);
            }
            let _ = store.tag_delete(ns, tags[i].name.as_str());
            return;
        }
        i += 1;
    }
    proof {
        lemma_filter_named(all, key@, i as int);
    }
    let _ = store.tag_delete(ns, name.as_str());
}

// -- Schemas ----------------------------------------------------------------------

/// A store in which a schema that follows another is linked to it.
pub open spec fn evolved(
    st: StoreState,
    ns: NamespaceRef,
    before: Option<Seq<char>>,
    kappa: Seq<char>,
    asserter: Seq<char>,
) -> StoreState {
    match before {
        Some(old_kappa) => if old_kappa != kappa {
            st.edge_put(
                ns,
                EdgeView {
                    source: kappa,
                    target: old_kappa,
                    relation: EdgeRelation::DerivedFrom,
                    asserter,
                    value_kappa: None,
                    metadata: None,
                },
            )
        } else {
            st
        },
        None => st,
    }
}

/// The address that a name is bound to.
pub open spec fn bound_to(st: StoreState, ns: NamespaceRef, name: Seq<char>) -> Option<Seq<char>> {
    let k = StoreState::filed(ns, name);
    if st.tags.dom().contains(k) {
        Some(st.tags[k].kappa)
    } else {
        None
    }
}

/// Registers a schema under a scope, with an edge to the one it takes the place
/// of where that is another; its address.
pub fn register_schema(
    store: &mut InMemoryStore,
    ns: &NamespaceRef,
    scope: &str,
    content: &[u8],
    asserter: &str,
) -> (out: Result<String, StoreError>)
    requires
        old(store).wf(),
    ensures
        final(store).wf(),
        ({
            let st = old(store).state();
            let name = "_schema/"@ + scope@;
            match out {
                Ok(kappa) => st.tag_version(*ns, name) < u64::MAX && kappa@ == kappa_of(content@)
                    && final(store).state() == evolved(
                    registered(st, *ns, name, content@, "schema"@),
                    *ns,
                    bound_to(st, *ns, name),
                    kappa@,
                    asserter@,
                ),
                Err(e) => registered_as(
                    st,
                    final(store).state(),
                    *ns,
                    name,
                    content@,
                    "schema"@,
                    out,
                ),
            }
        }),
{
    let name = joined("_schema/", scope);
    let before = match store.tag_get(ns, name.as_str()) {
        Ok(entry) => Some(entry.kappa),
        Err(_) => None,
    };
    let kappa = match register_content(store, ns, name.as_str(), content, "schema") {
        Ok(kappa) => kappa,
        Err(e) => return Err(e),
    };
    if let Some(old_kappa) = before {
        if !same_text(old_kappa.as_str(), kappa.as_str()) {
            let edge = Edge {
                source: kappa.clone(),
                target: old_kappa,
                relation: EdgeRelation::DerivedFrom,
                asserter: asserter.to_owned(),
                value_kappa: None,
                metadata: None,
            };
            let _ = store.edge_put(ns, &edge);
        }
    }
    Ok(kappa)
}

/// The address and the content of the schema under a scope.
pub fn get_schema(store: &InMemoryStore, ns: &NamespaceRef, scope: &str) -> (out: Result<
    (String, Vec<u8>),
    StoreError,
>)
    requires
        store.wf(),
    ensures
        match (out, bound_to(store.state(), *ns, "_schema/"@ + scope@)) {
            (Ok((kappa, content)), Some(k)) => kappa@ == k && store.state().blobs.dom().contains(k)
                && content@ == store.state().blobs[k],
            (Err(StoreError::NotFound(m)), Some(k)) => !store.state().blobs.dom().contains(k) && m@
                == k,
            (Err(StoreError::NotFound(m)), None) => m@ == ns.shown() + "/"@ + ("_schema/"@
                + scope@),
            _ => false,
        },
{
    let name = joined("_schema/", scope);
    let entry = match store.tag_get(ns, name.as_str()) {
        Ok(entry) => entry,
        Err(e) => return Err(e),
    };
    match store.blob_get(entry.kappa.as_str()) {
        Ok(content) => Ok((entry.kappa, content)),
        Err(e) => Err(e),
    }
}

/// The scope and the address of every schema, by ascending scope.
pub fn list_schemas(store: &InMemoryStore, ns: &NamespaceRef) -> (out: Vec<(String, String)>)
    requires
        store.wf(),
    ensures
        exists|tags: Seq<TagView>| #[trigger]
            store.state().is_listing(*ns, "_schema/"@, tags)
                && shown_pairs(out@) == scopes(tags, "_schema/"@),
{
    list_scoped(store, ns, "_schema/")
}

/// What was registered is found: its name is bound to its address, and the
/// address holds the content, unless it held something else.
pub proof fn law_registered_found(
    st: StoreState,
    ns: NamespaceRef,
    name: Seq<char>,
    content: Seq<u8>,
    kind: Seq<char>,
)
    ensures
        bound_to(registered(st, ns, name, content, kind), ns, name) == Some(kappa_of(content)),
        registered(st, ns, name, content, kind).blobs.dom().contains(kappa_of(content)),
        (st.blobs.dom().contains(kappa_of(content)) ==> st.blobs[kappa_of(content)] == content)
            ==> registered(
            st,
            ns,
            name,
            content,
            kind,
        ).blobs[kappa_of(content)] == content,
{
}

/// A schema that takes the place of another leads to the one before it, by its
/// asserter.
pub proof fn law_schema_evolves(
    st: StoreState,
    ns: NamespaceRef,
    name: Seq<char>,
    content: Seq<u8>,
    asserter: Seq<char>,
    before: Seq<char>,
    query: crate::types::EdgeQuery,
)
    requires
        bound_to(st, ns, name) == Some(before),
        before != kappa_of(content),
        query.anchor@ == kappa_of(content),
        query.direction == crate::types::Direction::Outbound,
        query.relation == Some(EdgeRelation::DerivedFrom),
        query.asserter is None,
    ensures
        ({
            let after = evolved(
                registered(st, ns, name, content, "schema"@),
                ns,
                bound_to(st, ns, name),
                kappa_of(content),
                asserter,
            );
            &&& bound_to(after, ns, name) == Some(kappa_of(content))
            &&& exists|e: EdgeView| #[trigger]
                after.edge_query(ns, query).contains(e) && e.source == kappa_of(content) && e.target
                    == before && e.asserter == asserter
        }),
{
    let here = registered(st, ns, name, content, "schema"@);
    let edge = EdgeView {
        source: kappa_of(content),
        target: before,
        relation: EdgeRelation::DerivedFrom,
        asserter,
        value_kappa: None,
        metadata: None,
    };
    crate::store::edges::law_edge_put_query(here, ns, edge, query);
}

/// A filter is named by its own name, or by the address that a filter's tag is bound
/// to: what is deleted is always one of these.
pub proof fn law_filter_named(tags: Seq<TagView>, key: Seq<char>)
    ensures
        filter_named(tags, key) == "_filter/"@ + key || exists|i: int|
            0 <= i < tags.len() && (#[trigger] tags[i]).kappa == key && tags[i].name
                == filter_named(tags, key),
        (forall|i: int| 0 <= i < tags.len() ==> (#[trigger] tags[i]).kappa != key) ==> filter_named(
            tags,
            key,
        ) == "_filter/"@ + key,
        tags.len() > 0 && tags[0].kappa == key ==> filter_named(tags, key) == tags[0].name,
    decreases tags.len(),
{
    if tags.len() > 0 && !(tags[0].kappa == key || tags[0].name == "_filter/"@ + key) {
        let rest = tags.drop_first();
        law_filter_named(rest, key);
        if filter_named(rest, key) != "_filter/"@ + key {
            let i = choose|i: int|
                0 <= i < rest.len() && (#[trigger] rest[i]).kappa == key && rest[i].name
                    == filter_named(rest, key);
            assert(tags[i + 1] == rest[i]);
        }
        if forall|i: int| 0 <= i < tags.len() ==> (#[trigger] tags[i]).kappa != key {
            assert forall|i: int| 0 <= i < rest.len() implies (#[trigger] rest[i]).kappa != key by {
                assert(rest[i] == tags[i + 1]);
            }
        }
    }
}

/// What is registered under a scope is listed under that scope with its address.
pub proof fn law_scope_listed(
    st: StoreState,
    ns: NamespaceRef,
    prefix: Seq<char>,
    tags: Seq<TagView>,
    scope: Seq<char>,
)
    requires
        st.is_listing(ns, prefix, tags),
        st.tags.dom().contains(StoreState::filed(ns, prefix + scope)),
        st.tags[StoreState::filed(ns, prefix + scope)].name == prefix + scope,
    ensures
        scopes(tags, prefix).contains(
            (scope, st.tags[StoreState::filed(ns, prefix + scope)].kappa),
        ),
{
    let k = StoreState::filed(ns, prefix + scope);
    let name = prefix + scope;
    assert(prefix =~= name.subrange(0, prefix.len() as int));
    assert(prefix.is_prefix_of(name));
    assert(st.tags.dom().contains((ns.id(), k.1)));
    assert(tags.contains(st.tags[k]));
    let i = choose|i: int| 0 <= i < tags.len() && tags[i] == st.tags[k];
    assert(name.skip(prefix.len() as int) =~= scope);
    assert(scopes(tags, prefix)[i] == (scope, st.tags[k].kappa));
}

} // verus!
