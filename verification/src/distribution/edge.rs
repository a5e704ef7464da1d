//! Edges between addresses: putting, asking, deleting and comparing.

use vstd::prelude::*;

use crate::canonical::{canonical_edge, edge_blob, edge_from_canonical, reads_edge, record_read_of};
use crate::distribution::gc::{edge_leads, lemma_edge_leads};
use crate::distribution::reach::{edge_targets, leads_to, outbound};
use crate::distribution::records::{mark_type, typed};
use crate::kappa::{kappa_from_bytes, kappa_of};
use crate::sorted::{ascending, insert_text};
use crate::store::memory::InMemoryStore;
use crate::store::state::{listed, StoreState};
use crate::text::{holds_text, same_text};
use crate::types::{
    name_hash, names_relation, Direction, Edge, EdgeQuery, EdgeRelation, EdgeView, NamespaceRef,
};

verus! {

/// Why an edge was refused.
#[derive(Debug)]
pub enum EdgeRefusal {
    UnknownRelation(String),
    SourceAbsent,
}

/// Whether edges of a relation join anchors of identities rather than blobs.
pub open spec fn joins_identities(r: EdgeRelation) -> bool {
    r == EdgeRelation::Capability || r == EdgeRelation::Delegation || r == EdgeRelation::Assertion
}

/// The address of an edge.
pub fn edge_label(edge: &Edge) -> (out: String)
    ensures
        out@ == kappa_of(edge_blob(edge.deep_view())),
{
    kappa_from_bytes(canonical_edge(edge).as_slice())
}

/// What metadata holds.
pub open spec fn shown_bytes(m: Option<Vec<u8>>) -> Option<Seq<u8>> {
    match m {
        Some(b) => Some(b@),
        None => None,
    }
}

/// Whether putting an edge did what it should.
pub open spec fn edge_put_done(
    st: StoreState,
    after: StoreState,
    ns: NamespaceRef,
    source: Seq<char>,
    relation: Seq<char>,
    target: Seq<char>,
    asserter: Seq<char>,
    metadata: Option<Seq<u8>>,
    out: Result<String, EdgeRefusal>,
) -> bool {
    match out {
        Ok(kappa) => exists|r: EdgeRelation| #[trigger]
            names_relation(relation, r) && (joins_identities(r) || st.blobs.dom().contains(source))
                && ({
                let edge = EdgeView {
                    source,
                    target,
                    relation: r,
                    asserter,
                    value_kappa: None,
                    metadata,
                };
                &&& kappa@ == kappa_of(edge_blob(edge))
                &&& after == typed(st.edge_put(ns, edge), ns, kappa@, "edge"@)
            }),
        Err(EdgeRefusal::UnknownRelation(s)) => s@ == relation && (forall|r: EdgeRelation|
            !names_relation(relation, r)) && after == st,
        Err(EdgeRefusal::SourceAbsent) => !st.blobs.dom().contains(source) && (exists|
            r: EdgeRelation,
        | #[trigger]
            names_relation(relation, r) && !joins_identities(r)) && after == st,
    }
}

/// Puts an edge between two addresses and marks it as one; its address. The
/// source must be stored, unless the relation joins identities.
pub fn put_edge(
    store: &mut InMemoryStore,
    ns: &NamespaceRef,
    source: &str,
    relation: &str,
    target: &str,
    asserter: &str,
    metadata: Option<Vec<u8>>,
) -> (out: Result<String, EdgeRefusal>)
    requires
        old(store).wf(),
    ensures
        final(store).wf(),
        edge_put_done(
            old(store).state(),
            final(store).state(),
            *ns,
            source@,
            relation@,
            target@,
            asserter@,
            shown_bytes(metadata),
            out,
        ),
{
    let r = match EdgeRelation::parse(relation) {
        Some(r) => r,
        None => return Err(EdgeRefusal::UnknownRelation(relation.to_owned())),
    };
    assert(names_relation(relation@, r));
    let identities = r == EdgeRelation::Capability || r == EdgeRelation::Delegation || r
        == EdgeRelation::Assertion;
    if !identities {
        let there = match store.blob_exists(source) {
            Ok(there) => there,
            Err(_) => false,
        };
        if !there {
            return Err(EdgeRefusal::SourceAbsent);
        }
    }
    let ghost shown = shown_bytes(metadata);
    let edge = Edge {
        source: source.to_owned(),
        target: target.to_owned(),
        relation: r,
        asserter: asserter.to_owned(),
        value_kappa: None,
        metadata,
    };
    let kappa = edge_label(&edge);
    let _ = store.edge_put(ns, &edge);
    mark_type(store, ns, kappa.as_str(), "edge");
    Ok(kappa)
}

// -- Asking -----------------------------------------------------------------------

/// Whether two edges join the same addresses with the same relation.
pub open spec fn same_ends(a: EdgeView, b: EdgeView) -> bool {
    a.source == b.source && a.target == b.target && a.relation == b.relation
}

/// Whether a list has an edge with the same ends and relation.
pub open spec fn has_ends(list: Seq<EdgeView>, edge: EdgeView) -> bool {
    exists|i: int| 0 <= i < list.len() && same_ends(#[trigger] list[i], edge)
}

/// A list of edges, and behind it those of another that join other ends.
pub open spec fn merged(first: Seq<EdgeView>, second: Seq<EdgeView>) -> Seq<EdgeView>
    decreases second.len(),
{
    if second.len() == 0 {
        first
    } else {
        let before = merged(first, second.drop_last());
        if has_ends(before, second.last()) {
            before
        } else {
            before.push(second.last())
        }
    }
}

/// The edges of an anchor in one direction.
pub open spec fn edges_toward(
    st: StoreState,
    ns: NamespaceRef,
    anchor: Seq<char>,
    inbound: bool,
    relation: Option<EdgeRelation>,
) -> Seq<EdgeView> {
    let k = (ns.id(), name_hash(anchor));
    st.edges_at(
        ns.id(),
        if inbound {
            listed(st.rev, k)
        } else {
            listed(st.fwd, k)
        },
        relation,
        None,
    )
}

/// The edges of an anchor: inbound, both ways, or else outbound.
pub open spec fn edges_found(
    st: StoreState,
    ns: NamespaceRef,
    anchor: Seq<char>,
    direction: Seq<char>,
    relation: Option<EdgeRelation>,
) -> Seq<EdgeView> {
    if direction == "both"@ {
        merged(
            edges_toward(st, ns, anchor, false, relation),
            edges_toward(st, ns, anchor, true, relation),
        )
    } else {
        edges_toward(st, ns, anchor, direction == "inbound"@, relation)
    }
}

/// At most so many edges from the front of a list.
pub open spec fn at_most(list: Seq<EdgeView>, n: Option<usize>) -> Seq<EdgeView> {
    match n {
        Some(limit) => if limit < list.len() {
            list.take(limit as int)
        } else {
            list
        },
        None => list,
    }
}

/// Whether a relation is what a text asks for; no relation where it names none.
pub open spec fn asks_for(text: Option<&str>, relation: Option<EdgeRelation>) -> bool {
    match (text, relation) {
        (Some(s), Some(r)) => names_relation(s@, r),
        (Some(s), None) => forall|r: EdgeRelation| !names_relation(s@, r),
        (None, None) => true,
        (None, Some(_)) => false,
    }
}

fn find_edges(
    store: &InMemoryStore,
    ns: &NamespaceRef,
    anchor: &str,
    inbound: bool,
    relation: Option<EdgeRelation>,
) -> (out: Vec<Edge>)
    requires
        store.wf(),
    ensures
        out.deep_view() == edges_toward(store.state(), *ns, anchor@, inbound, relation),
{
    let query = EdgeQuery {
        anchor: anchor.to_owned(),
        direction: if inbound {
            Direction::Inbound
        } else {
            Direction::Outbound
        },
        relation,
        asserter: None,
    };
    match store.edge_query(ns, &query) {
        Ok(edges) => edges,
        Err(_) => Vec::new(),
    }
}

fn holds_ends(list: &Vec<Edge>, edge: &Edge) -> (yes: bool)
    ensures
        yes == has_ends(list.deep_view(), edge.deep_view()),
{
    let ghost all = list.deep_view();
    let mut i: usize = 0;
    while i < list.len()
        invariant
            i <= list@.len(),
            all == list.deep_view(),
            all.len() == list@.len(),
            forall|j: int| 0 <= j < i ==> !same_ends(#[trigger] all[j], edge.deep_view()),
        decreases list@.len() - i,
    {
        assert(all[i as int] == list@[i as int].deep_view());
        if same_text(list[i].source.as_str(), edge.source.as_str()) && same_text(
            list[i].target.as_str(),
            edge.target.as_str(),
        ) && list[i].relation == edge.relation {
            assert(same_ends(all[i as int], edge.deep_view()));
            return true;
        }
        i += 1;
    }
    false
}

fn merge_edges(first: Vec<Edge>, second: &Vec<Edge>) -> (out: Vec<Edge>)
    ensures
        out.deep_view() == merged(first.deep_view(), second.deep_view()),
{
    let ghost start = first.deep_view();
    let ghost all = second.deep_view();
    let mut out = first;
    let mut i: usize = 0;
    assert(all.take(0) =~= Seq::<EdgeView>::empty());
    while i < second.len()
        invariant
            i <= second@.len(),
            all == second.deep_view(),
            all.len() == second@.len(),
            out.deep_view() == merged(start, all.take(i as int)),
        decreases second@.len() - i,
    {
        proof {
            assert(all[i as int] == second@[i as int].deep_view());
            assert(all.take(i + 1).drop_last() =~= all.take(i as int));
            assert(all.take(i + 1).last() == all[i as int]);
        }
        if !holds_ends(&out, &second[i]) {
            let ghost had = out.deep_view();
            out.push(second[i].copied());
            assert(out.deep_view() =~= had.push(all[i as int]));
        }
        i += 1;
    }
    assert(all.take(all.len() as int) =~= all);
    out
}

/// The edges of an anchor, at most so many. A text that names no relation asks
/// for every one.
pub fn query_edges(
    store: &InMemoryStore,
    ns: &NamespaceRef,
    anchor: &str,
    direction: &str,
    relation: Option<&str>,
    n: Option<usize>,
) -> (out: Vec<Edge>)
    requires
        store.wf(),
    ensures
        exists|r: Option<EdgeRelation>| #[trigger]
            asks_for(relation, r) && out.deep_view() == at_most(
                edges_found(store.state(), *ns, anchor@, direction@, r),
                n,
            ),
{
    let r = match relation {
        Some(s) => EdgeRelation::parse(s),
        None => None,
    };
    assert(asks_for(relation, r));
    let mut edges = if same_text(direction, "both") {
        let out = find_edges(store, ns, anchor, false, r);
        let inb = find_edges(store, ns, anchor, true, r);
        merge_edges(out, &inb)
    } else {
        find_edges(store, ns, anchor, same_text(direction, "inbound"), r)
    };
    let ghost found = edges.deep_view();
    assert(found == edges_found(store.state(), *ns, anchor@, direction@, r));
    if let Some(limit) = n {
        if limit < edges.len() {
            edges.truncate(limit);
            assert(edges.deep_view() =~= found.take(limit as int));
        }
    }
    edges
}

// -- Deleting ---------------------------------------------------------------------

/// Whether an edge is what the blob at an address stands for.
pub open spec fn edge_at(st: StoreState, kappa: Seq<char>, edge: EdgeView) -> bool {
    st.blobs.dom().contains(kappa) && record_read_of(st.blobs[kappa]) is Some && reads_edge(
        record_read_of(st.blobs[kappa])->0,
        edge,
    )
}

/// Deletes the edge that the blob at an address stands for; tells whether there
/// is one.
pub fn delete_edge(store: &mut InMemoryStore, ns: &NamespaceRef, edge_kappa: &str) -> (found: bool)
    requires
        old(store).wf(),
    ensures
        final(store).wf(),
        if found {
            exists|edge: EdgeView| #[trigger]
                edge_at(old(store).state(), edge_kappa@, edge) && final(store).state() == old(
                    store).state().edge_delete(*ns, edge.source, edge.target, edge.relation)
        } else {
            (forall|edge: EdgeView| !#[trigger] edge_at(old(store).state(), edge_kappa@, edge))
                && final(store).state() == old(store).state()
        },
{
    let bytes = match store.blob_get(edge_kappa) {
        Ok(bytes) => bytes,
        Err(_) => return false,
    };
    match edge_from_canonical(bytes.as_slice()) {
        Some(edge) => {
            assert(edge_at(old(store).state(), edge_kappa@, edge.deep_view()));
            let _ = store.edge_delete(
                ns,
                edge.source.as_str(),
                edge.target.as_str(),
                edge.relation,
            );
            true
        },
        None => false,
    }
}

// -- Comparing --------------------------------------------------------------------

/// Whether an address is one of the roots, or an edge at one of them leads to
/// it.
pub open spec fn within_one(
    st: StoreState,
    ns: NamespaceRef,
    roots: Seq<Seq<char>>,
    kappa: Seq<char>,
) -> bool {
    exists|i: int|
        0 <= i < roots.len() && (#[trigger] roots[i] == kappa || leads_to(
            st,
            ns,
            roots[i],
        ).contains(kappa))
}

/// The roots and what their edges lead to, in ascending order.
fn one_step(store: &InMemoryStore, ns: &NamespaceRef, roots: &[String]) -> (out: Vec<String>)
    requires
        store.wf(),
    ensures
        ascending(out.deep_view()),
        forall|k: Seq<char>| #[trigger]
            out.deep_view().contains(k) <==> within_one(
                store.state(),
                *ns,
                roots.deep_view(),
                k,
            ),
{
    let ghost st = store.state();
    let ghost all = roots.deep_view();
    let mut out: Vec<String> = Vec::new();
    assert(out.deep_view() =~= Seq::<Seq<char>>::empty());
    let mut i: usize = 0;
    while i < roots.len()
        invariant
            store.wf(),
            st == store.state(),
            i <= roots@.len(),
            all == roots.deep_view(),
            all.len() == roots@.len(),
            ascending(out.deep_view()),
            forall|k: Seq<char>| #[trigger]
                out.deep_view().contains(k) <==> within_one(st, *ns, all.take(i as int), k),
        decreases roots@.len() - i,
    {
        let ghost root = all[i as int];
        let ghost had = out.deep_view();
        assert(root == roots@[i as int]@);
        let more = edge_targets(store, ns, roots[i].as_str());
        let ghost kids = more.deep_view();
        let mut j: usize = 0;
        while j < more.len()
            invariant
                j <= more@.len(),
                kids == more.deep_view(),
                kids.len() == more@.len(),
                ascending(out.deep_view()),
                forall|k: Seq<char>| #[trigger]
                    out.deep_view().contains(k) <==> (had.contains(k) || kids.take(
                        j as int,
                    ).contains(k)),
            decreases more@.len() - j,
        {
            let ghost kid = kids[j as int];
            assert(kid == more@[j as int]@);
            insert_text(&mut out, more[j].clone());
            proof {
                assert(kids.take(j + 1) =~= kids.take(j as int).push(kid));
                assert forall|k: Seq<char>| #[trigger]
                    kids.take(j + 1).contains(k) == (kids.take(j as int).contains(k) || k
                        == kid) by {
                    crate::git::walk::lemma_push_contains(kids.take(j as int), kid, k);
                }
            }
            j += 1;
        }
        insert_text(&mut out, roots[i].clone());
        proof {
            assert(kids.take(kids.len() as int) =~= kids);
            let front = all.take(i as int);
            let longer = all.take(i + 1);
            assert forall|k: Seq<char>| #[trigger]
                within_one(st, *ns, longer, k) == (within_one(st, *ns, front, k) || k == root
                    || kids.contains(k)) by {
                if within_one(st, *ns, front, k) {
                    let x = choose|x: int|
                        0 <= x < front.len() && (#[trigger] front[x] == k || leads_to(
                            st,
                            *ns,
                            front[x],
                        ).contains(k));
                    assert(longer[x] == front[x]);
                }
                if within_one(st, *ns, longer, k) {
                    let x = choose|x: int|
                        0 <= x < longer.len() && (#[trigger] longer[x] == k || leads_to(
                            st,
                            *ns,
                            longer[x],
                        ).contains(k));
                    if x < i {
                        assert(longer[x] == front[x]);
                    }
                }
                assert(longer[i as int] == root);
            }
        }
        i += 1;
    }
    assert(all.take(all.len() as int) =~= all);
    out
}

/// Whether a list is what is wanted and not had, in ascending order.
pub open spec fn is_edge_diff(
    st: StoreState,
    ns: NamespaceRef,
    have: Seq<Seq<char>>,
    want: Seq<Seq<char>>,
    out: Seq<Seq<char>>,
) -> bool {
    &&& ascending(out)
    &&& forall|k: Seq<char>| #[trigger]
        out.contains(k) <==> (within_one(st, ns, want, k) && !within_one(st, ns, have, k))
}

/// What is wanted and not had: the wanted roots and what their edges lead to,
/// without the roots that are had and what theirs lead to, in ascending order.
pub fn edge_diff(store: &InMemoryStore, ns: &NamespaceRef, have: &[String], want: &[String]) -> (out: Vec<
    String,
>)
    requires
        store.wf(),
    ensures
        is_edge_diff(
            store.state(),
            *ns,
            have.deep_view(),
            want.deep_view(),
            out.deep_view(),
        ),
{
    let had = one_step(store, ns, have);
    let wanted = one_step(store, ns, want);
    let ghost all = wanted.deep_view();
    let mut out: Vec<String> = Vec::new();
    assert(out.deep_view() =~= Seq::<Seq<char>>::empty());
    let mut i: usize = 0;
    while i < wanted.len()
        invariant
            i <= wanted@.len(),
            all == wanted.deep_view(),
            all.len() == wanted@.len(),
            ascending(out.deep_view()),
            forall|k: Seq<char>| #[trigger]
                out.deep_view().contains(k) <==> (all.take(i as int).contains(k)
                    && !had.deep_view().contains(k)),
        decreases wanted@.len() - i,
    {
        let ghost w = all[i as int];
        proof {
            assert(w == wanted@[i as int]@);
            assert(all.take(i + 1) =~= all.take(i as int).push(w));
            assert forall|k: Seq<char>| #[trigger] all.take(i + 1).contains(k) == (all.take(
                i as int,
            ).contains(k) || k == w) by {
                crate::git::walk::lemma_push_contains(all.take(i as int), w, k);
            }
        }
        if !holds_text(&had, wanted[i].as_str()) {
            insert_text(&mut out, wanted[i].clone());
        }
        i += 1;
    }
    assert(all.take(all.len() as int) =~= all);
    out
}

/// Nothing that is had is in a difference, and with nothing had all that is
/// wanted is.
pub proof fn law_diff(
    st: StoreState,
    ns: NamespaceRef,
    have: Seq<Seq<char>>,
    want: Seq<Seq<char>>,
    diff: Seq<Seq<char>>,
    i: int,
)
    requires
        forall|k: Seq<char>| #[trigger]
            diff.contains(k) <==> (within_one(st, ns, want, k) && !within_one(st, ns, have, k)),
    ensures
        0 <= i < have.len() ==> !diff.contains(have[i]),
        0 <= i < want.len() && have.len() == 0 ==> diff.contains(want[i]),
{
    if 0 <= i < have.len() {
        assert(within_one(st, ns, have, have[i]));
    }
    if 0 <= i < want.len() && have.len() == 0 {
        assert(within_one(st, ns, want, want[i]));
    }
}

/// An edge that was put is found from its source, by its relation; its source is
/// stored, unless the relation joins identities; and its address is that of its
/// canonical bytes.
pub proof fn law_edge_put_found(
    st: StoreState,
    after: StoreState,
    ns: NamespaceRef,
    source: Seq<char>,
    relation: Seq<char>,
    target: Seq<char>,
    asserter: Seq<char>,
    metadata: Option<Seq<u8>>,
    kappa: String,
    query: EdgeQuery,
)
    requires
        edge_put_done(st, after, ns, source, relation, target, asserter, metadata, Ok(kappa)),
        query.anchor@ == source,
        query.direction == Direction::Outbound,
        query.relation is None,
        query.asserter is None,
    ensures
        exists|e: EdgeView| #[trigger]
            after.edge_query(ns, query).contains(e) && e.source == source && e.target == target
                && names_relation(relation, e.relation) && e.asserter == asserter && e.metadata
                == metadata && kappa@ == kappa_of(edge_blob(e)) && (st.blobs.dom().contains(source)
                || joins_identities(e.relation)),
{
    let r = choose|r: EdgeRelation| #[trigger]
        names_relation(relation, r) && (joins_identities(r) || st.blobs.dom().contains(source)) && ({
            let edge = EdgeView {
                source,
                target,
                relation: r,
                asserter,
                value_kappa: None,
                metadata,
            };
            &&& kappa@ == kappa_of(edge_blob(edge))
            &&& after == typed(st.edge_put(ns, edge), ns, kappa@, "edge"@)
        });
    let edge = EdgeView { source, target, relation: r, asserter, value_kappa: None, metadata };
    let put = st.edge_put(ns, edge);
    crate::store::edges::law_edge_put_query(st, ns, edge, query);
    assert(after.edges == put.edges && after.fwd == put.fwd);
    lemma_edges_same(put, after, ns.id(), listed(put.fwd, (ns.id(), name_hash(source))));
    assert(after.edge_query(ns, query) == put.edge_query(ns, query));
    assert(after.edge_query(ns, query).contains(edge));
}

proof fn lemma_edges_same(a: StoreState, b: StoreState, id: Seq<u8>, list: Seq<Seq<char>>)
    requires
        a.edges == b.edges,
    ensures
        a.edges_at(id, list, None, None) == b.edges_at(id, list, None, None),
    decreases list.len(),
{
    if list.len() > 0 {
        lemma_edges_same(a, b, id, list.drop_last());
    }
}

/// Asking both ways finds every outbound edge; of every inbound one itself, or an
/// edge between the same ends with the same relation; and nothing else.
pub proof fn law_edges_merged(first: Seq<EdgeView>, second: Seq<EdgeView>, e: EdgeView)
    ensures
        first.contains(e) ==> merged(first, second).contains(e),
        second.contains(e) ==> has_ends(merged(first, second), e),
        merged(first, second).contains(e) ==> first.contains(e) || second.contains(e),
    decreases second.len(),
{
    let all = merged(first, second);
    if second.len() > 0 {
        let front = second.drop_last();
        let before = merged(first, front);
        law_edges_merged(first, front, e);
        if before.contains(e) {
            let i = choose|i: int| 0 <= i < before.len() && before[i] == e;
            assert(all[i] == e);
        }
        if has_ends(before, e) {
            let i = choose|i: int| 0 <= i < before.len() && same_ends(#[trigger] before[i], e);
            assert(all[i] == before[i]);
            assert(same_ends(all[i], e));
        }
        if second.contains(e) {
            let j = choose|j: int| 0 <= j < second.len() && second[j] == e;
            if j < front.len() {
                assert(front[j] == e);
            } else if !has_ends(before, e) {
                assert(same_ends(all[all.len() - 1], e));
            }
        }
        if all.contains(e) {
            let i = choose|i: int| 0 <= i < all.len() && all[i] == e;
            if i < before.len() {
                assert(before[i] == e);
                if front.contains(e) {
                    let j = choose|j: int| 0 <= j < front.len() && front[j] == e;
                    assert(second[j] == e);
                }
            } else {
                assert(second[second.len() - 1] == e);
            }
        }
    }
}

/// A limit cuts the end of a list off and nothing else.
pub proof fn law_edges_limited(list: Seq<EdgeView>, n: usize, i: int)
    requires
        0 <= i < list.len(),
    ensures
        at_most(list, None) == list,
        at_most(list, Some(n)).len() <= n,
        i < n ==> at_most(list, Some(n)).len() > i && at_most(list, Some(n))[i] == list[i],
{
}

/// What an edge leads to from a wanted root is in a difference, unless it is a root
/// that is had or an edge leads to it from one; and what is neither wanted nor led to
/// from a wanted root is not.
pub proof fn law_diff_targets(
    st: StoreState,
    ns: NamespaceRef,
    have: Seq<Seq<char>>,
    want: Seq<Seq<char>>,
    diff: Seq<Seq<char>>,
    i: int,
    kappa: Seq<char>,
)
    requires
        is_edge_diff(st, ns, have, want, diff),
        0 <= i < want.len(),
    ensures
        edge_leads(st, ns, want[i], kappa) && !have.contains(kappa) && (forall|j: int|
            0 <= j < have.len() ==> !edge_leads(st, ns, #[trigger] have[j], kappa))
            ==> diff.contains(kappa),
        !want.contains(kappa) && (forall|j: int|
            0 <= j < want.len() ==> !edge_leads(st, ns, #[trigger] want[j], kappa))
            ==> !diff.contains(kappa),
{
    assert forall|x: Seq<char>| #[trigger] edge_leads(st, ns, x, kappa) <==> leads_to(
        st,
        ns,
        x,
    ).contains(kappa) by {
        lemma_edge_leads(st, ns, x, kappa);
    }
    if edge_leads(st, ns, want[i], kappa) && !have.contains(kappa) && (forall|j: int|
        0 <= j < have.len() ==> !edge_leads(st, ns, #[trigger] have[j], kappa)) {
        assert(within_one(st, ns, want, kappa));
        if within_one(st, ns, have, kappa) {
            let j = choose|j: int|
                0 <= j < have.len() && (#[trigger] have[j] == kappa || leads_to(
                    st,
                    ns,
                    have[j],
                ).contains(kappa));
            assert(!edge_leads(st, ns, have[j], kappa));
        }
    }
    if !want.contains(kappa) && (forall|j: int|
        0 <= j < want.len() ==> !edge_leads(st, ns, #[trigger] want[j], kappa)) {
        if within_one(st, ns, want, kappa) {
            let j = choose|j: int|
                0 <= j < want.len() && (#[trigger] want[j] == kappa || leads_to(
                    st,
                    ns,
                    want[j],
                ).contains(kappa));
            assert(!edge_leads(st, ns, want[j], kappa));
        }
    }
}

} // verus!
