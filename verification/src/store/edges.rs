//! Edges of the in-memory store.
//!
//! An edge is a blob, filed by its address and listed under its source, its
//! target, its relation and its asserter.

use vstd::prelude::*;

use crate::canonical::canonical_edge;
use crate::kappa::kappa_from_bytes;
use crate::store::memory::{
    adds_addressed, lemma_adds_none, lemma_adds_one, lemma_adds_same, InMemoryStore,
};
use crate::store::state::{
    listed, listed_less, listed_more, same_relationship, without, Filed, StoreState,
};
use crate::table::{ScopedKey, Table, TableKey};
use crate::text::same_text;
use crate::types::{
    item_hash, name_hash, relation_number, Direction, Edge, EdgeQuery, EdgeRelation, EdgeView,
    NamespaceRef, StoreError,
};

verus! {

fn key_of(ns: &NamespaceRef, item: u64) -> (out: ScopedKey)
    ensures
        out.key() == (ns.id(), item),
{
    ScopedKey { scope: *ns.uuid(), item }
}

/// A copy of a list of texts.
fn copy_texts(list: &Vec<String>) -> (out: Vec<String>)
    ensures
        out.deep_view() == list.deep_view(),
{
    let mut out: Vec<String> = Vec::new();
    let mut i: usize = 0;
    while i < list.len()
        invariant
            i <= list@.len(),
            out.deep_view() == list.deep_view().take(i as int),
        decreases list@.len() - i,
    {
        let ghost had = out.deep_view();
        out.push(list[i].clone());
        assert(out.deep_view() =~= had.push(list.deep_view()[i as int]));
        assert(list.deep_view().take(i + 1) =~= list.deep_view().take(i as int).push(
            list.deep_view()[i as int],
        ));
        i += 1;
    }
    assert(list.deep_view().take(i as int) =~= list.deep_view());
    out
}

/// The list under a key, or an empty one.
fn list_at(index: &Table<ScopedKey, Vec<String>>, key: &ScopedKey) -> (out: Vec<String>)
    requires
        index.wf(),
    ensures
        out.deep_view() == listed(index@, key.key()),
{
    match index.get(key) {
        Some(list) => copy_texts(list),
        None => {
            let none: Vec<String> = Vec::new();
            assert(none.deep_view() =~= Seq::<Seq<char>>::empty());
            none
        },
    }
}

/// Adds a text at the end of the list under a key.
fn push_index(index: &mut Table<ScopedKey, Vec<String>>, key: ScopedKey, text: &str)
    requires
        old(index).wf(),
    ensures
        final(index).wf(),
        final(index)@ == listed_more(old(index)@, key.key(), text@),
{
    let ghost before = index@;
    let mut list = list_at(index, &key);
    let ghost had = list.deep_view();
    list.push(text.to_owned());
    assert(list.deep_view() =~= had.push(text@));
    index.insert(key, list);
}

/// Takes a text out of the list under a key.
fn remove_from(index: &mut Table<ScopedKey, Vec<String>>, key: ScopedKey, text: &str)
    requires
        old(index).wf(),
    ensures
        final(index).wf(),
        final(index)@ == listed_less(old(index)@, key.key(), text@),
{
    let ghost before = index@;
    let list = match index.get(&key) {
        Some(list) => copy_texts(list),
        None => return,
    };
    let ghost views = list.deep_view();
    let mut kept: Vec<String> = Vec::new();
    assert(kept.deep_view() =~= without(views.take(0), text@));
    let mut i: usize = 0;
    while i < list.len()
        invariant
            i <= list@.len(),
            views == list.deep_view(),
            kept.deep_view() == without(views.take(i as int), text@),
        decreases list@.len() - i,
    {
        let ghost had = kept.deep_view();
        if !same_text(list[i].as_str(), text) {
            kept.push(list[i].clone());
            assert(kept.deep_view() =~= had.push(views[i as int]));
        }
        assert(views.take(i + 1).drop_last() =~= views.take(i as int));
        assert(views.take(i + 1).last() == views[i as int]);
        i += 1;
    }
    assert(views.take(i as int) =~= views);
    index.insert(key, kept);
}

/// The text of an option.
pub open spec fn text_option(o: Option<String>) -> Option<Seq<char>> {
    match o {
        Some(s) => Some(s@),
        None => None,
    }
}

impl InMemoryStore {
    /// The first address in a list under which the same relationship by the
    /// same asserter is filed.
    fn find_relationship(&self, ns: &NamespaceRef, list: &Vec<String>, edge: &Edge) -> (out: Option<
        String,
    >)
        requires
            self.wf(),
        ensures
            match (
                out,
                self.state().find_relationship(ns.id(), list.deep_view(), edge.deep_view()),
            ) {
                (Some(k), Some(v)) => k@ == v,
                (None, None) => true,
                _ => false,
            },
    {
        let ghost views = list.deep_view();
        let mut i: usize = 0;
        assert(views.skip(0) =~= views);
        while i < list.len()
            invariant
                self.wf(),
                views == list.deep_view(),
                i <= list@.len(),
                self.state().find_relationship(ns.id(), views, edge.deep_view())
                    == self.state().find_relationship(
                    ns.id(),
                    views.skip(i as int),
                    edge.deep_view(),
                ),
            decreases list@.len() - i,
        {
            proof {
                assert(views.skip(i as int)[0] == views[i as int]);
                assert(views.skip(i as int).drop_first() =~= views.skip(i + 1));
            }
            if let Some(existing) = self.edges.get(&key_of(ns, item_hash(list[i].as_str()))) {
                if same_text(existing.source.as_str(), edge.source.as_str()) && same_text(
                    existing.target.as_str(),
                    edge.target.as_str(),
                ) && existing.relation == edge.relation && same_text(
                    existing.asserter.as_str(),
                    edge.asserter.as_str(),
                ) {
                    return Some(list[i].clone());
                }
            }
            i += 1;
        }
        None
    }

    /// Stores an edge: its blob is ingested, and the edge takes the place of
    /// the same relationship by the same asserter, or is filed as a new one.
    pub fn edge_put(&mut self, ns: &NamespaceRef, edge: &Edge) -> (out: Result<(), StoreError>)
        requires
            old(self).wf(),
        ensures
            final(self).wf(),
            final(self).state() == old(self).state().edge_put(*ns, edge.deep_view()),
            out is Ok,
            adds_addressed(old(self).state(), final(self).state()),
    {
        self.ensure_namespace(ns);
        let blob = canonical_edge(edge);
        let kappa = kappa_from_bytes(blob.as_slice());
        let _ = self.blob_put(kappa.as_str(), blob.as_slice());
        let ghost here = self.state();
        let source: u64 = item_hash(edge.source.as_str());
        let siblings = list_at(&self.fwd, &key_of(ns, source));
        match self.find_relationship(ns, &siblings, edge) {
            Some(existing) => {
                self.edges.insert(key_of(ns, item_hash(existing.as_str())), edge.copied());
            },
            None => {
                self.edges.insert(key_of(ns, item_hash(kappa.as_str())), edge.copied());
                push_index(&mut self.fwd, key_of(ns, source), kappa.as_str());
                push_index(
                    &mut self.rev,
                    key_of(ns, item_hash(edge.target.as_str())),
                    kappa.as_str(),
                );
                push_index(&mut self.rel, key_of(ns, edge.relation.number()), kappa.as_str());
                push_index(
                    &mut self.asr,
                    key_of(ns, item_hash(edge.asserter.as_str())),
                    kappa.as_str(),
                );
            },
        }
        assert(self.state() =~= old(self).state().edge_put(*ns, edge.deep_view()));
        proof {
            lemma_adds_one(old(self).state(), kappa@, blob@);
            lemma_adds_same(
                old(self).state(),
                old(self).state().put_blob(kappa@, blob@),
                old(self).state(),
                self.state(),
            );
        }
        Ok(())
    }

    /// The edges at an anchor, in the order in which they were first stored.
    pub fn edge_query(&self, ns: &NamespaceRef, query: &EdgeQuery) -> (out: Result<
        Vec<Edge>,
        StoreError,
    >)
        requires
            self.wf(),
        ensures
            match out {
                Ok(list) => list.deep_view() == self.state().edge_query(*ns, *query),
                Err(_) => false,
            },
    {
        let key = key_of(ns, item_hash(query.anchor.as_str()));
        let list = match query.direction {
            Direction::Outbound => list_at(&self.fwd, &key),
            Direction::Inbound => list_at(&self.rev, &key),
        };
        let ghost views = list.deep_view();
        let ghost asserter = text_option(query.asserter);
        let mut out: Vec<Edge> = Vec::new();
        assert(out.deep_view() =~= self.state().edges_at(
            ns.id(),
            views.take(0),
            query.relation,
            asserter,
        ));
        let mut i: usize = 0;
        while i < list.len()
            invariant
                self.wf(),
                i <= list@.len(),
                views == list.deep_view(),
                asserter == text_option(query.asserter),
                out.deep_view() == self.state().edges_at(
                    ns.id(),
                    views.take(i as int),
                    query.relation,
                    asserter,
                ),
            decreases list@.len() - i,
        {
            let ghost had = out.deep_view();
            proof {
                assert(views.take(i + 1).drop_last() =~= views.take(i as int));
                assert(views.take(i + 1).last() == views[i as int]);
            }
            if let Some(edge) = self.edges.get(&key_of(ns, item_hash(list[i].as_str()))) {
                let relation_ok = match query.relation {
                    Some(r) => edge.relation == r,
                    None => true,
                };
                let asserter_ok = match &query.asserter {
                    Some(a) => same_text(edge.asserter.as_str(), a.as_str()),
                    None => true,
                };
                if relation_ok && asserter_ok {
                    out.push(edge.copied());
                    assert(out.deep_view() =~= had.push(edge.deep_view()));
                }
            }
            i += 1;
        }
        assert(views.take(i as int) =~= views);
        Ok(out)
    }

    fn find_edge(
        &self,
        ns: &NamespaceRef,
        list: &Vec<String>,
        source: &str,
        target: &str,
        relation: EdgeRelation,
    ) -> (out: Option<String>)
        requires
            self.wf(),
        ensures
            match (
                out,
                self.state().find_edge(ns.id(), list.deep_view(), source@, target@, relation),
            ) {
                (Some(k), Some(v)) => k@ == v && self.edges@.dom().contains(
                    (ns.id(), name_hash(v)),
                ),
                (None, None) => true,
                _ => false,
            },
    {
        let ghost views = list.deep_view();
        let mut i: usize = 0;
        assert(views.skip(0) =~= views);
        while i < list.len()
            invariant
                self.wf(),
                views == list.deep_view(),
                i <= list@.len(),
                self.state().find_edge(ns.id(), views, source@, target@, relation)
                    == self.state().find_edge(
                    ns.id(),
                    views.skip(i as int),
                    source@,
                    target@,
                    relation,
                ),
            decreases list@.len() - i,
        {
            proof {
                assert(views.skip(i as int)[0] == views[i as int]);
                assert(views.skip(i as int).drop_first() =~= views.skip(i + 1));
            }
            if let Some(edge) = self.edges.get(&key_of(ns, item_hash(list[i].as_str()))) {
                if same_text(edge.source.as_str(), source) && same_text(
                    edge.target.as_str(),
                    target,
                ) && edge.relation == relation {
                    return Some(list[i].clone());
                }
            }
            i += 1;
        }
        None
    }

    /// Deletes the first edge between two addresses with a relation, together
    /// with its blob; nothing where there is none.
    pub fn edge_delete(
        &mut self,
        ns: &NamespaceRef,
        source: &str,
        target: &str,
        relation: EdgeRelation,
    ) -> (out: Result<(), StoreError>)
        requires
            old(self).wf(),
        ensures
            final(self).wf(),
            final(self).state() == old(self).state().edge_delete(*ns, source@, target@, relation),
            out is Ok,
            adds_addressed(old(self).state(), final(self).state()),
    {
        proof {
            lemma_adds_none(
                old(self).state(),
                old(self).state().edge_delete(*ns, source@, target@, relation),
            );
        }
        let candidates = list_at(&self.fwd, &key_of(ns, item_hash(source)));
        let kappa = match self.find_edge(ns, &candidates, source, target, relation) {
            Some(k) => k,
            None => return Ok(()),
        };
        match self.edges.remove(&key_of(ns, item_hash(kappa.as_str()))) {
            Some(edge) => {
                remove_from(
                    &mut self.fwd,
                    key_of(ns, item_hash(edge.source.as_str())),
                    kappa.as_str(),
                );
                remove_from(
                    &mut self.rev,
                    key_of(ns, item_hash(edge.target.as_str())),
                    kappa.as_str(),
                );
                remove_from(&mut self.rel, key_of(ns, edge.relation.number()), kappa.as_str());
                remove_from(
                    &mut self.asr,
                    key_of(ns, item_hash(edge.asserter.as_str())),
                    kappa.as_str(),
                );
            },
            None => {},
        }
        let _ = self.blob_delete(kappa.as_str());
        assert(self.state() =~= old(self).state().edge_delete(*ns, source@, target@, relation));
        Ok(())
    }
}

// -- Laws -----------------------------------------------------------------------

pub proof fn lemma_find_relationship(st: StoreState, id: Seq<u8>, list: Seq<Seq<char>>, edge: EdgeView)
    ensures
        match st.find_relationship(id, list, edge) {
            Some(k) => list.contains(k) && st.edges.dom().contains((id, name_hash(k)))
                && same_relationship(st.edges[(id, name_hash(k))], edge),
            None => true,
        },
    decreases list.len(),
{
    if list.len() > 0 {
        lemma_find_relationship(st, id, list.drop_first(), edge);
        if let Some(k) = st.find_relationship(id, list, edge) {
            if k == list[0] {
                assert(list.contains(list[0]));
            } else {
                let i = choose|i: int| 0 <= i < list.len() - 1 && list.drop_first()[i] == k;
                assert(list[i + 1] == k);
            }
        }
    }
}

/// What is listed at an address that is listed and filed is found.
pub proof fn lemma_edges_at_contains(
    st: StoreState,
    id: Seq<u8>,
    list: Seq<Seq<char>>,
    relation: Option<EdgeRelation>,
    asserter: Option<Seq<char>>,
    i: int,
)
    requires
        0 <= i < list.len(),
        st.edges.dom().contains((id, name_hash(list[i]))),
        StoreState::passes(st.edges[(id, name_hash(list[i]))], relation, asserter),
    ensures
        st.edges_at(id, list, relation, asserter).contains(st.edges[(id, name_hash(list[i]))]),
    decreases list.len(),
{
    let e = st.edges[(id, name_hash(list[i]))];
    let all = st.edges_at(id, list, relation, asserter);
    if i == list.len() - 1 {
        assert(all.last() == e);
        assert(all[all.len() - 1] == e);
    } else {
        let before = st.edges_at(id, list.drop_last(), relation, asserter);
        lemma_edges_at_contains(st, id, list.drop_last(), relation, asserter, i);
        let k = choose|k: int| 0 <= k < before.len() && before[k] == e;
        assert(all[k] == e);
    }
}

/// An edge that was stored is found from its source, by every query that it
/// passes.
pub proof fn law_edge_put_query(st: StoreState, ns: NamespaceRef, edge: EdgeView, query: EdgeQuery)
    requires
        query.anchor@ == edge.source,
        query.direction == Direction::Outbound,
        query.relation matches Some(r) ==> r == edge.relation,
        query.asserter matches Some(a) ==> a@ == edge.asserter,
    ensures
        st.edge_put(ns, edge).edge_query(ns, query).contains(edge),
{
    let after = st.edge_put(ns, edge);
    let kappa = StoreState::edge_kappa(edge);
    let here = st.ensured(ns).put_blob(kappa, crate::canonical::edge_blob(edge));
    let id = ns.id();
    let k = (id, name_hash(edge.source));
    let list = listed(here.fwd, k);
    let asserter = text_option(query.asserter);
    lemma_find_relationship(here, id, list, edge);
    match here.find_relationship(id, list, edge) {
        Some(existing) => {
            let i = choose|i: int| 0 <= i < list.len() && list[i] == existing;
            assert(after.fwd == here.fwd);
            assert(after.edges[(id, name_hash(existing))] == edge);
            lemma_edges_at_contains(after, id, list, query.relation, asserter, i);
        },
        None => {
            let now = list.push(kappa);
            assert(listed(after.fwd, k) == now);
            assert(now[list.len() as int] == kappa);
            assert(after.edges[(id, name_hash(kappa))] == edge);
            lemma_edges_at_contains(
                after,
                id,
                now,
                query.relation,
                asserter,
                list.len() as int,
            );
        },
    }
}

/// A new edge is found from its target too.
pub proof fn law_edge_put_query_inbound(
    st: StoreState,
    ns: NamespaceRef,
    edge: EdgeView,
    query: EdgeQuery,
)
    requires
        query.anchor@ == edge.target,
        query.direction == Direction::Inbound,
        query.relation matches Some(r) ==> r == edge.relation,
        query.asserter matches Some(a) ==> a@ == edge.asserter,
        st.ensured(ns).put_blob(
            StoreState::edge_kappa(edge),
            crate::canonical::edge_blob(edge),
        ).find_relationship(ns.id(), listed(st.fwd, (ns.id(), name_hash(edge.source))), edge) is None,
    ensures
        st.edge_put(ns, edge).edge_query(ns, query).contains(edge),
{
    let after = st.edge_put(ns, edge);
    let kappa = StoreState::edge_kappa(edge);
    let here = st.ensured(ns).put_blob(kappa, crate::canonical::edge_blob(edge));
    let id = ns.id();
    let k = (id, name_hash(edge.target));
    let asserter = text_option(query.asserter);
    assert(here.fwd == st.fwd);
    let list = listed(here.rev, k);
    let now = list.push(kappa);
    assert(listed(after.rev, k) == now);
    assert(now[list.len() as int] == kappa);
    lemma_edges_at_contains(after, id, now, query.relation, asserter, list.len() as int);
}

/// Storing the same edge again changes nothing.
pub proof fn law_edge_put_idempotent(st: StoreState, ns: NamespaceRef, edge: EdgeView)
    ensures
        st.edge_put(ns, edge).edge_put(ns, edge) == st.edge_put(ns, edge),
{
    let once = st.edge_put(ns, edge);
    let kappa = StoreState::edge_kappa(edge);
    let here = st.ensured(ns).put_blob(kappa, crate::canonical::edge_blob(edge));
    let id = ns.id();
    let k = (id, name_hash(edge.source));
    let list = listed(here.fwd, k);
    lemma_find_relationship(here, id, list, edge);
    assert(once.records.dom().contains(id));
    assert(once.blobs.dom().contains(kappa));
    assert(once.ensured(ns).put_blob(kappa, crate::canonical::edge_blob(edge)) == once);
    let found = here.find_relationship(id, list, edge);
    let filed = match found {
        Some(existing) => existing,
        None => kappa,
    };
    let now = listed(once.fwd, k);
    assert(now.contains(filed)) by {
        match found {
            Some(existing) => {},
            None => {
                assert(now =~= list.push(kappa));
                assert(now[list.len() as int] == kappa);
            },
        }
    }
    let i = choose|i: int| 0 <= i < now.len() && now[i] == filed;
    assert(once.edges[(id, name_hash(filed))] == edge);
    lemma_find_finds(once, id, now, edge, i);
    lemma_find_relationship(once, id, now, edge);
    let again = once.find_relationship(id, now, edge)->0;
    lemma_filed_alike(here, once, id, list, now, edge, filed, again, found);
    assert(once.edges.insert((id, name_hash(again)), edge) =~= once.edges);
    assert(once.edge_put(ns, edge) =~= once);
}

pub proof fn lemma_find_finds(st: StoreState, id: Seq<u8>, list: Seq<Seq<char>>, edge: EdgeView, i: int)
    requires
        0 <= i < list.len(),
        st.edges.dom().contains((id, name_hash(list[i]))),
        same_relationship(st.edges[(id, name_hash(list[i]))], edge),
    ensures
        st.find_relationship(id, list, edge) is Some,
    decreases list.len(),
{
    if i > 0 {
        assert(list.drop_first()[i - 1] == list[i]);
        lemma_find_finds(st, id, list.drop_first(), edge, i - 1);
    }
}

/// The relationship that is found after an edge was filed is filed as that
/// edge.
proof fn lemma_filed_alike(
    here: StoreState,
    once: StoreState,
    id: Seq<u8>,
    list: Seq<Seq<char>>,
    now: Seq<Seq<char>>,
    edge: EdgeView,
    filed: Seq<char>,
    again: Seq<char>,
    found: Option<Seq<char>>,
)
    requires
        found == here.find_relationship(id, list, edge),
        found is Some ==> filed == found->0 && now == list,
        found is None ==> now == list.push(filed),
        once.edges == here.edges.insert((id, name_hash(filed)), edge),
        once.find_relationship(id, now, edge) == Some(again),
    ensures
        once.edges.dom().contains((id, name_hash(again))),
        once.edges[(id, name_hash(again))] == edge,
    decreases now.len(),
{
    assert(now.len() > 0);
    let k = (id, name_hash(now[0]));
    if once.edges.dom().contains(k) && same_relationship(once.edges[k], edge) {
        assert(again == now[0]);
        if k != (id, name_hash(filed)) {
            assert(here.edges.dom().contains(k) && here.edges[k] == once.edges[k]);
            if found is None {
                if list.len() > 0 {
                    assert(list[0] == now[0]);
                }
            } else {
                assert(found == Some(list[0]));
            }
        }
    } else {
        let rest = list.drop_first();
        if list.len() > 0 {
            assert(now[0] == list[0]);
            assert(once.find_relationship(id, now.drop_first(), edge) == Some(again));
            if found is Some {
                assert(!(here.edges.dom().contains(k) && same_relationship(here.edges[k], edge)))
                    by {
                    if here.edges.dom().contains(k) && same_relationship(here.edges[k], edge) {
                        assert(found == Some(list[0]));
                        assert(filed == list[0]);
                    }
                }
                assert(here.find_relationship(id, rest, edge) == found);
                lemma_filed_alike(here, once, id, rest, now.drop_first(), edge, filed, again, found);
            } else {
                assert(now.drop_first() =~= rest.push(filed));
                assert(!(here.edges.dom().contains(k) && same_relationship(here.edges[k], edge)));
                lemma_filed_alike(here, once, id, rest, now.drop_first(), edge, filed, again, found);
            }
        } else {
            assert(now.drop_first() =~= Seq::<Seq<char>>::empty());
        }
    }
}


pub proof fn lemma_without(list: Seq<Seq<char>>, s: Seq<char>)
    ensures
        !without(list, s).contains(s),
        forall|x: Seq<char>| x != s ==> (#[trigger] without(list, s).contains(x) <==> list.contains(x)),
    decreases list.len(),
{
    if list.len() > 0 {
        let rest = without(list.drop_last(), s);
        lemma_without(list.drop_last(), s);
        let all = without(list, s);
        if all.contains(s) {
            let i = choose|i: int| 0 <= i < all.len() && all[i] == s;
            if list.last() == s || i < rest.len() {
                assert(rest[i] == s);
                assert(rest.contains(s));
            }
        }
        assert forall|x: Seq<char>| x != s implies (#[trigger] all.contains(x) <==> list.contains(
            x,
        )) by {
            if all.contains(x) {
                let i = choose|i: int| 0 <= i < all.len() && all[i] == x;
                if i < rest.len() {
                    assert(rest[i] == x);
                    assert(rest.contains(x));
                    let j = choose|j: int| 0 <= j < list.len() - 1 && list.drop_last()[j] == x;
                    assert(list[j] == x);
                } else {
                    assert(list[list.len() - 1] == x);
                }
            }
            if list.contains(x) {
                let j = choose|j: int| 0 <= j < list.len() && list[j] == x;
                if j < list.len() - 1 {
                    assert(list.drop_last()[j] == x);
                    assert(list.drop_last().contains(x));
                    assert(rest.contains(x));
                    let i = choose|i: int| 0 <= i < rest.len() && rest[i] == x;
                    assert(all[i] == x);
                } else {
                    assert(all[all.len() - 1] == x);
                }
            }
        }
    } else {
        assert(without(list, s) =~= list);
    }
}

/// A deleted edge is filed nowhere, listed under none of its four keys, and
/// its blob is gone; other edges stay filed.
pub proof fn law_edge_delete(
    st: StoreState,
    ns: NamespaceRef,
    source: Seq<char>,
    target: Seq<char>,
    relation: EdgeRelation,
    kappa: Seq<char>,
    other: Filed,
)
    requires
        st.find_edge(
            ns.id(),
            listed(st.fwd, (ns.id(), name_hash(source))),
            source,
            target,
            relation,
        ) == Some(kappa),
    ensures
        ({
            let after = st.edge_delete(ns, source, target, relation);
            let edge = st.edges[(ns.id(), name_hash(kappa))];
            &&& !after.edges.dom().contains((ns.id(), name_hash(kappa)))
            &&& !after.blobs.dom().contains(kappa)
            &&& !listed(after.fwd, (ns.id(), name_hash(edge.source))).contains(kappa)
            &&& !listed(after.rev, (ns.id(), name_hash(edge.target))).contains(kappa)
            &&& !listed(after.rel, (ns.id(), relation_number(edge.relation))).contains(kappa)
            &&& !listed(after.asr, (ns.id(), name_hash(edge.asserter))).contains(kappa)
            &&& other != (ns.id(), name_hash(kappa)) ==> after.edges.dom().contains(other)
                == st.edges.dom().contains(other) && (st.edges.dom().contains(other)
                ==> after.edges[other] == st.edges[other])
        }),
{
    let edge = st.edges[(ns.id(), name_hash(kappa))];
    lemma_without(listed(st.fwd, (ns.id(), name_hash(edge.source))), kappa);
    lemma_without(listed(st.rev, (ns.id(), name_hash(edge.target))), kappa);
    lemma_without(listed(st.rel, (ns.id(), relation_number(edge.relation))), kappa);
    lemma_without(listed(st.asr, (ns.id(), name_hash(edge.asserter))), kappa);
}

proof fn lemma_edges_at_sound(
    st: StoreState,
    id: Seq<u8>,
    list: Seq<Seq<char>>,
    relation: Option<EdgeRelation>,
    asserter: Option<Seq<char>>,
    e: EdgeView,
)
    requires
        st.edges_at(id, list, relation, asserter).contains(e),
    ensures
        relation matches Some(r) ==> e.relation == r,
        asserter matches Some(a) ==> e.asserter == a,
        exists|i: int|
            0 <= i < list.len() && filed_as_edge(st, id, #[trigger] list[i], e),
    decreases list.len(),
{
    let all = st.edges_at(id, list, relation, asserter);
    let front = list.drop_last();
    let before = st.edges_at(id, front, relation, asserter);
    let j = choose|j: int| 0 <= j < all.len() && all[j] == e;
    if j < before.len() {
        assert(before[j] == e);
        lemma_edges_at_sound(st, id, front, relation, asserter, e);
        let i = choose|i: int| 0 <= i < front.len() && filed_as_edge(st, id, #[trigger] front[i], e);
        assert(filed_as_edge(st, id, list[i], e));
    } else {
        assert(filed_as_edge(st, id, list[list.len() - 1], e));
    }
}

/// Whether an edge is on file under an address.
pub open spec fn filed_as_edge(st: StoreState, id: Seq<u8>, kappa: Seq<char>, e: EdgeView) -> bool {
    st.edges.dom().contains((id, name_hash(kappa))) && st.edges[(id, name_hash(kappa))] == e
}

/// Whether an edge is on file under one of some addresses.
pub open spec fn is_listed(st: StoreState, id: Seq<u8>, list: Seq<Seq<char>>, e: EdgeView) -> bool {
    exists|i: int| 0 <= i < list.len() && filed_as_edge(st, id, #[trigger] list[i], e)
}

/// A query finds only edges of the relation and by the asserter that it asks for, if it
/// asks for any; each is on file, under an address that is listed at the anchor: among
/// the edges that leave it, or among those that come to it, as the query says.
pub proof fn law_query_sound(st: StoreState, ns: NamespaceRef, query: EdgeQuery, e: EdgeView)
    requires
        st.edge_query(ns, query).contains(e),
    ensures
        query.relation matches Some(r) ==> e.relation == r,
        query.asserter matches Some(a) ==> e.asserter == a@,
        query.direction == Direction::Outbound ==> is_listed(
            st,
            ns.id(),
            listed(st.fwd, (ns.id(), name_hash(query.anchor@))),
            e,
        ),
        query.direction == Direction::Inbound ==> is_listed(
            st,
            ns.id(),
            listed(st.rev, (ns.id(), name_hash(query.anchor@))),
            e,
        ),
{
    lemma_edges_at_sound(
        st,
        ns.id(),
        st.anchored(ns, query),
        query.relation,
        text_option(query.asserter),
        e,
    );
}

} // verus!
