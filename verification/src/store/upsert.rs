//! Storing edges: exactly one for each relationship of an asserter, whatever was
//! stored before.

use vstd::prelude::*;

use crate::store::edges::{lemma_find_finds, lemma_find_relationship, lemma_without};
use crate::store::state::{
    listed, listed_less, listed_more, same_relationship, without, Filed, StoreState,
};
use crate::types::{name_hash, Direction, EdgeQuery, EdgeRelation, EdgeView, NamespaceRef};

verus! {

/// The edges of a list that are of the same relationship as an edge.
pub open spec fn alike(list: Seq<EdgeView>, edge: EdgeView) -> Seq<EdgeView>
    decreases list.len(),
{
    if list.len() == 0 {
        Seq::empty()
    } else {
        let before = alike(list.drop_last(), edge);
        if same_relationship(list.last(), edge) {
            before.push(list.last())
        } else {
            before
        }
    }
}

/// The edges of a list that are not of the same relationship as an edge.
pub open spec fn unlike(list: Seq<EdgeView>, edge: EdgeView) -> Seq<EdgeView>
    decreases list.len(),
{
    if list.len() == 0 {
        Seq::empty()
    } else {
        let before = unlike(list.drop_last(), edge);
        if same_relationship(list.last(), edge) {
            before
        } else {
            before.push(list.last())
        }
    }
}

/// Whether an address with a given hash is listed.
pub open spec fn lists_hash(list: Seq<Seq<char>>, h: u64) -> bool {
    exists|i: int| 0 <= i < list.len() && name_hash(#[trigger] list[i]) == h
}

/// Whether the edges of a namespace are listed by what an index goes by: each
/// address that is listed has an edge that belongs there, and none twice.
pub open spec fn index_sound(
    edges: Map<Filed, EdgeView>,
    index: Map<Filed, Seq<Seq<char>>>,
    id: Seq<u8>,
    outbound: bool,
) -> bool {
    &&& forall|g: u64, i: int|
        0 <= i < listed(index, (id, g)).len() ==> entry_sound(
            edges,
            id,
            #[trigger] listed(index, (id, g))[i],
            g,
            outbound,
        )
    &&& forall|g: u64, i: int, j: int|
        0 <= i < j < listed(index, (id, g)).len() ==> name_hash(#[trigger] listed(index, (id, g))[i])
            != name_hash(#[trigger] listed(index, (id, g))[j])
}

/// Whether an address has an edge whose source or target has a given hash.
pub open spec fn entry_sound(
    edges: Map<Filed, EdgeView>,
    id: Seq<u8>,
    kappa: Seq<char>,
    g: u64,
    outbound: bool,
) -> bool {
    &&& edges.dom().contains((id, name_hash(kappa)))
    &&& end_hash(edges[(id, name_hash(kappa))], outbound) == g
}

/// The hash of the source or the target of an edge.
pub open spec fn end_hash(edge: EdgeView, outbound: bool) -> u64 {
    if outbound {
        name_hash(edge.source)
    } else {
        name_hash(edge.target)
    }
}

/// Whether the edges of a namespace are filed well: each is listed at its source
/// and at its target, and there is one for each relationship of an asserter.
pub open spec fn filed_well(st: StoreState, id: Seq<u8>) -> bool {
    &&& index_sound(st.edges, st.fwd, id, true)
    &&& index_sound(st.edges, st.rev, id, false)
    &&& forall|h: u64| #[trigger]
        st.edges.dom().contains((id, h)) ==> lists_hash(
            listed(st.fwd, (id, name_hash(st.edges[(id, h)].source))),
            h,
        ) && lists_hash(listed(st.rev, (id, name_hash(st.edges[(id, h)].target))), h)
    &&& forall|h: u64, k: u64| #[trigger]
        st.edges.dom().contains((id, h)) && #[trigger] st.edges.dom().contains((id, k)) && h != k
            ==> !same_relationship(st.edges[(id, h)], st.edges[(id, k)])
    &&& named_alike(st.fwd, st.rev, id)
}

/// Whether an edge is listed under one address at its source and at its target.
pub open spec fn named_alike(
    fwd: Map<Filed, Seq<Seq<char>>>,
    rev: Map<Filed, Seq<Seq<char>>>,
    id: Seq<u8>,
) -> bool {
    forall|g: u64, h: u64, i: int, j: int|
        0 <= i < listed(fwd, (id, g)).len() && 0 <= j < listed(rev, (id, h)).len() && name_hash(
            #[trigger] listed(fwd, (id, g))[i],
        ) == name_hash(#[trigger] listed(rev, (id, h))[j]) ==> listed(fwd, (id, g))[i] == listed(
            rev,
            (id, h),
        )[j]
}

/// Whether the address of an edge is not that of an edge of another
/// relationship.
pub open spec fn address_free(st: StoreState, id: Seq<u8>, edge: EdgeView) -> bool {
    let k = (id, name_hash(StoreState::edge_kappa(edge)));
    st.edges.dom().contains(k) ==> same_relationship(st.edges[k], edge)
}

proof fn lemma_alike_once(
    st: StoreState,
    id: Seq<u8>,
    list: Seq<Seq<char>>,
    relation: Option<EdgeRelation>,
    asserter: Option<Seq<char>>,
    edge: EdgeView,
    i: int,
    n: int,
)
    requires
        0 <= i < list.len(),
        0 <= n <= list.len(),
        st.edges.dom().contains((id, name_hash(list[i]))),
        st.edges[(id, name_hash(list[i]))] == edge,
        StoreState::passes(edge, relation, asserter),
        forall|j: int|
            0 <= j < list.len() && j != i && st.edges.dom().contains(
                (id, name_hash(#[trigger] list[j])),
            ) ==> !same_relationship(st.edges[(id, name_hash(list[j]))], edge),
    ensures
        alike(st.edges_at(id, list.take(n), relation, asserter), edge) == (if n > i {
            seq![edge]
        } else {
            Seq::empty()
        }),
    decreases n,
{
    if n > 0 {
        lemma_alike_once(st, id, list, relation, asserter, edge, i, n - 1);
        let part = list.take(n);
        assert(part.drop_last() =~= list.take(n - 1));
        assert(part.last() == list[n - 1]);
        let before = st.edges_at(id, list.take(n - 1), relation, asserter);
        let k = (id, name_hash(list[n - 1]));
        if st.edges.dom().contains(k) && StoreState::passes(st.edges[k], relation, asserter) {
            assert(before.push(st.edges[k]).drop_last() =~= before);
            if n - 1 == i {
                assert(Seq::<EdgeView>::empty().push(edge) =~= seq![edge]);
            }
        }
    }
}

proof fn lemma_unlike_kept(
    st: StoreState,
    after: StoreState,
    id: Seq<u8>,
    list: Seq<Seq<char>>,
    relation: Option<EdgeRelation>,
    asserter: Option<Seq<char>>,
    edge: EdgeView,
    filed: u64,
)
    requires
        after.edges == st.edges.insert((id, filed), edge),
        st.edges.dom().contains((id, filed)) ==> same_relationship(st.edges[(id, filed)], edge),
    ensures
        unlike(after.edges_at(id, list, relation, asserter), edge) == unlike(
            st.edges_at(id, list, relation, asserter),
            edge,
        ),
    decreases list.len(),
{
    if list.len() > 0 {
        let front = list.drop_last();
        lemma_unlike_kept(st, after, id, front, relation, asserter, edge, filed);
        let k = (id, name_hash(list.last()));
        let a = st.edges_at(id, front, relation, asserter);
        let b = after.edges_at(id, front, relation, asserter);
        if st.edges.dom().contains(k) {
            assert(a.push(st.edges[k]).drop_last() =~= a);
        }
        if after.edges.dom().contains(k) {
            assert(b.push(after.edges[k]).drop_last() =~= b);
        }
    }
}

/// A namespace without edges is filed well.
pub proof fn law_no_edges_filed_well(st: StoreState, id: Seq<u8>)
    requires
        forall|h: u64| !(#[trigger] st.edges.dom().contains((id, h))),
        forall|g: u64| (#[trigger] listed(st.fwd, (id, g))).len() == 0,
        forall|g: u64| (#[trigger] listed(st.rev, (id, g))).len() == 0,
    ensures
        filed_well(st, id),
{
}

/// An edge in place of one with the same end leaves an index sound.
proof fn lemma_index_replaced(
    edges: Map<Filed, EdgeView>,
    index: Map<Filed, Seq<Seq<char>>>,
    id: Seq<u8>,
    outbound: bool,
    h: u64,
    edge: EdgeView,
)
    requires
        index_sound(edges, index, id, outbound),
        edges.dom().contains((id, h)),
        end_hash(edges[(id, h)], outbound) == end_hash(edge, outbound),
    ensures
        index_sound(edges.insert((id, h), edge), index, id, outbound),
{
    let now = edges.insert((id, h), edge);
    assert forall|g: u64, i: int| 0 <= i < listed(index, (id, g)).len() implies entry_sound(
        now,
        id,
        #[trigger] listed(index, (id, g))[i],
        g,
        outbound,
    ) by {
        assert(entry_sound(edges, id, listed(index, (id, g))[i], g, outbound));
    }
}

/// A new edge that is listed at its end leaves an index sound.
proof fn lemma_index_grown(
    edges: Map<Filed, EdgeView>,
    index: Map<Filed, Seq<Seq<char>>>,
    id: Seq<u8>,
    outbound: bool,
    kappa: Seq<char>,
    edge: EdgeView,
)
    requires
        index_sound(edges, index, id, outbound),
        !edges.dom().contains((id, name_hash(kappa))),
    ensures
        index_sound(
            edges.insert((id, name_hash(kappa)), edge),
            listed_more(index, (id, end_hash(edge, outbound)), kappa),
            id,
            outbound,
        ),
{
    let now = edges.insert((id, name_hash(kappa)), edge);
    let at = (id, end_hash(edge, outbound));
    let more = listed_more(index, at, kappa);
    let old_list = listed(index, at);
    assert(listed(more, at) == old_list.push(kappa));
    assert forall|g: u64, i: int| 0 <= i < listed(more, (id, g)).len() implies entry_sound(
        now,
        id,
        #[trigger] listed(more, (id, g))[i],
        g,
        outbound,
    ) by {
        if (id, g) == at && i == old_list.len() {
        } else {
            assert(listed(more, (id, g))[i] == listed(index, (id, g))[i]);
            assert(entry_sound(edges, id, listed(index, (id, g))[i], g, outbound));
        }
    }
    assert forall|g: u64, i: int, j: int| 0 <= i < j < listed(more, (id, g)).len() implies name_hash(
        #[trigger] listed(more, (id, g))[i],
    ) != name_hash(#[trigger] listed(more, (id, g))[j]) by {
        assert(listed(more, (id, g))[i] == listed(index, (id, g))[i]);
        assert(entry_sound(edges, id, listed(index, (id, g))[i], g, outbound));
        if (id, g) == at && j == old_list.len() {
        } else {
            assert(listed(more, (id, g))[j] == listed(index, (id, g))[j]);
        }
    }
}

/// A new address that no edge is filed under is listed alike at both ends.
proof fn lemma_alike_grown(st: StoreState, id: Seq<u8>, kappa: Seq<char>, edge: EdgeView)
    requires
        filed_well(st, id),
        !st.edges.dom().contains((id, name_hash(kappa))),
    ensures
        named_alike(
            listed_more(st.fwd, (id, end_hash(edge, true)), kappa),
            listed_more(st.rev, (id, end_hash(edge, false)), kappa),
            id,
        ),
{
    let fwd = listed_more(st.fwd, (id, end_hash(edge, true)), kappa);
    let rev = listed_more(st.rev, (id, end_hash(edge, false)), kappa);
    assert forall|g: u64, h: u64, i: int, j: int|
        0 <= i < listed(fwd, (id, g)).len() && 0 <= j < listed(rev, (id, h)).len() && name_hash(
            #[trigger] listed(fwd, (id, g))[i],
        ) == name_hash(#[trigger] listed(rev, (id, h))[j]) implies listed(fwd, (id, g))[i]
        == listed(rev, (id, h))[j] by {
        let a = listed(fwd, (id, g))[i];
        let b = listed(rev, (id, h))[j];
        if i < listed(st.fwd, (id, g)).len() {
            assert(a == listed(st.fwd, (id, g))[i]);
            assert(entry_sound(st.edges, id, listed(st.fwd, (id, g))[i], g, true));
        } else {
            assert(a == kappa);
        }
        if j < listed(st.rev, (id, h)).len() {
            assert(b == listed(st.rev, (id, h))[j]);
            assert(entry_sound(st.edges, id, listed(st.rev, (id, h))[j], h, false));
        } else {
            assert(b == kappa);
        }
    }
}

/// Where a relationship is not found, no edge of it is filed, and the address of
/// the edge is free.
proof fn lemma_not_filed(st: StoreState, id: Seq<u8>, edge: EdgeView)
    requires
        filed_well(st, id),
        address_free(st, id, edge),
        st.find_relationship(id, listed(st.fwd, (id, name_hash(edge.source))), edge) is None,
    ensures
        !st.edges.dom().contains((id, name_hash(StoreState::edge_kappa(edge)))),
        forall|h: u64| #[trigger]
            st.edges.dom().contains((id, h)) ==> !same_relationship(st.edges[(id, h)], edge),
{
    let list = listed(st.fwd, (id, name_hash(edge.source)));
    assert forall|h: u64| #[trigger] st.edges.dom().contains((id, h)) implies !same_relationship(
        st.edges[(id, h)],
        edge,
    ) by {
        if same_relationship(st.edges[(id, h)], edge) {
            assert(lists_hash(list, h));
            let i = choose|i: int| 0 <= i < list.len() && name_hash(#[trigger] list[i]) == h;
            lemma_find_finds(st, id, list, edge, i);
        }
    }
}

/// Where an edge is filed after it was stored.
pub open spec fn filed_at(st: StoreState, id: Seq<u8>, edge: EdgeView) -> u64 {
    match st.find_relationship(id, listed(st.fwd, (id, name_hash(edge.source))), edge) {
        Some(k) => name_hash(k),
        None => name_hash(StoreState::edge_kappa(edge)),
    }
}

/// What storing an edge does to the edges and their lists.
proof fn lemma_put_parts(st: StoreState, ns: NamespaceRef, edge: EdgeView)
    ensures
        ({
            let after = st.edge_put(ns, edge);
            let id = ns.id();
            let found = st.find_relationship(
                id,
                listed(st.fwd, (id, name_hash(edge.source))),
                edge,
            );
            let kappa = StoreState::edge_kappa(edge);
            &&& after.edges == st.edges.insert((id, filed_at(st, id, edge)), edge)
            &&& found is Some ==> after.fwd == st.fwd && after.rev == st.rev
            &&& found is None ==> after.fwd == listed_more(
                st.fwd,
                (id, end_hash(edge, true)),
                kappa,
            ) && after.rev == listed_more(st.rev, (id, end_hash(edge, false)), kappa)
        }),
{
    let kappa = StoreState::edge_kappa(edge);
    let here = st.ensured(ns).put_blob(kappa, crate::canonical::edge_blob(edge));
    let id = ns.id();
    let list = listed(st.fwd, (id, name_hash(edge.source)));
    assert(here.edges == st.edges && here.fwd == st.fwd && here.rev == st.rev);
    lemma_find_same(st, here, id, list, edge);
}

proof fn lemma_find_same(a: StoreState, b: StoreState, id: Seq<u8>, list: Seq<Seq<char>>, edge: EdgeView)
    requires
        a.edges == b.edges,
    ensures
        a.find_relationship(id, list, edge) == b.find_relationship(id, list, edge),
    decreases list.len(),
{
    if list.len() > 0 {
        lemma_find_same(a, b, id, list.drop_first(), edge);
    }
}

/// Storing an edge leaves a namespace filed well.
pub proof fn law_upsert_filed_well(st: StoreState, ns: NamespaceRef, edge: EdgeView)
    requires
        filed_well(st, ns.id()),
        address_free(st, ns.id(), edge),
    ensures
        filed_well(st.edge_put(ns, edge), ns.id()),
{
    let id = ns.id();
    let after = st.edge_put(ns, edge);
    let kappa = StoreState::edge_kappa(edge);
    let list = listed(st.fwd, (id, name_hash(edge.source)));
    let h = filed_at(st, id, edge);
    lemma_put_parts(st, ns, edge);
    lemma_find_relationship(st, id, list, edge);
    match st.find_relationship(id, list, edge) {
        Some(k) => {
            lemma_index_replaced(st.edges, st.fwd, id, true, h, edge);
            lemma_index_replaced(st.edges, st.rev, id, false, h, edge);
        },
        None => {
            lemma_not_filed(st, id, edge);
            lemma_index_grown(st.edges, st.fwd, id, true, kappa, edge);
            lemma_index_grown(st.edges, st.rev, id, false, kappa, edge);
            lemma_alike_grown(st, id, kappa, edge);
        },
    }
    assert forall|g: u64| #[trigger] after.edges.dom().contains((id, g)) implies lists_hash(
        listed(after.fwd, (id, name_hash(after.edges[(id, g)].source))),
        g,
    ) && lists_hash(listed(after.rev, (id, name_hash(after.edges[(id, g)].target))), g) by {
        lemma_still_listed(st, after, id, edge, kappa, g);
    }
    assert forall|a: u64, b: u64| #[trigger]
        after.edges.dom().contains((id, a)) && #[trigger] after.edges.dom().contains((id, b)) && a
            != b implies !same_relationship(after.edges[(id, a)], after.edges[(id, b)]) by {
        if a != h {
            assert(st.edges.dom().contains((id, a)));
        }
        if b != h {
            assert(st.edges.dom().contains((id, b)));
        }
    }
}

/// What was listed still is, and so is an edge that was stored.
proof fn lemma_still_listed(
    st: StoreState,
    after: StoreState,
    id: Seq<u8>,
    edge: EdgeView,
    kappa: Seq<char>,
    g: u64,
)
    requires
        filed_well(st, id),
        kappa == StoreState::edge_kappa(edge),
        after.edges == st.edges.insert((id, filed_at(st, id, edge)), edge),
        ({
            let found = st.find_relationship(
                id,
                listed(st.fwd, (id, name_hash(edge.source))),
                edge,
            );
            &&& found is Some ==> after.fwd == st.fwd && after.rev == st.rev
            &&& found is None ==> after.fwd == listed_more(
                st.fwd,
                (id, end_hash(edge, true)),
                kappa,
            ) && after.rev == listed_more(st.rev, (id, end_hash(edge, false)), kappa)
        }),
        after.edges.dom().contains((id, g)),
    ensures
        lists_hash(listed(after.fwd, (id, name_hash(after.edges[(id, g)].source))), g),
        lists_hash(listed(after.rev, (id, name_hash(after.edges[(id, g)].target))), g),
{
    let list = listed(st.fwd, (id, name_hash(edge.source)));
    let found = st.find_relationship(id, list, edge);
    let e = after.edges[(id, g)];
    lemma_find_relationship(st, id, list, edge);
    if found is None && g == filed_at(st, id, edge) {
        let a = listed(after.fwd, (id, name_hash(e.source)));
        let b = listed(after.rev, (id, name_hash(e.target)));
        assert(a[a.len() - 1] == kappa);
        assert(b[b.len() - 1] == kappa);
    } else {
        assert(st.edges.dom().contains((id, g)));
        let o = st.edges[(id, g)];
        assert(o.source == e.source && o.target == e.target);
        lemma_lists_more(st.fwd, after.fwd, (id, name_hash(e.source)), kappa, g);
        lemma_lists_more(st.rev, after.rev, (id, name_hash(e.target)), kappa, g);
    }
}

proof fn lemma_lists_more(
    m: Map<Filed, Seq<Seq<char>>>,
    more: Map<Filed, Seq<Seq<char>>>,
    k: Filed,
    kappa: Seq<char>,
    g: u64,
)
    requires
        lists_hash(listed(m, k), g),
        listed(more, k) == listed(m, k) || listed(more, k) == listed(m, k).push(kappa),
    ensures
        lists_hash(listed(more, k), g),
{
    let i = choose|i: int| 0 <= i < listed(m, k).len() && name_hash(#[trigger] listed(m, k)[i]) == g;
    assert(listed(more, k)[i] == listed(m, k)[i]);
}

/// An edge that is filed well is the only one of its relationship in a list that
/// has its address.
proof fn lemma_only_one(
    st: StoreState,
    id: Seq<u8>,
    list: Seq<Seq<char>>,
    edge: EdgeView,
    h: u64,
    j: int,
)
    requires
        forall|a: u64, b: u64| #[trigger]
            st.edges.dom().contains((id, a)) && #[trigger] st.edges.dom().contains((id, b)) && a
                != b ==> !same_relationship(st.edges[(id, a)], st.edges[(id, b)]),
        st.edges.dom().contains((id, h)),
        st.edges[(id, h)] == edge,
        0 <= j < list.len(),
        name_hash(list[j]) != h,
    ensures
        st.edges.dom().contains((id, name_hash(list[j]))) ==> !same_relationship(
            st.edges[(id, name_hash(list[j]))],
            edge,
        ),
{
}

/// A query from the source or to the target of an edge that is filed well finds
/// it, and no other of its relationship.
proof fn lemma_one_found(
    st: StoreState,
    id: Seq<u8>,
    list: Seq<Seq<char>>,
    relation: Option<EdgeRelation>,
    asserter: Option<Seq<char>>,
    edge: EdgeView,
    h: u64,
)
    requires
        filed_well(st, id),
        st.edges.dom().contains((id, h)),
        st.edges[(id, h)] == edge,
        list == listed(st.fwd, (id, name_hash(edge.source))) || list == listed(
            st.rev,
            (id, name_hash(edge.target)),
        ),
        StoreState::passes(edge, relation, asserter),
    ensures
        alike(st.edges_at(id, list, relation, asserter), edge) == seq![edge],
{
    assert(lists_hash(list, h));
    let i = choose|i: int| 0 <= i < list.len() && name_hash(#[trigger] list[i]) == h;
    assert forall|j: int|
        0 <= j < list.len() && j != i && st.edges.dom().contains(
            (id, name_hash(#[trigger] list[j])),
        ) implies !same_relationship(st.edges[(id, name_hash(list[j]))], edge) by {
        if list == listed(st.fwd, (id, name_hash(edge.source))) {
            lemma_apart(st.edges, st.fwd, id, true, name_hash(edge.source), i, j);
        } else {
            lemma_apart(st.edges, st.rev, id, false, name_hash(edge.target), i, j);
        }
        lemma_only_one(st, id, list, edge, h, j);
    }
    lemma_alike_once(st, id, list, relation, asserter, edge, i, list.len() as int);
    assert(list.take(list.len() as int) =~= list);
}

proof fn lemma_apart(
    edges: Map<Filed, EdgeView>,
    index: Map<Filed, Seq<Seq<char>>>,
    id: Seq<u8>,
    outbound: bool,
    g: u64,
    i: int,
    j: int,
)
    requires
        index_sound(edges, index, id, outbound),
        0 <= i < listed(index, (id, g)).len(),
        0 <= j < listed(index, (id, g)).len(),
        i != j,
    ensures
        name_hash(listed(index, (id, g))[i]) != name_hash(listed(index, (id, g))[j]),
{
    let a = listed(index, (id, g))[i];
    let b = listed(index, (id, g))[j];
}

/// After an edge was stored, a query from its source or to its target that it
/// passes finds exactly one edge of its relationship by its asserter, and that is
/// the edge itself.
pub proof fn law_upsert_one(st: StoreState, ns: NamespaceRef, edge: EdgeView, query: EdgeQuery)
    requires
        filed_well(st, ns.id()),
        address_free(st, ns.id(), edge),
        query.direction == Direction::Outbound ==> query.anchor@ == edge.source,
        query.direction == Direction::Inbound ==> query.anchor@ == edge.target,
        query.relation matches Some(r) ==> r == edge.relation,
        query.asserter matches Some(a) ==> a@ == edge.asserter,
    ensures
        alike(st.edge_put(ns, edge).edge_query(ns, query), edge) == seq![edge],
{
    let id = ns.id();
    let after = st.edge_put(ns, edge);
    let asserter = match query.asserter {
        Some(a) => Some(a@),
        None => None,
    };
    law_upsert_filed_well(st, ns, edge);
    lemma_put_parts(st, ns, edge);
    lemma_one_found(
        after,
        id,
        after.anchored(ns, query),
        query.relation,
        asserter,
        edge,
        filed_at(st, id, edge),
    );
}

/// Storing an edge leaves what every query finds of other relationships as it
/// was.
pub proof fn law_upsert_others(st: StoreState, ns: NamespaceRef, edge: EdgeView, query: EdgeQuery)
    requires
        filed_well(st, ns.id()),
        address_free(st, ns.id(), edge),
    ensures
        unlike(st.edge_put(ns, edge).edge_query(ns, query), edge) == unlike(
            st.edge_query(ns, query),
            edge,
        ),
{
    let id = ns.id();
    let after = st.edge_put(ns, edge);
    let kappa = StoreState::edge_kappa(edge);
    let h = filed_at(st, id, edge);
    let asserter = match query.asserter {
        Some(a) => Some(a@),
        None => None,
    };
    let list = listed(st.fwd, (id, name_hash(edge.source)));
    let before = st.anchored(ns, query);
    let now = after.anchored(ns, query);
    lemma_put_parts(st, ns, edge);
    lemma_find_relationship(st, id, list, edge);
    if st.find_relationship(id, list, edge) is None {
        lemma_not_filed(st, id, edge);
    }
    lemma_unlike_kept(st, after, id, before, query.relation, asserter, edge, h);
    if now != before {
        assert(now == before.push(kappa));
        assert(now.drop_last() =~= before);
        let found = after.edges_at(id, before, query.relation, asserter);
        assert(found.push(edge).drop_last() =~= found);
    }
}

// -- Deleting ---------------------------------------------------------------------------

/// A list without a text keeps its other texts, and none twice.
proof fn lemma_without_apart(list: Seq<Seq<char>>, s: Seq<char>)
    requires
        forall|i: int, j: int|
            0 <= i < j < list.len() ==> name_hash(#[trigger] list[i]) != name_hash(
                #[trigger] list[j],
            ),
    ensures
        forall|i: int, j: int|
            0 <= i < j < without(list, s).len() ==> name_hash(#[trigger] without(list, s)[i])
                != name_hash(#[trigger] without(list, s)[j]),
    decreases list.len(),
{
    if list.len() > 0 {
        let front = list.drop_last();
        let rest = without(front, s);
        let all = without(list, s);
        assert forall|i: int, j: int| 0 <= i < j < front.len() implies name_hash(
            #[trigger] front[i],
        ) != name_hash(#[trigger] front[j]) by {
            assert(list[i] == front[i] && list[j] == front[j]);
        }
        lemma_without_apart(front, s);
        lemma_without(front, s);
        assert forall|i: int, j: int| 0 <= i < j < all.len() implies name_hash(#[trigger] all[i])
            != name_hash(#[trigger] all[j]) by {
            assert(all[i] == rest[i]);
            if j == rest.len() {
                assert(rest.contains(rest[i]));
                assert(front.contains(rest[i]));
                let k = choose|k: int| 0 <= k < front.len() && front[k] == rest[i];
                assert(list[k] == all[i] && list[list.len() - 1] == all[j]);
            }
        }
    }
}

/// What a list without a text holds, the whole list holds.
proof fn lemma_without_of(list: Seq<Seq<char>>, s: Seq<char>, i: int)
    requires
        0 <= i < without(list, s).len(),
    ensures
        without(list, s)[i] != s,
        exists|k: int| 0 <= k < list.len() && #[trigger] list[k] == without(list, s)[i],
{
    lemma_without(list, s);
    let x = without(list, s)[i];
    assert(without(list, s).contains(x));
    assert(list.contains(x));
}

/// An index without the address of an edge is sound without the edge.
proof fn lemma_index_shrunk(
    edges: Map<Filed, EdgeView>,
    index: Map<Filed, Seq<Seq<char>>>,
    id: Seq<u8>,
    outbound: bool,
    kappa: Seq<char>,
)
    requires
        index_sound(edges, index, id, outbound),
        edges.dom().contains((id, name_hash(kappa))),
        ({
            let g = end_hash(edges[(id, name_hash(kappa))], outbound);
            exists|i: int|
                0 <= i < listed(index, (id, g)).len() && #[trigger] listed(index, (id, g))[i]
                    == kappa
        }),
    ensures
        ({
            let g = end_hash(edges[(id, name_hash(kappa))], outbound);
            index_sound(
                edges.remove((id, name_hash(kappa))),
                listed_less(index, (id, g), kappa),
                id,
                outbound,
            )
        }),
{
    let g0 = end_hash(edges[(id, name_hash(kappa))], outbound);
    let at = (id, g0);
    let now = edges.remove((id, name_hash(kappa)));
    let less = listed_less(index, at, kappa);
    let old_list = listed(index, at);
    let spot = choose|i: int| 0 <= i < old_list.len() && #[trigger] old_list[i] == kappa;
    assert(index.dom().contains(at));
    assert(listed(less, at) == without(old_list, kappa));
    lemma_without_apart(old_list, kappa);
    assert forall|g: u64, i: int| 0 <= i < listed(less, (id, g)).len() implies entry_sound(
        now,
        id,
        #[trigger] listed(less, (id, g))[i],
        g,
        outbound,
    ) by {
        let x = listed(less, (id, g))[i];
        if g == g0 {
            lemma_without_of(old_list, kappa, i);
            let k = choose|k: int| 0 <= k < old_list.len() && #[trigger] old_list[k] == x;
            assert(entry_sound(edges, id, listed(index, (id, g))[k], g, outbound));
            if name_hash(x) == name_hash(kappa) {
                assert(k != spot);
                if k < spot {
                    assert(name_hash(listed(index, (id, g))[k]) != name_hash(
                        listed(index, (id, g))[spot],
                    ));
                } else {
                    assert(name_hash(listed(index, (id, g))[spot]) != name_hash(
                        listed(index, (id, g))[k],
                    ));
                }
            }
        } else {
            assert(listed(less, (id, g)) == listed(index, (id, g)));
            assert(entry_sound(edges, id, listed(index, (id, g))[i], g, outbound));
        }
    }
    assert forall|g: u64, i: int, j: int| 0 <= i < j < listed(less, (id, g)).len() implies name_hash(
        #[trigger] listed(less, (id, g))[i],
    ) != name_hash(#[trigger] listed(less, (id, g))[j]) by {
        if g != g0 {
            assert(listed(less, (id, g)) == listed(index, (id, g)));
        }
    }
}

/// An address with another hash is still listed.
proof fn lemma_lists_less(m: Map<Filed, Seq<Seq<char>>>, k: Filed, at: Filed, kappa: Seq<char>, h: u64)
    requires
        lists_hash(listed(m, k), h),
        h != name_hash(kappa),
    ensures
        lists_hash(listed(listed_less(m, at, kappa), k), h),
{
    let list = listed(m, k);
    let i = choose|i: int| 0 <= i < list.len() && name_hash(#[trigger] list[i]) == h;
    if k == at {
        lemma_without(list, kappa);
        assert(list.contains(list[i]));
        let less = without(list, kappa);
        assert(less.contains(list[i]));
        let j = choose|j: int| 0 <= j < less.len() && less[j] == list[i];
        assert(name_hash(less[j]) == h);
    } else {
        assert(listed(listed_less(m, at, kappa), k) == list);
    }
}

/// Lists that are alike stay so when an address is taken out.
proof fn lemma_alike_shrunk(st: StoreState, id: Seq<u8>, a: Filed, b: Filed, kappa: Seq<char>)
    requires
        named_alike(st.fwd, st.rev, id),
    ensures
        named_alike(listed_less(st.fwd, a, kappa), listed_less(st.rev, b, kappa), id),
{
    let fwd = listed_less(st.fwd, a, kappa);
    let rev = listed_less(st.rev, b, kappa);
    assert forall|g: u64, h: u64, i: int, j: int|
        0 <= i < listed(fwd, (id, g)).len() && 0 <= j < listed(rev, (id, h)).len() && name_hash(
            #[trigger] listed(fwd, (id, g))[i],
        ) == name_hash(#[trigger] listed(rev, (id, h))[j]) implies listed(fwd, (id, g))[i]
        == listed(rev, (id, h))[j] by {
        lemma_less_of(st.fwd, a, kappa, (id, g), i);
        lemma_less_of(st.rev, b, kappa, (id, h), j);
        let x = choose|x: int|
            0 <= x < listed(st.fwd, (id, g)).len() && #[trigger] listed(st.fwd, (id, g))[x]
                == listed(fwd, (id, g))[i];
        let y = choose|y: int|
            0 <= y < listed(st.rev, (id, h)).len() && #[trigger] listed(st.rev, (id, h))[y]
                == listed(rev, (id, h))[j];
        assert(name_hash(listed(st.fwd, (id, g))[x]) == name_hash(listed(st.rev, (id, h))[y]));
    }
}

proof fn lemma_less_of(
    m: Map<Filed, Seq<Seq<char>>>,
    at: Filed,
    kappa: Seq<char>,
    k: Filed,
    i: int,
)
    requires
        0 <= i < listed(listed_less(m, at, kappa), k).len(),
    ensures
        exists|x: int|
            0 <= x < listed(m, k).len() && #[trigger] listed(m, k)[x] == listed(
                listed_less(m, at, kappa),
                k,
            )[i],
{
    if k == at && m.dom().contains(at) {
        lemma_without_of(listed(m, k), kappa, i);
    } else {
        assert(listed(m, k)[i] == listed(listed_less(m, at, kappa), k)[i]);
    }
}

/// The edge that is found is listed at its source, and filed.
proof fn lemma_find_edge(
    st: StoreState,
    id: Seq<u8>,
    list: Seq<Seq<char>>,
    source: Seq<char>,
    target: Seq<char>,
    relation: EdgeRelation,
)
    ensures
        match st.find_edge(id, list, source, target, relation) {
            Some(k) => list.contains(k) && st.edges.dom().contains((id, name_hash(k)))
                && st.edges[(id, name_hash(k))].source == source && st.edges[(
                id,
                name_hash(k),
            )].target == target,
            None => true,
        },
    decreases list.len(),
{
    if list.len() > 0 {
        let rest = list.drop_first();
        lemma_find_edge(st, id, rest, source, target, relation);
        if let Some(k) = st.find_edge(id, list, source, target, relation) {
            if k == list[0] {
                assert(list.contains(list[0]));
            } else {
                let i = choose|i: int| 0 <= i < rest.len() && rest[i] == k;
                assert(list[i + 1] == k);
            }
        }
    }
}

/// Deleting an edge leaves a namespace filed well.
pub proof fn law_delete_filed_well(
    st: StoreState,
    ns: NamespaceRef,
    source: Seq<char>,
    target: Seq<char>,
    relation: EdgeRelation,
)
    requires
        filed_well(st, ns.id()),
    ensures
        filed_well(st.edge_delete(ns, source, target, relation), ns.id()),
{
    let id = ns.id();
    let list = listed(st.fwd, (id, name_hash(source)));
    let after = st.edge_delete(ns, source, target, relation);
    lemma_find_edge(st, id, list, source, target, relation);
    if let Some(kappa) = st.find_edge(id, list, source, target, relation) {
        let h = name_hash(kappa);
        let edge = st.edges[(id, h)];
        let a = (id, end_hash(edge, true));
        let b = (id, end_hash(edge, false));
        let back = listed(st.rev, b);
        let i = choose|i: int| 0 <= i < list.len() && list[i] == kappa;
        assert(lists_hash(back, h));
        let j = choose|j: int| 0 <= j < back.len() && name_hash(#[trigger] back[j]) == h;
        assert(listed(st.fwd, a)[i] == kappa);
        assert(name_hash(listed(st.fwd, a)[i]) == name_hash(listed(st.rev, b)[j]));
        assert(listed(st.rev, b)[j] == kappa);
        lemma_index_shrunk(st.edges, st.fwd, id, true, kappa);
        lemma_index_shrunk(st.edges, st.rev, id, false, kappa);
        lemma_alike_shrunk(st, id, a, b, kappa);
        assert forall|g: u64| #[trigger] after.edges.dom().contains((id, g)) implies lists_hash(
            listed(after.fwd, (id, name_hash(after.edges[(id, g)].source))),
            g,
        ) && lists_hash(listed(after.rev, (id, name_hash(after.edges[(id, g)].target))), g) by {
            assert(st.edges.dom().contains((id, g)));
            assert(g != h);
            let e = st.edges[(id, g)];
            lemma_lists_less(st.fwd, (id, name_hash(e.source)), a, kappa, g);
            lemma_lists_less(st.rev, (id, name_hash(e.target)), b, kappa, g);
        }
        assert forall|x: u64, y: u64| #[trigger]
            after.edges.dom().contains((id, x)) && #[trigger] after.edges.dom().contains((id, y))
                && x != y implies !same_relationship(
            after.edges[(id, x)],
            after.edges[(id, y)],
        ) by {
            assert(st.edges.dom().contains((id, x)));
            assert(st.edges.dom().contains((id, y)));
        }
    }
}

} // verus!
