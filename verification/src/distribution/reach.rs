//! What edges lead to.

use vstd::prelude::*;

use crate::git::walk::{lemma_one_fewer, lemma_push_contains, text_set};
use crate::store::memory::InMemoryStore;
use crate::store::state::{listed, StoreState};
use crate::text::holds_text;
use crate::types::{name_hash, Direction, EdgeQuery, EdgeView, NamespaceRef};

verus! {

/// The edges that lead away from an address.
pub open spec fn outbound(st: StoreState, ns: NamespaceRef, anchor: Seq<char>) -> Seq<EdgeView> {
    st.edges_at(
        ns.id(),
        listed(st.fwd, (ns.id(), name_hash(anchor))),
        None,
        None,
    )
}

/// The targets of edges, in their order.
pub open spec fn targets(edges: Seq<EdgeView>) -> Seq<Seq<char>> {
    Seq::new(edges.len(), |i: int| edges[i].target)
}

/// What the edges at an address lead to.
pub open spec fn leads_to(st: StoreState, ns: NamespaceRef, anchor: Seq<char>) -> Seq<Seq<char>> {
    targets(outbound(st, ns, anchor))
}

/// Whether each address of a path is what an edge at the one before leads to.
pub open spec fn edge_path(st: StoreState, ns: NamespaceRef, path: Seq<Seq<char>>) -> bool {
    forall|i: int|
        0 < i < path.len() ==> leads_to(st, ns, path[i - 1]).contains(#[trigger] path[i])
}

/// Whether a path leads from one of the roots to an address.
pub open spec fn arrives(
    st: StoreState,
    ns: NamespaceRef,
    roots: Set<Seq<char>>,
    to: Seq<char>,
    path: Seq<Seq<char>>,
) -> bool {
    path.len() > 0 && roots.contains(path[0]) && path.last() == to && edge_path(st, ns, path)
}

/// Whether edges lead from one of the roots to an address, or it is a root.
pub open spec fn reachable(
    st: StoreState,
    ns: NamespaceRef,
    roots: Set<Seq<char>>,
    to: Seq<char>,
) -> bool {
    exists|path: Seq<Seq<char>>| #[trigger] arrives(st, ns, roots, to, path)
}

/// All addresses that edges lead to from the roots.
pub open spec fn reachable_set(st: StoreState, ns: NamespaceRef, roots: Set<Seq<char>>) -> Set<
    Seq<char>,
> {
    Set::new(|k: Seq<char>| reachable(st, ns, roots, k))
}

/// A root is reachable, and so is whatever an edge at a reachable address leads
/// to.
pub proof fn law_reachable_closed(
    st: StoreState,
    ns: NamespaceRef,
    roots: Set<Seq<char>>,
    from: Seq<char>,
    to: Seq<char>,
)
    ensures
        roots.contains(from) ==> reachable(st, ns, roots, from),
        reachable(st, ns, roots, from) && leads_to(st, ns, from).contains(to) ==> reachable(
            st,
            ns,
            roots,
            to,
        ),
{
    if roots.contains(from) {
        assert(arrives(st, ns, roots, from, seq![from]));
    }
    if reachable(st, ns, roots, from) && leads_to(st, ns, from).contains(to) {
        let path = choose|path: Seq<Seq<char>>| #[trigger] arrives(st, ns, roots, from, path);
        let longer = path.push(to);
        assert forall|i: int| 0 < i < longer.len() implies leads_to(
            st,
            ns,
            longer[i - 1],
        ).contains(#[trigger] longer[i]) by {
            if i < path.len() {
                assert(longer[i] == path[i]);
                assert(longer[i - 1] == path[i - 1]);
            } else {
                assert(longer[i - 1] == path.last());
            }
        }
        assert(longer[0] == path[0]);
        assert(arrives(st, ns, roots, to, longer));
    }
}

/// A set that holds the roots and whatever the edges at its members lead to
/// holds all that is reachable.
pub proof fn law_reachable_least(
    st: StoreState,
    ns: NamespaceRef,
    roots: Set<Seq<char>>,
    set: Set<Seq<char>>,
    to: Seq<char>,
)
    requires
        forall|k: Seq<char>| #[trigger] roots.contains(k) ==> set.contains(k),
        forall|k: Seq<char>, c: Seq<char>|
            set.contains(k) && #[trigger] leads_to(st, ns, k).contains(c) ==> set.contains(c),
    ensures
        reachable(st, ns, roots, to) ==> set.contains(to),
{
    if reachable(st, ns, roots, to) {
        let path = choose|path: Seq<Seq<char>>| #[trigger] arrives(st, ns, roots, to, path);
        lemma_path_inside(st, ns, roots, set, path);
    }
}

proof fn lemma_path_inside(
    st: StoreState,
    ns: NamespaceRef,
    roots: Set<Seq<char>>,
    set: Set<Seq<char>>,
    path: Seq<Seq<char>>,
)
    requires
        forall|k: Seq<char>| #[trigger] roots.contains(k) ==> set.contains(k),
        forall|k: Seq<char>, c: Seq<char>|
            set.contains(k) && #[trigger] leads_to(st, ns, k).contains(c) ==> set.contains(c),
        path.len() > 0,
        roots.contains(path[0]),
        edge_path(st, ns, path),
    ensures
        set.contains(path.last()),
    decreases path.len(),
{
    if path.len() > 1 {
        let front = path.drop_last();
        assert forall|i: int| 0 < i < front.len() implies leads_to(st, ns, front[i - 1]).contains(
            #[trigger] front[i],
        ) by {
            assert(front[i] == path[i]);
            assert(front[i - 1] == path[i - 1]);
        }
        lemma_path_inside(st, ns, roots, set, front);
        let last = path.len() - 1;
        assert(leads_to(st, ns, path[last - 1]).contains(path[last]));
        assert(front.last() == path[last - 1]);
    }
}

/// The targets of all edges on file.
spec fn all_targets(st: StoreState) -> Set<Seq<char>> {
    st.edges.dom().map(|k: (Seq<u8>, u64)| st.edges[k].target)
}

/// Edges that a query finds are on file.
proof fn lemma_filed(
    st: StoreState,
    id: Seq<u8>,
    list: Seq<Seq<char>>,
    i: int,
)
    requires
        0 <= i < st.edges_at(id, list, None, None).len(),
    ensures
        all_targets(st).contains(st.edges_at(id, list, None, None)[i].target),
    decreases list.len(),
{
    if list.len() > 0 {
        let before = st.edges_at(id, list.drop_last(), None, None);
        let k = (id, name_hash(list.last()));
        if i < before.len() {
            lemma_filed(st, id, list.drop_last(), i);
        } else {
            assert(st.edges.dom().contains(k));
            let f = |q: (Seq<u8>, u64)| st.edges[q].target;
            assert(f(k) == st.edges[k].target);
            assert(st.edges.dom().map(f).contains(f(k)));
        }
    }
}

/// The targets of the edges that lead away from an address.
pub fn edge_targets(store: &InMemoryStore, ns: &NamespaceRef, anchor: &str) -> (out: Vec<String>)
    requires
        store.wf(),
    ensures
        out.deep_view() == leads_to(store.state(), *ns, anchor@),
{
    let query = EdgeQuery {
        anchor: anchor.to_owned(),
        direction: Direction::Outbound,
        relation: None,
        asserter: None,
    };
    let ghost want = leads_to(store.state(), *ns, anchor@);
    let mut out: Vec<String> = Vec::new();
    assert(out.deep_view() =~= want.take(0));
    if let Ok(edges) = store.edge_query(ns, &query) {
        let ghost all = edges.deep_view();
        assert(targets(all) == want);
        let mut i: usize = 0;
        while i < edges.len()
            invariant
                i <= edges@.len(),
                all == edges.deep_view(),
                all.len() == edges@.len(),
                want == targets(all),
                out.deep_view() == want.take(i as int),
            decreases edges@.len() - i,
        {
            let ghost had = out.deep_view();
            if edges[i].relation.gc_reachable() {
                out.push(edges[i].target.clone());
            }
            proof {
                assert(all[i as int] == edges@[i as int].deep_view());
                assert(out.deep_view() =~= had.push(all[i as int].target));
                assert(want.take(i + 1) =~= want.take(i as int).push(want[i as int]));
            }
            i += 1;
        }
        assert(want.take(want.len() as int) =~= want);
    }
    out
}

/// All addresses that edges lead to from the roots, each once.
pub fn compute_reachable(store: &InMemoryStore, ns: &NamespaceRef, roots: &[String]) -> (out: Vec<
    String,
>)
    requires
        store.wf(),
    ensures
        out.deep_view().no_duplicates(),
        forall|k: Seq<char>| #[trigger]
            out.deep_view().contains(k) <==> reachable(
                store.state(),
                *ns,
                roots.deep_view().to_set(),
                k,
            ),
{
    let ghost st = store.state();
    let ghost starts = roots.deep_view().to_set();
    let ghost all = starts.union(all_targets(st));
    let mut queue: Vec<String> = Vec::new();
    let mut r: usize = 0;
    assert(queue.deep_view() =~= roots.deep_view().take(0));
    while r < roots.len()
        invariant
            r <= roots@.len(),
            queue.deep_view() == roots.deep_view().take(r as int),
            queue@.len() == r,
        decreases roots@.len() - r,
    {
        let ghost had = queue.deep_view();
        queue.push(roots[r].clone());
        proof {
            assert(queue.deep_view() =~= had.push(roots.deep_view()[r as int]));
            assert(roots.deep_view().take(r + 1) =~= roots.deep_view().take(r as int).push(
                roots.deep_view()[r as int],
            ));
        }
        r += 1;
    }
    let mut seen: Vec<String> = Vec::new();
    let mut head: usize = 0;
    proof {
        store.edges.lemma_len();
        st.edges.dom().lemma_map_finite(|k: (Seq<u8>, u64)| st.edges[k].target);
        assert(queue.deep_view() =~= roots.deep_view());
        assert(seen.deep_view() =~= Seq::<Seq<char>>::empty());
        assert forall|i: int| 0 <= i < queue@.len() implies reachable(
            st,
            *ns,
            starts,
            #[trigger] queue.deep_view()[i],
        ) && all.contains(queue.deep_view()[i]) by {
            assert(roots.deep_view().contains(queue.deep_view()[i]));
            law_reachable_closed(st, *ns, starts, queue.deep_view()[i], queue.deep_view()[i]);
        }
        assert forall|k: Seq<char>| #[trigger] starts.contains(k) implies queue.deep_view().contains(
            k,
        ) by {}
    }
    while head < queue.len()
        invariant
            store.wf(),
            st == store.state(),
            all == starts.union(all_targets(st)),
            all.finite(),
            head <= queue@.len(),
            forall|k: Seq<char>| #[trigger] starts.contains(k) ==> queue.deep_view().contains(k),
            forall|i: int|
                0 <= i < queue@.len() ==> reachable(
                    st,
                    *ns,
                    starts,
                    #[trigger] queue.deep_view()[i],
                ) && all.contains(queue.deep_view()[i]),
            seen.deep_view().no_duplicates(),
            forall|i: int|
                0 <= i < seen@.len() ==> reachable(st, *ns, starts, #[trigger] seen.deep_view()[i]),
            forall|i: int|
                0 <= i < head ==> seen.deep_view().contains(#[trigger] queue.deep_view()[i]),
            forall|k: Seq<char>, c: Seq<char>|
                seen.deep_view().contains(k) && #[trigger] leads_to(st, *ns, k).contains(c)
                    ==> queue.deep_view().contains(c),
        decreases
                all.difference(text_set(seen.deep_view())).len(),
                queue@.len() - head,
    {
        let kappa = queue[head].clone();
        let ghost before = seen.deep_view();
        let ghost waiting = queue.deep_view();
        let ghost name = kappa@;
        assert(waiting[head as int] == name);
        head += 1;
        if holds_text(&seen, kappa.as_str()) {
            continue;
        }
        proof {
            lemma_one_fewer(all, before, name);
        }
        let mut more = edge_targets(store, ns, kappa.as_str());
        let ghost kids = more.deep_view();
        seen.push(kappa);
        proof {
            assert(seen.deep_view() =~= before.push(name));
            assert forall|x: Seq<char>| #[trigger]
                seen.deep_view().contains(x) == (before.contains(x) || x == name) by {
                lemma_push_contains(before, name, x);
            }
            assert forall|i: int, j: int|
                0 <= i < seen@.len() && 0 <= j < seen@.len() && i
                    != j implies seen.deep_view()[i] != seen.deep_view()[j] by {
                if i == before.len() {
                    assert(before[j] != name);
                }
                if j == before.len() {
                    assert(before[i] != name);
                }
            }
        }
        queue.append(&mut more);
        proof {
            assert(queue.deep_view() =~= waiting + kids);
            assert forall|i: int| 0 <= i < queue@.len() implies reachable(
                st,
                *ns,
                starts,
                #[trigger] queue.deep_view()[i],
            ) && all.contains(queue.deep_view()[i]) by {
                if i < waiting.len() {
                    assert(queue.deep_view()[i] == waiting[i]);
                } else {
                    let j = i - waiting.len();
                    assert(queue.deep_view()[i] == kids[j]);
                    assert(kids.contains(kids[j]));
                    law_reachable_closed(st, *ns, starts, name, kids[j]);
                    lemma_filed(st, ns.id(), listed(st.fwd, (ns.id(), name_hash(name))), j);
                }
            }
            assert forall|x: Seq<char>| waiting.contains(x) || kids.contains(x) implies
                #[trigger] queue.deep_view().contains(x) by {
                if waiting.contains(x) {
                    let i = choose|i: int| 0 <= i < waiting.len() && waiting[i] == x;
                    assert(queue.deep_view()[i] == x);
                } else {
                    let i = choose|i: int| 0 <= i < kids.len() && kids[i] == x;
                    assert(queue.deep_view()[waiting.len() + i] == x);
                }
            }
            assert forall|i: int| 0 <= i < head implies seen.deep_view().contains(
                #[trigger] queue.deep_view()[i],
            ) by {
                assert(queue.deep_view()[i] == waiting[i]);
            }
            assert forall|k: Seq<char>, c: Seq<char>|
                seen.deep_view().contains(k) && #[trigger] leads_to(st, *ns, k).contains(
                    c,
                ) implies queue.deep_view().contains(c) by {
                if k == name {
                    assert(kids.contains(c));
                } else {
                    assert(before.contains(k));
                    assert(waiting.contains(c));
                }
            }
        }
    }
    proof {
        let set = text_set(seen.deep_view());
        assert forall|x: Seq<char>| queue.deep_view().contains(x) implies set.contains(x) by {
            let i = choose|i: int| 0 <= i < queue.deep_view().len() && queue.deep_view()[i] == x;
            assert(seen.deep_view().contains(queue.deep_view()[i]));
        }
        assert forall|k: Seq<char>| #[trigger] starts.contains(k) implies set.contains(k) by {
            assert(queue.deep_view().contains(k));
        }
        assert forall|k: Seq<char>, c: Seq<char>|
            set.contains(k) && #[trigger] leads_to(st, *ns, k).contains(c) implies set.contains(
            c,
        ) by {
            assert(queue.deep_view().contains(c));
        }
        assert forall|k: Seq<char>| #[trigger]
            seen.deep_view().contains(k) <==> reachable(st, *ns, starts, k) by {
            if seen.deep_view().contains(k) {
                let i = choose|i: int| 0 <= i < seen.deep_view().len() && seen.deep_view()[i] == k;
                assert(reachable(st, *ns, starts, seen.deep_view()[i]));
            }
            law_reachable_least(st, *ns, starts, set, k);
        }
    }
    seen
}

} // verus!
