//! What a client lacks: the objects behind its wants that it does not have,
//! down to a depth and through a filter.

use vstd::prelude::*;

use crate::git::envelope::{envelope_parts, hash_name, hash_prefix, unwrap};
use crate::git::object::{hash_len, HashKind, Kind};
use crate::git::walk::{
    digest_len, extract_children, hex_part, kappa_to_hex_oid, label_list, labels, leads,
    lemma_one_fewer, lemma_push_contains, reaches, refers_to, text_set, tree_children,
    walk_reachable, Blobs,
};
use crate::store::memory::InMemoryStore;
use crate::table::Table;
use crate::text::holds_text;
use crate::types::NamespaceRef;

verus! {

/// Which objects a partial clone leaves out.
#[derive(Debug, Clone, Copy, PartialEq, Eq, Structural)]
pub enum FilterSpec {
    /// All blobs.
    BlobNone,
    /// The blobs with more than this many bytes.
    BlobLimit(u64),
}

/// What a client asks for beside objects.
#[derive(Debug)]
pub struct FetchOptions {
    /// How many commits deep; all where none is given.
    pub deepen: Option<u32>,
    /// Where the client's own history ends, each name once.
    pub client_shallows: Vec<String>,
    /// What to leave out.
    pub filter: Option<FilterSpec>,
}

impl Default for FetchOptions {
    fn default() -> (out: Self)
        ensures
            out.deepen is None,
            out.client_shallows@.len() == 0,
            out.filter is None,
    {
        FetchOptions { deepen: None, client_shallows: Vec::new(), filter: None }
    }
}

/// What a search for lacking objects depends on: what is stored, what the
/// client has, how deep, and through which filter.
pub struct NeedContext {
    pub blobs: Blobs,
    pub hash: HashKind,
    pub common: Seq<Seq<char>>,
    pub deepen: Option<u32>,
    pub filter: Option<FilterSpec>,
}

/// How far a search has come.
#[verifier::ext_equal]
pub struct NeedState {
    pub queue: Seq<Seq<char>>,
    pub visited: Seq<Seq<char>>,
    pub needed: Seq<Seq<char>>,
    pub shallows: Seq<Seq<char>>,
    pub depth: Map<Seq<char>, u32>,
}

impl NeedContext {
    /// Whether the client has an object: it can be reached from the common
    /// ones.
    pub open spec fn has(self, kappa: Seq<char>) -> bool {
        reaches(self.blobs, self.hash, self.common, kappa)
    }

    /// The object stored at an address.
    pub open spec fn object_at(self, kappa: Seq<char>) -> Option<(Kind, Seq<u8>)> {
        if self.blobs.dom().contains(kappa) {
            match envelope_parts(self.blobs[kappa]) {
                Ok(object) => Some(object),
                Err(_) => None,
            }
        } else {
            None
        }
    }

    /// Whether the filter leaves an object out.
    pub open spec fn filtered(self, object: (Kind, Seq<u8>)) -> bool {
        match self.filter {
            Some(FilterSpec::BlobNone) => object.0 == Kind::Blob,
            Some(FilterSpec::BlobLimit(limit)) => object.0 == Kind::Blob && object.1.len() > limit,
            None => false,
        }
    }

    /// Whether an object is to be sent once it is come upon.
    pub open spec fn takes(self, kappa: Seq<char>) -> bool {
        &&& !self.has(kappa)
        &&& self.object_at(kappa) matches Some(object) && !self.filtered(object)
    }

    /// Whether an object, come upon at a depth, is where the client's history
    /// will end.
    pub open spec fn ends_at(self, kind: Kind, depth: u32) -> bool {
        kind == Kind::Commit && (self.deepen matches Some(max) && depth >= max)
    }
}

/// One deeper.
pub open spec fn deeper(depth: u32) -> u32 {
    if depth < u32::MAX {
        (depth + 1) as u32
    } else {
        depth
    }
}

/// A list with a text at its end, unless it holds it already.
pub open spec fn with_text(list: Seq<Seq<char>>, x: Seq<char>) -> Seq<Seq<char>> {
    if list.contains(x) {
        list
    } else {
        list.push(x)
    }
}

/// The depth at which an address was come upon.
pub open spec fn depth_of(depth: Map<Seq<char>, u32>, kappa: Seq<char>) -> u32 {
    if depth.dom().contains(kappa) {
        depth[kappa]
    } else {
        0
    }
}

impl NeedState {
    /// Whether an address is still to be looked at.
    pub open spec fn open(self, cx: NeedContext, kappa: Seq<char>) -> bool {
        !self.visited.contains(kappa) && !cx.has(kappa)
    }

    /// The search with what a commit at the end of history refers to put in
    /// the queue, but for commits.
    pub open spec fn queued_at_end(self, cx: NeedContext, kids: Seq<Seq<char>>, depth: u32) -> NeedState
        decreases kids.len(),
    {
        if kids.len() == 0 {
            self
        } else {
            let s = self.queued_at_end(cx, kids.drop_last(), depth);
            let c = kids.last();
            if self.open(cx, c) && (cx.object_at(c) matches Some(object) && object.0
                != Kind::Commit) {
                NeedState { queue: s.queue.push(c), depth: s.depth.insert(c, depth), ..s }
            } else {
                s
            }
        }
    }

    /// The search with what an object refers to put in the queue, one deeper
    /// where it was not come upon before.
    pub open spec fn queued(self, cx: NeedContext, kids: Seq<Seq<char>>, depth: u32) -> NeedState
        decreases kids.len(),
    {
        if kids.len() == 0 {
            self
        } else {
            let s = self.queued(cx, kids.drop_last(), depth);
            let c = kids.last();
            if self.open(cx, c) {
                NeedState {
                    queue: s.queue.push(c),
                    depth: if s.depth.dom().contains(c) {
                        s.depth
                    } else {
                        s.depth.insert(c, deeper(depth))
                    },
                    ..s
                }
            } else {
                s
            }
        }
    }

    /// The search after the first address in the queue.
    pub open spec fn step(self, cx: NeedContext) -> NeedState {
        if self.queue.len() == 0 {
            self
        } else {
            let kappa = self.queue[0];
            let popped = NeedState { queue: self.queue.skip(1), ..self };
            if !self.open(cx, kappa) {
                popped
            } else {
                let seen = NeedState { visited: self.visited.push(kappa), ..popped };
                match cx.object_at(kappa) {
                    None => seen,
                    Some(object) => if cx.filtered(object) {
                        seen
                    } else {
                        let taken = NeedState { needed: self.needed.push(kappa), ..seen };
                        let depth = depth_of(self.depth, kappa);
                        let kids = refers_to(cx.blobs, cx.hash, kappa);
                        if cx.ends_at(object.0, depth) {
                            (NeedState {
                                shallows: with_text(self.shallows, hex_part(kappa)),
                                ..taken
                            }).queued_at_end(cx, kids, depth)
                        } else {
                            taken.queued(cx, kids, depth)
                        }
                    },
                }
            }
        }
    }

    /// The search after a number of steps.
    pub open spec fn after(self, cx: NeedContext, n: nat) -> NeedState
        decreases n,
    {
        if n == 0 {
            self
        } else {
            self.after(cx, (n - 1) as nat).step(cx)
        }
    }
}

/// A search that has not begun: the wants that the client does not have, in the
/// queue.
pub open spec fn need_start(cx: NeedContext, wants: Seq<Seq<char>>) -> NeedState
    decreases wants.len(),
{
    if wants.len() == 0 {
        NeedState {
            queue: Seq::empty(),
            visited: Seq::empty(),
            needed: Seq::empty(),
            shallows: Seq::empty(),
            depth: Map::empty(),
        }
    } else {
        let s = need_start(cx, wants.drop_last());
        let kappa = wants.last();
        if cx.has(kappa) {
            s
        } else {
            NeedState { queue: s.queue.push(kappa), depth: s.depth.insert(kappa, 1), ..s }
        }
    }
}

/// Whether a search for wants, brought to its end after `n` steps, finds these
/// objects and these ends of history.
pub open spec fn need_ends(
    cx: NeedContext,
    wants: Seq<Seq<char>>,
    n: nat,
    needed: Seq<Seq<char>>,
    shallows: Seq<Seq<char>>,
) -> bool {
    let s = need_start(cx, wants).after(cx, n);
    s.queue.len() == 0 && s.needed == needed && s.shallows == shallows
}

/// Whether these are the objects that a client lacks for its wants, in the
/// order in which they are come upon, and the ends of its history.
pub open spec fn need_found(
    cx: NeedContext,
    wants: Seq<Seq<char>>,
    needed: Seq<Seq<char>>,
    shallows: Seq<Seq<char>>,
) -> bool {
    exists|n: nat| need_ends(cx, wants, n, needed, shallows)
}

// -- The search ---------------------------------------------------------------------

struct NeedWalk {
    queue: Vec<String>,
    visited: Vec<String>,
    needed: Vec<String>,
    shallows: Vec<String>,
    depth: Table<String, u32>,
}

impl NeedWalk {
    spec fn wf(&self) -> bool {
        self.depth.wf()
    }

    spec fn state(&self) -> NeedState {
        NeedState {
            queue: self.queue.deep_view(),
            visited: self.visited.deep_view(),
            needed: self.needed.deep_view(),
            shallows: self.shallows.deep_view(),
            depth: self.depth@,
        }
    }
}

fn object_kind(store: &InMemoryStore, kappa: &str, Ghost(cx): Ghost<NeedContext>) -> (out: Option<Kind>)
    requires
        store.wf(),
        cx.blobs == store.state().blobs,
    ensures
        match (out, cx.object_at(kappa@)) {
            (Some(kind), Some((k, _))) => kind == k,
            (None, None) => true,
            _ => false,
        },
{
    match store.blob_get(kappa) {
        Ok(envelope) => match unwrap(envelope.as_slice()) {
            Ok(parts) => Some(parts.0),
            Err(_) => None,
        },
        Err(_) => None,
    }
}

fn is_open(walk: &NeedWalk, have: &Vec<String>, kappa: &str, Ghost(cx): Ghost<NeedContext>) -> (yes: bool)
    requires
        forall|k: Seq<char>| #[trigger] have.deep_view().contains(k) <==> cx.has(k),
    ensures
        yes == walk.state().open(cx, kappa@),
{
    !holds_text(&walk.visited, kappa) && !holds_text(have, kappa)
}

fn queue_at_end(
    store: &InMemoryStore,
    walk: &mut NeedWalk,
    have: &Vec<String>,
    kids: &Vec<String>,
    depth: u32,
    Ghost(cx): Ghost<NeedContext>,
)
    requires
        store.wf(),
        old(walk).wf(),
        cx.blobs == store.state().blobs,
        forall|k: Seq<char>| #[trigger] have.deep_view().contains(k) <==> cx.has(k),
    ensures
        final(walk).wf(),
        final(walk).state() == old(walk).state().queued_at_end(cx, kids.deep_view(), depth),
{
    let ghost first = walk.state();
    let ghost all = kids.deep_view();
    let mut i: usize = 0;
    assert(all.take(0) =~= Seq::<Seq<char>>::empty());
    while i < kids.len()
        invariant
            store.wf(),
            walk.wf(),
            cx.blobs == store.state().blobs,
            forall|k: Seq<char>| #[trigger] have.deep_view().contains(k) <==> cx.has(k),
            i <= kids@.len(),
            all == kids.deep_view(),
            all.len() == kids@.len(),
            walk.state() == first.queued_at_end(cx, all.take(i as int), depth),
            walk.state().visited == first.visited,
        decreases kids@.len() - i,
    {
        let child = kids[i].clone();
        let ghost c = child@;
        let ghost before = walk.state();
        proof {
            assert(all.take(i + 1).drop_last() =~= all.take(i as int));
            assert(all.take(i + 1).last() == c);
        }
        if is_open(walk, have, child.as_str(), Ghost(cx)) {
            if let Some(kind) = object_kind(store, child.as_str(), Ghost(cx)) {
                if kind != Kind::Commit {
                    walk.queue.push(child.clone());
                    walk.depth.insert(child, depth);
                    proof {
                        assert(walk.state().queue =~= before.queue.push(c));
                        assert(walk.state() =~= (NeedState {
                            queue: before.queue.push(c),
                            depth: before.depth.insert(c, depth),
                            ..before
                        }));
                    }
                }
            }
        }
        i += 1;
    }
    assert(all.take(i as int) =~= all);
}

fn queue_kids(
    walk: &mut NeedWalk,
    have: &Vec<String>,
    kids: &Vec<String>,
    depth: u32,
    Ghost(cx): Ghost<NeedContext>,
)
    requires
        old(walk).wf(),
        forall|k: Seq<char>| #[trigger] have.deep_view().contains(k) <==> cx.has(k),
    ensures
        final(walk).wf(),
        final(walk).state() == old(walk).state().queued(cx, kids.deep_view(), depth),
{
    let ghost first = walk.state();
    let ghost all = kids.deep_view();
    let next: u32 = if depth < u32::MAX { depth + 1 } else { depth };
    let mut i: usize = 0;
    assert(all.take(0) =~= Seq::<Seq<char>>::empty());
    while i < kids.len()
        invariant
            walk.wf(),
            forall|k: Seq<char>| #[trigger] have.deep_view().contains(k) <==> cx.has(k),
            i <= kids@.len(),
            all == kids.deep_view(),
            all.len() == kids@.len(),
            next == deeper(depth),
            walk.state() == first.queued(cx, all.take(i as int), depth),
            walk.state().visited == first.visited,
        decreases kids@.len() - i,
    {
        let child = kids[i].clone();
        let ghost c = child@;
        let ghost before = walk.state();
        proof {
            assert(all.take(i + 1).drop_last() =~= all.take(i as int));
            assert(all.take(i + 1).last() == c);
        }
        if is_open(walk, have, child.as_str(), Ghost(cx)) {
            if !walk.depth.contains(&child) {
                walk.depth.insert(child.clone(), next);
            }
            walk.queue.push(child);
            proof {
                assert(walk.state().queue =~= before.queue.push(c));
                assert(walk.state() =~= (NeedState {
                    queue: before.queue.push(c),
                    depth: if before.depth.dom().contains(c) {
                        before.depth
                    } else {
                        before.depth.insert(c, next)
                    },
                    ..before
                }));
            }
        }
        i += 1;
    }
    assert(all.take(i as int) =~= all);
}

fn take_step(
    store: &InMemoryStore,
    walk: &mut NeedWalk,
    have: &Vec<String>,
    hash: HashKind,
    opts: &FetchOptions,
    Ghost(cx): Ghost<NeedContext>,
)
    requires
        store.wf(),
        old(walk).wf(),
        old(walk).queue@.len() > 0,
        cx.blobs == store.state().blobs,
        cx.hash == hash,
        cx.deepen == opts.deepen,
        cx.filter == opts.filter,
        forall|k: Seq<char>| #[trigger] have.deep_view().contains(k) <==> cx.has(k),
    ensures
        final(walk).wf(),
        final(walk).state() == old(walk).state().step(cx),
{
    let ghost first = walk.state();
    let kappa = walk.queue.remove(0);
    let ghost name = kappa@;
    let ghost popped = NeedState { queue: first.queue.skip(1), ..first };
    proof {
        assert(first.queue[0] == name);
        assert(walk.state().queue =~= first.queue.skip(1));
        assert(walk.state() =~= popped);
    }
    if !is_open(walk, have, kappa.as_str(), Ghost(cx)) {
        return;
    }
    walk.visited.push(kappa.clone());
    let ghost seen = NeedState { visited: first.visited.push(name), ..popped };
    proof {
        assert(walk.state().visited =~= first.visited.push(name));
        assert(walk.state() =~= seen);
    }
    let envelope = match store.blob_get(kappa.as_str()) {
        Ok(envelope) => envelope,
        Err(_) => return,
    };
    let (kind, size) = match unwrap(envelope.as_slice()) {
        Ok((kind, content)) => (kind, content.len() as u64),
        Err(_) => return,
    };
    let left_out = match opts.filter {
        Some(FilterSpec::BlobNone) => kind == Kind::Blob,
        Some(FilterSpec::BlobLimit(limit)) => kind == Kind::Blob && size > limit,
        None => false,
    };
    if left_out {
        return;
    }
    let depth: u32 = match walk.depth.get(&kappa) {
        Some(d) => *d,
        None => 0,
    };
    let hex = kappa_to_hex_oid(kappa.as_str());
    walk.needed.push(kappa);
    let ghost taken = NeedState { needed: first.needed.push(name), ..seen };
    proof {
        assert(walk.state().needed =~= first.needed.push(name));
        assert(walk.state() =~= taken);
    }
    let kids = extract_children(envelope.as_slice(), digest_len(hash), hash_prefix(hash));
    let ends = match opts.deepen {
        Some(max) => kind == Kind::Commit && depth >= max,
        None => false,
    };
    if ends {
        let ghost had = walk.state();
        if !holds_text(&walk.shallows, hex.as_str()) {
            let ghost shown = hex@;
            walk.shallows.push(hex);
            assert(walk.state().shallows =~= had.shallows.push(shown));
        }
        assert(walk.state() =~= (NeedState {
            shallows: with_text(first.shallows, hex_part(name)),
            ..taken
        }));
        queue_at_end(store, walk, have, &kids, depth, Ghost(cx));
    } else {
        queue_kids(walk, have, &kids, depth, Ghost(cx));
    }
}

proof fn lemma_queued_visited(s: NeedState, cx: NeedContext, kids: Seq<Seq<char>>, depth: u32)
    ensures
        s.queued(cx, kids, depth).visited == s.visited,
        s.queued_at_end(cx, kids, depth).visited == s.visited,
    decreases kids.len(),
{
    if kids.len() > 0 {
        lemma_queued_visited(s, cx, kids.drop_last(), depth);
    }
}

/// Every step leaves fewer stored addresses to visit, or as many and a shorter
/// queue.
proof fn lemma_step_ends(cx: NeedContext, s: NeedState)
    requires
        cx.blobs.dom().finite(),
        s.queue.len() > 0,
    ensures
        ({
            let t = s.step(cx);
            let before = cx.blobs.dom().difference(text_set(s.visited)).len();
            let after = cx.blobs.dom().difference(text_set(t.visited)).len();
            after < before || (after == before && t.queue.len() < s.queue.len())
        }),
{
    let kappa = s.queue[0];
    lemma_one_fewer(cx.blobs.dom(), s.visited, kappa);
    if s.open(cx, kappa) && cx.object_at(kappa) is Some {
        let seen = NeedState {
            queue: s.queue.skip(1),
            visited: s.visited.push(kappa),
            needed: s.needed.push(kappa),
            ..s
        };
        let ended = NeedState { shallows: with_text(s.shallows, hex_part(kappa)), ..seen };
        let kids = refers_to(cx.blobs, cx.hash, kappa);
        lemma_queued_visited(seen, cx, kids, depth_of(s.depth, kappa));
        lemma_queued_visited(ended, cx, kids, depth_of(s.depth, kappa));
    }
}

/// The search's context for a request.
pub open spec fn need_context(
    blobs: Blobs,
    hash: HashKind,
    common: Seq<Seq<char>>,
    opts: FetchOptions,
) -> NeedContext {
    NeedContext {
        blobs,
        hash,
        common: labels(hash, common),
        deepen: opts.deepen,
        filter: opts.filter,
    }
}

/// The objects that a client lacks for its wants, given the objects that it has
/// in common with the store; and where its history will end.
pub fn compute_need_set(
    store: &InMemoryStore,
    namespace: &NamespaceRef,
    wants: &[String],
    common: &[String],
    hash: HashKind,
    opts: &FetchOptions,
) -> (out: (Vec<String>, Vec<String>))
    requires
        store.wf(),
    ensures
        need_found(
            need_context(store.state().blobs, hash, common.deep_view(), *opts),
            labels(hash, wants.deep_view()),
            out.0.deep_view(),
            out.1.deep_view(),
        ),
{
    let ghost cx = need_context(store.state().blobs, hash, common.deep_view(), *opts);
    let have = walk_reachable(store, common, hash);
    let starts = label_list(hash, wants);
    let ghost all = starts.deep_view();
    let mut walk = NeedWalk {
        queue: Vec::new(),
        visited: Vec::new(),
        needed: Vec::new(),
        shallows: Vec::new(),
        depth: Table::new(),
    };
    let mut i: usize = 0;
    proof {
        assert(all.take(0) =~= Seq::<Seq<char>>::empty());
        assert(walk.state() =~= need_start(cx, all.take(0)));
    }
    while i < starts.len()
        invariant
            walk.wf(),
            forall|k: Seq<char>| #[trigger] have.deep_view().contains(k) <==> cx.has(k),
            i <= starts@.len(),
            all == starts.deep_view(),
            all.len() == starts@.len(),
            walk.state() == need_start(cx, all.take(i as int)),
        decreases starts@.len() - i,
    {
        let kappa = starts[i].clone();
        let ghost name = kappa@;
        let ghost before = walk.state();
        proof {
            assert(all.take(i + 1).drop_last() =~= all.take(i as int));
            assert(all.take(i + 1).last() == name);
        }
        if !holds_text(&have, kappa.as_str()) {
            walk.depth.insert(kappa.clone(), 1);
            walk.queue.push(kappa);
            proof {
                assert(walk.state().queue =~= before.queue.push(name));
                assert(walk.state() =~= (NeedState {
                    queue: before.queue.push(name),
                    depth: before.depth.insert(name, 1),
                    ..before
                }));
            }
        }
        i += 1;
    }
    assert(all.take(i as int) =~= all);
    let ghost mut n: nat = 0;
    proof {
        store.blobs.lemma_len();
    }
    while walk.queue.len() > 0
        invariant
            store.wf(),
            walk.wf(),
            cx.blobs == store.state().blobs,
            cx.blobs.dom().finite(),
            cx.hash == hash,
            cx.deepen == opts.deepen,
            cx.filter == opts.filter,
            forall|k: Seq<char>| #[trigger] have.deep_view().contains(k) <==> cx.has(k),
            walk.state() == need_start(cx, all).after(cx, n),
        decreases
                cx.blobs.dom().difference(text_set(walk.visited.deep_view())).len(),
                walk.queue@.len(),
    {
        proof {
            lemma_step_ends(cx, walk.state());
            n = n + 1;
        }
        take_step(store, &mut walk, &have, hash, opts, Ghost(cx));
    }
    assert(need_ends(cx, all, n, walk.needed.deep_view(), walk.shallows.deep_view()));
    (walk.needed, walk.shallows)
}

// -- Laws ---------------------------------------------------------------------------

/// Whether a path to an address leads from the wants through objects that are
/// all to be sent.
pub open spec fn wanted_by(
    cx: NeedContext,
    wants: Seq<Seq<char>>,
    kappa: Seq<char>,
    path: Seq<Seq<char>>,
) -> bool {
    &&& leads(cx.blobs, cx.hash, wants, kappa, path)
    &&& forall|i: int| 0 <= i < path.len() ==> cx.takes(#[trigger] path[i])
}

/// Whether a client that wants these objects lacks this one, with no limit to
/// the depth: it comes after the wants, through objects that the client does
/// not have and the filter lets through.
pub open spec fn lacks(cx: NeedContext, wants: Seq<Seq<char>>, kappa: Seq<char>) -> bool {
    exists|path: Seq<Seq<char>>| wanted_by(cx, wants, kappa, path)
}

/// What holds of a search after every step.
spec fn search_inv(cx: NeedContext, wants: Seq<Seq<char>>, s: NeedState) -> bool {
    &&& s.needed.no_duplicates()
    &&& forall|i: int|
        0 <= i < s.needed.len() ==> s.visited.contains(#[trigger] s.needed[i]) && cx.takes(
            s.needed[i],
        ) && lacks(cx, wants, s.needed[i])
    &&& forall|i: int|
        0 <= i < s.queue.len() ==> comes_from(cx, wants, s, #[trigger] s.queue[i])
    &&& forall|i: int|
        0 <= i < s.shallows.len() ==> is_end(cx, s, #[trigger] s.shallows[i])
}

/// Whether an end of history is a commit that is to be sent.
pub open spec fn is_end(cx: NeedContext, s: NeedState, hex: Seq<char>) -> bool {
    exists|k: Seq<char>| #[trigger]
        s.needed.contains(k) && hex_part(k) == hex && (cx.object_at(k) matches Some(object)
            && object.0 == Kind::Commit)
}

/// Whether an address in the queue is a want, or referred to by an object that
/// is to be sent.
spec fn comes_from(cx: NeedContext, wants: Seq<Seq<char>>, s: NeedState, q: Seq<char>) -> bool {
    wants.contains(q) || exists|k: Seq<char>|
        s.needed.contains(k) && #[trigger] refers_to(cx.blobs, cx.hash, k).contains(q)
}

/// Whether the search goes on from one object to another that it refers to: it
/// does, but for a parent where there is a limit to the depth.
spec fn goes_on(cx: NeedContext, k: Seq<char>, c: Seq<char>) -> bool {
    ||| cx.deepen is None
    ||| cx.object_at(k) matches Some(object) && object.0 != Kind::Commit
    ||| cx.object_at(c) matches Some(object) && object.0 != Kind::Commit
}

/// What also holds of a search after every step: nothing that it goes on to is
/// passed over, and where it does not go on to a parent history ends.
spec fn full_inv(cx: NeedContext, wants: Seq<Seq<char>>, s: NeedState) -> bool {
    &&& forall|k: Seq<char>| #[trigger]
        s.visited.contains(k) && cx.takes(k) ==> s.needed.contains(k)
    &&& forall|i: int| 0 <= i < wants.len() ==> met(cx, s, #[trigger] wants[i])
    &&& forall|k: Seq<char>, c: Seq<char>|
        s.needed.contains(k) && #[trigger] refers_to(cx.blobs, cx.hash, k).contains(c) ==> (
        goes_on(cx, k, c) ==> met(cx, s, c)) && (met(cx, s, c) || s.shallows.contains(hex_part(k)))
}

/// Whether an address needs no more attention than the queue will give it.
spec fn met(cx: NeedContext, s: NeedState, k: Seq<char>) -> bool {
    cx.has(k) || s.visited.contains(k) || s.queue.contains(k)
}

/// What queueing does: it adds to the queue addresses out of `kids`.
proof fn lemma_queued(s: NeedState, cx: NeedContext, kids: Seq<Seq<char>>, depth: u32)
    ensures
        ({
            let t = s.queued(cx, kids, depth);
            let u = s.queued_at_end(cx, kids, depth);
            &&& t.needed == s.needed && t.visited == s.visited && t.shallows == s.shallows
            &&& u.needed == s.needed && u.visited == s.visited && u.shallows == s.shallows
            &&& s.queue.len() <= t.queue.len() && s.queue.len() <= u.queue.len()
            &&& forall|i: int| 0 <= i < s.queue.len() ==> #[trigger] t.queue[i] == s.queue[i]
            &&& forall|i: int| 0 <= i < s.queue.len() ==> #[trigger] u.queue[i] == s.queue[i]
            &&& forall|i: int|
                s.queue.len() <= i < t.queue.len() ==> kids.contains(#[trigger] t.queue[i])
            &&& forall|i: int|
                s.queue.len() <= i < u.queue.len() ==> kids.contains(#[trigger] u.queue[i])
            &&& forall|i: int|
                0 <= i < kids.len() && s.open(cx, #[trigger] kids[i]) ==> t.queue.contains(kids[i])
            &&& forall|i: int|
                0 <= i < kids.len() && s.open(cx, #[trigger] kids[i]) && (cx.object_at(
                    kids[i],
                ) matches Some(object) && object.0 != Kind::Commit) ==> u.queue.contains(kids[i])
        }),
    decreases kids.len(),
{
    if kids.len() > 0 {
        let front = kids.drop_last();
        lemma_queued(s, cx, front, depth);
        let t0 = s.queued(cx, front, depth);
        let u0 = s.queued_at_end(cx, front, depth);
        let t = s.queued(cx, kids, depth);
        let u = s.queued_at_end(cx, kids, depth);
        assert(kids[kids.len() - 1] == kids.last());
        assert forall|i: int| s.queue.len() <= i < t.queue.len() implies kids.contains(
            #[trigger] t.queue[i],
        ) by {
            if i < t0.queue.len() {
                let j = choose|j: int| 0 <= j < front.len() && front[j] == t0.queue[i];
                assert(kids[j] == t.queue[i]);
            }
        }
        assert forall|i: int| s.queue.len() <= i < u.queue.len() implies kids.contains(
            #[trigger] u.queue[i],
        ) by {
            if i < u0.queue.len() {
                let j = choose|j: int| 0 <= j < front.len() && front[j] == u0.queue[i];
                assert(kids[j] == u.queue[i]);
            }
        }
        assert forall|i: int|
            0 <= i < kids.len() && s.open(cx, #[trigger] kids[i]) implies t.queue.contains(
            kids[i],
        ) by {
            if i < front.len() {
                assert(front[i] == kids[i]);
                assert(t0.queue.contains(front[i]));
                lemma_push_contains(t0.queue, kids.last(), kids[i]);
            } else {
                lemma_push_contains(t0.queue, kids.last(), kids[i]);
            }
        }
        assert forall|i: int|
            0 <= i < kids.len() && s.open(cx, #[trigger] kids[i]) && (cx.object_at(
                kids[i],
            ) matches Some(object) && object.0 != Kind::Commit) implies u.queue.contains(
            kids[i],
        ) by {
            if i < front.len() {
                assert(front[i] == kids[i]);
                assert(u0.queue.contains(front[i]));
            }
            lemma_push_contains(u0.queue, kids.last(), kids[i]);
        }
    }
}

proof fn lemma_lacks_more(cx: NeedContext, wants: Seq<Seq<char>>, k: Seq<char>, c: Seq<char>)
    requires
        lacks(cx, wants, k),
        refers_to(cx.blobs, cx.hash, k).contains(c),
        cx.takes(c),
    ensures
        lacks(cx, wants, c),
{
    let path = choose|path: Seq<Seq<char>>| wanted_by(cx, wants, k, path);
    let longer = path.push(c);
    assert forall|i: int| 0 < i < longer.len() implies refers_to(
        cx.blobs,
        cx.hash,
        longer[i - 1],
    ).contains(#[trigger] longer[i]) by {
        if i < path.len() {
            assert(longer[i] == path[i]);
            assert(longer[i - 1] == path[i - 1]);
        } else {
            assert(longer[i - 1] == path.last());
        }
    }
    assert(longer[0] == path[0]);
    assert(leads(cx.blobs, cx.hash, wants, c, longer));
    assert forall|i: int| 0 <= i < longer.len() implies cx.takes(#[trigger] longer[i]) by {
        if i < path.len() {
            assert(longer[i] == path[i]);
        }
    }
    assert(wanted_by(cx, wants, c, longer));
}

proof fn lemma_lacks_want(cx: NeedContext, wants: Seq<Seq<char>>, k: Seq<char>)
    requires
        wants.contains(k),
        cx.takes(k),
    ensures
        lacks(cx, wants, k),
{
    let path = seq![k];
    assert(leads(cx.blobs, cx.hash, wants, k, path));
    assert(wanted_by(cx, wants, k, path));
}

/// Searches that agree on what they found agree on where a queue entry may come
/// from; one that found more allows more.
proof fn lemma_comes_from_more(
    cx: NeedContext,
    wants: Seq<Seq<char>>,
    s: NeedState,
    t: NeedState,
    q: Seq<char>,
)
    requires
        comes_from(cx, wants, s, q),
        forall|k: Seq<char>| s.needed.contains(k) ==> #[trigger] t.needed.contains(k),
    ensures
        comes_from(cx, wants, t, q),
{
    if !wants.contains(q) {
        let k = choose|k: Seq<char>|
            s.needed.contains(k) && #[trigger] refers_to(cx.blobs, cx.hash, k).contains(q);
        assert(t.needed.contains(k) && refers_to(cx.blobs, cx.hash, k).contains(q));
    }
}

proof fn lemma_step_inv(cx: NeedContext, wants: Seq<Seq<char>>, s: NeedState)
    requires
        search_inv(cx, wants, s),
    ensures
        search_inv(cx, wants, s.step(cx)),
{
    if s.queue.len() > 0 {
        let kappa = s.queue[0];
        let t = s.step(cx);
        let tail = s.queue.skip(1);
        assert forall|i: int| 0 <= i < tail.len() implies comes_from(
            cx,
            wants,
            s,
            #[trigger] tail[i],
        ) by {
            assert(tail[i] == s.queue[i + 1]);
        }
        if s.open(cx, kappa) {
            assert forall|x: Seq<char>| #[trigger]
                s.visited.push(kappa).contains(x) == (s.visited.contains(x) || x == kappa) by {
                lemma_push_contains(s.visited, kappa, x);
            }
            if cx.takes(kappa) {
                let object = cx.object_at(kappa)->0;
                let depth = depth_of(s.depth, kappa);
                let kids = refers_to(cx.blobs, cx.hash, kappa);
                let taken = NeedState {
                    queue: tail,
                    visited: s.visited.push(kappa),
                    needed: s.needed.push(kappa),
                    ..s
                };
                let ended = NeedState { shallows: with_text(s.shallows, hex_part(kappa)), ..taken };
                lemma_queued(taken, cx, kids, depth);
                lemma_queued(ended, cx, kids, depth);
                assert(comes_from(cx, wants, s, kappa));
                if wants.contains(kappa) {
                    lemma_lacks_want(cx, wants, kappa);
                } else {
                    let k = choose|k: Seq<char>|
                        s.needed.contains(k) && #[trigger] refers_to(
                            cx.blobs,
                            cx.hash,
                            k,
                        ).contains(kappa);
                    let i = choose|i: int| 0 <= i < s.needed.len() && s.needed[i] == k;
                    assert(lacks(cx, wants, s.needed[i]));
                    lemma_lacks_more(cx, wants, k, kappa);
                }
                assert forall|x: Seq<char>| s.needed.contains(x) implies #[trigger] t.needed.contains(
                    x,
                ) by {
                    lemma_push_contains(s.needed, kappa, x);
                }
                lemma_push_contains(s.needed, kappa, kappa);
                assert(t.needed == s.needed.push(kappa));
                assert(t.visited == s.visited.push(kappa));
                assert forall|i: int| 0 <= i < t.needed.len() implies t.visited.contains(
                    #[trigger] t.needed[i],
                ) && cx.takes(t.needed[i]) && lacks(cx, wants, t.needed[i]) by {
                    if i < s.needed.len() {
                        assert(t.needed[i] == s.needed[i]);
                    }
                }
                assert forall|i: int, j: int|
                    0 <= i < t.needed.len() && 0 <= j < t.needed.len() && i
                        != j implies t.needed[i] != t.needed[j] by {
                    if i == s.needed.len() {
                        assert(s.visited.contains(s.needed[j]));
                    }
                    if j == s.needed.len() {
                        assert(s.visited.contains(s.needed[i]));
                    }
                }
                assert forall|i: int| 0 <= i < t.queue.len() implies comes_from(
                    cx,
                    wants,
                    t,
                    #[trigger] t.queue[i],
                ) by {
                    if i < tail.len() {
                        assert(t.queue[i] == tail[i]);
                        lemma_comes_from_more(cx, wants, s, t, tail[i]);
                    } else {
                        assert(kids.contains(t.queue[i]));
                        assert(t.needed.contains(kappa) && refers_to(
                            cx.blobs,
                            cx.hash,
                            kappa,
                        ).contains(t.queue[i]));
                    }
                }
                assert forall|i: int| 0 <= i < t.shallows.len() implies is_end(
                    cx,
                    t,
                    #[trigger] t.shallows[i],
                ) by {
                    if i < s.shallows.len() {
                        assert(t.shallows[i] == s.shallows[i]);
                        let k = choose|k: Seq<char>| #[trigger]
                            s.needed.contains(k) && hex_part(k) == s.shallows[i] && (
                            cx.object_at(k) matches Some(o) && o.0 == Kind::Commit);
                        assert(t.needed.contains(k));
                    } else {
                        assert(t.needed.contains(kappa));
                    }
                }
            } else {
                assert(t.needed == s.needed && t.queue == tail && t.shallows == s.shallows);
                assert forall|i: int| 0 <= i < t.queue.len() implies comes_from(
                    cx,
                    wants,
                    t,
                    #[trigger] t.queue[i],
                ) by {
                    lemma_comes_from_more(cx, wants, s, t, tail[i]);
                }
                assert forall|i: int| 0 <= i < t.shallows.len() implies is_end(
                    cx,
                    t,
                    #[trigger] t.shallows[i],
                ) by {
                    assert(is_end(cx, s, s.shallows[i]));
                }
            }
        } else {
            assert forall|i: int| 0 <= i < t.queue.len() implies comes_from(
                cx,
                wants,
                t,
                #[trigger] t.queue[i],
            ) by {
                lemma_comes_from_more(cx, wants, s, t, tail[i]);
            }
            assert forall|i: int| 0 <= i < t.shallows.len() implies is_end(
                cx,
                t,
                #[trigger] t.shallows[i],
            ) by {
                assert(is_end(cx, s, s.shallows[i]));
            }
        }
    }
}

proof fn lemma_step_full(cx: NeedContext, wants: Seq<Seq<char>>, s: NeedState)
    requires
        full_inv(cx, wants, s),
    ensures
        full_inv(cx, wants, s.step(cx)),
{
    if s.queue.len() > 0 {
        let kappa = s.queue[0];
        let t = s.step(cx);
        let tail = s.queue.skip(1);
        let object = cx.object_at(kappa)->0;
        let depth = depth_of(s.depth, kappa);
        let kids = refers_to(cx.blobs, cx.hash, kappa);
        let taken = NeedState {
            queue: tail,
            visited: s.visited.push(kappa),
            needed: s.needed.push(kappa),
            ..s
        };
        let ended = NeedState { shallows: with_text(s.shallows, hex_part(kappa)), ..taken };
        lemma_queued(taken, cx, kids, depth);
        lemma_queued(ended, cx, kids, depth);
        assert forall|x: Seq<char>| s.shallows.contains(x) || (t.shallows != s.shallows && x
            == hex_part(kappa)) implies #[trigger] t.shallows.contains(x) by {
            lemma_push_contains(s.shallows, hex_part(kappa), x);
        }
        assert forall|x: Seq<char>| #[trigger]
            s.visited.push(kappa).contains(x) == (s.visited.contains(x) || x == kappa) by {
            lemma_push_contains(s.visited, kappa, x);
        }
        assert forall|x: Seq<char>| #[trigger]
            s.needed.push(kappa).contains(x) == (s.needed.contains(x) || x == kappa) by {
            lemma_push_contains(s.needed, kappa, x);
        }
        assert forall|x: Seq<char>| #[trigger] met(cx, s, x) implies met(cx, t, x) by {
            if s.queue.contains(x) {
                let i = choose|i: int| 0 <= i < s.queue.len() && s.queue[i] == x;
                if i > 0 {
                    assert(tail[i - 1] == x);
                    assert(t.queue[i - 1] == x);
                }
            }
        }
        assert forall|i: int| 0 <= i < wants.len() implies met(cx, t, #[trigger] wants[i]) by {
            assert(met(cx, s, wants[i]));
        }
        assert forall|k: Seq<char>, c: Seq<char>|
            t.needed.contains(k) && #[trigger] refers_to(cx.blobs, cx.hash, k).contains(
                c,
            ) implies (goes_on(cx, k, c) ==> met(cx, t, c)) && (met(cx, t, c)
            || t.shallows.contains(hex_part(k))) by {
            if s.needed.contains(k) {
                assert(goes_on(cx, k, c) ==> met(cx, s, c));
                assert(met(cx, s, c) || s.shallows.contains(hex_part(k)));
            } else {
                let i = choose|i: int| 0 <= i < kids.len() && kids[i] == c;
                assert(kids[i] == c);
                if cx.ends_at(object.0, depth) {
                    lemma_push_contains(s.shallows, hex_part(kappa), hex_part(kappa));
                    assert(t.shallows == ended.shallows);
                    if ended.open(cx, kids[i]) && goes_on(cx, k, c) {
                        assert(t.queue.contains(c));
                    }
                } else if taken.open(cx, kids[i]) {
                    assert(t.queue.contains(c));
                }
            }
        }
    }
}

proof fn lemma_start_inv(cx: NeedContext, wants: Seq<Seq<char>>, n: int)
    requires
        0 <= n <= wants.len(),
    ensures
        ({
            let s = need_start(cx, wants.take(n));
            &&& s.needed.len() == 0 && s.visited.len() == 0 && s.shallows.len() == 0
            &&& forall|i: int| 0 <= i < s.queue.len() ==> wants.contains(#[trigger] s.queue[i])
            &&& forall|i: int| 0 <= i < n ==> met(cx, s, #[trigger] wants[i])
        }),
    decreases n,
{
    if n > 0 {
        lemma_start_inv(cx, wants, n - 1);
        let front = wants.take(n).drop_last();
        assert(front =~= wants.take(n - 1));
        let s = need_start(cx, wants.take(n));
        let before = need_start(cx, front);
        let kappa = wants[n - 1];
        assert(wants.take(n).last() == kappa);
        assert forall|x: Seq<char>| #[trigger]
            before.queue.push(kappa).contains(x) == (before.queue.contains(x) || x == kappa) by {
            lemma_push_contains(before.queue, kappa, x);
        }
        assert forall|i: int| 0 <= i < s.queue.len() implies wants.contains(
            #[trigger] s.queue[i],
        ) by {
            if i < before.queue.len() {
                assert(s.queue[i] == before.queue[i]);
            }
        }
        assert forall|i: int| 0 <= i < n implies met(cx, s, #[trigger] wants[i]) by {
            if i < n - 1 {
                assert(met(cx, before, wants[i]));
            }
        }
    }
}

proof fn lemma_after_inv(cx: NeedContext, wants: Seq<Seq<char>>, n: nat)
    ensures
        search_inv(cx, wants, need_start(cx, wants).after(cx, n)),
        full_inv(cx, wants, need_start(cx, wants).after(cx, n)),
    decreases n,
{
    let s = need_start(cx, wants);
    if n == 0 {
        lemma_start_inv(cx, wants, wants.len() as int);
        assert(wants.take(wants.len() as int) =~= wants);
        assert forall|i: int| 0 <= i < s.queue.len() implies comes_from(
            cx,
            wants,
            s,
            #[trigger] s.queue[i],
        ) by {
            assert(wants.contains(s.queue[i]));
        }
    } else {
        lemma_after_inv(cx, wants, (n - 1) as nat);
        lemma_step_inv(cx, wants, s.after(cx, (n - 1) as nat));
        lemma_step_full(cx, wants, s.after(cx, (n - 1) as nat));
    }
}

/// The objects found are ones that the client lacks, each once: none that it
/// has, none that the filter leaves out, and none that no want leads to. Every
/// end of history is a commit among them.
pub proof fn law_need_sound(
    cx: NeedContext,
    wants: Seq<Seq<char>>,
    needed: Seq<Seq<char>>,
    shallows: Seq<Seq<char>>,
)
    requires
        need_found(cx, wants, needed, shallows),
    ensures
        needed.no_duplicates(),
        forall|k: Seq<char>| #[trigger] needed.contains(k) ==> cx.takes(k) && lacks(cx, wants, k),
        forall|hex: Seq<char>| #[trigger]
            shallows.contains(hex) ==> exists|k: Seq<char>| #[trigger]
                needed.contains(k) && hex_part(k) == hex && (cx.object_at(k) matches Some(object)
                    && object.0 == Kind::Commit),
{
    let n = choose|n: nat| need_ends(cx, wants, n, needed, shallows);
    let s = need_start(cx, wants).after(cx, n);
    lemma_after_inv(cx, wants, n);
    assert forall|k: Seq<char>| #[trigger] needed.contains(k) implies cx.takes(k) && lacks(
        cx,
        wants,
        k,
    ) by {
        let i = choose|i: int| 0 <= i < needed.len() && needed[i] == k;
        assert(cx.takes(s.needed[i]));
    }
    assert forall|hex: Seq<char>| #[trigger] shallows.contains(hex) implies exists|k: Seq<char>|
        #[trigger]
        needed.contains(k) && hex_part(k) == hex && (cx.object_at(k) matches Some(object)
            && object.0 == Kind::Commit) by {
        let i = choose|i: int| 0 <= i < shallows.len() && shallows[i] == hex;
        assert(is_end(cx, s, s.shallows[i]));
    }
}

/// With no limit to the depth, the objects found are exactly those that the
/// client lacks.
pub proof fn law_need_complete(
    cx: NeedContext,
    wants: Seq<Seq<char>>,
    needed: Seq<Seq<char>>,
    shallows: Seq<Seq<char>>,
)
    requires
        need_found(cx, wants, needed, shallows),
        cx.deepen is None,
    ensures
        forall|k: Seq<char>| #[trigger] needed.contains(k) <==> lacks(cx, wants, k),
{
    law_need_sound(cx, wants, needed, shallows);
    let n = choose|n: nat| need_ends(cx, wants, n, needed, shallows);
    let s = need_start(cx, wants).after(cx, n);
    lemma_after_inv(cx, wants, n);
    assert forall|k: Seq<char>| lacks(cx, wants, k) implies #[trigger] needed.contains(k) by {
        let path = choose|path: Seq<Seq<char>>| wanted_by(cx, wants, k, path);
        lemma_along(cx, wants, s, path, path.len() - 1);
    }
}

proof fn lemma_along(
    cx: NeedContext,
    wants: Seq<Seq<char>>,
    s: NeedState,
    path: Seq<Seq<char>>,
    i: int,
)
    requires
        full_inv(cx, wants, s),
        cx.deepen is None,
        s.queue.len() == 0,
        wanted_by(cx, wants, path.last(), path),
        0 <= i < path.len(),
    ensures
        s.needed.contains(path[i]),
    decreases i,
{
    assert(cx.takes(path[i]));
    if i == 0 {
        let j = choose|j: int| 0 <= j < wants.len() && wants[j] == path[0];
        assert(met(cx, s, wants[j]));
    } else {
        lemma_along(cx, wants, s, path, i - 1);
        assert(refers_to(cx.blobs, cx.hash, path[i - 1]).contains(path[i]));
        assert(goes_on(cx, path[i - 1], path[i]));
        assert(met(cx, s, path[i]));
    }
}

/// A search finds one thing only.
pub proof fn law_need_unique(
    cx: NeedContext,
    wants: Seq<Seq<char>>,
    needed: Seq<Seq<char>>,
    shallows: Seq<Seq<char>>,
    other_needed: Seq<Seq<char>>,
    other_shallows: Seq<Seq<char>>,
)
    requires
        need_found(cx, wants, needed, shallows),
        need_found(cx, wants, other_needed, other_shallows),
    ensures
        needed == other_needed,
        shallows == other_shallows,
{
    let n = choose|n: nat| need_ends(cx, wants, n, needed, shallows);
    let m = choose|m: nat| need_ends(cx, wants, m, other_needed, other_shallows);
    let s = need_start(cx, wants);
    if n <= m {
        lemma_ended(cx, s, n, m);
    } else {
        lemma_ended(cx, s, m, n);
    }
}

proof fn lemma_ended(cx: NeedContext, s: NeedState, n: nat, m: nat)
    requires
        n <= m,
        s.after(cx, n).queue.len() == 0,
    ensures
        s.after(cx, m) == s.after(cx, n),
    decreases m - n,
{
    if n < m {
        lemma_ended(cx, s, n, (m - 1) as nat);
    }
}

/// Whether an object of this kind and content is stored at an address.
pub open spec fn stored_as(blobs: Blobs, kappa: Seq<char>, kind: Kind, content: Seq<u8>) -> bool {
    blobs.dom().contains(kappa) && (envelope_parts(blobs[kappa]) matches Ok(object) && object.0
        == kind && object.1 == content)
}

proof fn lemma_referred_sent(
    cx: NeedContext,
    wants: Seq<Seq<char>>,
    needed: Seq<Seq<char>>,
    shallows: Seq<Seq<char>>,
    from: Seq<char>,
    to: Seq<char>,
)
    requires
        need_found(cx, wants, needed, shallows),
        cx.takes(to),
    ensures
        wants.contains(to) ==> needed.contains(to),
        needed.contains(from) && refers_to(cx.blobs, cx.hash, from).contains(to) ==> (goes_on(
            cx,
            from,
            to,
        ) ==> needed.contains(to)) && (needed.contains(to) || shallows.contains(hex_part(from))),
{
    let n = choose|n: nat| need_ends(cx, wants, n, needed, shallows);
    let s = need_start(cx, wants).after(cx, n);
    lemma_after_inv(cx, wants, n);
    if wants.contains(to) {
        let i = choose|i: int| 0 <= i < wants.len() && wants[i] == to;
        assert(met(cx, s, wants[i]));
    }
    if needed.contains(from) && refers_to(cx.blobs, cx.hash, from).contains(to) {
        assert(met(cx, s, to) ==> needed.contains(to));
    }
}

/// What is sent passes the filter. With `blob:limit` no blob with more bytes
/// than the limit is sent, with `blob:none` no blob at all.
pub proof fn law_filter_leaves_out(
    blobs: Blobs,
    hash: HashKind,
    wants: Seq<Seq<char>>,
    common: Seq<Seq<char>>,
    opts: FetchOptions,
    needed: Seq<Seq<char>>,
    shallows: Seq<Seq<char>>,
    kappa: Seq<char>,
    content: Seq<u8>,
)
    requires
        need_found(
            need_context(blobs, hash, common, opts),
            labels(hash, wants),
            needed,
            shallows,
        ),
        stored_as(blobs, kappa, Kind::Blob, content),
    ensures
        opts.filter == Some(FilterSpec::BlobNone) ==> !needed.contains(kappa),
        forall|limit: u64| #[trigger]
            opts.filter == Some(FilterSpec::BlobLimit(limit)) && content.len() > limit
                ==> !needed.contains(kappa),
{
    let cx = need_context(blobs, hash, common, opts);
    law_need_sound(cx, labels(hash, wants), needed, shallows);
    if needed.contains(kappa) {
        assert(cx.takes(kappa));
    }
}

/// A stored blob that the client does not have, that a tree among the objects
/// sent refers to or that the client wants, is sent: with `blob:limit` where it
/// has no more bytes than the limit, with no filter in any case.
pub proof fn law_filter_lets_through(
    blobs: Blobs,
    hash: HashKind,
    wants: Seq<Seq<char>>,
    common: Seq<Seq<char>>,
    opts: FetchOptions,
    needed: Seq<Seq<char>>,
    shallows: Seq<Seq<char>>,
    tree: Seq<char>,
    entries: Seq<u8>,
    kappa: Seq<char>,
    content: Seq<u8>,
)
    requires
        need_found(
            need_context(blobs, hash, common, opts),
            labels(hash, wants),
            needed,
            shallows,
        ),
        (needed.contains(tree) && stored_as(blobs, tree, Kind::Tree, entries) && tree_children(
            hash_name(hash),
            hash_len(hash),
            entries,
        ).contains(kappa)) || exists|i: int|
            0 <= i < wants.len() && kappa == hash_name(hash) + ":"@ + #[trigger] wants[i],
        stored_as(blobs, kappa, Kind::Blob, content),
        common.len() == 0 || !reaches(blobs, hash, labels(hash, common), kappa),
    ensures
        opts.filter is None ==> needed.contains(kappa),
        forall|limit: u64| #[trigger]
            opts.filter == Some(FilterSpec::BlobLimit(limit)) && content.len() <= limit
                ==> needed.contains(kappa),
{
    let cx = need_context(blobs, hash, common, opts);
    if cx.has(kappa) {
        let path = choose|path: Seq<Seq<char>>| leads(blobs, hash, cx.common, kappa, path);
        assert(cx.common.contains(path[0]));
    }
    assert(!cx.has(kappa));
    if opts.filter is None || (opts.filter matches Some(FilterSpec::BlobLimit(limit))
        && content.len() <= limit) {
        assert(cx.takes(kappa));
        lemma_referred_sent(cx, labels(hash, wants), needed, shallows, tree, kappa);
        if !(needed.contains(tree) && refers_to(blobs, hash, tree).contains(kappa)) {
            let i = choose|i: int|
                0 <= i < wants.len() && kappa == hash_name(hash) + ":"@ + #[trigger] wants[i];
            assert(labels(hash, wants)[i] == kappa);
        }
    }
}

/// No filter leaves out an object other than a blob: a stored commit, tree or
/// tag that the client wants and does not have is sent; so is one that an object
/// sent refers to, but for a parent that lies behind an end of history.
pub proof fn law_others_sent(
    blobs: Blobs,
    hash: HashKind,
    wants: Seq<Seq<char>>,
    common: Seq<Seq<char>>,
    opts: FetchOptions,
    needed: Seq<Seq<char>>,
    shallows: Seq<Seq<char>>,
    from: Seq<char>,
    kappa: Seq<char>,
    kind: Kind,
    content: Seq<u8>,
)
    requires
        need_found(
            need_context(blobs, hash, common, opts),
            labels(hash, wants),
            needed,
            shallows,
        ),
        stored_as(blobs, kappa, kind, content),
        kind != Kind::Blob,
        common.len() == 0 || !reaches(blobs, hash, labels(hash, common), kappa),
    ensures
        (exists|i: int|
            0 <= i < wants.len() && kappa == hash_name(hash) + ":"@ + #[trigger] wants[i])
            ==> needed.contains(kappa),
        needed.contains(from) && refers_to(blobs, hash, from).contains(kappa) ==> {
            &&& needed.contains(kappa) || shallows.contains(hex_part(from))
            &&& opts.deepen is None || kind != Kind::Commit ==> needed.contains(kappa)
        },
{
    let cx = need_context(blobs, hash, common, opts);
    if cx.has(kappa) {
        let path = choose|path: Seq<Seq<char>>| leads(blobs, hash, cx.common, kappa, path);
        assert(cx.common.contains(path[0]));
    }
    assert(cx.takes(kappa));
    lemma_referred_sent(cx, labels(hash, wants), needed, shallows, from, kappa);
    if exists|i: int|
        0 <= i < wants.len() && kappa == hash_name(hash) + ":"@ + #[trigger] wants[i] {
        let i = choose|i: int|
            0 <= i < wants.len() && kappa == hash_name(hash) + ":"@ + #[trigger] wants[i];
        assert(labels(hash, wants)[i] == kappa);
    }
}

/// Nothing is sent that the client has: neither a common object nor anything
/// that can be come to from one. Nothing is sent that is not stored as an object.
pub proof fn law_common_not_sent(
    blobs: Blobs,
    hash: HashKind,
    wants: Seq<Seq<char>>,
    common: Seq<Seq<char>>,
    opts: FetchOptions,
    needed: Seq<Seq<char>>,
    shallows: Seq<Seq<char>>,
    path: Seq<Seq<char>>,
    i: int,
)
    requires
        need_found(
            need_context(blobs, hash, common, opts),
            labels(hash, wants),
            needed,
            shallows,
        ),
        0 <= i < common.len(),
        path.len() > 0,
        path[0] == hash_name(hash) + ":"@ + common[i],
        forall|j: int|
            0 < j < path.len() ==> refers_to(blobs, hash, path[j - 1]).contains(#[trigger] path[j]),
    ensures
        !needed.contains(path.last()),
        forall|k: Seq<char>| #[trigger]
            needed.contains(k) ==> blobs.dom().contains(k) && envelope_parts(blobs[k]) is Ok,
{
    let cx = need_context(blobs, hash, common, opts);
    law_need_sound(cx, labels(hash, wants), needed, shallows);
    assert(cx.common[i] == path[0]);
    assert(leads(blobs, hash, cx.common, path.last(), path));
    assert(cx.has(path.last()));
    if needed.contains(path.last()) {
        assert(cx.takes(path.last()));
    }
    assert forall|k: Seq<char>| #[trigger] needed.contains(k) implies blobs.dom().contains(k)
        && envelope_parts(blobs[k]) is Ok by {
        assert(cx.takes(k));
    }
}

/// Whether a commit is stored at an address.
pub open spec fn is_commit(blobs: Blobs, kappa: Seq<char>) -> bool {
    blobs.dom().contains(kappa) && (envelope_parts(blobs[kappa]) matches Ok(object) && object.0
        == Kind::Commit)
}

/// How often a path goes from a commit to a commit.
pub open spec fn parent_steps(blobs: Blobs, path: Seq<Seq<char>>) -> nat
    decreases path.len(),
{
    if path.len() < 2 {
        0
    } else {
        parent_steps(blobs, path.drop_last()) + (if is_commit(blobs, path[path.len() - 2])
            && is_commit(blobs, path.last()) {
            1nat
        } else {
            0
        })
    }
}

/// Whether a path leads from the wants to an address that was come upon at a
/// depth.
spec fn way(
    cx: NeedContext,
    wants: Seq<Seq<char>>,
    max: u32,
    c: Seq<char>,
    depth: u32,
    path: Seq<Seq<char>>,
) -> bool {
    &&& leads(cx.blobs, cx.hash, wants, c, path)
    &&& parent_steps(cx.blobs, path) < depth
    &&& parent_steps(cx.blobs, path) < max || parent_steps(cx.blobs, path) == 0
    &&& path.len() >= depth
}

spec fn has_way(cx: NeedContext, wants: Seq<Seq<char>>, max: u32, c: Seq<char>, depth: u32) -> bool {
    exists|path: Seq<Seq<char>>| way(cx, wants, max, c, depth, path)
}

/// Whether every depth on file has a path that goes with it.
spec fn depths_inv(
    cx: NeedContext,
    wants: Seq<Seq<char>>,
    max: u32,
    depth: Map<Seq<char>, u32>,
) -> bool {
    forall|c: Seq<char>| #[trigger]
        depth.dom().contains(c) ==> has_way(cx, wants, max, c, depth[c])
}

/// Whether an end of history is a commit sent that a path of enough objects
/// leads to.
pub open spec fn ends_deep(
    blobs: Blobs,
    hash: HashKind,
    wants: Seq<Seq<char>>,
    max: u32,
    needed: Seq<Seq<char>>,
    hex: Seq<char>,
    k: Seq<char>,
    path: Seq<Seq<char>>,
) -> bool {
    &&& needed.contains(k)
    &&& is_commit(blobs, k)
    &&& hex_part(k) == hex
    &&& leads(blobs, hash, wants, k, path)
    &&& path.len() >= max
}

spec fn end_inv(
    cx: NeedContext,
    wants: Seq<Seq<char>>,
    max: u32,
    needed: Seq<Seq<char>>,
    hex: Seq<char>,
) -> bool {
    exists|k: Seq<char>, path: Seq<Seq<char>>| #[trigger]
        ends_deep(cx.blobs, cx.hash, wants, max, needed, hex, k, path)
}

/// What holds of a search with a limit to the depth after every step.
spec fn depth_inv(cx: NeedContext, wants: Seq<Seq<char>>, max: u32, s: NeedState) -> bool {
    &&& depths_inv(cx, wants, max, s.depth)
    &&& forall|i: int| 0 <= i < s.queue.len() ==> s.depth.dom().contains(#[trigger] s.queue[i])
    &&& forall|i: int| 0 <= i < s.needed.len() ==> s.depth.dom().contains(#[trigger] s.needed[i])
    &&& forall|i: int|
        0 <= i < s.shallows.len() ==> end_inv(cx, wants, max, s.needed, #[trigger] s.shallows[i])
}

proof fn lemma_queued_depth(
    s: NeedState,
    cx: NeedContext,
    wants: Seq<Seq<char>>,
    max: u32,
    kids: Seq<Seq<char>>,
    depth: u32,
)
    requires
        depths_inv(cx, wants, max, s.depth),
        forall|i: int| 0 <= i < s.queue.len() ==> s.depth.dom().contains(#[trigger] s.queue[i]),
    ensures
        (forall|i: int|
            0 <= i < kids.len() ==> has_way(cx, wants, max, #[trigger] kids[i], deeper(depth)))
            ==> depths_inv(cx, wants, max, s.queued(cx, kids, depth).depth),
        (forall|i: int|
            0 <= i < kids.len() && !is_commit(cx.blobs, #[trigger] kids[i]) ==> has_way(
                cx,
                wants,
                max,
                kids[i],
                depth,
            )) ==> depths_inv(cx, wants, max, s.queued_at_end(cx, kids, depth).depth),
        s.depth.dom().subset_of(s.queued(cx, kids, depth).depth.dom()),
        s.depth.dom().subset_of(s.queued_at_end(cx, kids, depth).depth.dom()),
        forall|i: int|
            0 <= i < s.queued(cx, kids, depth).queue.len() ==> s.queued(
                cx,
                kids,
                depth,
            ).depth.dom().contains(#[trigger] s.queued(cx, kids, depth).queue[i]),
        forall|i: int|
            0 <= i < s.queued_at_end(cx, kids, depth).queue.len() ==> s.queued_at_end(
                cx,
                kids,
                depth,
            ).depth.dom().contains(#[trigger] s.queued_at_end(cx, kids, depth).queue[i]),
    decreases kids.len(),
{
    if kids.len() > 0 {
        let front = kids.drop_last();
        lemma_queued_depth(s, cx, wants, max, front, depth);
        assert(kids[kids.len() - 1] == kids.last());
        if forall|i: int|
            0 <= i < kids.len() ==> has_way(cx, wants, max, #[trigger] kids[i], deeper(depth)) {
            assert forall|i: int| 0 <= i < front.len() implies has_way(
                cx,
                wants,
                max,
                #[trigger] front[i],
                deeper(depth),
            ) by {
                assert(front[i] == kids[i]);
            }
        }
        if forall|i: int|
            0 <= i < kids.len() && !is_commit(cx.blobs, #[trigger] kids[i]) ==> has_way(
                cx,
                wants,
                max,
                kids[i],
                depth,
            ) {
            assert forall|i: int|
                0 <= i < front.len() && !is_commit(cx.blobs, #[trigger] front[i]) implies has_way(
                cx,
                wants,
                max,
                front[i],
                depth,
            ) by {
                assert(front[i] == kids[i]);
            }
        }
    }
}

/// A way goes on to what its end refers to.
proof fn lemma_way_on(
    cx: NeedContext,
    wants: Seq<Seq<char>>,
    max: u32,
    k: Seq<char>,
    c: Seq<char>,
    depth: u32,
)
    requires
        has_way(cx, wants, max, k, depth),
        refers_to(cx.blobs, cx.hash, k).contains(c),
    ensures
        !is_commit(cx.blobs, k) || depth < max ==> has_way(cx, wants, max, c, deeper(depth)),
        !is_commit(cx.blobs, c) ==> has_way(cx, wants, max, c, depth),
{
    let path = choose|path: Seq<Seq<char>>| way(cx, wants, max, k, depth, path);
    let longer = path.push(c);
    assert forall|i: int| 0 < i < longer.len() implies refers_to(
        cx.blobs,
        cx.hash,
        longer[i - 1],
    ).contains(#[trigger] longer[i]) by {
        if i < path.len() {
            assert(longer[i] == path[i]);
            assert(longer[i - 1] == path[i - 1]);
        } else {
            assert(longer[i - 1] == path.last());
        }
    }
    assert(longer[0] == path[0]);
    assert(longer.drop_last() =~= path);
    assert(longer[longer.len() - 2] == k);
    assert(leads(cx.blobs, cx.hash, wants, c, longer));
    if !is_commit(cx.blobs, k) || depth < max {
        assert(way(cx, wants, max, c, deeper(depth), longer));
    }
    if !is_commit(cx.blobs, c) {
        assert(way(cx, wants, max, c, depth, longer));
    }
}

proof fn lemma_step_depth(cx: NeedContext, wants: Seq<Seq<char>>, max: u32, s: NeedState)
    requires
        cx.deepen == Some(max),
        depth_inv(cx, wants, max, s),
    ensures
        depth_inv(cx, wants, max, s.step(cx)),
{
    if s.queue.len() > 0 {
        let kappa = s.queue[0];
        let t = s.step(cx);
        let tail = s.queue.skip(1);
        assert forall|i: int| 0 <= i < tail.len() implies s.depth.dom().contains(
            #[trigger] tail[i],
        ) by {
            assert(tail[i] == s.queue[i + 1]);
        }
        if s.open(cx, kappa) && (cx.object_at(kappa) matches Some(object) && !cx.filtered(object)) {
            let object = cx.object_at(kappa)->0;
            let depth = depth_of(s.depth, kappa);
            let kids = refers_to(cx.blobs, cx.hash, kappa);
            let taken = NeedState {
                queue: tail,
                visited: s.visited.push(kappa),
                needed: s.needed.push(kappa),
                ..s
            };
            let ended = NeedState { shallows: with_text(s.shallows, hex_part(kappa)), ..taken };
            lemma_queued(taken, cx, kids, depth);
            lemma_queued(ended, cx, kids, depth);
            assert(has_way(cx, wants, max, kappa, depth));
            assert forall|i: int| 0 <= i < kids.len() implies refers_to(
                cx.blobs,
                cx.hash,
                kappa,
            ).contains(#[trigger] kids[i]) by {}
            if cx.ends_at(object.0, depth) {
                assert forall|i: int|
                    0 <= i < kids.len() && !is_commit(
                        cx.blobs,
                        #[trigger] kids[i],
                    ) implies has_way(cx, wants, max, kids[i], depth) by {
                    lemma_way_on(cx, wants, max, kappa, kids[i], depth);
                }
                lemma_queued_depth(ended, cx, wants, max, kids, depth);
            } else {
                assert forall|i: int| 0 <= i < kids.len() implies has_way(
                    cx,
                    wants,
                    max,
                    #[trigger] kids[i],
                    deeper(depth),
                ) by {
                    lemma_way_on(cx, wants, max, kappa, kids[i], depth);
                }
                lemma_queued_depth(taken, cx, wants, max, kids, depth);
            }
            assert forall|i: int| 0 <= i < t.needed.len() implies t.depth.dom().contains(
                #[trigger] t.needed[i],
            ) by {
                if i < s.needed.len() {
                    assert(t.needed[i] == s.needed[i]);
                    assert(s.depth.dom().contains(s.needed[i]));
                }
            }
            assert forall|i: int| 0 <= i < t.shallows.len() implies end_inv(
                cx,
                wants,
                max,
                t.needed,
                #[trigger] t.shallows[i],
            ) by {
                let hex = t.shallows[i];
                if i < s.shallows.len() {
                    assert(s.shallows[i] == hex);
                    let (k, path) = choose|k: Seq<char>, path: Seq<Seq<char>>| #[trigger]
                        ends_deep(cx.blobs, cx.hash, wants, max, s.needed, hex, k, path);
                    lemma_push_contains(s.needed, kappa, k);
                    assert(ends_deep(cx.blobs, cx.hash, wants, max, t.needed, hex, k, path));
                } else {
                    let path = choose|path: Seq<Seq<char>>|
                        way(cx, wants, max, kappa, depth, path);
                    lemma_push_contains(s.needed, kappa, kappa);
                    assert(ends_deep(cx.blobs, cx.hash, wants, max, t.needed, hex, kappa, path));
                }
            }
        } else {
            assert(t.depth == s.depth && t.queue == tail && t.needed == s.needed && t.shallows
                == s.shallows);
        }
    }
}

proof fn lemma_start_depth(cx: NeedContext, wants: Seq<Seq<char>>, max: u32, n: int)
    requires
        0 <= n <= wants.len(),
    ensures
        depth_inv(cx, wants, max, need_start(cx, wants.take(n))),
    decreases n,
{
    if n > 0 {
        lemma_start_depth(cx, wants, max, n - 1);
        assert(wants.take(n).drop_last() =~= wants.take(n - 1));
        let kappa = wants[n - 1];
        assert(wants.take(n).last() == kappa);
        let path = seq![kappa];
        assert(leads(cx.blobs, cx.hash, wants, kappa, path));
        assert(way(cx, wants, max, kappa, 1, path));
        lemma_start_inv(cx, wants, n);
    } else {
        assert(wants.take(0) =~= Seq::empty());
    }
}

proof fn lemma_after_depth(cx: NeedContext, wants: Seq<Seq<char>>, max: u32, n: nat)
    requires
        cx.deepen == Some(max),
    ensures
        depth_inv(cx, wants, max, need_start(cx, wants).after(cx, n)),
    decreases n,
{
    if n == 0 {
        assert(wants.take(wants.len() as int) =~= wants);
        lemma_start_depth(cx, wants, max, wants.len() as int);
    } else {
        lemma_after_depth(cx, wants, max, (n - 1) as nat);
        lemma_step_depth(cx, wants, max, need_start(cx, wants).after(cx, (n - 1) as nat));
    }
}

/// A path that leads from the wants to an object with fewer steps from commit to
/// parent than the depth asked for, and with none where the depth is none.
pub open spec fn shallow_path(
    blobs: Blobs,
    hash: HashKind,
    wants: Seq<Seq<char>>,
    max: u32,
    kappa: Seq<char>,
    path: Seq<Seq<char>>,
) -> bool {
    &&& leads(blobs, hash, wants, kappa, path)
    &&& parent_steps(blobs, path) == 0 || parent_steps(blobs, path) < max
}

/// A search to a depth sends no commit beyond it: from some want, each object
/// sent is fewer parents away than the depth. And history ends no sooner: a path
/// of as many objects as the depth leads to every end, a commit that is sent.
pub proof fn law_depth(
    blobs: Blobs,
    hash: HashKind,
    wants: Seq<Seq<char>>,
    common: Seq<Seq<char>>,
    opts: FetchOptions,
    needed: Seq<Seq<char>>,
    shallows: Seq<Seq<char>>,
    max: u32,
)
    requires
        need_found(
            need_context(blobs, hash, common, opts),
            labels(hash, wants),
            needed,
            shallows,
        ),
        opts.deepen == Some(max),
    ensures
        forall|k: Seq<char>| #[trigger]
            needed.contains(k) ==> exists|path: Seq<Seq<char>>| #[trigger]
                shallow_path(blobs, hash, labels(hash, wants), max, k, path),
        forall|hex: Seq<char>| #[trigger]
            shallows.contains(hex) ==> exists|k: Seq<char>, path: Seq<Seq<char>>| #[trigger]
                ends_deep(blobs, hash, labels(hash, wants), max, needed, hex, k, path),
{
    let cx = need_context(blobs, hash, common, opts);
    let starts = labels(hash, wants);
    let n = choose|n: nat| need_ends(cx, starts, n, needed, shallows);
    let s = need_start(cx, starts).after(cx, n);
    lemma_after_depth(cx, starts, max, n);
    assert forall|k: Seq<char>| #[trigger] needed.contains(k) implies exists|path: Seq<Seq<char>>|
     #[trigger] shallow_path(blobs, hash, starts, max, k, path) by {
        let i = choose|i: int| 0 <= i < needed.len() && needed[i] == k;
        assert(s.depth.dom().contains(s.needed[i]));
        let path = choose|path: Seq<Seq<char>>| way(cx, starts, max, k, s.depth[k], path);
        assert(shallow_path(blobs, hash, starts, max, k, path));
    }
    assert forall|hex: Seq<char>| #[trigger] shallows.contains(hex) implies exists|
        k: Seq<char>,
        path: Seq<Seq<char>>,
    | #[trigger] ends_deep(blobs, hash, starts, max, needed, hex, k, path) by {
        let i = choose|i: int| 0 <= i < shallows.len() && shallows[i] == hex;
        assert(end_inv(cx, starts, max, s.needed, s.shallows[i]));
    }
}

} // verus!
