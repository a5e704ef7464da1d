//! The chain of commits: every change of the records makes a new tree, and a
//! commit on it that names the one before.

use vstd::prelude::*;

use crate::atproto::cid::{cid_for_cbor, cid_of};
use crate::atproto::commit::{commit_cbor, Commit, CommitView, UnsignedCommit};
use crate::atproto::mst::{is_key, mst_written, BlockStore, MemoryBlockStore, Mst, Pair};
use crate::atproto::node::MstError;
use crate::atproto::repo::content_of;
use crate::atproto::writes::{recorded, set_record};
use crate::bytes::copy_bytes;
use crate::hexadecimal::{hex_encode, hex_of};
use crate::kappa::kappa_of;
use crate::store::memory::InMemoryStore;
use crate::store::state::StoreState;
use crate::table::TableKey;
use crate::text::{joined, text_strip_prefix};
use crate::types::{name_hash, NamespaceRef, StoreError, TagView};

verus! {

/// The key of a record in the tree, by the name it is kept under; none where it
/// is not a key.
pub open spec fn tree_key(name: Seq<char>) -> Option<Seq<char>> {
    let key = name.skip("record/"@.len() as int);
    if is_key(key) {
        Some(key)
    } else {
        None
    }
}

/// The tree of the records that tags name: the content identifier of each one
/// that is stored, under its key.
pub open spec fn tree_of(st: StoreState, tags: Seq<TagView>) -> Map<Seq<char>, Seq<u8>>
    decreases tags.len(),
{
    if tags.len() == 0 {
        Map::empty()
    } else {
        let before = tree_of(st, tags.drop_last());
        let tag = tags.last();
        match tree_key(tag.name) {
            Some(key) => if st.blobs.dom().contains(tag.kappa) {
                before.insert(key, cid_of(st.blobs[tag.kappa]))
            } else {
                before
            },
            None => before,
        }
    }
}

/// The tree of the records of a repository.
pub fn build_tree(store: &InMemoryStore, ns: &NamespaceRef) -> (out: Mst)
    requires
        store.wf(),
    ensures
        out.wf(),
        exists|tags: Seq<TagView>| #[trigger]
            store.state().is_listing(*ns, "record/"@, tags) && out@ == tree_of(
                store.state(),
                tags,
            ),
{
    let ghost st = store.state();
    let tags = match store.tag_prefix(ns, "record/") {
        Ok(tags) => tags,
        Err(_) => Vec::new(),
    };
    let ghost all = tags.deep_view();
    assert(st.is_listing(*ns, "record/"@, all));
    let mut tree = Mst::new();
    let mut i: usize = 0;
    assert(all.take(0) =~= Seq::<TagView>::empty());
    while i < tags.len()
        invariant
            store.wf(),
            st == store.state(),
            i <= tags@.len(),
            all == tags.deep_view(),
            all.len() == tags@.len(),
            st.is_listing(*ns, "record/"@, all),
            tree.wf(),
            tree@ == tree_of(st, all.take(i as int)),
        decreases tags@.len() - i,
    {
        proof {
            assert(all[i as int] == tags@[i as int].deep_view());
            assert(all.take(i + 1).drop_last() =~= all.take(i as int));
            assert(all.take(i + 1).last() == all[i as int]);
            assert("record/"@.is_prefix_of(all[i as int].name));
        }
        let key = match text_strip_prefix(tags[i].name.as_str(), "record/") {
            Some(key) => key,
            None => tags[i].name.clone(),
        };
        assert(key@ =~= all[i as int].name.skip("record/"@.len() as int));
        if let Ok(data) = store.blob_get(tags[i].kappa.as_str()) {
            let cid = cid_for_cbor(data.as_slice());
            match tree.insert(key.as_str(), cid) {
                Ok(_) => {},
                Err(MstError::KeyExists(_)) => {
                    let _ = tree.update(key.as_str(), cid);
                },
                Err(_) => {},
            }
        }
        i += 1;
    }
    assert(all.take(all.len() as int) =~= all);
    tree
}

/// A store with a node of a tree kept under its content identifier, if the name
/// can be bound once more.
pub open spec fn node_kept(st: StoreState, ns: NamespaceRef, cid: Seq<u8>, node: Seq<u8>) -> StoreState {
    let name = "mst/"@ + hex_of(cid);
    if st.tag_version(ns, name) < u64::MAX {
        recorded(st, ns, name, node)
    } else {
        st.put_blob(kappa_of(node), node).ensured(ns)
    }
}

/// A store with the nodes of a tree kept, one after the other.
pub open spec fn nodes_kept(st: StoreState, ns: NamespaceRef, nodes: Seq<(Seq<u8>, Seq<u8>)>) -> StoreState
    decreases nodes.len(),
{
    if nodes.len() == 0 {
        st
    } else {
        node_kept(
            nodes_kept(st, ns, nodes.drop_last()),
            ns,
            nodes.last().0,
            nodes.last().1,
        )
    }
}

/// Whether a list is the blocks of a map, each once.
pub open spec fn lists_blocks(blocks: Map<Seq<u8>, Seq<u8>>, list: Seq<(Seq<u8>, Seq<u8>)>) -> bool {
    &&& forall|i: int, j: int| 0 <= i < j < list.len() ==> (#[trigger] list[i]).0 != (#[trigger] list[j]).0
    &&& forall|i: int|
        0 <= i < list.len() ==> blocks.dom().contains((#[trigger] list[i]).0) && blocks[list[i].0]
            == list[i].1
    &&& forall|cid: Seq<u8>| #[trigger]
        blocks.dom().contains(cid) ==> exists|i: int| 0 <= i < list.len() && (#[trigger] list[i]).0 == cid
}

/// The content identifier of the latest commit.
pub open spec fn head_cid(st: StoreState, ns: NamespaceRef) -> Option<Seq<u8>> {
    match content_of(st, ns, "commit/head"@) {
        Some((_, commit)) => Some(cid_of(commit)),
        None => None,
    }
}

/// Whether a commit on the tree of the records was proposed, and the nodes of
/// the tree are kept.
pub open spec fn proposed(
    st: StoreState,
    after: StoreState,
    ns: NamespaceRef,
    pairs: Seq<Pair>,
    did: Seq<char>,
    rev: Seq<char>,
    commit: CommitView,
) -> bool {
    let written = mst_written(Map::empty(), pairs);
    &&& commit == (CommitView { did, version: 3, data: written.1, rev, prev: head_cid(st, ns) })
    &&& blocks_kept(st, after, ns, written.0)
}

/// Whether the blocks of a tree are kept, in some order.
pub open spec fn blocks_kept(
    st: StoreState,
    after: StoreState,
    ns: NamespaceRef,
    blocks: Map<Seq<u8>, Seq<u8>>,
) -> bool {
    exists|nodes: Seq<(Seq<u8>, Seq<u8>)>| #[trigger]
        lists_blocks(blocks, nodes) && after == nodes_kept(st, ns, nodes)
}

fn keep_nodes(store: &mut InMemoryStore, ns: &NamespaceRef, blocks: &MemoryBlockStore)
    requires
        old(store).wf(),
        blocks.wf(),
    ensures
        final(store).wf(),
        blocks_kept(old(store).state(), final(store).state(), *ns, blocks.blocks()),
{
    let ghost st = store.state();
    let ghost list = Seq::new(
        blocks.table.rows@.len(),
        |i: int| (blocks.table.rows@[i].0@, blocks.table.rows@[i].1@),
    );
    proof {
        assert forall|i: int, j: int| 0 <= i < j < list.len() implies (#[trigger] list[i]).0 != (
        #[trigger] list[j]).0 by {
            assert(blocks.table.rows@[i].0.key() != blocks.table.rows@[j].0.key());
        }
        assert forall|i: int| 0 <= i < list.len() implies blocks.blocks().dom().contains(
            (#[trigger] list[i]).0,
        ) && blocks.blocks()[list[i].0] == list[i].1 by {
            blocks.table.lemma_row(i);
            crate::table::lemma_deep_bytes(blocks.table.rows@[i].1);
        }
        assert forall|cid: Seq<u8>| #[trigger] blocks.blocks().dom().contains(cid) implies exists|
            i: int,
        |
            0 <= i < list.len() && (#[trigger] list[i]).0 == cid by {
            let i = blocks.table.row_of(cid);
            assert(blocks.table.rows@[i].0.key() == cid);
            assert(list[i].0 == cid);
        }
        assert(lists_blocks(blocks.blocks(), list));
        assert(list.take(0) =~= Seq::<(Seq<u8>, Seq<u8>)>::empty());
    }
    let mut i: usize = 0;
    while i < blocks.table.rows.len()
        invariant
            store.wf(),
            i <= blocks.table.rows@.len(),
            list.len() == blocks.table.rows@.len(),
            forall|j: int|
                0 <= j < list.len() ==> #[trigger] list[j] == (
                    blocks.table.rows@[j].0@,
                    blocks.table.rows@[j].1@,
                ),
            store.state() == nodes_kept(st, *ns, list.take(i as int)),
        decreases blocks.table.rows@.len() - i,
    {
        proof {
            assert(list.take(i + 1).drop_last() =~= list.take(i as int));
            assert(list.take(i + 1).last() == list[i as int]);
        }
        let row = &blocks.table.rows[i];
        let name = joined("mst/", hex_encode(row.0.as_slice()).as_str());
        let _ = set_record(store, ns, name.as_str(), row.1.as_slice());
        i += 1;
    }
    assert(list.take(list.len() as int) =~= list);
}

fn head_of(store: &InMemoryStore, ns: &NamespaceRef) -> (out: Option<Vec<u8>>)
    requires
        store.wf(),
    ensures
        crate::atproto::commit::shown_bytes(out) == head_cid(store.state(), *ns),
{
    match store.tag_get(ns, "commit/head") {
        Ok(entry) => match store.blob_get(entry.kappa.as_str()) {
            Ok(commit) => {
                let cid = cid_for_cbor(commit.as_slice());
                Some(copy_bytes(cid.as_slice()))
            },
            Err(_) => None,
        },
        Err(_) => None,
    }
}

/// Proposes a commit on a tree, after the latest one; the nodes of the tree are
/// kept.
pub fn commit_on(store: &mut InMemoryStore, ns: &NamespaceRef, tree: &Mst, did: &str, rev: &str) -> (out: UnsignedCommit)
    requires
        old(store).wf(),
        tree.wf(),
    ensures
        final(store).wf(),
        proposed(
            old(store).state(),
            final(store).state(),
            *ns,
            tree.pairs(),
            did@,
            rev@,
            out.content(),
        ),
{
    let prev = head_of(store, ns);
    let mut blocks = MemoryBlockStore::new();
    let root = tree.write_to_store(&mut blocks);
    keep_nodes(store, ns, &blocks);
    let out = UnsignedCommit {
        did: did.to_owned(),
        version: 3,
        data: copy_bytes(root.as_slice()),
        rev: rev.to_owned(),
        prev,
    };
    proof {
        let written = mst_written(Map::empty(), tree.pairs());
        assert(written.0 == blocks.blocks() && written.1 == root@);
        assert(out.content() == (CommitView {
            did: did@,
            version: 3,
            data: written.1,
            rev: rev@,
            prev: head_cid(old(store).state(), *ns),
        }));
        assert(blocks_kept(old(store).state(), store.state(), *ns, written.0));
    }
    out
}

/// Proposes a commit on the tree of a repository's records, after the latest
/// one; the nodes of the tree are kept.
pub fn propose_commit(store: &mut InMemoryStore, ns: &NamespaceRef, did: &str, rev: &str) -> (out: UnsignedCommit)
    requires
        old(store).wf(),
    ensures
        final(store).wf(),
        exists|tree: Mst| #[trigger]
            is_tree(old(store).state(), *ns, tree) && proposed(
                old(store).state(),
                final(store).state(),
                *ns,
                tree.pairs(),
                did@,
                rev@,
                out.content(),
            ),
{
    let tree = build_tree(store, ns);
    assert(is_tree(store.state(), *ns, tree));
    commit_on(store, ns, &tree, did, rev)
}

/// Whether a tree is that of the records of a repository.
pub open spec fn is_tree(st: StoreState, ns: NamespaceRef, tree: Mst) -> bool {
    tree.wf() && exists|tags: Seq<TagView>| #[trigger]
        st.is_listing(ns, "record/"@, tags) && tree@ == tree_of(st, tags)
}

/// A store with a signed commit as the latest one.
pub open spec fn sealed(st: StoreState, ns: NamespaceRef, commit: CommitView, sig: Seq<u8>) -> StoreState {
    recorded(st, ns, "commit/head"@, commit_cbor(commit, Some(sig))).tag_set(
        ns,
        "commit/rev"@,
        commit.rev,
    )
}

/// Makes a proposed commit, signed, the latest one; its address.
pub fn seal_commit(store: &mut InMemoryStore, ns: &NamespaceRef, commit: &UnsignedCommit, sig: &[u8]) -> (out: Result<
    String,
    StoreError,
>)
    requires
        old(store).wf(),
    ensures
        final(store).wf(),
        ({
            let st = old(store).state();
            let bytes = commit_cbor(commit.content(), Some(sig@));
            let headed = recorded(st, *ns, "commit/head"@, bytes);
            match out {
                Ok(kappa) => kappa@ == kappa_of(bytes) && final(store).state() == sealed(
                    st,
                    *ns,
                    commit.content(),
                    sig@,
                ),
                Err(e) => e is Rejected && if st.tag_version(*ns, "commit/head"@) == u64::MAX {
                    final(store).state() == st.put_blob(kappa_of(bytes), bytes).ensured(*ns)
                } else {
                    headed.tag_version(*ns, "commit/rev"@) == u64::MAX && final(store).state()
                        == headed.ensured(*ns)
                },
            }
        }),
{
    let signed = Commit {
        did: commit.did.clone(),
        version: commit.version,
        data: copy_bytes(commit.data.as_slice()),
        rev: commit.rev.clone(),
        prev: match &commit.prev {
            Some(p) => Some(copy_bytes(p.as_slice())),
            None => None,
        },
        sig: copy_bytes(sig),
    };
    let bytes = signed.to_cbor();
    assert(signed.content() == commit.content());
    let kappa = match set_record(store, ns, "commit/head", bytes.as_slice()) {
        Ok(kappa) => kappa,
        Err(e) => return Err(e),
    };
    match store.tag_set(ns, "commit/rev", commit.rev.as_str()) {
        Ok(_) => Ok(kappa),
        Err(e) => Err(e),
    }
}

/// Commits form a chain: the next one names the one that was sealed, unless its
/// address held something else or its name and the revision's share a place.
pub proof fn law_commit_chain(st: StoreState, ns: NamespaceRef, commit: CommitView, sig: Seq<u8>)
    requires
        ({
            let bytes = commit_cbor(commit, Some(sig));
            st.blobs.dom().contains(kappa_of(bytes)) ==> st.blobs[kappa_of(bytes)] == bytes
        }),
        crate::types::name_hash("commit/head"@) != crate::types::name_hash("commit/rev"@),
    ensures
        head_cid(sealed(st, ns, commit, sig), ns) == Some(
            cid_of(commit_cbor(commit, Some(sig))),
        ),
{
}

proof fn lemma_tree_at(st: StoreState, tags: Seq<TagView>, i: int)
    requires
        0 <= i < tags.len(),
        tree_key(tags[i].name) is Some,
        st.blobs.dom().contains(tags[i].kappa),
        forall|a: int, b: int|
            0 <= a < b < tags.len() ==> tree_key((#[trigger] tags[a]).name) is None || tree_key(
                tags[a].name,
            ) != tree_key((#[trigger] tags[b]).name),
    ensures
        tree_of(st, tags).dom().contains(tree_key(tags[i].name)->0),
        tree_of(st, tags)[tree_key(tags[i].name)->0] == cid_of(st.blobs[tags[i].kappa]),
    decreases tags.len(),
{
    let front = tags.drop_last();
    if i < front.len() {
        assert(front[i] == tags[i]);
        assert forall|a: int, b: int| 0 <= a < b < front.len() implies tree_key(
            (#[trigger] front[a]).name,
        ) is None || tree_key(front[a].name) != tree_key((#[trigger] front[b]).name) by {
            assert(front[a] == tags[a] && front[b] == tags[b]);
        }
        lemma_tree_at(st, front, i);
        assert(tree_key(tags[i].name) != tree_key(tags[tags.len() - 1].name));
    }
}

proof fn lemma_tree_from(st: StoreState, tags: Seq<TagView>, key: Seq<char>) -> (i: int)
    requires
        tree_of(st, tags).dom().contains(key),
    ensures
        0 <= i < tags.len(),
        tree_key(tags[i].name) == Some(key),
        st.blobs.dom().contains(tags[i].kappa),
        tree_of(st, tags)[key] == cid_of(st.blobs[tags[i].kappa]),
    decreases tags.len(),
{
    let front = tags.drop_last();
    if tags.len() > 0 && tree_key(tags.last().name) == Some(key) && st.blobs.dom().contains(
        tags.last().kappa,
    ) {
        tags.len() - 1
    } else {
        let i = lemma_tree_from(st, front, key);
        assert(front[i] == tags[i]);
        i
    }
}

/// The tree of a repository holds every record that is stored and whose key is
/// one, under its collection and key, with the content identifier of its content;
/// and it holds nothing else.
pub proof fn law_record_in_tree(
    st: StoreState,
    ns: NamespaceRef,
    tree: Mst,
    h: u64,
    key: Seq<char>,
)
    requires
        is_tree(st, ns, tree),
    ensures
        st.tags.dom().contains((ns.id(), h)) && st.tags[(ns.id(), h)].name == "record/"@ + key
            && is_key(key) && st.blobs.dom().contains(st.tags[(ns.id(), h)].kappa)
            ==> tree@.dom().contains(key) && tree@[key] == cid_of(
            st.blobs[st.tags[(ns.id(), h)].kappa],
        ),
        tree@.dom().contains(key) ==> is_key(key) && exists|g: u64|
            is_record_at(st, ns.id(), g, key, #[trigger] tree@[key]),
{
    let tags = choose|tags: Seq<TagView>| #[trigger]
        st.is_listing(ns, "record/"@, tags) && tree@ == tree_of(st, tags);
    let start = "record/"@;
    assert forall|a: int, b: int| 0 <= a < b < tags.len() implies tree_key(
        (#[trigger] tags[a]).name,
    ) is None || tree_key(tags[a].name) != tree_key((#[trigger] tags[b]).name) by {
        let names = crate::store::state::tag_names(tags);
        assert(names[a] == tags[a].name && names[b] == tags[b].name);
        crate::text::lemma_text_below_irreflexive(names[a]);
        if tree_key(tags[a].name) is Some && tree_key(tags[a].name) == tree_key(tags[b].name) {
            assert(start.is_prefix_of(tags[a].name) && start.is_prefix_of(tags[b].name));
            assert(tags[a].name =~= start + tags[a].name.skip(start.len() as int));
            assert(tags[b].name =~= start + tags[b].name.skip(start.len() as int));
        }
    }
    if st.tags.dom().contains((ns.id(), h)) && st.tags[(ns.id(), h)].name == "record/"@ + key
        && is_key(key) && st.blobs.dom().contains(st.tags[(ns.id(), h)].kappa) {
        let tag = st.tags[(ns.id(), h)];
        assert(start =~= tag.name.subrange(0, start.len() as int));
        assert(start.is_prefix_of(tag.name));
        assert(tag.name.skip(start.len() as int) =~= key);
        assert(tags.contains(tag));
        let i = choose|i: int| 0 <= i < tags.len() && tags[i] == tag;
        lemma_tree_at(st, tags, i);
    }
    if tree@.dom().contains(key) {
        let i = lemma_tree_from(st, tags, key);
        let g = crate::types::name_hash(tags[i].name);
        assert(StoreState::filed(ns, tags[i].name) == (ns.id(), g));
        assert(start.is_prefix_of(tags[i].name));
        assert(tags[i].name =~= start + tags[i].name.skip(start.len() as int));
        assert(is_record_at(st, ns.id(), g, key, tree@[key]));
    }
}

/// Whether a tag on file names the record with a key, and the record has this
/// content identifier.
pub open spec fn is_record_at(
    st: StoreState,
    id: Seq<u8>,
    h: u64,
    key: Seq<char>,
    cid: Seq<u8>,
) -> bool {
    &&& st.tags.dom().contains((id, h))
    &&& st.tags[(id, h)].name == "record/"@ + key
    &&& st.blobs.dom().contains(st.tags[(id, h)].kappa)
    &&& cid == cid_of(st.blobs[st.tags[(id, h)].kappa])
}

proof fn lemma_nodes_keep(
    st: StoreState,
    ns: NamespaceRef,
    nodes: Seq<(Seq<u8>, Seq<u8>)>,
    name: Seq<char>,
    kappa: Seq<char>,
)
    ensures
        st.blobs.dom().contains(kappa) ==> nodes_kept(st, ns, nodes).blobs.dom().contains(kappa)
            && nodes_kept(st, ns, nodes).blobs[kappa] == st.blobs[kappa],
        (forall|i: int|
            0 <= i < nodes.len() ==> name_hash("mst/"@ + hex_of((#[trigger] nodes[i]).0))
                != name_hash(name)) ==> {
            let k = StoreState::filed(ns, name);
            let after = nodes_kept(st, ns, nodes);
            after.tags.dom().contains(k) == st.tags.dom().contains(k) && after.tags[k] == st.tags[k]
        },
    decreases nodes.len(),
{
    if nodes.len() > 0 {
        let front = nodes.drop_last();
        lemma_nodes_keep(st, ns, front, name, kappa);
        if forall|i: int|
            0 <= i < nodes.len() ==> name_hash("mst/"@ + hex_of((#[trigger] nodes[i]).0))
                != name_hash(name) {
            assert forall|i: int| 0 <= i < front.len() implies name_hash(
                "mst/"@ + hex_of((#[trigger] front[i]).0),
            ) != name_hash(name) by {
                assert(front[i] == nodes[i]);
            }
            assert(name_hash("mst/"@ + hex_of(nodes[nodes.len() - 1].0)) != name_hash(name));
        }
    }
}

proof fn lemma_node_kept(st: StoreState, ns: NamespaceRef, nodes: Seq<(Seq<u8>, Seq<u8>)>, i: int)
    requires
        0 <= i < nodes.len(),
        st.tag_version(ns, "mst/"@ + hex_of(nodes[i].0)) < u64::MAX,
        forall|j: int|
            0 <= j < nodes.len() && j != i ==> name_hash("mst/"@ + hex_of((#[trigger] nodes[j]).0))
                != name_hash("mst/"@ + hex_of(nodes[i].0)),
    ensures
        ({
            let k = StoreState::filed(ns, "mst/"@ + hex_of(nodes[i].0));
            let after = nodes_kept(st, ns, nodes);
            &&& after.tags.dom().contains(k)
            &&& after.tags[k].name == "mst/"@ + hex_of(nodes[i].0)
            &&& after.tags[k].kappa == kappa_of(nodes[i].1)
            &&& after.blobs.dom().contains(kappa_of(nodes[i].1))
        }),
    decreases nodes.len(),
{
    let front = nodes.drop_last();
    let name = "mst/"@ + hex_of(nodes[i].0);
    let before = nodes_kept(st, ns, front);
    if i < front.len() {
        assert(front[i] == nodes[i]);
        assert forall|j: int| 0 <= j < front.len() && j != i implies name_hash(
            "mst/"@ + hex_of((#[trigger] front[j]).0),
        ) != name_hash("mst/"@ + hex_of(front[i].0)) by {
            assert(front[j] == nodes[j]);
        }
        lemma_node_kept(st, ns, front, i);
        assert(name_hash("mst/"@ + hex_of(nodes[nodes.len() - 1].0)) != name_hash(name));
    } else {
        assert forall|j: int| 0 <= j < front.len() implies name_hash(
            "mst/"@ + hex_of((#[trigger] front[j]).0),
        ) != name_hash(name) by {
            assert(front[j] == nodes[j]);
        }
        lemma_nodes_keep(st, ns, front, name, Seq::empty());
    }
}

/// A proposed commit names the repository, its revision, the root of the tree of
/// its records, and the commit before it, if there is one. Every node of the tree
/// is stored and named `mst/` with its content identifier in hexadecimal, where
/// no two of these names share a hash and none is used up. What was stored stays.
pub proof fn law_commit_proposed(
    st: StoreState,
    after: StoreState,
    ns: NamespaceRef,
    pairs: Seq<Pair>,
    did: Seq<char>,
    rev: Seq<char>,
    commit: CommitView,
    cid: Seq<u8>,
    kappa: Seq<char>,
)
    requires
        proposed(st, after, ns, pairs, did, rev, commit),
        mst_written(Map::empty(), pairs).0.dom().contains(cid),
        st.tag_version(ns, "mst/"@ + hex_of(cid)) < u64::MAX,
        forall|other: Seq<u8>| #[trigger]
            mst_written(Map::empty(), pairs).0.dom().contains(other) && other != cid ==> name_hash(
                "mst/"@ + hex_of(other),
            ) != name_hash("mst/"@ + hex_of(cid)),
    ensures
        commit.did == did && commit.rev == rev && commit.version == 3,
        commit.data == mst_written(Map::empty(), pairs).1,
        commit.prev == (match content_of(st, ns, "commit/head"@) {
            Some((_, bytes)) => Some(cid_of(bytes)),
            None => None,
        }),
        ({
            let k = StoreState::filed(ns, "mst/"@ + hex_of(cid));
            let node = mst_written(Map::empty(), pairs).0[cid];
            &&& after.tags.dom().contains(k)
            &&& after.tags[k].name == "mst/"@ + hex_of(cid)
            &&& after.tags[k].kappa == kappa_of(node)
            &&& after.blobs.dom().contains(kappa_of(node))
        }),
        st.blobs.dom().contains(kappa) ==> after.blobs.dom().contains(kappa) && after.blobs[kappa]
            == st.blobs[kappa],
{
    let blocks = mst_written(Map::empty(), pairs).0;
    let nodes = choose|nodes: Seq<(Seq<u8>, Seq<u8>)>| #[trigger]
        lists_blocks(blocks, nodes) && after == nodes_kept(st, ns, nodes);
    let i = choose|i: int| 0 <= i < nodes.len() && (#[trigger] nodes[i]).0 == cid;
    assert forall|j: int| 0 <= j < nodes.len() && j != i implies name_hash(
        "mst/"@ + hex_of((#[trigger] nodes[j]).0),
    ) != name_hash("mst/"@ + hex_of(nodes[i].0)) by {
        if j < i {
            assert(nodes[j].0 != nodes[i].0);
        } else {
            assert(nodes[i].0 != nodes[j].0);
        }
        assert(blocks.dom().contains(nodes[j].0));
    }
    lemma_node_kept(st, ns, nodes, i);
    lemma_nodes_keep(st, ns, nodes, Seq::empty(), kappa);
}

/// Sealing a commit makes its signed bytes the latest commit, stored at their address
/// where nothing was, and its revision the latest one.
pub proof fn law_sealed(st: StoreState, ns: NamespaceRef, commit: CommitView, sig: Seq<u8>)
    requires
        name_hash("commit/head"@) != name_hash("commit/rev"@),
    ensures
        ({
            let after = sealed(st, ns, commit, sig);
            let bytes = commit_cbor(commit, Some(sig));
            let head = StoreState::filed(ns, "commit/head"@);
            let rev = StoreState::filed(ns, "commit/rev"@);
            &&& after.tags.dom().contains(head) && after.tags[head].kappa == kappa_of(bytes)
            &&& after.tags.dom().contains(rev) && after.tags[rev].kappa == commit.rev
            &&& after.blobs.dom().contains(kappa_of(bytes))
            &&& !st.blobs.dom().contains(kappa_of(bytes)) ==> after.blobs[kappa_of(bytes)] == bytes
        }),
{
}

} // verus!
