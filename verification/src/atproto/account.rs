//! New accounts: an identifier, and a repository with one commit.

use vstd::prelude::*;
use vstd::utf8::encode_utf8;

use crate::atproto::cid::cid_of;
use crate::atproto::commit::{commit_cbor, CommitView, UnsignedCommit};
use crate::atproto::mst::{MemoryBlockStore, Mst};
use crate::atproto::node::node_bytes;
use crate::atproto::repo::unknown;
use crate::atproto::writes::{
    fresh_key, is_fresh_key, ready_repo, recorded, repo_ready, set_record,
};
use crate::bytes::copy_bytes;
use crate::digest::{sha256, sha256_of};
use crate::hexadecimal::{hex_encode, hex_of};
use crate::kappa::kappa_of;
use crate::store::memory::InMemoryStore;
use crate::store::state::StoreState;
use crate::text::joined;
use crate::types::{name_hash, NamespaceRef, StoreError};

verus! {

/// The identifier of an account that brings none: the first half of the SHA-256
/// digest of its handle.
pub open spec fn derived_did(handle: Seq<char>) -> Seq<char> {
    "did:plc:"@ + hex_of(sha256_of(encode_utf8(handle)).take(16))
}

/// The identifier of a new account: the one it brings, or one derived from its
/// handle.
pub fn account_did(handle: &str, did: Option<&str>) -> (out: String)
    ensures
        out@ == (match did {
            Some(d) => d@,
            None => derived_did(handle@),
        }),
{
    match did {
        Some(d) => d.to_owned(),
        None => {
            let digest = sha256(handle.as_bytes());
            let half = crate::bytes::copy_range(digest.as_slice(), 0, 16);
            assert(half@ =~= sha256_of(encode_utf8(handle@)).take(16));
            joined("did:plc:", hex_encode(half.as_slice()).as_str())
        },
    }
}

/// The block of an empty tree.
pub open spec fn empty_tree() -> Seq<u8> {
    node_bytes(None, Seq::empty())
}

/// The first commit of a repository.
pub open spec fn first_commit(did: Seq<char>, rev: Seq<char>) -> Seq<u8> {
    commit_cbor(
        CommitView { did, version: 3, data: cid_of(empty_tree()), rev, prev: None },
        None,
    )
}

/// The name under which the root of an empty tree is kept.
pub open spec fn tree_name() -> Seq<char> {
    "mst/"@ + hex_of(cid_of(empty_tree()))
}

/// A store with a new repository: an empty tree, a first commit on it, and its
/// revision.
pub open spec fn repo_begun(st: StoreState, ns: NamespaceRef, did: Seq<char>, rev: Seq<char>) -> StoreState {
    recorded(
        recorded(st, ns, tree_name(), empty_tree()),
        ns,
        "commit/head"@,
        first_commit(did, rev),
    ).tag_set(ns, "commit/rev"@, rev)
}

/// Whether the names of a new repository can still be bound.
pub open spec fn repo_bindable(st: StoreState, ns: NamespaceRef) -> bool {
    st.tag_version(ns, tree_name()) < u64::MAX - 2 && st.tag_version(ns, "commit/head"@) < u64::MAX
        - 2 && st.tag_version(ns, "commit/rev"@) < u64::MAX - 2
}

/// A store in which a record is stored, but its name is used up.
pub open spec fn unnamed(st: StoreState, ns: NamespaceRef, record: Seq<u8>) -> StoreState {
    st.put_blob(kappa_of(record), record).ensured(ns)
}

/// Whether a first commit was put on an empty tree. Where a name is used up, what
/// was stored before that remains.
pub open spec fn begun(
    st: StoreState,
    after: StoreState,
    ns: NamespaceRef,
    did: Seq<char>,
    rev: Seq<char>,
    out: Result<(), StoreError>,
) -> bool {
    let rooted = recorded(st, ns, tree_name(), empty_tree());
    let headed = recorded(rooted, ns, "commit/head"@, first_commit(did, rev));
    let root_left = st.tag_version(ns, tree_name()) < u64::MAX;
    let head_left = rooted.tag_version(ns, "commit/head"@) < u64::MAX;
    let rev_left = headed.tag_version(ns, "commit/rev"@) < u64::MAX;
    match out {
        Ok(_) => root_left && head_left && rev_left && after == repo_begun(st, ns, did, rev),
        Err(e) => e is Rejected && if !root_left {
            after == unnamed(st, ns, empty_tree())
        } else if !head_left {
            after == unnamed(rooted, ns, first_commit(did, rev))
        } else {
            !rev_left && after == headed.ensured(ns)
        },
    }
}

/// Puts a first commit on an empty tree in the namespace of a repository.
pub fn begin_repo(store: &mut InMemoryStore, ns: &NamespaceRef, did: &str, rev: &str) -> (out: Result<
    (),
    StoreError,
>)
    requires
        old(store).wf(),
    ensures
        final(store).wf(),
        repo_bindable(old(store).state(), *ns) ==> out is Ok,
        begun(old(store).state(), final(store).state(), *ns, did@, rev@, out),
{
    let mut blocks = MemoryBlockStore::new();
    let tree = Mst::new();
    let root = tree.write_to_store(&mut blocks);
    proof {
        assert(root@ == cid_of(empty_tree()));
    }
    let node = match crate::atproto::mst::BlockStore::get(&blocks, root.as_slice()) {
        Some(node) => node,
        None => Vec::new(),
    };
    assert(node@ == empty_tree());
    let name = joined("mst/", hex_encode(root.as_slice()).as_str());
    match set_record(store, ns, name.as_str(), node.as_slice()) {
        Ok(_) => {},
        Err(e) => return Err(e),
    }
    let commit = UnsignedCommit {
        did: did.to_owned(),
        version: 3,
        data: copy_bytes(root.as_slice()),
        rev: rev.to_owned(),
        prev: None,
    };
    let bytes = commit.to_cbor();
    assert(bytes@ == first_commit(did@, rev@));
    match set_record(store, ns, "commit/head", bytes.as_slice()) {
        Ok(_) => {},
        Err(e) => return Err(e),
    }
    match store.tag_set(ns, "commit/rev", rev) {
        Ok(_) => Ok(()),
        Err(e) => Err(e),
    }
}

/// Whether the repository of an account was begun with a revision, in the
/// namespace that was there or was made.
pub open spec fn account_begun(
    before: StoreState,
    after: StoreState,
    did: Seq<char>,
    rev: Seq<char>,
    out: Result<(), StoreError>,
) -> bool {
    exists|ready: StoreState, ns: NamespaceRef| #[trigger]
        repo_ready(before, ready, did, ns) && begun(ready, after, ns, did, rev, out)
}

/// Whether the repository of a new account was made, with a revision made from
/// the time. It cannot be made without random numbers.
pub open spec fn account_made(
    before: StoreState,
    after: StoreState,
    did: Seq<char>,
    out: Result<String, StoreError>,
) -> bool {
    match out {
        Ok(rev) => is_fresh_key(rev@) && account_begun(before, after, did, rev@, Ok(())),
        Err(StoreError::Io(_)) => unknown(before, did) && after == before,
        Err(e) => exists|rev: Seq<char>| #[trigger]
            is_fresh_key(rev) && account_begun(before, after, did, rev, Err(e)),
    }
}

/// Makes the repository of a new account; its revision, made from the time.
pub fn create_account(store: &mut InMemoryStore, did: &str) -> (out: Result<String, StoreError>)
    requires
        old(store).wf(),
    ensures
        final(store).wf(),
        account_made(old(store).state(), final(store).state(), did@, out),
{
    let ns = match ready_repo(store, did) {
        Ok(ns) => ns,
        Err(e) => return Err(e),
    };
    let ghost ready = store.state();
    assert(repo_ready(old(store).state(), ready, did@, ns));
    let rev = fresh_key();
    assert(is_fresh_key(rev@));
    match begin_repo(store, &ns, did, rev.as_str()) {
        Ok(_) => Ok(rev),
        Err(e) => Err(e),
    }
}

/// A new account's repository has a commit without a predecessor on an empty tree,
/// unsigned, as its latest one, and its revision; where the names of the two share
/// no place with each other.
pub proof fn law_account_begun(st: StoreState, ns: NamespaceRef, did: Seq<char>, rev: Seq<char>)
    requires
        name_hash("commit/head"@) != name_hash("commit/rev"@),
    ensures
        ({
            let after = repo_begun(st, ns, did, rev);
            let head = StoreState::filed(ns, "commit/head"@);
            let now = StoreState::filed(ns, "commit/rev"@);
            let first = commit_cbor(
                CommitView {
                    did,
                    version: 3,
                    data: cid_of(node_bytes(None, Seq::empty())),
                    rev,
                    prev: None,
                },
                None,
            );
            &&& after.tags.dom().contains(head) && after.tags[head].kappa == kappa_of(first)
            &&& after.blobs.dom().contains(kappa_of(first))
            &&& after.blobs.dom().contains(kappa_of(node_bytes(None, Seq::empty())))
            &&& after.tags.dom().contains(now) && after.tags[now].kappa == rev
        }),
{
}

} // verus!
