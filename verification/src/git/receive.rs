//! Answering pushes.

use vstd::prelude::*;
use vstd::slice::slice_subrange;
use vstd::utf8::encode_utf8;

use crate::git::envelope::hash_name;
use crate::git::hooks::{HookError, RefUpdate};
use crate::git::ingest::{
    ingest_pack, law_ingest_touches_content, no_progress, pack_read_of, pack_taken, reports,
    same_but_uploads,
};
use crate::git::object::{hash_len, HashKind};
use crate::git::pktline::{
    band_packet, encodable, flush_bytes, law_written_concat, on_band, packets_written, pkt_bytes,
    write_packets, Packet, PacketView,
};
use crate::git::protocol::{
    push_flush, push_text, replied, send, text_packet, zero_oid, zero_oid_text, ReplyFault,
};
use crate::git::refs::delete_ref;
use crate::git::request::{
    read_updates, section_read, section_refused, update_lines, upload_wants, ProtocolError,
    RefUpdateView,
};
use crate::git::walk::{label_with, labels, oid_to_kappa_string, reaches, walk_reachable, Blobs};
use crate::store::memory::{adds_addressed, lemma_adds_both, lemma_adds_none, InMemoryStore};
use crate::store::state::{Filed, StoreState};
use crate::store::tags::{law_batch_binds, law_batch_frames};
use crate::text::{decimal, decimal_text, holds_text, joined, joined3, same_text};
use crate::types::{name_hash, NamespaceRef, TagUpdate, UpdateView};

verus! {

// -- The hook's verdict -----------------------------------------------------------------

/// Why a pre-receive hook turns a push down, if it does.
pub fn hook_rejection(verdict: Result<(), HookError>) -> (out: Option<String>)
    ensures
        match (verdict, out) {
            (Ok(_), None) => true,
            (Err(HookError::Rejected(why)), Some(m)) => m@ == why@,
            (Err(HookError::Timeout(secs)), Some(m)) => m@ == "hook timed out after "@ + decimal(
                secs as nat,
            ) + "s"@,
            (Err(HookError::NotFound(name)), Some(m)) => m@ == "hook not found: "@ + name@,
            (Err(HookError::ExecutionFailed(why)), Some(m)) => m@ == "hook execution failed: "@
                + why@,
            (Err(HookError::Store(e)), Some(m)) => m@ == "store error: "@
                + crate::types::store_error_text(e),
            _ => false,
        },
{
    match verdict {
        Ok(_) => None,
        Err(HookError::Rejected(why)) => Some(why),
        Err(HookError::Timeout(secs)) => Some(
            joined3("hook timed out after ", decimal_text(secs).as_str(), "s"),
        ),
        Err(HookError::NotFound(name)) => Some(joined("hook not found: ", name.as_str())),
        Err(HookError::ExecutionFailed(why)) => Some(
            joined("hook execution failed: ", why.as_str()),
        ),
        Err(HookError::Store(e)) => Some(joined("store error: ", e.message().as_str())),
    }
}

// -- Moving refs ------------------------------------------------------------------------

/// The bindings that a push asks for: one for each update to an object, if the
/// ref is still absent where it is to be new, and as it stands otherwise.
pub open spec fn push_bindings(st: StoreState, ns: NamespaceRef, hash: HashKind, updates: Seq<RefUpdateView>) -> Seq<
    UpdateView,
>
    decreases updates.len(),
{
    if updates.len() == 0 {
        Seq::empty()
    } else {
        let before = push_bindings(st, ns, hash, updates.drop_last());
        let u = updates.last();
        if u.new_oid == zero_oid(hash) {
            before
        } else {
            before.push(
                UpdateView {
                    name: u.ref_name,
                    kappa: label_with(hash_name(hash), u.new_oid),
                    expected_version: Some(
                        if u.old_oid == zero_oid(hash) {
                            0
                        } else {
                            st.tag_version(ns, u.ref_name)
                        },
                    ),
                },
            )
        }
    }
}

/// The refs that a push deletes.
pub open spec fn push_deletions(hash: HashKind, updates: Seq<RefUpdateView>) -> Seq<Seq<char>>
    decreases updates.len(),
{
    if updates.len() == 0 {
        Seq::empty()
    } else {
        let before = push_deletions(hash, updates.drop_last());
        if updates.last().new_oid == zero_oid(hash) {
            before.push(updates.last().ref_name)
        } else {
            before
        }
    }
}

/// The state after bindings that are made together or not at all, and why they
/// were not made.
pub open spec fn bindings_made(st: StoreState, ns: NamespaceRef, list: Seq<UpdateView>) -> (
    StoreState,
    Option<Seq<char>>,
) {
    if list.len() == 0 {
        (st, None)
    } else if !st.expected(ns, list) {
        (st.ensured(ns), Some("conflict: "@ + st.conflict_text(ns, list)))
    } else if !st.room_for_all(ns, list) {
        (st.ensured(ns), Some("rejected: "@ + "tag version exhausted"@))
    } else {
        (st.ensured(ns).all_bound(ns, list), None)
    }
}

/// The state without some refs.
pub open spec fn refs_deleted(st: StoreState, ns: NamespaceRef, names: Seq<Seq<char>>) -> StoreState
    decreases names.len(),
{
    if names.len() == 0 {
        st
    } else {
        refs_deleted(st, ns, names.drop_last()).unbound(ns, names.last())
    }
}

/// The state after a push moved its refs, and why it could not bind them.
pub open spec fn refs_moved(st: StoreState, ns: NamespaceRef, hash: HashKind, updates: Seq<RefUpdateView>) -> (
    StoreState,
    Option<Seq<char>>,
) {
    let (bound, why) = bindings_made(st, ns, push_bindings(st, ns, hash, updates));
    (refs_deleted(bound, ns, push_deletions(hash, updates)), why)
}

proof fn lemma_bound_blobs(st: StoreState, ns: NamespaceRef, list: Seq<UpdateView>)
    ensures
        st.all_bound(ns, list).blobs == st.blobs,
    decreases list.len(),
{
    if list.len() > 0 {
        lemma_bound_blobs(st, ns, list.drop_last());
    }
}

proof fn lemma_deleted_frames(st: StoreState, ns: NamespaceRef, names: Seq<Seq<char>>, name: Seq<char>)
    ensures
        refs_deleted(st, ns, names).blobs == st.blobs,
        (forall|i: int| 0 <= i < names.len() ==> name_hash(#[trigger] names[i]) != name_hash(name))
            ==> refs_deleted(st, ns, names).tag_version(ns, name) == st.tag_version(ns, name)
            && refs_deleted(st, ns, names).tags.dom().contains(StoreState::filed(ns, name))
            == st.tags.dom().contains(StoreState::filed(ns, name)) && refs_deleted(
            st,
            ns,
            names,
        ).tags[StoreState::filed(ns, name)] == st.tags[StoreState::filed(ns, name)],
    decreases names.len(),
{
    if names.len() > 0 {
        lemma_deleted_frames(st, ns, names.drop_last(), name);
        if forall|i: int| 0 <= i < names.len() ==> name_hash(#[trigger] names[i]) != name_hash(
            name,
        ) {
            assert(name_hash(names[names.len() - 1]) != name_hash(name));
            assert forall|i: int| 0 <= i < names.drop_last().len() implies name_hash(
                #[trigger] names.drop_last()[i],
            ) != name_hash(name) by {
                assert(names.drop_last()[i] == names[i]);
            }
        }
    }
}

/// Moving refs leaves every blob alone.
pub proof fn law_refs_keep_blobs(
    st: StoreState,
    ns: NamespaceRef,
    hash: HashKind,
    updates: Seq<RefUpdateView>,
)
    ensures
        refs_moved(st, ns, hash, updates).0.blobs == st.blobs,
{
    let list = push_bindings(st, ns, hash, updates);
    lemma_bound_blobs(st.ensured(ns), ns, list);
    let bound = bindings_made(st, ns, list).0;
    lemma_deleted_frames(bound, ns, push_deletions(hash, updates), Seq::empty());
}

/// The refs of a push are moved together or not at all: where it is refused, a
/// ref that it does not delete is bound as before.
pub proof fn law_push_together(
    st: StoreState,
    ns: NamespaceRef,
    hash: HashKind,
    updates: Seq<RefUpdateView>,
    name: Seq<char>,
)
    requires
        refs_moved(st, ns, hash, updates).1 is Some,
        forall|i: int|
            0 <= i < push_deletions(hash, updates).len() ==> name_hash(
                #[trigger] push_deletions(hash, updates)[i],
            ) != name_hash(name),
    ensures
        ({
            let after = refs_moved(st, ns, hash, updates).0;
            let k = StoreState::filed(ns, name);
            after.tags.dom().contains(k) == st.tags.dom().contains(k) && after.tags[k] == st.tags[k]
        }),
{
    let list = push_bindings(st, ns, hash, updates);
    let bound = bindings_made(st, ns, list).0;
    lemma_deleted_frames(bound, ns, push_deletions(hash, updates), name);
}

/// Where a push asks for a binding: each one comes from an update.
proof fn lemma_binding_from(
    st: StoreState,
    ns: NamespaceRef,
    hash: HashKind,
    updates: Seq<RefUpdateView>,
    m: int,
) -> (i: int)
    requires
        0 <= m < push_bindings(st, ns, hash, updates).len(),
    ensures
        0 <= i < updates.len(),
        updates[i].new_oid != zero_oid(hash),
        ({
            let b = push_bindings(st, ns, hash, updates)[m];
            &&& b.name == updates[i].ref_name
            &&& b.kappa == hash_name(hash) + ":"@ + updates[i].new_oid
            &&& b.expected_version == Some(
                if updates[i].old_oid == zero_oid(hash) {
                    0
                } else {
                    st.tag_version(ns, updates[i].ref_name)
                },
            )
        }),
    decreases updates.len(),
{
    let front = updates.drop_last();
    if m < push_bindings(st, ns, hash, front).len() {
        let i = lemma_binding_from(st, ns, hash, front, m);
        assert(front[i] == updates[i]);
        i
    } else {
        updates.len() - 1
    }
}

/// What an update to an object asks for is among the bindings.
proof fn lemma_binding_of(
    st: StoreState,
    ns: NamespaceRef,
    hash: HashKind,
    updates: Seq<RefUpdateView>,
    i: int,
) -> (m: int)
    requires
        0 <= i < updates.len(),
        updates[i].new_oid != zero_oid(hash),
    ensures
        0 <= m < push_bindings(st, ns, hash, updates).len(),
        push_bindings(st, ns, hash, updates)[m].name == updates[i].ref_name,
        push_bindings(st, ns, hash, updates)[m].kappa == hash_name(hash) + ":"@
            + updates[i].new_oid,
        push_bindings(st, ns, hash, updates)[m].expected_version == Some(
            if updates[i].old_oid == zero_oid(hash) {
                0
            } else {
                st.tag_version(ns, updates[i].ref_name)
            },
        ),
    decreases updates.len(),
{
    let front = updates.drop_last();
    if i < front.len() {
        assert(front[i] == updates[i]);
        lemma_binding_of(st, ns, hash, front, i)
    } else {
        push_bindings(st, ns, hash, front).len() as int
    }
}

/// There are no more bindings than updates.
proof fn lemma_binding_count(st: StoreState, ns: NamespaceRef, hash: HashKind, updates: Seq<RefUpdateView>)
    ensures
        push_bindings(st, ns, hash, updates).len() <= updates.len(),
    decreases updates.len(),
{
    if updates.len() > 0 {
        lemma_binding_count(st, ns, hash, updates.drop_last());
    }
}

/// A name is deleted where an update to no object has it.
proof fn lemma_deletion(hash: HashKind, updates: Seq<RefUpdateView>, name: Seq<char>)
    ensures
        push_deletions(hash, updates).contains(name) <==> exists|i: int|
            0 <= i < updates.len() && (#[trigger] updates[i]).new_oid == zero_oid(hash)
                && updates[i].ref_name == name,
    decreases updates.len(),
{
    if updates.len() > 0 {
        let front = updates.drop_last();
        lemma_deletion(hash, front, name);
        crate::git::walk::lemma_push_contains(
            push_deletions(hash, front),
            updates.last().ref_name,
            name,
        );
        if push_deletions(hash, front).contains(name) {
            let i = choose|i: int|
                0 <= i < front.len() && (#[trigger] front[i]).new_oid == zero_oid(hash)
                    && front[i].ref_name == name;
            assert(updates[i] == front[i]);
        }
        if updates.last().new_oid == zero_oid(hash) && updates.last().ref_name == name {
            assert(updates[updates.len() - 1].ref_name == name);
        }
        if exists|i: int|
            0 <= i < updates.len() && (#[trigger] updates[i]).new_oid == zero_oid(hash)
                && updates[i].ref_name == name {
            let i = choose|i: int|
                0 <= i < updates.len() && (#[trigger] updates[i]).new_oid == zero_oid(hash)
                    && updates[i].ref_name == name;
            if i < front.len() {
                assert(front[i] == updates[i]);
            }
        }
    }
}

/// No deleted name is filed where a name is that no update to no object shares.
proof fn lemma_not_deleted(hash: HashKind, updates: Seq<RefUpdateView>, name: Seq<char>)
    requires
        forall|j: int|
            0 <= j < updates.len() && (#[trigger] updates[j]).new_oid == zero_oid(hash)
                ==> name_hash(updates[j].ref_name) != name_hash(name),
    ensures
        forall|i: int|
            0 <= i < push_deletions(hash, updates).len() ==> name_hash(
                #[trigger] push_deletions(hash, updates)[i],
            ) != name_hash(name),
{
    let gone = push_deletions(hash, updates);
    assert forall|i: int| 0 <= i < gone.len() implies name_hash(#[trigger] gone[i]) != name_hash(
        name,
    ) by {
        lemma_deletion(hash, updates, gone[i]);
        assert(gone.contains(gone[i]));
    }
}

proof fn lemma_refs_deleted(st: StoreState, ns: NamespaceRef, names: Seq<Seq<char>>, name: Seq<char>)
    requires
        names.contains(name),
    ensures
        !refs_deleted(st, ns, names).tags.dom().contains(StoreState::filed(ns, name)),
    decreases names.len(),
{
    let front = names.drop_last();
    if names.last() != name {
        let i = choose|i: int| 0 <= i < names.len() && names[i] == name;
        assert(front[i] == name);
        lemma_refs_deleted(st, ns, front, name);
    }
}

/// A push that is not refused binds every ref that one update alone names, and
/// moves to an object, to the address of that object, whatever the ref was bound
/// to before and whatever the update says of that.
pub proof fn law_push_binds(
    st: StoreState,
    ns: NamespaceRef,
    hash: HashKind,
    updates: Seq<RefUpdateView>,
    i: int,
)
    requires
        refs_moved(st, ns, hash, updates).1 is None,
        0 <= i < updates.len(),
        updates[i].new_oid != zero_oid(hash),
        forall|j: int|
            0 <= j < updates.len() && j != i ==> name_hash((#[trigger] updates[j]).ref_name)
                != name_hash(updates[i].ref_name),
    ensures
        ({
            let k = StoreState::filed(ns, updates[i].ref_name);
            let after = refs_moved(st, ns, hash, updates).0;
            &&& after.tags.dom().contains(k)
            &&& after.tags[k].name == updates[i].ref_name
            &&& after.tags[k].kappa == hash_name(hash) + ":"@ + updates[i].new_oid
            &&& after.tags[k].version == st.tag_version(ns, updates[i].ref_name) + 1
        }),
{
    let name = updates[i].ref_name;
    let list = push_bindings(st, ns, hash, updates);
    let m = lemma_binding_of(st, ns, hash, updates, i);
    assert forall|j: int| 0 <= j < list.len() && j != m implies name_hash((#[trigger] list[j]).name)
        != name_hash(list[m].name) by {
        let x = lemma_binding_from(st, ns, hash, updates, j);
        if x == i {
            lemma_binding_apart(st, ns, hash, updates, j, m, i);
        }
    }
    law_batch_binds(st.ensured(ns), ns, list, m);
    lemma_not_deleted(hash, updates, name);
    lemma_deleted_frames(bindings_made(st, ns, list).0, ns, push_deletions(hash, updates), name);
    assert(st.tag_version(ns, list[m].name) + list.len() <= u64::MAX);
    assert(st.ensured(ns).tag_version(ns, name) == st.tag_version(ns, name));
}

/// An update whose name no other has gives one binding.
proof fn lemma_binding_apart(
    st: StoreState,
    ns: NamespaceRef,
    hash: HashKind,
    updates: Seq<RefUpdateView>,
    a: int,
    b: int,
    i: int,
)
    requires
        0 <= a < push_bindings(st, ns, hash, updates).len(),
        0 <= b < push_bindings(st, ns, hash, updates).len(),
        0 <= i < updates.len(),
        forall|j: int|
            0 <= j < updates.len() && j != i ==> name_hash((#[trigger] updates[j]).ref_name)
                != name_hash(updates[i].ref_name),
        push_bindings(st, ns, hash, updates)[a].name == updates[i].ref_name,
        push_bindings(st, ns, hash, updates)[b].name == updates[i].ref_name,
    ensures
        a == b,
    decreases updates.len(),
{
    let front = updates.drop_last();
    let before = push_bindings(st, ns, hash, front);
    let list = push_bindings(st, ns, hash, updates);
    if a < before.len() {
        assert(before[a] == list[a]);
        let x = lemma_binding_from(st, ns, hash, front, a);
        assert(front[x] == updates[x]);
        assert(x == i);
    }
    if b < before.len() {
        assert(before[b] == list[b]);
        let x = lemma_binding_from(st, ns, hash, front, b);
        assert(front[x] == updates[x]);
        assert(x == i);
    }
    if a < before.len() && b < before.len() {
        assert forall|j: int| 0 <= j < front.len() && j != i implies name_hash(
            (#[trigger] front[j]).ref_name,
        ) != name_hash(front[i].ref_name) by {
            assert(front[j] == updates[j]);
            assert(front[i] == updates[i]);
        }
        lemma_binding_apart(st, ns, hash, front, a, b, i);
    }
    if a >= before.len() || b >= before.len() {
        assert(updates[updates.len() - 1].ref_name == updates[i].ref_name);
        assert(i == updates.len() - 1);
    }
}

/// A push deletes every ref that it moves to the zero name, refused or not.
pub proof fn law_push_deletes(
    st: StoreState,
    ns: NamespaceRef,
    hash: HashKind,
    updates: Seq<RefUpdateView>,
    i: int,
)
    requires
        0 <= i < updates.len(),
        updates[i].new_oid == Seq::new((2 * hash_len(hash)) as nat, |j: int| '0'),
    ensures
        !refs_moved(st, ns, hash, updates).0.tags.dom().contains(
            StoreState::filed(ns, updates[i].ref_name),
        ),
{
    let list = push_bindings(st, ns, hash, updates);
    lemma_deletion(hash, updates, updates[i].ref_name);
    lemma_refs_deleted(
        bindings_made(st, ns, list).0,
        ns,
        push_deletions(hash, updates),
        updates[i].ref_name,
    );
}

/// A push leaves alone every name that it does not name, in its namespace and in
/// others.
pub proof fn law_push_frames(
    st: StoreState,
    ns: NamespaceRef,
    hash: HashKind,
    updates: Seq<RefUpdateView>,
    other: NamespaceRef,
    name: Seq<char>,
)
    requires
        other.id() != ns.id() || forall|j: int|
            0 <= j < updates.len() ==> name_hash((#[trigger] updates[j]).ref_name) != name_hash(
                name,
            ),
    ensures
        ({
            let k = StoreState::filed(other, name);
            let after = refs_moved(st, ns, hash, updates).0;
            after.tags.dom().contains(k) == st.tags.dom().contains(k) && after.tags[k] == st.tags[k]
        }),
{
    let list = push_bindings(st, ns, hash, updates);
    let gone = push_deletions(hash, updates);
    let bound = bindings_made(st, ns, list).0;
    if other.id() == ns.id() {
        assert forall|j: int| 0 <= j < list.len() implies name_hash((#[trigger] list[j]).name)
            != name_hash(name) by {
            let x = lemma_binding_from(st, ns, hash, updates, j);
        }
        law_batch_frames(st.ensured(ns), ns, list, name);
        lemma_not_deleted(hash, updates, name);
        lemma_deleted_frames(bound, ns, gone, name);
    } else {
        lemma_bound_elsewhere(st.ensured(ns), ns, list, StoreState::filed(other, name));
        lemma_deleted_elsewhere(bound, ns, gone, StoreState::filed(other, name));
    }
}

proof fn lemma_bound_elsewhere(st: StoreState, ns: NamespaceRef, list: Seq<UpdateView>, k: Filed)
    requires
        k.0 != ns.id(),
    ensures
        st.all_bound(ns, list).tags.dom().contains(k) == st.tags.dom().contains(k),
        st.all_bound(ns, list).tags[k] == st.tags[k],
    decreases list.len(),
{
    if list.len() > 0 {
        lemma_bound_elsewhere(st, ns, list.drop_last(), k);
    }
}

proof fn lemma_deleted_elsewhere(st: StoreState, ns: NamespaceRef, names: Seq<Seq<char>>, k: Filed)
    requires
        k.0 != ns.id(),
    ensures
        refs_deleted(st, ns, names).tags.dom().contains(k) == st.tags.dom().contains(k),
        refs_deleted(st, ns, names).tags[k] == st.tags[k],
    decreases names.len(),
{
    if names.len() > 0 {
        lemma_deleted_elsewhere(st, ns, names.drop_last(), k);
    }
}

/// A push is refused where it creates a ref that is bound; and where it creates
/// none such, and no ref is about to run out of versions, it is not. A refused
/// push binds nothing.
pub proof fn law_push_refused(
    st: StoreState,
    ns: NamespaceRef,
    hash: HashKind,
    updates: Seq<RefUpdateView>,
    name: Seq<char>,
)
    ensures
        (exists|i: int|
            0 <= i < updates.len() && (#[trigger] updates[i]).new_oid != zero_oid(hash)
                && updates[i].old_oid == zero_oid(hash) && st.tags.dom().contains(
                StoreState::filed(ns, updates[i].ref_name),
            ) && st.tags[StoreState::filed(ns, updates[i].ref_name)].version > 0) ==> refs_moved(
            st,
            ns,
            hash,
            updates,
        ).1 is Some,
        (forall|i: int|
            0 <= i < updates.len() ==> {
                let k = StoreState::filed(ns, (#[trigger] updates[i]).ref_name);
                st.tags.dom().contains(k) ==> updates[i].old_oid != zero_oid(hash)
                    && st.tags[k].version + updates.len() <= u64::MAX
            }) && updates.len() <= u64::MAX ==> refs_moved(st, ns, hash, updates).1 is None,
        refs_moved(st, ns, hash, updates).1 is Some && (forall|i: int|
            0 <= i < updates.len() && (#[trigger] updates[i]).new_oid == zero_oid(hash)
                ==> name_hash(updates[i].ref_name) != name_hash(name)) ==> {
            let k = StoreState::filed(ns, name);
            let after = refs_moved(st, ns, hash, updates).0;
            after.tags.dom().contains(k) == st.tags.dom().contains(k) && after.tags[k] == st.tags[k]
        },
{
    let list = push_bindings(st, ns, hash, updates);
    if exists|i: int|
        0 <= i < updates.len() && (#[trigger] updates[i]).new_oid != zero_oid(hash)
            && updates[i].old_oid == zero_oid(hash) && st.tags.dom().contains(
            StoreState::filed(ns, updates[i].ref_name),
        ) && st.tags[StoreState::filed(ns, updates[i].ref_name)].version > 0 {
        let i = choose|i: int|
            0 <= i < updates.len() && (#[trigger] updates[i]).new_oid != zero_oid(hash)
                && updates[i].old_oid == zero_oid(hash) && st.tags.dom().contains(
                StoreState::filed(ns, updates[i].ref_name),
            ) && st.tags[StoreState::filed(ns, updates[i].ref_name)].version > 0;
        let m = lemma_binding_of(st, ns, hash, updates, i);
        assert(list[m].expected_version == Some(0u64));
        assert(!st.expected(ns, list));
    }
    if (forall|i: int|
        0 <= i < updates.len() ==> {
            let k = StoreState::filed(ns, (#[trigger] updates[i]).ref_name);
            st.tags.dom().contains(k) ==> updates[i].old_oid != zero_oid(hash)
                && st.tags[k].version + updates.len() <= u64::MAX
        }) && updates.len() <= u64::MAX {
        lemma_binding_count(st, ns, hash, updates);
        assert forall|m: int| 0 <= m < list.len() implies ((
        #[trigger] list[m]).expected_version matches Some(v) ==> v == st.tag_version(
            ns,
            list[m].name,
        )) && st.tag_version(ns, list[m].name) + list.len() <= u64::MAX by {
            let x = lemma_binding_from(st, ns, hash, updates, m);
            assert(updates[x].ref_name == list[m].name);
        }
        assert(st.expected(ns, list));
        assert(st.room_for_all(ns, list));
    }
    if refs_moved(st, ns, hash, updates).1 is Some && (forall|i: int|
        0 <= i < updates.len() && (#[trigger] updates[i]).new_oid == zero_oid(hash) ==> name_hash(
            updates[i].ref_name,
        ) != name_hash(name)) {
        lemma_not_deleted(hash, updates, name);
        law_push_together(st, ns, hash, updates, name);
    }
}

// -- The report ---------------------------------------------------------------------------

/// Whether an update leaves the history of its ref: both ends are objects, and
/// the old one cannot be reached from the new one.
pub open spec fn is_forced(blobs: Blobs, hash: HashKind, u: RefUpdateView) -> bool {
    &&& u.old_oid != zero_oid(hash)
    &&& u.new_oid != zero_oid(hash)
    &&& !reaches(
        blobs,
        hash,
        labels(hash, seq![u.new_oid]),
        label_with(hash_name(hash), u.old_oid),
    )
}

/// What is reported of an update. A ref that the push deletes is always well.
#[verifier::opaque]
pub open spec fn update_report(
    blobs: Blobs,
    hash: HashKind,
    deleted: Seq<Seq<char>>,
    why: Option<Seq<char>>,
    u: RefUpdateView,
) -> Seq<PacketView> {
    if !deleted.contains(u.ref_name) && why is Some {
        seq![text_packet("ng "@ + u.ref_name + " "@ + why->0 + "\n"@)]
    } else {
        seq![
            text_packet("ok "@ + u.ref_name + "\n"@),
            text_packet("option refname "@ + u.ref_name + "\n"@),
            text_packet("option old-oid "@ + u.old_oid + "\n"@),
            text_packet("option new-oid "@ + u.new_oid + "\n"@),
        ] + (if is_forced(blobs, hash, u) {
            seq![text_packet("option forced-update\n"@)]
        } else {
            Seq::empty()
        })
    }
}

/// Packets wrapped as one packet on the first side band; none where they cannot
/// be written.
pub open spec fn wrapped(inner: Seq<PacketView>) -> Option<PacketView> {
    let (bytes, all) = packets_written(inner);
    if all {
        Some(on_band(1, bytes))
    } else {
        None
    }
}

/// The reports on updates behind what stands before them, up to the first that
/// cannot be written, and whether all could.
pub open spec fn updates_reported(
    blobs: Blobs,
    hash: HashKind,
    deleted: Seq<Seq<char>>,
    why: Option<Seq<char>>,
    before: Seq<PacketView>,
    updates: Seq<RefUpdateView>,
) -> (Seq<PacketView>, bool)
    decreases updates.len(),
{
    if updates.len() == 0 {
        (before, true)
    } else {
        let (lines, all) = updates_reported(blobs, hash, deleted, why, before, updates.drop_last());
        match wrapped(update_report(blobs, hash, deleted, why, updates.last())) {
            Some(line) => if all {
                (lines.push(line), true)
            } else {
                (lines, false)
            },
            None => (lines, false),
        }
    }
}

/// What opens a report.
pub open spec fn report_opening() -> Seq<PacketView> {
    seq![on_band(1, packets_written(seq![text_packet("unpack ok\n"@)]).0)]
}

/// What closes a report.
pub open spec fn report_closing() -> Seq<PacketView> {
    seq![on_band(1, packets_written(seq![PacketView::Flush]).0), PacketView::Flush]
}

/// The report on a push whose refs were moved.
pub open spec fn push_report(
    blobs: Blobs,
    hash: HashKind,
    why: Option<Seq<char>>,
    updates: Seq<RefUpdateView>,
) -> (Seq<PacketView>, Option<ReplyFault>) {
    let (lines, all) = updates_reported(
        blobs,
        hash,
        push_deletions(hash, updates),
        why,
        report_opening(),
        updates,
    );
    if all {
        (lines + report_closing(), None)
    } else {
        (lines, Some(ReplyFault::Io))
    }
}

/// The report on a push that a hook turned down.
pub open spec fn rejection_report(updates: Seq<RefUpdateView>, rejection: Seq<char>) -> Seq<PacketView> {
    Seq::new(
        updates.len(),
        |i: int|
            text_packet(
                "ng "@ + updates[i].ref_name + " pre-receive hook declined: "@ + rejection + "\n"@,
            ),
    ).push(PacketView::Flush)
}

proof fn lemma_reported(
    blobs: Blobs,
    hash: HashKind,
    deleted: Seq<Seq<char>>,
    why: Option<Seq<char>>,
    before: Seq<PacketView>,
    updates: Seq<RefUpdateView>,
    i: int,
)
    requires
        updates_reported(blobs, hash, deleted, why, before, updates).1,
    ensures
        ({
            let lines = updates_reported(blobs, hash, deleted, why, before, updates).0;
            &&& lines.len() == before.len() + updates.len()
            &&& 0 <= i < updates.len() ==> wrapped(
                update_report(blobs, hash, deleted, why, updates[i]),
            ) == Some(lines[before.len() + i])
        }),
    decreases updates.len(),
{
    if updates.len() > 0 {
        let front = updates.drop_last();
        lemma_reported(blobs, hash, deleted, why, before, front, i);
        if 0 <= i < front.len() {
            assert(front[i] == updates[i]);
        }
    }
}

/// The report on a push whose refs were moved says of each update, in the order
/// of the updates and behind the word on the pack, that it went well: where
/// nothing stood against the push, or where it deletes the ref. Of every other
/// update it says what stood against it, and no more.
pub proof fn law_push_reported(
    blobs: Blobs,
    hash: HashKind,
    why: Option<Seq<char>>,
    updates: Seq<RefUpdateView>,
    i: int,
) -> (rest: Seq<u8>)
    requires
        push_report(blobs, hash, why, updates).1 is None,
        0 <= i < updates.len(),
    ensures
        push_report(blobs, hash, why, updates).0.len() == updates.len() + 3,
        (why is None || updates[i].new_oid == zero_oid(hash)) ==> push_report(
            blobs,
            hash,
            why,
            updates,
        ).0[i + 1] == PacketView::Data(
            seq![1u8] + (pkt_bytes(encode_utf8("ok "@ + updates[i].ref_name + "\n"@)) + rest),
        ),
        why is Some && (forall|j: int|
            0 <= j < updates.len() && (#[trigger] updates[j]).new_oid == zero_oid(hash)
                ==> updates[j].ref_name != updates[i].ref_name) ==> push_report(
            blobs,
            hash,
            why,
            updates,
        ).0[i + 1] == PacketView::Data(
            seq![1u8] + pkt_bytes(
                encode_utf8("ng "@ + updates[i].ref_name + " "@ + why->0 + "\n"@),
            ),
        ),
{
    let deleted = push_deletions(hash, updates);
    let u = updates[i];
    let report = update_report(blobs, hash, deleted, why, u);
    lemma_reported(blobs, hash, deleted, why, report_opening(), updates, i);
    lemma_deletion(hash, updates, u.ref_name);
    reveal(update_report);
    let first = seq![report[0]];
    assert(report =~= first + report.skip(1));
    law_written_concat(first, report.skip(1));
    assert(first.drop_last() =~= Seq::<PacketView>::empty());
    assert(packets_written(Seq::<PacketView>::empty()).0 =~= Seq::<u8>::empty());
    let data = match report[0] {
        PacketView::Data(data) => data,
        _ => Seq::empty(),
    };
    assert(Seq::<u8>::empty() + pkt_bytes(data) =~= pkt_bytes(data));
    if why is Some && !deleted.contains(u.ref_name) {
        assert(report.skip(1) =~= Seq::<PacketView>::empty());
        assert(pkt_bytes(data) + Seq::<u8>::empty() =~= pkt_bytes(data));
    }
    packets_written(report.skip(1)).0
}

// -- Doing it -----------------------------------------------------------------------------

fn binding_list(store: &InMemoryStore, namespace: &NamespaceRef, hash: HashKind, updates: &Vec<RefUpdate>) -> (out: Vec<
    TagUpdate,
>)
    requires
        store.wf(),
    ensures
        out.deep_view() == push_bindings(
            store.state(),
            *namespace,
            hash,
            updates.deep_view(),
        ),
{
    let ghost st = store.state();
    let ghost all = updates.deep_view();
    let zero = zero_oid_text(hash);
    let mut out: Vec<TagUpdate> = Vec::new();
    let mut i: usize = 0;
    proof {
        assert(all.take(0) =~= Seq::<RefUpdateView>::empty());
        assert(out.deep_view() =~= Seq::<UpdateView>::empty());
    }
    while i < updates.len()
        invariant
            store.wf(),
            st == store.state(),
            zero@ == zero_oid(hash),
            i <= updates@.len(),
            all == updates.deep_view(),
            all.len() == updates@.len(),
            out.deep_view() == push_bindings(st, *namespace, hash, all.take(i as int)),
        decreases updates@.len() - i,
    {
        let u = &updates[i];
        let ghost before = out.deep_view();
        proof {
            assert(all.take(i + 1).drop_last() =~= all.take(i as int));
            assert(all.take(i + 1).last() == u.deep_view());
        }
        if !same_text(u.new_oid.as_str(), zero.as_str()) {
            let version: u64 = if same_text(u.old_oid.as_str(), zero.as_str()) {
                0
            } else {
                match store.tag_get(namespace, u.ref_name.as_str()) {
                    Ok(entry) => entry.version,
                    Err(_) => 0,
                }
            };
            let update = TagUpdate {
                name: u.ref_name.clone(),
                kappa: oid_to_kappa_string(hash, u.new_oid.as_str()),
                expected_version: Some(version),
            };
            let ghost shown = update.deep_view();
            out.push(update);
            assert(out.deep_view() =~= before.push(shown));
        }
        i += 1;
    }
    assert(all.take(i as int) =~= all);
    out
}

fn deletion_list(hash: HashKind, updates: &Vec<RefUpdate>) -> (out: Vec<String>)
    ensures
        out.deep_view() == push_deletions(hash, updates.deep_view()),
{
    let ghost all = updates.deep_view();
    let zero = zero_oid_text(hash);
    let mut out: Vec<String> = Vec::new();
    let mut i: usize = 0;
    proof {
        assert(all.take(0) =~= Seq::<RefUpdateView>::empty());
        assert(out.deep_view() =~= Seq::<Seq<char>>::empty());
    }
    while i < updates.len()
        invariant
            zero@ == zero_oid(hash),
            i <= updates@.len(),
            all == updates.deep_view(),
            all.len() == updates@.len(),
            out.deep_view() == push_deletions(hash, all.take(i as int)),
        decreases updates@.len() - i,
    {
        let u = &updates[i];
        let ghost before = out.deep_view();
        proof {
            assert(all.take(i + 1).drop_last() =~= all.take(i as int));
            assert(all.take(i + 1).last() == u.deep_view());
        }
        if same_text(u.new_oid.as_str(), zero.as_str()) {
            out.push(u.ref_name.clone());
            assert(out.deep_view() =~= before.push(u.ref_name@));
        }
        i += 1;
    }
    assert(all.take(i as int) =~= all);
    out
}

fn make_bindings(store: &mut InMemoryStore, namespace: &NamespaceRef, bindings: &Vec<TagUpdate>) -> (why:
    Option<String>)
    requires
        old(store).wf(),
    ensures
        final(store).wf(),
        bindings_made(old(store).state(), *namespace, bindings.deep_view()) == (
            final(store).state(),
            crate::git::protocol::shown(why),
        ),
{
    if bindings.len() == 0 {
        return None;
    }
    let list = bindings.as_slice();
    assert(list.deep_view() =~= bindings.deep_view());
    match store.tag_set_batch(namespace, list) {
        Ok(_) => None,
        Err(e) => Some(e.message()),
    }
}

fn delete_refs(store: &mut InMemoryStore, namespace: &NamespaceRef, names: &Vec<String>)
    requires
        old(store).wf(),
    ensures
        final(store).wf(),
        final(store).state() == refs_deleted(old(store).state(), *namespace, names.deep_view()),
{
    let ghost first = store.state();
    let ghost all = names.deep_view();
    let mut i: usize = 0;
    assert(all.take(0) =~= Seq::<Seq<char>>::empty());
    while i < names.len()
        invariant
            store.wf(),
            i <= names@.len(),
            all == names.deep_view(),
            all.len() == names@.len(),
            store.state() == refs_deleted(first, *namespace, all.take(i as int)),
        decreases names@.len() - i,
    {
        proof {
            assert(all.take(i + 1).drop_last() =~= all.take(i as int));
            assert(all.take(i + 1).last() == names@[i as int]@);
        }
        let _ = delete_ref(store, namespace, names[i].as_str());
        i += 1;
    }
    assert(all.take(i as int) =~= all);
}

/// Moves the refs of a push: binds those that get an object, together or not at
/// all, and deletes the others. Gives why nothing was bound, where it was not.
pub fn move_refs(store: &mut InMemoryStore, namespace: &NamespaceRef, hash: HashKind, updates: &Vec<RefUpdate>) -> (why:
    Option<String>)
    requires
        old(store).wf(),
    ensures
        final(store).wf(),
        refs_moved(old(store).state(), *namespace, hash, updates.deep_view()) == (
            final(store).state(),
            crate::git::protocol::shown(why),
        ),
{
    let bindings = binding_list(store, namespace, hash, updates);
    let deletions = deletion_list(hash, updates);
    let why = make_bindings(store, namespace, &bindings);
    delete_refs(store, namespace, &deletions);
    why
}

fn report_update(
    store: &InMemoryStore,
    hash: HashKind,
    deleted: &Vec<String>,
    why: &Option<String>,
    u: &RefUpdate,
) -> (out: Vec<Packet>)
    requires
        store.wf(),
    ensures
        out.deep_view() == update_report(
            store.state().blobs,
            hash,
            deleted.deep_view(),
            crate::git::protocol::shown(*why),
            u.deep_view(),
        ),
{
    reveal(update_report);
    let name = u.ref_name.as_str();
    let mut out: Vec<Packet> = Vec::new();
    assert(out.deep_view() =~= Seq::<PacketView>::empty());
    if !holds_text(deleted, name) {
        if let Some(reason) = why {
            let front = joined3("ng ", name, " ");
            let line = joined3(front.as_str(), reason.as_str(), "\n");
            push_text(&mut out, line.as_str());
            assert(out.deep_view() =~= seq![text_packet(line@)]);
            return out;
        }
    }
    let status = joined3("ok ", name, "\n");
    push_text(&mut out, status.as_str());
    let refname = joined3("option refname ", name, "\n");
    push_text(&mut out, refname.as_str());
    let old_oid = joined3("option old-oid ", u.old_oid.as_str(), "\n");
    push_text(&mut out, old_oid.as_str());
    let new_oid = joined3("option new-oid ", u.new_oid.as_str(), "\n");
    push_text(&mut out, new_oid.as_str());
    let ghost front = seq![
        text_packet(status@),
        text_packet(refname@),
        text_packet(old_oid@),
        text_packet(new_oid@),
    ];
    assert(out.deep_view() =~= front);
    let zero = zero_oid_text(hash);
    if !same_text(u.old_oid.as_str(), zero.as_str()) && !same_text(
        u.new_oid.as_str(),
        zero.as_str(),
    ) {
        let mut roots: Vec<String> = Vec::new();
        roots.push(u.new_oid.clone());
        let list = roots.as_slice();
        assert(list.deep_view() =~= seq![u.new_oid@]);
        let reachable = walk_reachable(store, list, hash);
        let old_kappa = oid_to_kappa_string(hash, u.old_oid.as_str());
        if !holds_text(&reachable, old_kappa.as_str()) {
            push_text(&mut out, "option forced-update\n");
            assert(out.deep_view() =~= front + seq![text_packet("option forced-update\n"@)]);
        }
    }
    proof {
        assert(front + Seq::<PacketView>::empty() =~= front);
    }
    out
}

/// Wraps packets as one packet on the first side band.
fn wrap_packets(inner: &Vec<Packet>) -> (out: Option<Packet>)
    ensures
        match (out, wrapped(inner.deep_view())) {
            (Some(p), Some(v)) => p.deep_view() == v,
            (None, None) => true,
            _ => false,
        },
{
    let mut bytes: Vec<u8> = Vec::new();
    let ghost none = bytes@;
    if write_packets(inner, &mut bytes) {
        assert(none + packets_written(inner.deep_view()).0 =~= packets_written(
            inner.deep_view(),
        ).0);
        Some(band_packet(1, bytes.as_slice()))
    } else {
        None
    }
}

proof fn lemma_opening()
    ensures
        packets_written(seq![text_packet("unpack ok\n"@)]).1,
        packets_written(seq![PacketView::Flush]).1,
{
    let a = seq![text_packet("unpack ok\n"@)];
    let b = seq![PacketView::Flush];
    assert(a.drop_last() =~= Seq::<PacketView>::empty());
    assert(b.drop_last() =~= Seq::<PacketView>::empty());
    reveal_with_fuel(packets_written, 2);
    reveal_strlit("unpack ok\n");
    vstd::utf8::is_ascii_chars_encode_utf8("unpack ok\n"@);
}

/// The reports on updates, behind the opening, and whether all could be written.
fn reported_packets(
    store: &InMemoryStore,
    hash: HashKind,
    deleted: &Vec<String>,
    why: &Option<String>,
    updates: &Vec<RefUpdate>,
) -> (out: (Vec<Packet>, bool))
    requires
        store.wf(),
    ensures
        (out.0.deep_view(), out.1) == updates_reported(
            store.state().blobs,
            hash,
            deleted.deep_view(),
            crate::git::protocol::shown(*why),
            report_opening(),
            updates.deep_view(),
        ),
{
    let ghost blobs = store.state().blobs;
    let ghost reason = crate::git::protocol::shown(*why);
    let ghost all = updates.deep_view();
    let ghost names = deleted.deep_view();
    let mut packets = opening_packets();
    let mut i: usize = 0;
    assert(all.take(0) =~= Seq::<RefUpdateView>::empty());
    while i < updates.len()
        invariant
            store.wf(),
            blobs == store.state().blobs,
            reason == crate::git::protocol::shown(*why),
            names == deleted.deep_view(),
            i <= updates@.len(),
            all == updates.deep_view(),
            all.len() == updates@.len(),
            updates_reported(blobs, hash, names, reason, report_opening(), all.take(i as int)) == (
                packets.deep_view(),
                true,
            ),
        decreases updates@.len() - i,
    {
        let ghost before = packets.deep_view();
        proof {
            assert(all.take(i + 1).drop_last() =~= all.take(i as int));
            assert(all.take(i + 1).last() == updates@[i as int].deep_view());
        }
        let inner = report_update(store, hash, deleted, why, &updates[i]);
        match wrap_packets(&inner) {
            Some(packet) => {
                let ghost shown = packet.deep_view();
                packets.push(packet);
                assert(packets.deep_view() =~= before.push(shown));
            },
            None => {
                proof {
                    lemma_reported_stays(
                        blobs,
                        hash,
                        names,
                        reason,
                        report_opening(),
                        all,
                        i + 1,
                    );
                }
                return (packets, false);
            },
        }
        i += 1;
    }
    assert(all.take(i as int) =~= all);
    (packets, true)
}

fn opening_packets() -> (packets: Vec<Packet>)
    ensures
        packets.deep_view() == report_opening(),
{
    let mut packets: Vec<Packet> = Vec::new();
    let mut opening: Vec<Packet> = Vec::new();
    push_text(&mut opening, "unpack ok\n");
    proof {
        lemma_opening();
        assert(opening.deep_view() =~= seq![text_packet("unpack ok\n"@)]);
    }
    if let Some(packet) = wrap_packets(&opening) {
        packets.push(packet);
    }
    assert(packets.deep_view() =~= report_opening());
    packets
}

fn push_closing(packets: &mut Vec<Packet>)
    ensures
        final(packets).deep_view() == old(packets).deep_view() + report_closing(),
{
    let ghost so_far = packets.deep_view();
    let mut closing: Vec<Packet> = Vec::new();
    push_flush(&mut closing);
    proof {
        lemma_opening();
        assert(closing.deep_view() =~= seq![PacketView::Flush]);
    }
    if let Some(packet) = wrap_packets(&closing) {
        packets.push(packet);
    }
    push_flush(packets);
    assert(packets.deep_view() =~= so_far + report_closing());
}

/// Reports on a push whose refs were moved.
fn report_push(
    store: &InMemoryStore,
    hash: HashKind,
    why: &Option<String>,
    updates: &Vec<RefUpdate>,
    response: &mut Vec<u8>,
) -> (out: Result<(), ProtocolError>)
    requires
        store.wf(),
    ensures
        ({
            let (packets, fault) = push_report(
                store.state().blobs,
                hash,
                crate::git::protocol::shown(*why),
                updates.deep_view(),
            );
            replied(old(response)@, final(response)@, packets, fault, out)
        }),
{
    let deleted = deletion_list(hash, updates);
    let (mut packets, all) = reported_packets(store, hash, &deleted, why, updates);
    if all {
        push_closing(&mut packets);
        send(&packets, None, response)
    } else {
        send(
            &packets,
            Some(ProtocolError::Io("packet line cannot be written".to_owned())),
            response,
        )
    }
}

proof fn lemma_reported_stays(
    blobs: Blobs,
    hash: HashKind,
    deleted: Seq<Seq<char>>,
    why: Option<Seq<char>>,
    before: Seq<PacketView>,
    updates: Seq<RefUpdateView>,
    n: int,
)
    requires
        0 <= n <= updates.len(),
        !updates_reported(blobs, hash, deleted, why, before, updates.take(n)).1,
    ensures
        updates_reported(blobs, hash, deleted, why, before, updates) == updates_reported(
            blobs,
            hash,
            deleted,
            why,
            before,
            updates.take(n),
        ),
    decreases updates.len() - n,
{
    if n < updates.len() {
        assert(updates.take(n + 1).drop_last() =~= updates.take(n));
        lemma_reported_stays(blobs, hash, deleted, why, before, updates, n + 1);
    } else {
        assert(updates.take(n) =~= updates);
    }
}

fn report_rejection(updates: &Vec<RefUpdate>, rejection: &str, response: &mut Vec<u8>) -> (out: Result<
    (),
    ProtocolError,
>)
    ensures
        replied(
            old(response)@,
            final(response)@,
            rejection_report(updates.deep_view(), rejection@),
            None,
            out,
        ),
{
    let ghost all = rejection_report(updates.deep_view(), rejection@);
    let mut packets: Vec<Packet> = Vec::new();
    let mut i: usize = 0;
    while i < updates.len()
        invariant
            i <= updates@.len(),
            all == rejection_report(updates.deep_view(), rejection@),
            packets.deep_view() =~= all.take(i as int),
        decreases updates@.len() - i,
    {
        let front = joined3("ng ", updates[i].ref_name.as_str(), " pre-receive hook declined: ");
        let line = joined3(front.as_str(), rejection, "\n");
        push_text(&mut packets, line.as_str());
        assert(all[i as int] == text_packet(line@));
        assert(all.take(i + 1) =~= all.take(i as int).push(all[i as int]));
        i += 1;
    }
    push_flush(&mut packets);
    assert(packets.deep_view() =~= all);
    send(&packets, None, response)
}

// -- Pushes -------------------------------------------------------------------------------

/// Whether the objects of a push were taken: its commands read, and its pack
/// ingested.
pub open spec fn objects_received(
    before: StoreState,
    after: StoreState,
    request: Seq<u8>,
    hash: HashKind,
    out: Result<Seq<RefUpdateView>, ProtocolError>,
) -> bool {
    let commands = upload_wants(request);
    if !section_read(commands) {
        &&& after == before
        &&& out matches Err(e) && section_refused(e, commands, "non-utf8 ref update"@)
    } else {
        let (entries, cut) = pack_read_of(hash, request.skip(commands.next as int));
        let (p, fault) = pack_taken(before, hash, entries, cut);
        &&& same_but_uploads(after, p.st)
        &&& match fault {
            Some(f) => out matches Err(ProtocolError::Ingest(e)) && reports(e, f),
            None => out == Ok::<Seq<RefUpdateView>, ProtocolError>(update_lines(commands.lines)),
        }
    }
}

/// The updates of an outcome.
pub open spec fn outcome(out: Result<Vec<RefUpdate>, ProtocolError>) -> Result<
    Seq<RefUpdateView>,
    ProtocolError,
> {
    match out {
        Ok(updates) => Ok(updates.deep_view()),
        Err(e) => Err(e),
    }
}

/// Takes the objects of a push: reads its commands, and ingests its pack.
pub fn receive_objects(
    store: &mut InMemoryStore,
    namespace: &NamespaceRef,
    request: &[u8],
    hash: HashKind,
    now_ms: u64,
) -> (out: Result<Vec<RefUpdate>, ProtocolError>)
    requires
        old(store).wf(),
    ensures
        final(store).wf(),
        objects_received(old(store).state(), final(store).state(), request@, hash, outcome(out)),
        adds_addressed(old(store).state(), final(store).state()),
{
    proof {
        lemma_adds_none(store.state(), store.state());
    }
    let (updates, next) = match read_updates(request) {
        Ok(r) => r,
        Err(e) => return Err(e),
    };
    let pack = slice_subrange(request, next, request.len());
    assert(pack@ =~= request@.skip(next as int));
    match ingest_pack(store, namespace, pack, hash, now_ms) {
        Ok(_) => Ok(updates),
        Err(e) => Err(ProtocolError::Ingest(e)),
    }
}

/// Whether the refs of a push were dealt with: left alone and reported so where
/// a hook turned the push down, moved and reported on otherwise.
pub open spec fn updates_received(
    before: StoreState,
    after: StoreState,
    ns: NamespaceRef,
    updates: Seq<RefUpdateView>,
    rejection: Option<Seq<char>>,
    hash: HashKind,
    sent_before: Seq<u8>,
    sent_after: Seq<u8>,
    out: Result<(), ProtocolError>,
) -> bool {
    match rejection {
        Some(why) => {
            &&& after == before
            &&& replied(sent_before, sent_after, rejection_report(updates, why), None, out)
        },
        None => {
            let (moved, why) = refs_moved(before, ns, hash, updates);
            let (packets, fault) = push_report(moved.blobs, hash, why, updates);
            &&& after == moved
            &&& replied(sent_before, sent_after, packets, fault, out)
        },
    }
}

/// Deals with the refs of a push, given why a hook turns it down, if it does.
pub fn receive_updates(
    store: &mut InMemoryStore,
    namespace: &NamespaceRef,
    updates: &Vec<RefUpdate>,
    rejection: Option<&str>,
    response: &mut Vec<u8>,
    hash: HashKind,
) -> (out: Result<(), ProtocolError>)
    requires
        old(store).wf(),
    ensures
        final(store).wf(),
        updates_received(
            old(store).state(),
            final(store).state(),
            *namespace,
            updates.deep_view(),
            match rejection {
                Some(why) => Some(why@),
                None => None,
            },
            hash,
            old(response)@,
            final(response)@,
            out,
        ),
        final(store).state().blobs == old(store).state().blobs,
{
    proof {
        law_refs_keep_blobs(store.state(), *namespace, hash, updates.deep_view());
    }
    match rejection {
        Some(why) => report_rejection(updates, why, response),
        None => {
            let why = move_refs(store, namespace, hash, updates);
            report_push(store, hash, &why, updates, response)
        },
    }
}

/// A push that a hook turned down leaves the store as it was, and nothing goes
/// back but one line for each ref that says so, and the end.
pub proof fn law_push_declined(
    before: StoreState,
    after: StoreState,
    ns: NamespaceRef,
    updates: Seq<RefUpdateView>,
    why: Seq<char>,
    hash: HashKind,
    sent: Seq<u8>,
    out: Result<(), ProtocolError>,
    i: int,
)
    requires
        updates_received(
            before,
            after,
            ns,
            updates,
            Some(why),
            hash,
            Seq::empty(),
            sent,
            out,
        ),
        out is Ok,
        0 <= i < updates.len(),
    ensures
        after == before,
        exists|packets: Seq<PacketView>| #[trigger]
            packets_written(packets) == (sent, true) && packets.len() == updates.len() + 1
                && packets.last() == PacketView::Flush && packets[i] == PacketView::Data(
                encode_utf8(
                    "ng "@ + updates[i].ref_name + " pre-receive hook declined: "@ + why + "\n"@,
                ),
            ),
{
    let packets = rejection_report(updates, why);
    assert(Seq::<u8>::empty() + packets_written(packets).0 =~= packets_written(packets).0);
    assert(packets_written(packets) == (sent, true));
}

/// Whether a push was handled.
pub open spec fn push_handled(
    before: StoreState,
    after: StoreState,
    ns: NamespaceRef,
    request: Seq<u8>,
    rejection: Option<Seq<char>>,
    hash: HashKind,
    sent_before: Seq<u8>,
    sent_after: Seq<u8>,
    out: Result<(), ProtocolError>,
) -> bool {
    exists|between: StoreState, taken: Result<Seq<RefUpdateView>, ProtocolError>|
        #![trigger objects_received(before, between, request, hash, taken)]
        {
            &&& objects_received(before, between, request, hash, taken)
            &&& match taken {
                Err(e) => after == between && sent_after == sent_before && out == Err::<
                    (),
                    ProtocolError,
                >(e),
                Ok(updates) => updates_received(
                    between,
                    after,
                    ns,
                    updates,
                    rejection,
                    hash,
                    sent_before,
                    sent_after,
                    out,
                ),
            }
        }
}

/// Handles a push: takes its objects, then deals with its refs, given why a hook
/// turns it down, if it does.
pub fn handle_receive_pack(
    store: &mut InMemoryStore,
    namespace: &NamespaceRef,
    request: &[u8],
    rejection: Option<&str>,
    response: &mut Vec<u8>,
    hash: HashKind,
    now_ms: u64,
) -> (out: Result<(), ProtocolError>)
    requires
        old(store).wf(),
    ensures
        final(store).wf(),
        push_handled(
            old(store).state(),
            final(store).state(),
            *namespace,
            request@,
            match rejection {
                Some(why) => Some(why@),
                None => None,
            },
            hash,
            old(response)@,
            final(response)@,
            out,
        ),
        adds_addressed(old(store).state(), final(store).state()),
{
    let ghost before = store.state();
    let taken = receive_objects(store, namespace, request, hash, now_ms);
    assert(objects_received(before, store.state(), request@, hash, outcome(taken)));
    match taken {
        Ok(updates) => {
            let ghost between = store.state();
            let out = receive_updates(store, namespace, &updates, rejection, response, hash);
            proof {
                lemma_adds_none(between, store.state());
                lemma_adds_both(before, between, store.state());
            }
            out
        },
        Err(e) => Err(e),
    }
}

/// A push whose pack cannot be taken moves no ref, and nothing is sent back.
pub proof fn law_bad_pack_moves_nothing(
    before: StoreState,
    after: StoreState,
    ns: NamespaceRef,
    request: Seq<u8>,
    rejection: Option<Seq<char>>,
    hash: HashKind,
    sent_before: Seq<u8>,
    sent_after: Seq<u8>,
    out: Result<(), ProtocolError>,
)
    requires
        push_handled(before, after, ns, request, rejection, hash, sent_before, sent_after, out),
        section_read(upload_wants(request)),
        ({
            let (entries, cut) = pack_read_of(
                hash,
                request.skip(upload_wants(request).next as int),
            );
            pack_taken(before, hash, entries, cut).1 is Some
        }),
    ensures
        out matches Err(ProtocolError::Ingest(_)),
        after.tags == before.tags,
        sent_after == sent_before,
{
    let (between, taken) = choose|
        between: StoreState,
        taken: Result<Seq<RefUpdateView>, ProtocolError>,
    |
        #![trigger objects_received(before, between, request, hash, taken)]
        {
            &&& objects_received(before, between, request, hash, taken)
            &&& match taken {
                Err(e) => after == between && sent_after == sent_before && out == Err::<
                    (),
                    ProtocolError,
                >(e),
                Ok(updates) => updates_received(
                    between,
                    after,
                    ns,
                    updates,
                    rejection,
                    hash,
                    sent_before,
                    sent_after,
                    out,
                ),
            }
        };
    let (entries, cut) = pack_read_of(hash, request.skip(upload_wants(request).next as int));
    law_ingest_touches_content(no_progress(before), hash, entries);
}

/// A push that no hook turns down, and whose pack is taken, stores what the pack
/// holds, and then binds the ref that one of its command lines alone names to the
/// object that the line moves it to, unless the push is refused.
pub proof fn law_push_moves(
    before: StoreState,
    after: StoreState,
    ns: NamespaceRef,
    request: Seq<u8>,
    hash: HashKind,
    sent_before: Seq<u8>,
    sent_after: Seq<u8>,
    out: Result<(), ProtocolError>,
    i: int,
) -> (between: StoreState)
    requires
        push_handled(before, after, ns, request, None, hash, sent_before, sent_after, out),
        section_read(upload_wants(request)),
        ({
            let (entries, cut) = pack_read_of(
                hash,
                request.skip(upload_wants(request).next as int),
            );
            pack_taken(before, hash, entries, cut).1 is None
        }),
        ({
            let updates = update_lines(upload_wants(request).lines);
            &&& 0 <= i < updates.len()
            &&& updates[i].new_oid != zero_oid(hash)
            &&& forall|j: int|
                0 <= j < updates.len() && j != i ==> name_hash((#[trigger] updates[j]).ref_name)
                    != name_hash(updates[i].ref_name)
        }),
    ensures
        between.tags == before.tags,
        ({
            let (entries, cut) = pack_read_of(
                hash,
                request.skip(upload_wants(request).next as int),
            );
            between.blobs == pack_taken(before, hash, entries, cut).0.st.blobs
        }),
        after.blobs == between.blobs,
        ({
            let u = update_lines(upload_wants(request).lines)[i];
            let k = StoreState::filed(ns, u.ref_name);
            refs_moved(between, ns, hash, update_lines(upload_wants(request).lines)).1 is None
                ==> after.tags.dom().contains(k) && after.tags[k].name == u.ref_name
                && after.tags[k].kappa == hash_name(hash) + ":"@ + u.new_oid
        }),
{
    let (between, taken) = choose|
        between: StoreState,
        taken: Result<Seq<RefUpdateView>, ProtocolError>,
    |
        #![trigger objects_received(before, between, request, hash, taken)]
        {
            &&& objects_received(before, between, request, hash, taken)
            &&& match taken {
                Err(e) => after == between && sent_after == sent_before && out == Err::<
                    (),
                    ProtocolError,
                >(e),
                Ok(updates) => updates_received(
                    between,
                    after,
                    ns,
                    updates,
                    None,
                    hash,
                    sent_before,
                    sent_after,
                    out,
                ),
            }
        };
    let (entries, cut) = pack_read_of(hash, request.skip(upload_wants(request).next as int));
    let updates = update_lines(upload_wants(request).lines);
    law_ingest_touches_content(no_progress(before), hash, entries);
    law_refs_keep_blobs(between, ns, hash, updates);
    if refs_moved(between, ns, hash, updates).1 is None {
        law_push_binds(between, ns, hash, updates, i);
    }
    between
}

/// An update that went well is reported with its ref, its old and its new name, and
/// as forced where both are objects and the old one cannot be come to from the new.
pub proof fn law_update_options(blobs: Blobs, hash: HashKind, deleted: Seq<Seq<char>>, u: RefUpdateView)
    ensures
        ({
            let report = update_report(blobs, hash, deleted, None, u);
            let forced = u.old_oid != zero_oid(hash) && u.new_oid != zero_oid(hash) && !reaches(
                blobs,
                hash,
                seq![hash_name(hash) + ":"@ + u.new_oid],
                hash_name(hash) + ":"@ + u.old_oid,
            );
            &&& report.len() == if forced {
                5int
            } else {
                4
            }
            &&& report[1] == PacketView::Data(
                encode_utf8("option refname "@ + u.ref_name + "\n"@),
            )
            &&& report[2] == PacketView::Data(encode_utf8("option old-oid "@ + u.old_oid + "\n"@))
            &&& report[3] == PacketView::Data(encode_utf8("option new-oid "@ + u.new_oid + "\n"@))
            &&& forced ==> report[4] == PacketView::Data(encode_utf8("option forced-update\n"@))
        }),
{
    reveal(update_report);
    assert(labels(hash, seq![u.new_oid]) =~= seq![hash_name(hash) + ":"@ + u.new_oid]);
}

/// A report opens by saying that the pack was taken, and closes the side band and the
/// conversation.
pub proof fn law_report_framed(
    blobs: Blobs,
    hash: HashKind,
    why: Option<Seq<char>>,
    updates: Seq<RefUpdateView>,
)
    requires
        push_report(blobs, hash, why, updates).1 is None,
    ensures
        ({
            let packets = push_report(blobs, hash, why, updates).0;
            &&& packets[0] == PacketView::Data(
                seq![1u8] + pkt_bytes(encode_utf8("unpack ok\n"@)),
            )
            &&& packets[packets.len() - 2] == PacketView::Data(seq![1u8, 48, 48, 48, 48])
            &&& packets.last() == PacketView::Flush
        }),
{
    let opening = report_opening();
    let word = seq![text_packet("unpack ok\n"@)];
    let end = seq![PacketView::Flush];
    assert(word.drop_last() =~= Seq::<PacketView>::empty());
    assert(end.drop_last() =~= Seq::<PacketView>::empty());
    assert(Seq::<u8>::empty() + pkt_bytes(encode_utf8("unpack ok\n"@)) =~= pkt_bytes(
        encode_utf8("unpack ok\n"@),
    ));
    reveal_strlit("unpack ok\n");
    vstd::utf8::is_ascii_chars_encode_utf8("unpack ok\n"@);
    assert(encodable(encode_utf8("unpack ok\n"@)));
    assert(packets_written(Seq::<PacketView>::empty()) == (Seq::<u8>::empty(), true));
    assert(packets_written(word).0 =~= pkt_bytes(encode_utf8("unpack ok\n"@)));
    assert(packets_written(end).0 =~= flush_bytes());
    assert(seq![1u8] + flush_bytes() =~= seq![1u8, 48, 48, 48, 48]);
    lemma_report_front(blobs, hash, push_deletions(hash, updates), why, opening, updates);
    let lines = updates_reported(
        blobs,
        hash,
        push_deletions(hash, updates),
        why,
        opening,
        updates,
    ).0;
    let packets = push_report(blobs, hash, why, updates).0;
    assert(packets == lines + report_closing());
    assert(packets[0] == lines[0]);
    assert(packets[packets.len() - 2] == report_closing()[0]);
}

proof fn lemma_report_front(
    blobs: Blobs,
    hash: HashKind,
    deleted: Seq<Seq<char>>,
    why: Option<Seq<char>>,
    before: Seq<PacketView>,
    updates: Seq<RefUpdateView>,
)
    requires
        before.len() > 0,
    ensures
        updates_reported(blobs, hash, deleted, why, before, updates).0.len() >= before.len(),
        updates_reported(blobs, hash, deleted, why, before, updates).0[0] == before[0],
    decreases updates.len(),
{
    if updates.len() > 0 {
        lemma_report_front(blobs, hash, deleted, why, before, updates.drop_last());
    }
}

} // verus!
