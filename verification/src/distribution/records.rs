//! What every record of the protocol is marked with.

use vstd::prelude::*;
use vstd::utf8::encode_utf8;

use crate::store::memory::{meta_noted, InMemoryStore};
use crate::store::state::StoreState;
use crate::types::{name_hash, NamespaceRef};

verus! {

/// A store in which an address is marked with the type of its object, for all
/// namespaces and in one.
pub open spec fn typed(st: StoreState, ns: NamespaceRef, kappa: Seq<char>, kind: Seq<char>) -> StoreState {
    meta_noted(
        StoreState {
            meta: st.meta.insert(
                (name_hash(kappa), name_hash("object-type"@)),
                encode_utf8(kind),
            ),
            ..st
        },
        ns,
        kappa,
        "object-type"@,
        kind,
    )
}

/// A store in which a name was bound if its version could still rise.
pub open spec fn tag_tried(st: StoreState, ns: NamespaceRef, name: Seq<char>, kappa: Seq<char>) -> StoreState {
    if st.tag_version(ns, name) < u64::MAX {
        st.tag_set(ns, name, kappa)
    } else {
        st.ensured(ns)
    }
}

/// Marks an address with the type of its object.
pub fn mark_type(store: &mut InMemoryStore, ns: &NamespaceRef, kappa: &str, kind: &str)
    requires
        old(store).wf(),
    ensures
        final(store).wf(),
        final(store).state() == typed(old(store).state(), *ns, kappa@, kind@),
{
    let _ = store.blob_put_meta(kappa, "object-type", kind.as_bytes());
    let _ = store.meta_set(ns, kappa, "object-type", kind);
}

/// An address that is marked has its type on file, for all namespaces and in its own.
pub proof fn law_marked(st: StoreState, ns: NamespaceRef, kappa: Seq<char>, kind: Seq<char>)
    ensures
        ({
            let after = typed(st, ns, kappa, kind);
            let k = (name_hash(kappa), name_hash("object-type"@));
            &&& after.meta.dom().contains(k) && after.meta[k] == encode_utf8(kind)
            &&& crate::store::memory::is_noted(after, ns, "object-type"@, kind, kappa)
            &&& after.blobs == st.blobs && after.tags == st.tags && after.edges == st.edges
        }),
{
    let here = StoreState {
        meta: st.meta.insert(
            (name_hash(kappa), name_hash("object-type"@)),
            encode_utf8(kind),
        ),
        ..st
    };
    crate::store::memory::law_noted(
        here,
        ns,
        kappa,
        "object-type"@,
        kind,
        Seq::empty(),
        Seq::empty(),
    );
}

} // verus!
