//! Rooms in which clients work on a document together.

use vstd::prelude::*;

use crate::bytes::{append_bytes, copy_bytes};
use crate::distribution::records::tag_tried;
use crate::kappa::{kappa_from_bytes, kappa_of};
use crate::store::memory::InMemoryStore;
use crate::store::state::StoreState;
use crate::table::{lemma_deep_bytes, Table};
use crate::text::joined;
use crate::types::NamespaceRef;

verus! {

broadcast use lemma_deep_bytes;

/// A document that clients have open.
pub struct CrdtRoom {
    pub state: Vec<u8>,
    pub client_count: usize,
}

/// What a room holds.
pub struct RoomView {
    pub state: Seq<u8>,
    pub clients: nat,
}

impl DeepView for CrdtRoom {
    type V = RoomView;

    open spec fn deep_view(&self) -> RoomView {
        RoomView { state: self.state@, clients: self.client_count as nat }
    }
}

/// The rooms that are open.
pub struct CrdtManager {
    pub(crate) rooms: Table<String, CrdtRoom>,
}

/// The key of a room.
pub open spec fn room_key(ns: NamespaceRef, doc: Seq<char>) -> Seq<char> {
    ns.shown() + "/"@ + doc
}

/// What is saved of a document; nothing where it was never saved.
pub open spec fn saved_state(st: StoreState, ns: NamespaceRef, doc: Seq<char>) -> Seq<u8> {
    let k = StoreState::filed(ns, "_crdt/"@ + doc);
    if st.tags.dom().contains(k) && st.blobs.dom().contains(st.tags[k].kappa) {
        st.blobs[st.tags[k].kappa]
    } else {
        Seq::empty()
    }
}

/// A store in which a document is saved; an empty one is not.
pub open spec fn saved(st: StoreState, ns: NamespaceRef, doc: Seq<char>, state: Seq<u8>) -> StoreState {
    if state.len() == 0 {
        st
    } else {
        tag_tried(
            st.put_blob(kappa_of(state), state),
            ns,
            "_crdt/"@ + doc,
            kappa_of(state),
        )
    }
}

/// The room of a document as it is, or as it opens.
pub open spec fn room_or_opened(
    rooms: Map<Seq<char>, RoomView>,
    st: StoreState,
    ns: NamespaceRef,
    doc: Seq<char>,
) -> RoomView {
    let key = room_key(ns, doc);
    if rooms.dom().contains(key) {
        rooms[key]
    } else {
        RoomView { state: saved_state(st, ns, doc), clients: 0 }
    }
}

fn key_of(ns: &NamespaceRef, doc: &str) -> (out: String)
    ensures
        out@ == room_key(*ns, doc@),
{
    crate::text::joined3(ns.as_str().as_str(), "/", doc)
}

fn load_state(store: &InMemoryStore, ns: &NamespaceRef, doc: &str) -> (out: Vec<u8>)
    requires
        store.wf(),
    ensures
        out@ == saved_state(store.state(), *ns, doc@),
{
    let name = joined("_crdt/", doc);
    if let Ok(tag) = store.tag_get(ns, name.as_str()) {
        if let Ok(state) = store.blob_get(tag.kappa.as_str()) {
            return state;
        }
    }
    let empty: Vec<u8> = Vec::new();
    assert(empty@ =~= Seq::<u8>::empty());
    empty
}

fn save_state(store: &mut InMemoryStore, ns: &NamespaceRef, doc: &str, state: &[u8])
    requires
        old(store).wf(),
    ensures
        final(store).wf(),
        final(store).state() == saved(old(store).state(), *ns, doc@, state@),
{
    if state.len() == 0 {
        return;
    }
    let kappa = kappa_from_bytes(state);
    let _ = store.ingest_verified(kappa.as_str(), state);
    let name = joined("_crdt/", doc);
    let _ = store.tag_set(ns, name.as_str(), kappa.as_str());
}

impl CrdtManager {
    /// The rooms that are open.
    pub open(crate) spec fn rooms(&self) -> Map<Seq<char>, RoomView> {
        self.rooms@
    }

    pub open(crate) spec fn wf(&self) -> bool {
        self.rooms.wf()
    }

    /// No room is open.
    pub fn new() -> (out: Self)
        ensures
            out.wf(),
            out.rooms() == Map::<Seq<char>, RoomView>::empty(),
    {
        CrdtManager { rooms: Table::new() }
    }

    /// Number of clients in the room of a document.
    pub fn client_count(&self, ns: &NamespaceRef, doc: &str) -> (n: usize)
        requires
            self.wf(),
        ensures
            n == (if self.rooms().dom().contains(room_key(*ns, doc@)) {
                self.rooms()[room_key(*ns, doc@)].clients
            } else {
                0
            }),
    {
        match self.rooms.get(&key_of(ns, doc)) {
            Some(room) => room.client_count,
            None => 0,
        }
    }

    /// A client enters the room of a document, which opens with what was saved;
    /// the state of the document.
    pub fn join(&mut self, store: &InMemoryStore, ns: &NamespaceRef, doc: &str) -> (state: Vec<u8>)
        requires
            old(self).wf(),
            store.wf(),
            room_or_opened(old(self).rooms(), store.state(), *ns, doc@).clients < usize::MAX,
        ensures
            final(self).wf(),
            ({
                let room = room_or_opened(old(self).rooms(), store.state(), *ns, doc@);
                &&& state@ == room.state
                &&& final(self).rooms() == old(self).rooms().insert(
                    room_key(*ns, doc@),
                    RoomView { state: room.state, clients: room.clients + 1 },
                )
            }),
    {
        let key = key_of(ns, doc);
        let ghost before = self.rooms();
        let room = match self.rooms.remove(&key) {
            Some(room) => room,
            None => CrdtRoom { state: load_state(store, ns, doc), client_count: 0 },
        };
        let state = copy_bytes(room.state.as_slice());
        let ghost shown = room.deep_view();
        let entered = CrdtRoom { state: room.state, client_count: room.client_count + 1 };
        self.rooms.insert(key, entered);
        assert(self.rooms() =~= before.insert(
            room_key(*ns, doc@),
            RoomView { state: shown.state, clients: shown.clients + 1 },
        ));
        state
    }

    /// An update is put behind the state of an open document; tells whether it
    /// is open.
    pub fn apply_update(&mut self, ns: &NamespaceRef, doc: &str, update: &[u8]) -> (open_room: bool)
        requires
            old(self).wf(),
        ensures
            final(self).wf(),
            ({
                let key = room_key(*ns, doc@);
                let room = old(self).rooms()[key];
                &&& open_room == old(self).rooms().dom().contains(key)
                &&& final(self).rooms() == (if open_room {
                    old(self).rooms().insert(
                        key,
                        RoomView { state: room.state + update@, clients: room.clients },
                    )
                } else {
                    old(self).rooms()
                })
            }),
    {
        let key = key_of(ns, doc);
        let ghost before = self.rooms();
        match self.rooms.remove(&key) {
            Some(room) => {
                let ghost shown = room.deep_view();
                let mut state = room.state;
                append_bytes(&mut state, update);
                self.rooms.insert(key, CrdtRoom { state, client_count: room.client_count });
                assert(self.rooms() =~= before.insert(
                    room_key(*ns, doc@),
                    RoomView { state: shown.state + update@, clients: shown.clients },
                ));
                true
            },
            None => {
                assert(self.rooms() =~= before);
                false
            },
        }
    }

    /// A client leaves the room of a document. The last one closes it, and the
    /// document is saved.
    pub fn leave(&mut self, store: &mut InMemoryStore, ns: &NamespaceRef, doc: &str)
        requires
            old(self).wf(),
            old(store).wf(),
        ensures
            final(self).wf(),
            final(store).wf(),
            ({
                let key = room_key(*ns, doc@);
                let rooms = old(self).rooms();
                let room = rooms[key];
                if !rooms.dom().contains(key) {
                    final(self).rooms() == rooms && final(store).state() == old(store).state()
                } else if room.clients <= 1 {
                    final(self).rooms() == rooms.remove(key) && final(store).state() == saved(
                        old(store).state(),
                        *ns,
                        doc@,
                        room.state,
                    )
                } else {
                    final(self).rooms() == rooms.insert(
                        key,
                        RoomView { state: room.state, clients: (room.clients - 1) as nat },
                    ) && final(store).state() == old(store).state()
                }
            }),
    {
        let key = key_of(ns, doc);
        let ghost before = self.rooms();
        match self.rooms.remove(&key) {
            Some(room) => {
                if room.client_count <= 1 {
                    save_state(store, ns, doc, room.state.as_slice());
                } else {
                    let ghost shown = room.deep_view();
                    let left = CrdtRoom { state: room.state, client_count: room.client_count - 1 };
                    self.rooms.insert(key, left);
                    assert(self.rooms() =~= before.insert(
                        room_key(*ns, doc@),
                        RoomView { state: shown.state, clients: (shown.clients - 1) as nat },
                    ));
                }
            },
            None => {
                assert(self.rooms() =~= before);
            },
        }
    }
}

/// A document that was saved opens as it was, unless its address held something
/// else or its tag can no longer be set.
pub proof fn law_document_kept(st: StoreState, ns: NamespaceRef, doc: Seq<char>, state: Seq<u8>)
    requires
        state.len() > 0,
        st.blobs.dom().contains(kappa_of(state)) ==> st.blobs[kappa_of(state)] == state,
        st.tag_version(ns, "_crdt/"@ + doc) < u64::MAX,
    ensures
        saved_state(saved(st, ns, doc, state), ns, doc) == state,
        room_or_opened(Map::empty(), saved(st, ns, doc, state), ns, doc).state == state,
{
}

} // verus!
