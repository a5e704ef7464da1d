//! What a store holds, and what each operation makes of it.

use vstd::prelude::*;

use crate::epoch::EpochView;
use crate::kappa::Axis;
use crate::text::decimal;
use crate::types::{
    name_hash, relation_number, EdgeQuery, EdgeRelation, EdgeView, NamespaceRef, TagView, UpdateView,
};

verus! {

/// A namespace and the hash of a name in it.
pub type Filed = (Seq<u8>, u64);

/// What the record of a namespace holds.
pub struct RecordView {
    pub uuid_hex: Seq<char>,
    pub owner: Seq<char>,
    pub created_at_ms: u64,
    pub protocol: Option<Seq<char>>,
    pub aliases: Seq<Seq<char>>,
    pub tombstoned: bool,
}

/// What an upload in progress holds.
pub struct UploadView {
    pub namespace: Seq<char>,
    pub data: Seq<u8>,
    pub max_size: u64,
    pub created_ms: u64,
    pub parts: Seq<(u32, Seq<u8>, u64)>,
}

/// What is known of a blob stored compressed.
pub struct CompressionView {
    pub kappa: Seq<char>,
    pub algorithm: Seq<char>,
    pub compressed: Seq<u8>,
    pub uncompressed_size: u64,
}

/// What an identity binding holds.
pub struct BindingView {
    pub source: Seq<char>,
    pub target: Seq<char>,
    pub method: Seq<char>,
    pub trust_level: Seq<char>,
    pub verified_at_ms: u64,
}

/// What a store holds.
#[verifier::ext_equal]
pub struct StoreState {
    pub blobs: Map<Seq<char>, Seq<u8>>,
    pub meta: Map<(u64, u64), Seq<u8>>,
    pub ns_meta: Map<(Seq<u8>, u64, u64), Seq<Seq<char>>>,
    pub tags: Map<Filed, TagView>,
    pub edges: Map<Filed, EdgeView>,
    pub fwd: Map<Filed, Seq<Seq<char>>>,
    pub rev: Map<Filed, Seq<Seq<char>>>,
    pub rel: Map<Filed, Seq<Seq<char>>>,
    pub asr: Map<Filed, Seq<Seq<char>>>,
    pub sequences: Map<Filed, u64>,
    pub epochs: Map<Seq<char>, EpochView>,
    pub current: Map<Seq<u8>, Seq<char>>,
    pub uploads: Map<Seq<char>, UploadView>,
    pub compressed: Map<Seq<char>, CompressionView>,
    pub bindings: Map<Seq<char>, Seq<BindingView>>,
    pub successions: Map<Seq<char>, Seq<char>>,
    pub assertions: Map<Seq<char>, Seq<Seq<char>>>,
    pub aliases: Map<Seq<char>, Seq<u8>>,
    pub records: Map<Seq<u8>, RecordView>,
    pub upload_timeout_secs: Option<u64>,
}

/// Names of a list of tags.
pub open spec fn tag_names(list: Seq<TagView>) -> Seq<Seq<char>> {
    Seq::new(list.len(), |i: int| list[i].name)
}

/// The list under a key, or an empty one.
pub open spec fn listed(m: Map<Filed, Seq<Seq<char>>>, k: Filed) -> Seq<Seq<char>> {
    if m.dom().contains(k) {
        m[k]
    } else {
        Seq::empty()
    }
}

/// The list under a key with one more text at its end.
pub open spec fn listed_more(m: Map<Filed, Seq<Seq<char>>>, k: Filed, s: Seq<char>) -> Map<
    Filed,
    Seq<Seq<char>>,
> {
    m.insert(k, listed(m, k).push(s))
}

/// A list without a text, wherever it stands.
pub open spec fn without(list: Seq<Seq<char>>, s: Seq<char>) -> Seq<Seq<char>>
    decreases list.len(),
{
    if list.len() == 0 {
        list
    } else {
        let rest = without(list.drop_last(), s);
        if list.last() == s {
            rest
        } else {
            rest.push(list.last())
        }
    }
}

/// The map with one text taken out of the list under a key.
pub open spec fn listed_less(m: Map<Filed, Seq<Seq<char>>>, k: Filed, s: Seq<char>) -> Map<
    Filed,
    Seq<Seq<char>>,
> {
    if m.dom().contains(k) {
        m.insert(k, without(m[k], s))
    } else {
        m
    }
}

/// Whether two edges are the same relationship by the same asserter.
pub open spec fn same_relationship(a: EdgeView, b: EdgeView) -> bool {
    a.source == b.source && a.target == b.target && a.relation == b.relation && a.asserter
        == b.asserter
}

impl StoreState {
    /// An empty store.
    pub open spec fn empty(upload_timeout_secs: Option<u64>) -> StoreState {
        StoreState {
            blobs: Map::empty(),
            meta: Map::empty(),
            ns_meta: Map::empty(),
            tags: Map::empty(),
            edges: Map::empty(),
            fwd: Map::empty(),
            rev: Map::empty(),
            rel: Map::empty(),
            asr: Map::empty(),
            sequences: Map::empty(),
            epochs: Map::empty(),
            current: Map::empty(),
            uploads: Map::empty(),
            compressed: Map::empty(),
            bindings: Map::empty(),
            successions: Map::empty(),
            assertions: Map::empty(),
            aliases: Map::empty(),
            records: Map::empty(),
            upload_timeout_secs,
        }
    }

    /// Every tag is filed under the hash of its name, and every namespace's record
    /// names the sixteen bytes that it is filed under.
    pub open spec fn wf(self) -> bool {
        &&& forall|k: Filed| #[trigger]
            self.tags.dom().contains(k) ==> k.1 == name_hash(self.tags[k].name)
        &&& forall|id: Seq<u8>| #[trigger]
            self.records.dom().contains(id) ==> id.len() == 16 && self.records[id].uuid_hex
                == crate::hexadecimal::hex_of(id)
    }

    // -- Blobs ------------------------------------------------------------------

    /// Content stored at an address, unless something is there already.
    pub open spec fn put_blob(self, kappa: Seq<char>, content: Seq<u8>) -> StoreState {
        if self.blobs.dom().contains(kappa) {
            self
        } else {
            StoreState { blobs: self.blobs.insert(kappa, content), ..self }
        }
    }

    /// The address emptied.
    pub open spec fn drop_blob(self, kappa: Seq<char>) -> StoreState {
        StoreState { blobs: self.blobs.remove(kappa), ..self }
    }

    /// Content ingested at its address on an axis, and at its SHA-256 address
    /// too.
    pub open spec fn ingested(self, axis: Axis, kappa: Seq<char>, content: Seq<u8>) -> StoreState {
        let first = self.put_blob(kappa, content);
        if axis == Axis::Sha256 {
            first
        } else {
            first.put_blob(crate::kappa::kappa_of(content), content)
        }
    }

    // -- Namespaces -------------------------------------------------------------

    /// The namespace on record, with its name as an alias where it has one.
    pub open spec fn ensured(self, ns: NamespaceRef) -> StoreState {
        if self.records.dom().contains(ns.id()) {
            self
        } else {
            let name = match ns.spec_name() {
                Some(n) => n,
                None => Seq::empty(),
            };
            let record = RecordView {
                uuid_hex: crate::hexadecimal::hex_of(ns.id()),
                owner: Seq::empty(),
                created_at_ms: 0,
                protocol: None,
                aliases: if name.len() == 0 {
                    Seq::empty()
                } else {
                    seq![name]
                },
                tombstoned: false,
            };
            StoreState {
                records: self.records.insert(ns.id(), record),
                aliases: if name.len() == 0 {
                    self.aliases
                } else {
                    self.aliases.insert(name, ns.id())
                },
                ..self
            }
        }
    }

    // -- Tags -------------------------------------------------------------------

    /// Where a name is filed.
    pub open spec fn filed(ns: NamespaceRef, name: Seq<char>) -> Filed {
        (ns.id(), name_hash(name))
    }

    /// The number of times a name was bound; zero where it is not bound.
    pub open spec fn tag_version(self, ns: NamespaceRef, name: Seq<char>) -> u64 {
        let k = Self::filed(ns, name);
        if self.tags.dom().contains(k) {
            self.tags[k].version
        } else {
            0
        }
    }

    /// A name bound to an address, its version one higher.
    pub open spec fn bound(self, ns: NamespaceRef, name: Seq<char>, kappa: Seq<char>) -> StoreState {
        let entry = TagView {
            name,
            kappa,
            version: (self.tag_version(ns, name) + 1) as u64,
        };
        StoreState { tags: self.tags.insert(Self::filed(ns, name), entry), ..self }
    }

    /// A name bound in a namespace that is put on record.
    pub open spec fn tag_set(self, ns: NamespaceRef, name: Seq<char>, kappa: Seq<char>) -> StoreState {
        self.ensured(ns).bound(ns, name, kappa)
    }

    /// A name no longer bound.
    pub open spec fn unbound(self, ns: NamespaceRef, name: Seq<char>) -> StoreState {
        StoreState { tags: self.tags.remove(Self::filed(ns, name)), ..self }
    }

    /// Whether a list is the tags of a namespace whose names begin with a
    /// prefix, in ascending order.
    pub open spec fn is_listing(self, ns: NamespaceRef, prefix: Seq<char>, list: Seq<TagView>) -> bool {
        &&& crate::sorted::ascending(tag_names(list))
        &&& forall|i: int|
            0 <= i < list.len() ==> {
                let k = Self::filed(ns, (#[trigger] list[i]).name);
                self.tags.dom().contains(k) && self.tags[k] == list[i] && prefix.is_prefix_of(
                    list[i].name,
                )
            }
        &&& forall|h: u64| #[trigger]
            self.tags.dom().contains((ns.id(), h)) && prefix.is_prefix_of(
                self.tags[(ns.id(), h)].name,
            ) ==> list.contains(self.tags[(ns.id(), h)])
    }

    /// Whether every expected version is the current one.
    pub open spec fn expected(self, ns: NamespaceRef, updates: Seq<UpdateView>) -> bool {
        forall|i: int|
            0 <= i < updates.len() ==> ((#[trigger] updates[i]).expected_version matches Some(v)
                ==> v == self.tag_version(ns, updates[i].name))
    }

    /// What the first unexpected version is reported as.
    pub open spec fn conflict_text(self, ns: NamespaceRef, updates: Seq<UpdateView>) -> Seq<char>
        decreases updates.len(),
    {
        if updates.len() == 0 {
            Seq::empty()
        } else {
            let now = self.tag_version(ns, updates[0].name);
            match updates[0].expected_version {
                Some(v) => if v != now {
                    "tag "@ + updates[0].name + ": expected version "@ + decimal(v as nat)
                        + " but current is "@ + decimal(now as nat)
                } else {
                    self.conflict_text(ns, updates.skip(1))
                },
                None => self.conflict_text(ns, updates.skip(1)),
            }
        }
    }

    /// The names bound one after the other.
    pub open spec fn all_bound(self, ns: NamespaceRef, updates: Seq<UpdateView>) -> StoreState
        decreases updates.len(),
    {
        if updates.len() == 0 {
            self
        } else {
            self.all_bound(ns, updates.drop_last()).bound(
                ns,
                updates.last().name,
                updates.last().kappa,
            )
        }
    }

    /// Whether no binding of a batch would run out of version numbers.
    pub open spec fn room_for_all(self, ns: NamespaceRef, updates: Seq<UpdateView>) -> bool {
        forall|i: int|
            0 <= i < updates.len() ==> self.tag_version(ns, (#[trigger] updates[i]).name)
                + updates.len() <= u64::MAX
    }

    // -- Edges ------------------------------------------------------------------

    /// The first address in a list under which the same relationship by the
    /// same asserter is filed.
    pub open spec fn find_relationship(self, id: Seq<u8>, list: Seq<Seq<char>>, edge: EdgeView) -> Option<
        Seq<char>,
    >
        decreases list.len(),
    {
        if list.len() == 0 {
            None
        } else {
            let k = (id, name_hash(list[0]));
            if self.edges.dom().contains(k) && same_relationship(self.edges[k], edge) {
                Some(list[0])
            } else {
                self.find_relationship(id, list.drop_first(), edge)
            }
        }
    }

    /// The address of an edge.
    pub open spec fn edge_kappa(edge: EdgeView) -> Seq<char> {
        crate::kappa::kappa_of(crate::canonical::edge_blob(edge))
    }

    /// An edge stored: its blob ingested, and the edge filed in place of the
    /// same relationship by the same asserter, or as a new one.
    pub open spec fn edge_put(self, ns: NamespaceRef, edge: EdgeView) -> StoreState {
        let kappa = Self::edge_kappa(edge);
        let here = self.ensured(ns).put_blob(kappa, crate::canonical::edge_blob(edge));
        let id = ns.id();
        match here.find_relationship(id, listed(here.fwd, (id, name_hash(edge.source))), edge) {
            Some(k) => StoreState {
                edges: here.edges.insert((id, name_hash(k)), edge),
                ..here
            },
            None => StoreState {
                edges: here.edges.insert((id, name_hash(kappa)), edge),
                fwd: listed_more(here.fwd, (id, name_hash(edge.source)), kappa),
                rev: listed_more(here.rev, (id, name_hash(edge.target)), kappa),
                rel: listed_more(here.rel, (id, relation_number(edge.relation)), kappa),
                asr: listed_more(here.asr, (id, name_hash(edge.asserter)), kappa),
                ..here
            },
        }
    }

    /// Whether an edge passes the filters of a query.
    pub open spec fn passes(edge: EdgeView, relation: Option<EdgeRelation>, asserter: Option<Seq<char>>) -> bool {
        &&& relation matches Some(r) ==> edge.relation == r
        &&& asserter matches Some(a) ==> edge.asserter == a
    }

    /// The edges filed under a list of addresses that pass the filters.
    pub open spec fn edges_at(
        self,
        id: Seq<u8>,
        list: Seq<Seq<char>>,
        relation: Option<EdgeRelation>,
        asserter: Option<Seq<char>>,
    ) -> Seq<EdgeView>
        decreases list.len(),
    {
        if list.len() == 0 {
            Seq::empty()
        } else {
            let before = self.edges_at(id, list.drop_last(), relation, asserter);
            let k = (id, name_hash(list.last()));
            if self.edges.dom().contains(k) && Self::passes(self.edges[k], relation, asserter) {
                before.push(self.edges[k])
            } else {
                before
            }
        }
    }

    /// The addresses of the edges at an anchor.
    pub open spec fn anchored(self, ns: NamespaceRef, query: EdgeQuery) -> Seq<Seq<char>> {
        let k = (ns.id(), name_hash(query.anchor@));
        match query.direction {
            crate::types::Direction::Outbound => listed(self.fwd, k),
            crate::types::Direction::Inbound => listed(self.rev, k),
        }
    }

    /// The edges that a query finds.
    pub open spec fn edge_query(self, ns: NamespaceRef, query: EdgeQuery) -> Seq<EdgeView> {
        self.edges_at(
            ns.id(),
            self.anchored(ns, query),
            query.relation,
            match query.asserter {
                Some(a) => Some(a@),
                None => None,
            },
        )
    }

    /// The first address in a list under which an edge between two addresses
    /// with a relation is filed.
    pub open spec fn find_edge(
        self,
        id: Seq<u8>,
        list: Seq<Seq<char>>,
        source: Seq<char>,
        target: Seq<char>,
        relation: EdgeRelation,
    ) -> Option<Seq<char>>
        decreases list.len(),
    {
        if list.len() == 0 {
            None
        } else {
            let k = (id, name_hash(list[0]));
            if self.edges.dom().contains(k) && self.edges[k].source == source
                && self.edges[k].target == target && self.edges[k].relation == relation {
                Some(list[0])
            } else {
                self.find_edge(id, list.drop_first(), source, target, relation)
            }
        }
    }

    /// An edge taken out of the indexes, its blob dropped.
    pub open spec fn edge_delete(
        self,
        ns: NamespaceRef,
        source: Seq<char>,
        target: Seq<char>,
        relation: EdgeRelation,
    ) -> StoreState {
        let id = ns.id();
        match self.find_edge(id, listed(self.fwd, (id, name_hash(source))), source, target, relation) {
            None => self,
            Some(kappa) => {
                let edge = self.edges[(id, name_hash(kappa))];
                StoreState {
                    edges: self.edges.remove((id, name_hash(kappa))),
                    fwd: listed_less(self.fwd, (id, name_hash(edge.source)), kappa),
                    rev: listed_less(self.rev, (id, name_hash(edge.target)), kappa),
                    rel: listed_less(self.rel, (id, relation_number(edge.relation)), kappa),
                    asr: listed_less(self.asr, (id, name_hash(edge.asserter)), kappa),
                    ..self
                }.drop_blob(kappa)
            },
        }
    }

    // -- Sequences --------------------------------------------------------------

    /// Current value of a counter; zero where it was never advanced.
    pub open spec fn sequence(self, ns: NamespaceRef, name: Seq<char>) -> u64 {
        let k = Self::filed(ns, name);
        if self.sequences.dom().contains(k) {
            self.sequences[k]
        } else {
            0
        }
    }

    /// A counter one higher.
    pub open spec fn advanced(self, ns: NamespaceRef, name: Seq<char>) -> StoreState {
        StoreState {
            sequences: self.sequences.insert(
                Self::filed(ns, name),
                (self.sequence(ns, name) + 1) as u64,
            ),
            ..self
        }
    }

    // -- Epochs -----------------------------------------------------------------

    /// The address of a namespace's latest epoch: the one remembered, or else
    /// the one tagged.
    pub open spec fn epoch_current(self, ns: NamespaceRef) -> Option<Seq<char>> {
        let k = Self::filed(ns, "_epoch/current"@);
        if self.current.dom().contains(ns.id()) {
            Some(self.current[ns.id()])
        } else if self.tags.dom().contains(k) {
            Some(self.tags[k].kappa)
        } else {
            None
        }
    }

    /// An epoch root recorded: its blob ingested, remembered as the latest, and
    /// tagged.
    pub open spec fn epoch_recorded(self, ns: NamespaceRef, root: EpochView) -> StoreState {
        let kappa = crate::epoch::epoch_kappa(root);
        let stored = self.put_blob(kappa, crate::epoch::epoch_bytes(root));
        StoreState {
            epochs: stored.epochs.insert(kappa, root),
            current: stored.current.insert(ns.id(), kappa),
            ..stored
        }.tag_set(ns, "_epoch/current"@, kappa)
    }
}

} // verus!
