//! The epoch chain of each namespace.

use vstd::prelude::*;

use crate::epoch::{
    epoch_bytes, epoch_kappa, mutations_merkle_root, mutations_root_of, state_merkle_root,
    state_root_of, EpochRoot, EpochView,
};
use crate::store::memory::{
    adds_addressed, lemma_adds_none, lemma_adds_one, lemma_adds_same, InMemoryStore,
};
use crate::store::state::StoreState;
use crate::types::{EpochMutation, NamespaceRef, StoreError, TagView};

verus! {

/// The epoch root that follows, given the listing of the namespace's tags.
pub open spec fn next_epoch(
    st: StoreState,
    ns: NamespaceRef,
    tags: Seq<TagView>,
    mutations: Seq<EpochMutation>,
    now_ms: u64,
) -> EpochView {
    EpochView {
        namespace: ns.shown(),
        epoch_number: (st.sequence(ns, "_epoch"@) + 1) as u64,
        prev_root_kappa: st.epoch_current(ns),
        state_root: state_root_of(tags),
        mutations_root: mutations_root_of(mutations),
        timestamp_ms: now_ms,
        signer_anchor: Seq::empty(),
    }
}

/// Whether the counters of a namespace's epochs can still rise.
pub open spec fn epochs_left(st: StoreState, ns: NamespaceRef) -> bool {
    st.sequence(ns, "_epoch"@) < u64::MAX && st.tag_version(ns, "_epoch/current"@) < u64::MAX
}

/// Whether an epoch was recorded at a time, given the listing of the namespace's
/// tags.
pub open spec fn advanced_at(
    before: StoreState,
    after: StoreState,
    ns: NamespaceRef,
    mutations: Seq<EpochMutation>,
    tags: Seq<TagView>,
    now_ms: u64,
    kappa: Seq<char>,
) -> bool {
    let root = next_epoch(before, ns, tags, mutations, now_ms);
    &&& before.is_listing(ns, Seq::empty(), tags)
    &&& kappa == epoch_kappa(root)
    &&& after == before.ensured(ns).advanced(ns, "_epoch"@).epoch_recorded(ns, root)
}

/// Whether an epoch was recorded.
pub open spec fn epoch_advanced(
    before: StoreState,
    after: StoreState,
    ns: NamespaceRef,
    mutations: Seq<EpochMutation>,
    kappa: Seq<char>,
) -> bool {
    exists|tags: Seq<TagView>, now_ms: u64| #[trigger]
        advanced_at(before, after, ns, mutations, tags, now_ms, kappa)
}

impl InMemoryStore {
    /// The address of a namespace's latest epoch.
    pub fn epoch_current(&self, ns: &NamespaceRef) -> (out: Result<Option<String>, StoreError>)
        requires
            self.wf(),
        ensures
            match out {
                Ok(k) => k.deep_view() == self.state().epoch_current(*ns),
                Err(_) => false,
            },
    {
        if let Some(k) = self.current.get(ns.uuid()) {
            return Ok(Some(k.clone()));
        }
        match self.tag_get(ns, "_epoch/current") {
            Ok(entry) => Ok(Some(entry.kappa)),
            Err(_) => Ok(None),
        }
    }

    /// Records the next epoch of a namespace at a given time; its address. A
    /// namespace whose counters cannot rise is refused.
    pub fn epoch_advance_at(
        &mut self,
        ns: &NamespaceRef,
        mutations: Vec<EpochMutation>,
        now_ms: u64,
    ) -> (out: Result<String, StoreError>)
        requires
            old(self).wf(),
        ensures
            final(self).wf(),
            match out {
                Ok(kappa) => epochs_left(old(self).state(), *ns) && exists|tags: Seq<TagView>|
                    #[trigger] old(self).state().is_listing(*ns, Seq::empty(), tags) && {
                        let root = next_epoch(old(self).state(), *ns, tags, mutations@, now_ms);
                        &&& kappa@ == epoch_kappa(root)
                        &&& final(self).state() == old(self).state().ensured(*ns).advanced(
                            *ns,
                            "_epoch"@,
                        ).epoch_recorded(*ns, root)
                    },
                Err(e) => e is Rejected && !epochs_left(old(self).state(), *ns) && final(
                    self).state() == old(self).state().ensured(*ns),
            },
            adds_addressed(old(self).state(), final(self).state()),
    {
        proof {
            lemma_adds_none(old(self).state(), old(self).state().ensured(*ns));
        }
        self.ensure_namespace(ns);
        let ghost here = self.state();
        let version: u64 = match self.tag_get(ns, "_epoch/current") {
            Ok(entry) => entry.version,
            Err(_) => 0,
        };
        if version == u64::MAX {
            return Err(StoreError::Rejected("epoch tag exhausted".to_owned()));
        }
        let prev_root_kappa = match self.epoch_current(ns) {
            Ok(k) => k,
            Err(_) => None,
        };
        let epoch_number: u64 = match self.sequence_next(ns, "_epoch") {
            Ok(n) => n,
            Err(e) => return Err(e),
        };
        let ghost mid = self.state();
        assert(mid == here.advanced(*ns, "_epoch"@)) by {
            assert(here.ensured(*ns) == here);
        }
        let tags = match self.tag_list(ns) {
            Ok(tags) => tags,
            Err(e) => return Err(e),
        };
        let slice = tags.as_slice();
        proof {
            assert(mid.tags == old(self).state().tags);
            assert(old(self).state().is_listing(*ns, Seq::empty(), tags.deep_view()));
            assert(slice.deep_view() =~= tags.deep_view());
        }
        let root = EpochRoot {
            namespace: ns.as_str(),
            epoch_number,
            prev_root_kappa,
            state_root: state_merkle_root(slice),
            mutations_root: mutations_merkle_root(mutations.as_slice()),
            timestamp_ms: now_ms,
            signer_anchor: String::new(),
        };
        proof {
            assert(root.deep_view().signer_anchor =~= Seq::<char>::empty());
        }
        let ghost want = next_epoch(old(self).state(), *ns, tags.deep_view(), mutations@, now_ms);
        assert(root.deep_view() == want);
        let kappa = root.kappa();
        let blob = root.to_leaf_bytes();
        let _ = self.blob_put(kappa.as_str(), blob.as_slice());
        self.epochs.insert(kappa.clone(), root);
        self.current.insert(*ns.uuid(), kappa.clone());
        let ghost pre = self.state();
        match self.tag_set(ns, "_epoch/current", kappa.as_str()) {
            Ok(_) => {},
            Err(_) => {},
        }
        assert(self.state() =~= mid.epoch_recorded(*ns, want)) by {
            let stored = mid.put_blob(epoch_kappa(want), epoch_bytes(want));
            assert(pre =~= (StoreState {
                epochs: stored.epochs.insert(epoch_kappa(want), want),
                current: stored.current.insert(ns.id(), epoch_kappa(want)),
                ..stored
            }));
        }
        proof {
            let first = old(self).state();
            lemma_adds_one(first, epoch_kappa(want), epoch_bytes(want));
            lemma_adds_same(
                first,
                first.put_blob(epoch_kappa(want), epoch_bytes(want)),
                first,
                self.state(),
            );
        }
        Ok(kappa)
    }

    /// Records the next epoch of a namespace; its address.
    pub fn epoch_advance(&mut self, ns: &NamespaceRef, mutations: Vec<EpochMutation>) -> (out: Result<
        String,
        StoreError,
    >)
        requires
            old(self).wf(),
        ensures
            final(self).wf(),
            match out {
                Ok(kappa) => epochs_left(old(self).state(), *ns) && epoch_advanced(
                    old(self).state(),
                    final(self).state(),
                    *ns,
                    mutations@,
                    kappa@,
                ),
                Err(e) => e is Rejected && !epochs_left(old(self).state(), *ns) && final(
                    self).state() == old(self).state().ensured(*ns),
            },
            adds_addressed(old(self).state(), final(self).state()),
    {
        let now_ms: u64 = crate::types::unix_millis();
        let ghost list = mutations@;
        let ghost first = self.state();
        let out = self.epoch_advance_at(ns, mutations, now_ms);
        proof {
            if out is Ok {
                let tags = choose|tags: Seq<TagView>| #[trigger]
                    first.is_listing(*ns, Seq::empty(), tags) && {
                        let root = next_epoch(first, *ns, tags, list, now_ms);
                        &&& out->Ok_0@ == epoch_kappa(root)
                        &&& self.state() == first.ensured(*ns).advanced(
                            *ns,
                            "_epoch"@,
                        ).epoch_recorded(*ns, root)
                    };
                assert(advanced_at(first, self.state(), *ns, list, tags, now_ms, out->Ok_0@));
            }
        }
        out
    }

    /// The epoch root at an address.
    pub fn epoch_get(&self, kappa: &str) -> (out: Result<EpochRoot, StoreError>)
        requires
            self.wf(),
        ensures
            match out {
                Ok(root) => self.state().epochs.dom().contains(kappa@) && root.deep_view()
                    == self.state().epochs[kappa@],
                Err(StoreError::NotFound(k)) => !self.state().epochs.dom().contains(kappa@) && k@
                    == kappa@,
                Err(_) => false,
            },
    {
        match self.epochs.get(&kappa.to_owned()) {
            Some(root) => Ok(root.copied()),
            None => Err(StoreError::NotFound(kappa.to_owned())),
        }
    }
}

/// A recorded epoch is the namespace's current one, can be read back, and the
/// epoch after it names it as its predecessor.
pub proof fn law_epoch_chain(
    st: StoreState,
    ns: NamespaceRef,
    root: EpochView,
    tags: Seq<TagView>,
    mutations: Seq<EpochMutation>,
    now_ms: u64,
)
    ensures
        ({
            let after = st.ensured(ns).advanced(ns, "_epoch"@).epoch_recorded(ns, root);
            &&& after.epoch_current(ns) == Some(epoch_kappa(root))
            &&& after.epochs.dom().contains(epoch_kappa(root))
            &&& after.epochs[epoch_kappa(root)] == root
            &&& next_epoch(after, ns, tags, mutations, now_ms).prev_root_kappa == Some(
                epoch_kappa(root),
            )
            &&& st.sequence(ns, "_epoch"@) < u64::MAX - 1 ==> next_epoch(
                after,
                ns,
                tags,
                mutations,
                now_ms,
            ).epoch_number == st.sequence(ns, "_epoch"@) + 2
        }),
{
}

/// An epoch is the namespace's latest from then on: it names the one before it, has
/// the next number, the root over the tags as they were and the root over the
/// changes; its bytes are stored at its address where nothing was, and the tag
/// `_epoch/current` leads to it.
pub proof fn law_epoch_recorded(
    before: StoreState,
    after: StoreState,
    ns: NamespaceRef,
    mutations: Seq<EpochMutation>,
    tags: Seq<TagView>,
    now_ms: u64,
    kappa: Seq<char>,
)
    requires
        advanced_at(before, after, ns, mutations, tags, now_ms, kappa),
        before.sequence(ns, "_epoch"@) < u64::MAX,
    ensures
        after.current.dom().contains(ns.id()) && after.current[ns.id()] == kappa,
        after.epochs.dom().contains(kappa),
        ({
            let e = after.epochs[kappa];
            let k = StoreState::filed(ns, "_epoch/current"@);
            &&& e.namespace == ns.shown()
            &&& e.epoch_number == before.sequence(ns, "_epoch"@) + 1
            &&& e.prev_root_kappa == before.epoch_current(ns)
            &&& e.state_root == state_root_of(tags)
            &&& e.mutations_root == mutations_root_of(mutations)
            &&& e.timestamp_ms == now_ms
            &&& kappa == crate::kappa::kappa_of(crate::epoch::epoch_bytes(e))
            &&& after.blobs.dom().contains(kappa)
            &&& !before.blobs.dom().contains(kappa) ==> after.blobs[kappa]
                == crate::epoch::epoch_bytes(e)
            &&& after.tags.dom().contains(k) && after.tags[k].kappa == kappa
            &&& after.sequence(ns, "_epoch"@) == before.sequence(ns, "_epoch"@) + 1
        }),
{
}

} // verus!
