//! Tags and counters of the in-memory store.

use vstd::prelude::*;

use crate::store::memory::InMemoryStore;
use crate::store::state::{tag_names, StoreState};
use crate::table::{ScopedKey, TableKey};
use crate::text::{decimal_text, joined, joined3, less_text, text_begins_with, text_below};
use crate::types::{
    item_hash, name_hash, NamespaceRef, StoreError, TagEntry, TagUpdate, TagView, UpdateView,
};

verus! {

/// Adds a tag to a list with ascending names that does not hold its name.
fn insert_tag(list: &mut Vec<TagEntry>, tag: TagEntry)
    requires
        crate::sorted::ascending(tag_names(old(list).deep_view())),
        forall|i: int|
            0 <= i < old(list)@.len() ==> (#[trigger] old(list).deep_view()[i]).name != tag.name@,
    ensures
        crate::sorted::ascending(tag_names(final(list).deep_view())),
        forall|t: TagView|
            #[trigger] final(list).deep_view().contains(t) <==> (old(list).deep_view().contains(t)
                || t == tag.deep_view()),
{
    let ghost before = list.deep_view();
    let ghost names = tag_names(before);
    let ghost added = tag.deep_view();
    let mut at: usize = 0;
    while at < list.len() && less_text(list[at].name.as_str(), tag.name.as_str())
        invariant
            at <= list@.len(),
            before == list.deep_view(),
            forall|i: int| 0 <= i < at ==> text_below((#[trigger] before[i]).name, tag.name@),
        decreases list@.len() - at,
    {
        at += 1;
    }
    list.insert(at, tag);
    proof {
        let after = list.deep_view();
        assert(after =~= before.insert(at as int, added));
        let after_names = tag_names(after);
        if at < before.len() {
            assert(before[at as int].name != added.name);
            crate::text::lemma_text_below_total(added.name, before[at as int].name);
        }
        assert forall|i: int, j: int| 0 <= i < j < after_names.len() implies text_below(
            #[trigger] after_names[i],
            #[trigger] after_names[j],
        ) by {
            if i == at {
                assert(after_names[j] == names[j - 1]);
                if j - 1 > at {
                    assert(text_below(names[at as int], names[j - 1]));
                    crate::text::lemma_text_below_transitive(
                        added.name,
                        names[at as int],
                        names[j - 1],
                    );
                }
            } else if j == at {
                assert(after_names[i] == before[i].name);
            } else {
                let x = if i < at { i } else { i - 1 };
                let y = if j < at { j } else { j - 1 };
                assert(after_names[i] == names[x]);
                assert(after_names[j] == names[y]);
            }
        }
        assert forall|t: TagView| #[trigger] after.contains(t) <==> (before.contains(t) || t
            == added) by {
            if before.contains(t) {
                let k = choose|k: int| 0 <= k < before.len() && before[k] == t;
                assert(after[if k < at { k } else { k + 1 }] == t);
            }
            if t == added {
                assert(after[at as int] == t);
            }
            if after.contains(t) {
                let k = choose|k: int| 0 <= k < after.len() && after[k] == t;
                if k < at {
                    assert(before[k] == t);
                } else if k > at {
                    assert(before[k - 1] == t);
                }
            }
        }
    }
}

/// A binding changes the version of its own name only, by one.
proof fn lemma_bound_version(
    st: StoreState,
    ns: NamespaceRef,
    name: Seq<char>,
    kappa: Seq<char>,
    other: Seq<char>,
)
    requires
        st.tag_version(ns, name) < u64::MAX,
    ensures
        st.bound(ns, name, kappa).tag_version(ns, other) <= st.tag_version(ns, other) + 1,
{
}

/// Binding a batch raises no version by more than the size of the batch.
proof fn lemma_all_bound_version(
    st: StoreState,
    ns: NamespaceRef,
    updates: Seq<UpdateView>,
    n: nat,
    other: Seq<char>,
)
    requires
        n <= updates.len(),
        st.room_for_all(ns, updates),
    ensures
        st.all_bound(ns, updates.take(n as int)).tag_version(ns, other) <= st.tag_version(ns, other)
            + n,
    decreases n,
{
    if n > 0 {
        let m = (n - 1) as nat;
        let last = updates[m as int];
        lemma_all_bound_version(st, ns, updates, m, other);
        lemma_all_bound_version(st, ns, updates, m, last.name);
        assert(updates.take(n as int).drop_last() =~= updates.take(m as int));
        let mid = st.all_bound(ns, updates.take(m as int));
        assert(st.tag_version(ns, updates[m as int].name) + updates.len() <= u64::MAX);
        lemma_bound_version(mid, ns, last.name, last.kappa, other);
    }
}

impl InMemoryStore {
    fn tag_key(ns: &NamespaceRef, name: &str) -> (out: ScopedKey)
        ensures
            out.key() == StoreState::filed(*ns, name@),
    {
        ScopedKey { scope: *ns.uuid(), item: item_hash(name) }
    }

    /// Binds a name whose version can still rise.
    fn bind(&mut self, ns: &NamespaceRef, name: &str, kappa: &str) -> (version: u64)
        requires
            old(self).wf(),
            old(self).state().tag_version(*ns, name@) < u64::MAX,
        ensures
            final(self).wf(),
            final(self).state() == old(self).state().bound(*ns, name@, kappa@),
            version == old(self).state().tag_version(*ns, name@) + 1,
    {
        let ghost before = self.state();
        let key = Self::tag_key(ns, name);
        let version: u64 = match self.tags.get(&key) {
            Some(e) => e.version + 1,
            None => 1,
        };
        self.tags.insert(
            key,
            TagEntry { name: name.to_owned(), kappa: kappa.to_owned(), version },
        );
        proof {
            assert(self.state() =~= before.bound(*ns, name@, kappa@));
        }
        version
    }

    fn current_version(&self, ns: &NamespaceRef, name: &str) -> (version: u64)
        requires
            self.wf(),
        ensures
            version == self.state().tag_version(*ns, name@),
    {
        match self.tags.get(&Self::tag_key(ns, name)) {
            Some(e) => e.version,
            None => 0,
        }
    }

    /// Binds a name to an address; its new version. A name that was bound as
    /// often as can be counted is refused.
    pub fn tag_set(&mut self, ns: &NamespaceRef, name: &str, kappa: &str) -> (out: Result<
        u64,
        StoreError,
    >)
        requires
            old(self).wf(),
        ensures
            final(self).wf(),
            match out {
                Ok(version) => old(self).state().tag_version(*ns, name@) < u64::MAX && version
                    == old(self).state().tag_version(*ns, name@) + 1 && final(self).state() == old(self).state().tag_set(*ns, name@, kappa@),
                Err(e) => e is Rejected && old(self).state().tag_version(*ns, name@) == u64::MAX
                    && final(self).state() == old(self).state().ensured(*ns),
            },
    {
        self.ensure_namespace(ns);
        if self.current_version(ns, name) == u64::MAX {
            return Err(StoreError::Rejected(joined("tag version exhausted: ", name)));
        }
        Ok(self.bind(ns, name, kappa))
    }

    /// What a name is bound to.
    pub fn tag_get(&self, ns: &NamespaceRef, name: &str) -> (out: Result<TagEntry, StoreError>)
        requires
            self.wf(),
        ensures
            ({
                let k = StoreState::filed(*ns, name@);
                match out {
                    Ok(e) => self.state().tags.dom().contains(k) && e.deep_view()
                        == self.state().tags[k],
                    Err(StoreError::NotFound(m)) => !self.state().tags.dom().contains(k) && m@
                        == ns.shown() + "/"@ + name@,
                    Err(_) => false,
                }
            }),
    {
        match self.tags.get(&Self::tag_key(ns, name)) {
            Some(e) => Ok(e.copied()),
            None => {
                let shown = ns.as_str();
                Err(StoreError::NotFound(joined3(shown.as_str(), "/", name)))
            },
        }
    }

    /// Unbinds a name.
    pub fn tag_delete(&mut self, ns: &NamespaceRef, name: &str) -> (out: Result<(), StoreError>)
        requires
            old(self).wf(),
        ensures
            final(self).wf(),
            final(self).state() == old(self).state().unbound(*ns, name@),
            out is Ok,
    {
        let ghost before = self.state();
        self.tags.remove(&Self::tag_key(ns, name));
        assert(self.state() =~= before.unbound(*ns, name@));
        Ok(())
    }

    /// The tags of a namespace whose names begin with a prefix, in ascending
    /// order.
    pub fn tag_prefix(&self, ns: &NamespaceRef, prefix: &str) -> (out: Result<
        Vec<TagEntry>,
        StoreError,
    >)
        requires
            self.wf(),
        ensures
            match out {
                Ok(list) => self.state().is_listing(*ns, prefix@, list.deep_view()),
                Err(_) => false,
            },
    {
        let mut list: Vec<TagEntry> = Vec::new();
        let mut i: usize = 0;
        assert(list.deep_view() =~= Seq::<TagView>::empty());
        while i < self.tags.rows.len()
            invariant
                self.wf(),
                i <= self.tags.rows@.len(),
                crate::sorted::ascending(tag_names(list.deep_view())),
                forall|t: TagView| #[trigger]
                    list.deep_view().contains(t) <==> exists|j: int|
                        0 <= j < i && #[trigger] self.listed_row(ns, prefix@, j, t),
            decreases self.tags.rows@.len() - i,
        {
            let row = &self.tags.rows[i];
            let ghost had = list.deep_view();
            let ghost seen = row.1.deep_view();
            proof {
                self.tags.lemma_row(i as int);
                assert forall|j: int| 0 <= j < had.len() implies (#[trigger] had[j]).name != seen.name
                    || row.0.key().0 != ns.id() by {
                    assert(had.contains(had[j]));
                    let r = choose|r: int| 0 <= r < i && #[trigger] self.listed_row(
                        ns,
                        prefix@,
                        r,
                        had[j],
                    );
                    self.tags.lemma_row(r);
                    assert(self.state().tags.dom().contains(self.tags.rows@[r].0.key()));
                    assert(self.state().tags.dom().contains(self.tags.rows@[i as int].0.key()));
                    if had[j].name == seen.name && row.0.key().0 == ns.id() {
                        assert(self.tags.rows@[r].0.key() == self.tags.rows@[i as int].0.key());
                    }
                }
            }
            let wanted = crate::bytes::same_bytes(row.0.scope.as_slice(), ns.uuid().as_slice())
                && text_begins_with(row.1.name.as_str(), prefix);
            if wanted {
                insert_tag(&mut list, row.1.copied());
            }
            proof {
                assert forall|t: TagView| #[trigger]
                    list.deep_view().contains(t) <==> exists|j: int|
                        0 <= j < i + 1 && #[trigger] self.listed_row(ns, prefix@, j, t) by {
                    if had.contains(t) {
                        let j = choose|j: int|
                            0 <= j < i && #[trigger] self.listed_row(ns, prefix@, j, t);
                        assert(self.listed_row(ns, prefix@, j, t));
                    }
                    if wanted && t == seen {
                        assert(self.listed_row(ns, prefix@, i as int, t));
                    }
                }
            }
            i += 1;
        }
        proof {
            let views = list.deep_view();
            assert forall|j: int| 0 <= j < views.len() implies {
                let k = StoreState::filed(*ns, (#[trigger] views[j]).name);
                self.state().tags.dom().contains(k) && self.state().tags[k] == views[j]
                    && prefix@.is_prefix_of(views[j].name)
            } by {
                assert(views.contains(views[j]));
                let r = choose|r: int| 0 <= r < i && #[trigger] self.listed_row(
                    ns,
                    prefix@,
                    r,
                    views[j],
                );
                self.tags.lemma_row(r);
                assert(self.state().tags.dom().contains(self.tags.rows@[r].0.key()));
            }
            assert forall|h: u64| #[trigger] self.state().tags.dom().contains((ns.id(), h))
                && prefix@.is_prefix_of(self.state().tags[(ns.id(), h)].name) implies views.contains(
                self.state().tags[(ns.id(), h)],
            ) by {
                let k = (ns.id(), h);
                assert(self.tags.has(k));
                let r = self.tags.row_of(k);
                assert(self.tags.rows@[r].0.key() == k);
                self.tags.lemma_row(r);
                assert(self.listed_row(ns, prefix@, r, self.state().tags[k]));
            }
        }
        Ok(list)
    }

    /// Whether row `j` is in the namespace, begins with the prefix and holds `t`.
    spec fn listed_row(&self, ns: &NamespaceRef, prefix: Seq<char>, j: int, t: TagView) -> bool {
        &&& self.tags.rows@[j].0.key().0 == ns.id()
        &&& self.tags.rows@[j].1.deep_view() == t
        &&& prefix.is_prefix_of(t.name)
    }

    /// The tags of a namespace, in ascending order of their names.
    pub fn tag_list(&self, ns: &NamespaceRef) -> (out: Result<Vec<TagEntry>, StoreError>)
        requires
            self.wf(),
        ensures
            match out {
                Ok(list) => self.state().is_listing(*ns, Seq::empty(), list.deep_view()),
                Err(_) => false,
            },
    {
        let none = String::new();
        assert(none@ =~= Seq::<char>::empty());
        self.tag_prefix(ns, none.as_str())
    }

    /// Binds several names, or none where an expected version is not the
    /// current one.
    pub fn tag_set_batch(&mut self, ns: &NamespaceRef, updates: &[TagUpdate]) -> (out: Result<
        (),
        StoreError,
    >)
        requires
            old(self).wf(),
        ensures
            final(self).wf(),
            match out {
                Ok(_) => old(self).state().expected(*ns, updates.deep_view())
                    && old(self).state().room_for_all(*ns, updates.deep_view())
                    && final(self).state() == old(self).state().ensured(*ns).all_bound(
                    *ns,
                    updates.deep_view(),
                ),
                Err(StoreError::Conflict(m)) => !old(self).state().expected(
                    *ns,
                    updates.deep_view(),
                ) && m@ == old(self).state().conflict_text(*ns, updates.deep_view())
                    && final(self).state() == old(self).state().ensured(*ns),
                Err(StoreError::Rejected(m)) => old(self).state().expected(*ns, updates.deep_view())
                    && !old(self).state().room_for_all(*ns, updates.deep_view()) && m@
                    == "tag version exhausted"@ && final(self).state() == old(self).state().ensured(
                    *ns,
                ),
                Err(_) => false,
            },
    {
        let ghost first = self.state();
        let ghost all = updates.deep_view();
        assert(all.skip(0) =~= all);
        self.ensure_namespace(ns);
        let ghost here = self.state();
        let mut i: usize = 0;
        while i < updates.len()
            invariant
                self.wf(),
                first == old(self).state(),
                here == first.ensured(*ns),
                self.state() == here,
                here.tags == first.tags,
                i <= updates@.len(),
                all == updates.deep_view(),
                all.len() == updates@.len(),
                first.conflict_text(*ns, all) == first.conflict_text(*ns, all.skip(i as int)),
                forall|j: int|
                    0 <= j < i ==> ((#[trigger] all[j]).expected_version matches Some(v) ==> v
                        == here.tag_version(*ns, all[j].name)),
            decreases updates@.len() - i,
        {
            proof {
                assert(all.skip(i as int)[0] == updates@[i as int].deep_view());
                assert(all.skip(i as int).skip(1) =~= all.skip(i + 1));
            }
            if let Some(v) = updates[i].expected_version {
                let now: u64 = self.current_version(ns, updates[i].name.as_str());
                if v != now {
                    let name = joined3("tag ", updates[i].name.as_str(), ": expected version ");
                    let want = joined3(
                        name.as_str(),
                        decimal_text(v).as_str(),
                        " but current is ",
                    );
                    let text = joined(want.as_str(), decimal_text(now).as_str());
                    assert(all[i as int].expected_version == Some(v));
                    assert(!first.expected(*ns, all));
                    return Err(StoreError::Conflict(text));
                }
            }
            i += 1;
        }
        assert(first.expected(*ns, all));
        let count: u64 = updates.len() as u64;
        let mut i: usize = 0;
        while i < updates.len()
            invariant
                self.wf(),
                first == old(self).state(),
                here == first.ensured(*ns),
                self.state() == here,
                here.tags == first.tags,
                i <= updates@.len(),
                all == updates.deep_view(),
                all.len() == updates@.len(),
                count == updates@.len(),
                first.expected(*ns, all),
                forall|j: int|
                    0 <= j < i ==> here.tag_version(*ns, (#[trigger] all[j]).name) + count
                        <= u64::MAX,
            decreases updates@.len() - i,
        {
            if self.current_version(ns, updates[i].name.as_str()) > u64::MAX - count {
                assert(all[i as int].name == updates@[i as int].name@);
                assert(!first.room_for_all(*ns, all));
                return Err(StoreError::Rejected("tag version exhausted".to_owned()));
            }
            i += 1;
        }
        assert(first.room_for_all(*ns, all));
        assert(here.room_for_all(*ns, all));
        let mut i: usize = 0;
        assert(all.take(0) =~= Seq::<UpdateView>::empty());
        while i < updates.len()
            invariant
                self.wf(),
                i <= updates@.len(),
                all == updates.deep_view(),
                all.len() == updates@.len(),
                here.room_for_all(*ns, all),
                self.state() == here.all_bound(*ns, all.take(i as int)),
            decreases updates@.len() - i,
        {
            proof {
                lemma_all_bound_version(here, *ns, all, i as nat, all[i as int].name);
                assert(here.tag_version(*ns, all[i as int].name) + all.len() <= u64::MAX);
                assert(all.take(i + 1).drop_last() =~= all.take(i as int));
                assert(all.take(i + 1).last() == all[i as int]);
            }
            self.bind(ns, updates[i].name.as_str(), updates[i].kappa.as_str());
            i += 1;
        }
        assert(all.take(i as int) =~= all);
        Ok(())
    }

    // -- Counters -----------------------------------------------------------------

    /// Advances a counter; its new value. A counter that cannot rise is refused.
    pub fn sequence_next(&mut self, ns: &NamespaceRef, name: &str) -> (out: Result<u64, StoreError>)
        requires
            old(self).wf(),
        ensures
            final(self).wf(),
            match out {
                Ok(v) => old(self).state().sequence(*ns, name@) < u64::MAX && v == old(self).state().sequence(*ns, name@) + 1 && final(self).state() == old(self).state().ensured(*ns).advanced(*ns, name@),
                Err(e) => e is Rejected && old(self).state().sequence(*ns, name@) == u64::MAX
                    && final(self).state() == old(self).state().ensured(*ns),
            },
    {
        self.ensure_namespace(ns);
        let ghost before = self.state();
        let key = Self::tag_key(ns, name);
        let now: u64 = match self.sequences.get(&key) {
            Some(v) => *v,
            None => 0,
        };
        if now == u64::MAX {
            return Err(StoreError::Rejected(joined("sequence exhausted: ", name)));
        }
        self.sequences.insert(key, now + 1);
        assert(self.state() =~= before.advanced(*ns, name@));
        Ok(now + 1)
    }

    /// Current value of a counter.
    pub fn sequence_current(&self, ns: &NamespaceRef, name: &str) -> (out: Result<u64, StoreError>)
        requires
            self.wf(),
        ensures
            out == Ok::<u64, StoreError>(self.state().sequence(*ns, name@)),
    {
        match self.sequences.get(&Self::tag_key(ns, name)) {
            Some(v) => Ok(*v),
            None => Ok(0),
        }
    }
}

// -- Laws -----------------------------------------------------------------------

/// A name that was bound is bound to that address, one version up.
pub proof fn law_tag_set_get(st: StoreState, ns: NamespaceRef, name: Seq<char>, kappa: Seq<char>)
    requires
        st.tag_version(ns, name) < u64::MAX,
    ensures
        ({
            let after = st.tag_set(ns, name, kappa);
            let k = StoreState::filed(ns, name);
            &&& after.tags.dom().contains(k)
            &&& after.tags[k].name == name
            &&& after.tags[k].kappa == kappa
            &&& after.tags[k].version == st.tag_version(ns, name) + 1
        }),
{
}

/// Binding one name leaves a name filed elsewhere as it was.
pub proof fn law_tag_set_frames(
    st: StoreState,
    ns: NamespaceRef,
    name: Seq<char>,
    kappa: Seq<char>,
    other_ns: NamespaceRef,
    other: Seq<char>,
)
    requires
        StoreState::filed(ns, name) != StoreState::filed(other_ns, other),
    ensures
        ({
            let after = st.tag_set(ns, name, kappa);
            let k = StoreState::filed(other_ns, other);
            &&& after.tags.dom().contains(k) == st.tags.dom().contains(k)
            &&& st.tags.dom().contains(k) ==> after.tags[k] == st.tags[k]
        }),
{
}

/// A name that was unbound is not bound, and its next version is one.
pub proof fn law_tag_delete(st: StoreState, ns: NamespaceRef, name: Seq<char>)
    ensures
        !st.unbound(ns, name).tags.dom().contains(StoreState::filed(ns, name)),
        st.unbound(ns, name).tag_version(ns, name) == 0,
{
}

/// A namespace's tags have one listing only.
pub proof fn law_listing_unique(
    st: StoreState,
    ns: NamespaceRef,
    prefix: Seq<char>,
    a: Seq<TagView>,
    b: Seq<TagView>,
)
    requires
        st.wf(),
        st.is_listing(ns, prefix, a),
        st.is_listing(ns, prefix, b),
    ensures
        a == b,
{
    let x = tag_names(a);
    let y = tag_names(b);
    assert forall|n: Seq<char>| #[trigger] x.contains(n) <==> y.contains(n) by {
        if x.contains(n) {
            let i = choose|i: int| 0 <= i < x.len() && x[i] == n;
            lemma_listed_elsewhere(st, ns, prefix, a, b, i);
        }
        if y.contains(n) {
            let i = choose|i: int| 0 <= i < y.len() && y[i] == n;
            lemma_listed_elsewhere(st, ns, prefix, b, a, i);
        }
    }
    crate::sorted::lemma_ascending_unique(x, y);
    assert forall|i: int| 0 <= i < a.len() implies a[i] == b[i] by {
        assert(x[i] == y[i]);
    }
    assert(a.len() == x.len() && b.len() == y.len());
    assert(a =~= b);
}

proof fn lemma_listed_elsewhere(
    st: StoreState,
    ns: NamespaceRef,
    prefix: Seq<char>,
    a: Seq<TagView>,
    b: Seq<TagView>,
    i: int,
)
    requires
        st.is_listing(ns, prefix, a),
        st.is_listing(ns, prefix, b),
        0 <= i < a.len(),
    ensures
        tag_names(b).contains(a[i].name),
{
    let k = StoreState::filed(ns, a[i].name);
    assert(st.tags.dom().contains((ns.id(), k.1)));
    let j = choose|j: int| 0 <= j < b.len() && b[j] == a[i];
    assert(tag_names(b)[j] == a[i].name);
}

/// A counter's value rises by one each time it is advanced, and no other
/// counter moves.
pub proof fn law_sequence_advances(
    st: StoreState,
    ns: NamespaceRef,
    name: Seq<char>,
    other_ns: NamespaceRef,
    other: Seq<char>,
)
    requires
        st.sequence(ns, name) < u64::MAX,
    ensures
        st.ensured(ns).advanced(ns, name).sequence(ns, name) == st.sequence(ns, name) + 1,
        StoreState::filed(ns, name) != StoreState::filed(other_ns, other) ==> st.ensured(
            ns,
        ).advanced(ns, name).sequence(other_ns, other) == st.sequence(other_ns, other),
{
}

/// Binding names together leaves every name alone that shares no file with them.
pub proof fn law_batch_frames(st: StoreState, ns: NamespaceRef, list: Seq<UpdateView>, name: Seq<char>)
    requires
        forall|j: int| 0 <= j < list.len() ==> name_hash((#[trigger] list[j]).name) != name_hash(name),
    ensures
        ({
            let k = StoreState::filed(ns, name);
            let after = st.all_bound(ns, list);
            after.tags.dom().contains(k) == st.tags.dom().contains(k) && after.tags[k] == st.tags[k]
        }),
    decreases list.len(),
{
    if list.len() > 0 {
        let front = list.drop_last();
        assert forall|j: int| 0 <= j < front.len() implies name_hash((#[trigger] front[j]).name)
            != name_hash(name) by {
            assert(front[j] == list[j]);
        }
        law_batch_frames(st, ns, front, name);
        assert(name_hash(list[list.len() - 1].name) != name_hash(name));
    }
}

/// Binding names together binds each that is filed by itself to its address, one
/// version on.
pub proof fn law_batch_binds(st: StoreState, ns: NamespaceRef, list: Seq<UpdateView>, m: int)
    requires
        0 <= m < list.len(),
        forall|j: int|
            0 <= j < list.len() && j != m ==> name_hash((#[trigger] list[j]).name) != name_hash(
                list[m].name,
            ),
    ensures
        ({
            let k = StoreState::filed(ns, list[m].name);
            let after = st.all_bound(ns, list);
            &&& after.tags.dom().contains(k)
            &&& after.tags[k].name == list[m].name
            &&& after.tags[k].kappa == list[m].kappa
            &&& after.tags[k].version == (st.tag_version(ns, list[m].name) + 1) as u64
        }),
    decreases list.len(),
{
    let front = list.drop_last();
    let name = list[m].name;
    if m == list.len() - 1 {
        assert forall|j: int| 0 <= j < front.len() implies name_hash((#[trigger] front[j]).name)
            != name_hash(name) by {
            assert(front[j] == list[j]);
        }
        law_batch_frames(st, ns, front, name);
    } else {
        assert forall|j: int| 0 <= j < front.len() && j != m implies name_hash(
            (#[trigger] front[j]).name,
        ) != name_hash(front[m].name) by {
            assert(front[j] == list[j]);
        }
        law_batch_binds(st, ns, front, m);
        assert(name_hash(list[list.len() - 1].name) != name_hash(name));
    }
}

/// A batch is as it expects where no update names a version other than the one its
/// name has: zero for a name that is not bound.
pub proof fn law_batch_expected(st: StoreState, ns: NamespaceRef, list: Seq<UpdateView>, i: int, v: u64)
    requires
        0 <= i < list.len(),
        list[i].expected_version == Some(v),
    ensures
        ({
            let k = StoreState::filed(ns, list[i].name);
            &&& st.tags.dom().contains(k) && st.tags[k].version != v ==> !st.expected(ns, list)
            &&& !st.tags.dom().contains(k) && v != 0 ==> !st.expected(ns, list)
        }),
{
}

} // verus!
