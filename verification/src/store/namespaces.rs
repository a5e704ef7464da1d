//! Namespaces: who owns them, and the names they are known by.

use vstd::prelude::*;

use crate::hexadecimal::{hex_encode, hex_of};
use crate::store::identity::succession_of;
use crate::store::memory::{InMemoryStore, NamespaceRecord};
use crate::store::state::{RecordView, StoreState};
use crate::table::{lemma_deep_bytes, lemma_deep_sixteen, TableKey};
use crate::text::{holds_text, joined, joined3, less_text, same_text, text_below};
use crate::types::{unix_millis, NamespaceRef, StoreError};

verus! {

broadcast use {lemma_deep_bytes, lemma_deep_sixteen};

/// The text of an optional slice.
pub open spec fn shown_str(s: Option<&str>) -> Option<Seq<char>> {
    match s {
        Some(t) => Some(t@),
        None => None,
    }
}

/// What a name is filed under: itself, or itself behind its protocol.
pub open spec fn alias_text(name: Seq<char>, protocol: Option<Seq<char>>) -> Seq<char> {
    match protocol {
        Some(p) => p + ":"@ + name,
        None => name,
    }
}

fn alias_key(name: &str, protocol: Option<&str>) -> (out: String)
    ensures
        out@ == alias_text(name@, shown_str(protocol)),
{
    match protocol {
        Some(p) => joined3(p, ":", name),
        None => name.to_owned(),
    }
}

/// A list without a text, wherever it stands.
pub open spec fn names_without(list: Seq<Seq<char>>, name: Seq<char>) -> Seq<Seq<char>> {
    crate::store::state::without(list, name)
}

/// The first name of a record.
pub open spec fn first_alias(r: RecordView) -> Option<Seq<char>> {
    if r.aliases.len() > 0 {
        Some(r.aliases[0])
    } else {
        None
    }
}

/// Whether a record is listed before another: by its first name, those without
/// one before all.
pub open spec fn listed_before(a: RecordView, b: RecordView) -> bool {
    match (first_alias(a), first_alias(b)) {
        (None, Some(_)) => true,
        (Some(x), Some(y)) => text_below(x, y),
        _ => false,
    }
}

/// Whether a record is of a protocol, or of any where none is asked for.
pub open spec fn of_protocol(r: RecordView, protocol: Option<Seq<char>>) -> bool {
    match protocol {
        Some(p) => r.protocol == Some(p),
        None => true,
    }
}

/// Whether a list holds the records of a protocol, each once, in the order of
/// their first names; `ids` are the namespaces they are of.
pub open spec fn is_namespace_list(
    st: StoreState,
    protocol: Option<Seq<char>>,
    ids: Seq<Seq<u8>>,
    list: Seq<RecordView>,
) -> bool {
    &&& ids.len() == list.len()
    &&& ids.no_duplicates()
    &&& forall|i: int|
        0 <= i < ids.len() ==> st.records.dom().contains(#[trigger] ids[i]) && list[i]
            == st.records[ids[i]] && of_protocol(list[i], protocol)
    &&& forall|id: Seq<u8>| #[trigger]
        st.records.dom().contains(id) && of_protocol(st.records[id], protocol) ==> ids.contains(id)
    &&& forall|i: int, j: int|
        0 <= i < j < list.len() ==> !listed_before(#[trigger] list[j], #[trigger] list[i])
}

/// Whether a list holds the records of a protocol, each once, in the order of
/// their first names.
pub open spec fn namespace_listed(
    st: StoreState,
    protocol: Option<Seq<char>>,
    list: Seq<RecordView>,
) -> bool {
    exists|ids: Seq<Seq<u8>>| is_namespace_list(st, protocol, ids, list)
}

impl StoreState {
    /// A namespace created under a name.
    pub open spec fn namespace_created(
        self,
        id: Seq<u8>,
        name: Seq<char>,
        owner: Seq<char>,
        protocol: Option<Seq<char>>,
        now_ms: u64,
    ) -> StoreState {
        StoreState {
            aliases: self.aliases.insert(alias_text(name, protocol), id),
            records: self.records.insert(
                id,
                RecordView {
                    uuid_hex: hex_of(id),
                    owner,
                    created_at_ms: now_ms,
                    protocol,
                    aliases: seq![name],
                    tombstoned: false,
                },
            ),
            ..self
        }
    }

    /// What renaming a namespace comes to.
    pub open spec fn namespace_renamed(
        self,
        old_name: Seq<char>,
        new_name: Seq<char>,
        protocol: Option<Seq<char>>,
    ) -> StoreState {
        let old_key = alias_text(old_name, protocol);
        let new_key = alias_text(new_name, protocol);
        let id = self.aliases[old_key];
        StoreState {
            aliases: self.aliases.remove(old_key).insert(new_key, id),
            records: if self.records.dom().contains(id) {
                let r = self.records[id];
                self.records.insert(
                    id,
                    RecordView {
                        aliases: names_without(r.aliases, old_name).push(new_name),
                        ..r
                    },
                )
            } else {
                self.records
            },
            ..self
        }
    }

    /// A namespace with one more name.
    pub open spec fn alias_added(self, id: Seq<u8>, alias: Seq<char>, protocol: Option<Seq<char>>) -> StoreState {
        let r = self.records[id];
        StoreState {
            aliases: self.aliases.insert(alias_text(alias, protocol), id),
            records: self.records.insert(
                id,
                RecordView {
                    aliases: if r.aliases.contains(alias) {
                        r.aliases
                    } else {
                        r.aliases.push(alias)
                    },
                    ..r
                },
            ),
            ..self
        }
    }

    /// A namespace with another owner.
    pub open spec fn transferred(self, id: Seq<u8>, new_owner: Seq<char>) -> StoreState {
        StoreState {
            records: self.records.insert(
                id,
                RecordView { owner: new_owner, ..self.records[id] },
            ),
            ..self
        }
    }

    /// Names taken out of use, plain and behind a protocol.
    pub open spec fn names_dropped(
        aliases: Map<Seq<char>, Seq<u8>>,
        names: Seq<Seq<char>>,
        protocol: Option<Seq<char>>,
    ) -> Map<Seq<char>, Seq<u8>>
        decreases names.len(),
    {
        if names.len() == 0 {
            aliases
        } else {
            let before = Self::names_dropped(aliases, names.drop_last(), protocol);
            let plain = before.remove(names.last());
            match protocol {
                Some(_) => plain.remove(alias_text(names.last(), protocol)),
                None => plain,
            }
        }
    }

    /// A namespace taken out of use.
    pub open spec fn namespace_deleted(self, id: Seq<u8>) -> StoreState {
        let r = self.records[id];
        StoreState {
            aliases: Self::names_dropped(self.aliases, r.aliases, r.protocol),
            records: self.records.insert(id, RecordView { tombstoned: true, ..r }),
            ..self
        }
    }
}

impl NamespaceRecord {
    /// A copy.
    pub fn copied(&self) -> (out: Self)
        ensures
            out.deep_view() == self.deep_view(),
    {
        let protocol = match &self.protocol {
            Some(p) => Some(p.clone()),
            None => None,
        };
        let aliases = copy_texts(&self.aliases);
        NamespaceRecord {
            uuid_hex: self.uuid_hex.clone(),
            owner: self.owner.clone(),
            created_at_ms: self.created_at_ms,
            protocol,
            aliases,
            tombstoned: self.tombstoned,
        }
    }
}

/// A copy of a list of texts.
pub fn copy_texts(list: &Vec<String>) -> (out: Vec<String>)
    ensures
        out.deep_view() == list.deep_view(),
{
    let mut out: Vec<String> = Vec::new();
    let mut i: usize = 0;
    while i < list.len()
        invariant
            i <= list@.len(),
            out@.len() == i,
            forall|k: int| 0 <= k < i ==> (#[trigger] out@[k])@ == list@[k]@,
        decreases list@.len() - i,
    {
        out.push(list[i].clone());
        i += 1;
    }
    assert(out.deep_view() =~= list.deep_view());
    out
}

fn texts_without(list: &Vec<String>, name: &str) -> (out: Vec<String>)
    ensures
        out.deep_view() == names_without(list.deep_view(), name@),
{
    let ghost all = list.deep_view();
    let mut out: Vec<String> = Vec::new();
    let mut i: usize = 0;
    proof {
        assert(all.take(0) =~= Seq::<Seq<char>>::empty());
        assert(out.deep_view() =~= names_without(all.take(0), name@));
    }
    while i < list.len()
        invariant
            i <= list@.len(),
            all == list.deep_view(),
            all.len() == list@.len(),
            out.deep_view() == names_without(all.take(i as int), name@),
        decreases list@.len() - i,
    {
        let ghost had = out.deep_view();
        proof {
            assert(all.take(i + 1).drop_last() =~= all.take(i as int));
            assert(all.take(i + 1).last() == list@[i as int]@);
        }
        if !same_text(list[i].as_str(), name) {
            out.push(list[i].clone());
            assert(out.deep_view() =~= had.push(list@[i as int]@));
        }
        i += 1;
    }
    assert(all.take(i as int) =~= all);
    out
}

impl InMemoryStore {
    /// Creates a namespace under a name that is not taken, given the namespace
    /// and the time.
    pub fn namespace_create_at(
        &mut self,
        ns: &NamespaceRef,
        name: &str,
        owner: &str,
        protocol: Option<&str>,
        now_ms: u64,
    ) -> (out: Result<(), StoreError>)
        requires
            old(self).wf(),
        ensures
            final(self).wf(),
            ({
                let key = alias_text(name@, shown_str(protocol));
                match out {
                    Ok(_) => !old(self).state().aliases.dom().contains(key) && final(self).state()
                        == old(self).state().namespace_created(
                        ns.id(),
                        name@,
                        owner@,
                        shown_str(protocol),
                        now_ms,
                    ),
                    Err(StoreError::Conflict(m)) => old(self).state().aliases.dom().contains(key)
                        && m@ == "namespace alias already exists: "@ + key && final(self).state()
                        == old(self).state(),
                    Err(_) => false,
                }
            }),
    {
        let ghost before = self.state();
        let key = alias_key(name, protocol);
        if self.aliases.contains(&key) {
            return Err(
                StoreError::Conflict(joined("namespace alias already exists: ", key.as_str())),
            );
        }
        let mut aliases: Vec<String> = Vec::new();
        aliases.push(name.to_owned());
        assert(aliases.deep_view() =~= seq![name@]);
        let record = NamespaceRecord {
            uuid_hex: ns.uuid_hex(),
            owner: owner.to_owned(),
            created_at_ms: now_ms,
            protocol: match protocol {
                Some(p) => Some(p.to_owned()),
                None => None,
            },
            aliases,
            tombstoned: false,
        };
        self.aliases.insert(key, *ns.uuid());
        self.records.insert(*ns.uuid(), record);
        assert(self.state() =~= before.namespace_created(
            ns.id(),
            name@,
            owner@,
            shown_str(protocol),
            now_ms,
        ));
        Ok(())
    }

    /// Creates a namespace under a name that is not taken.
    pub fn namespace_create(&mut self, name: &str, owner: &str, protocol: Option<&str>) -> (out: Result<
        NamespaceRef,
        StoreError,
    >)
        requires
            old(self).wf(),
        ensures
            final(self).wf(),
            created_namespace(
                old(self).state(),
                final(self).state(),
                name@,
                owner@,
                shown_str(protocol),
                out,
            ),
    {
        let key = alias_key(name, protocol);
        if self.aliases.contains(&key) {
            return Err(
                StoreError::Conflict(joined("namespace alias already exists: ", key.as_str())),
            );
        }
        let ns = match NamespaceRef::generate(name) {
            Some(ns) => ns,
            None => return Err(StoreError::Io("no random bytes".to_owned())),
        };
        let now_ms: u64 = unix_millis();
        let ghost before = self.state();
        match self.namespace_create_at(&ns, name, owner, protocol, now_ms) {
            Ok(_) => {
                assert(self.state() == before.namespace_created(
                    ns.id(),
                    name@,
                    owner@,
                    shown_str(protocol),
                    now_ms,
                ));
                Ok(ns)
            },
            Err(e) => Err(e),
        }
    }

    /// The namespace that a name stands for.
    pub fn namespace_resolve(&self, name: &str, protocol: Option<&str>) -> (out: Result<
        NamespaceRef,
        StoreError,
    >)
        requires
            self.wf(),
        ensures
            ({
                let key = alias_text(name@, shown_str(protocol));
                match out {
                    Ok(ns) => self.state().aliases.dom().contains(key) && ns.id()
                        == self.state().aliases[key] && ns.spec_name() == Some(name@)
                        && ns.spec_protocol() is None,
                    Err(StoreError::NotFound(m)) => !self.state().aliases.dom().contains(key) && m@
                        == "namespace alias: "@ + key,
                    Err(_) => false,
                }
            }),
    {
        let key = alias_key(name, protocol);
        match self.aliases.get(&key) {
            Some(uuid) => Ok(NamespaceRef::with_name(*uuid, name.to_owned())),
            None => Err(StoreError::NotFound(joined("namespace alias: ", key.as_str()))),
        }
    }

    /// The namespace that a name stands for, created where there is none.
    pub fn namespace_resolve_or_create(&mut self, name: &str, owner: &str, protocol: Option<&str>) -> (out: Result<
        NamespaceRef,
        StoreError,
    >)
        requires
            old(self).wf(),
        ensures
            final(self).wf(),
            ({
                let before = old(self).state();
                let key = alias_text(name@, shown_str(protocol));
                if before.aliases.dom().contains(key) {
                    final(self).state() == before && (out matches Ok(ns) && ns.id()
                        == before.aliases[key] && ns.spec_name() == Some(name@))
                } else {
                    created_namespace(
                        before,
                        final(self).state(),
                        name@,
                        owner@,
                        shown_str(protocol),
                        out,
                    )
                }
            }),
    {
        match self.namespace_resolve(name, protocol) {
            Ok(ns) => Ok(ns),
            Err(_) => self.namespace_create(name, owner, protocol),
        }
    }

    /// The records of a protocol's namespaces, or of all, in the order of their
    /// first names.
    pub fn namespace_list(&self, protocol: Option<&str>) -> (out: Result<
        Vec<NamespaceRecord>,
        StoreError,
    >)
        requires
            self.wf(),
        ensures
            match out {
                Ok(list) => namespace_listed(
                    self.state(),
                    shown_str(protocol),
                    list.deep_view(),
                ),
                Err(_) => false,
            },
    {
        let ghost st = self.state();
        let ghost wanted = shown_str(protocol);
        let mut list: Vec<NamespaceRecord> = Vec::new();
        let ghost mut ids: Seq<Seq<u8>> = Seq::empty();
        let mut i: usize = 0;
        assert(list.deep_view() =~= Seq::<RecordView>::empty());
        while i < self.records.rows.len()
            invariant
                self.wf(),
                st == self.state(),
                wanted == shown_str(protocol),
                i <= self.records.rows@.len(),
                self.listed_so_far(wanted, ids, list.deep_view(), i as int),
            decreases self.records.rows@.len() - i,
        {
            let record = &self.records.rows[i].1;
            let of = match protocol {
                Some(p) => match &record.protocol {
                    Some(q) => same_text(q.as_str(), p),
                    None => false,
                },
                None => true,
            };
            proof {
                self.records.lemma_row(i as int);
            }
            let ghost id = self.records.rows@[i as int].0.key();
            assert(of == of_protocol(record.deep_view(), wanted));
            if of {
                let ghost had = list.deep_view();
                let ghost old_ids = ids;
                let at: usize = listing_place(&list, record);
                list.insert(at, record.copied());
                proof {
                    ids = ids.insert(at as int, id);
                    assert(list.deep_view() =~= had.insert(at as int, record.deep_view()));
                    self.lemma_listed_more(wanted, old_ids, had, i as int, at as int);
                }
            } else {
                proof {
                    assert forall|j: int|
                        0 <= j < i + 1 && of_protocol(
                            (#[trigger] self.records.rows@[j]).1.deep_view(),
                            wanted,
                        ) implies ids.contains(self.records.rows@[j].0.key()) by {}
                    assert forall|k: int| 0 <= k < ids.len() implies of_protocol(
                        #[trigger] list.deep_view()[k],
                        wanted,
                    ) && self.has_row(ids[k], list.deep_view()[k], i + 1) by {
                        assert(self.has_row(ids[k], list.deep_view()[k], i as int));
                    }
                }
            }
            i += 1;
        }
        proof {
            assert forall|id: Seq<u8>| #[trigger]
                st.records.dom().contains(id) && of_protocol(st.records[id], wanted) implies ids.contains(
                id,
            ) by {
                assert(self.records.has(id));
                let j = self.records.row_of(id);
                assert(self.records.rows@[j].0.key() == id);
                self.records.lemma_row(j);
                assert(of_protocol(self.records.rows@[j].1.deep_view(), wanted));
            }
            assert forall|k: int| 0 <= k < ids.len() implies st.records.dom().contains(
                #[trigger] ids[k],
            ) && list.deep_view()[k] == st.records[ids[k]] && of_protocol(
                list.deep_view()[k],
                wanted,
            ) by {
                assert(of_protocol(list.deep_view()[k], wanted) && self.has_row(
                    ids[k],
                    list.deep_view()[k],
                    i as int,
                ));
                let j = choose|j: int|
                    0 <= j < i && (#[trigger] self.records.rows@[j]).0.key() == ids[k]
                        && self.records.rows@[j].1.deep_view() == list.deep_view()[k];
                self.records.lemma_row(j);
            }
            assert(is_namespace_list(st, wanted, ids, list.deep_view()));
            assert(namespace_listed(self.state(), shown_str(protocol), list.deep_view()));
        }
        Ok(list)
    }

    /// Whether one of the first `n` rows is that of a namespace and its record.
    spec fn has_row(&self, id: Seq<u8>, r: RecordView, n: int) -> bool {
        exists|j: int|
            0 <= j < n && (#[trigger] self.records.rows@[j]).0.key() == id
                && self.records.rows@[j].1.deep_view() == r
    }

    /// What holds of a listing while it is made: the rows before `n` are in it.
    spec fn listed_so_far(
        &self,
        protocol: Option<Seq<char>>,
        ids: Seq<Seq<u8>>,
        list: Seq<RecordView>,
        n: int,
    ) -> bool {
        &&& ids.len() == list.len()
        &&& ids.no_duplicates()
        &&& forall|k: int|
            0 <= k < ids.len() ==> of_protocol(#[trigger] list[k], protocol) && self.has_row(
                ids[k],
                list[k],
                n,
            )
        &&& forall|j: int|
            0 <= j < n && of_protocol((#[trigger] self.records.rows@[j]).1.deep_view(), protocol)
                ==> ids.contains(self.records.rows@[j].0.key())
        &&& forall|i: int, j: int|
            0 <= i < j < list.len() ==> !listed_before(#[trigger] list[j], #[trigger] list[i])
    }

    proof fn lemma_listed_more(
        &self,
        protocol: Option<Seq<char>>,
        ids: Seq<Seq<u8>>,
        list: Seq<RecordView>,
        n: int,
        at: int,
    )
        requires
            self.wf(),
            0 <= n < self.records.rows@.len(),
            self.listed_so_far(protocol, ids, list, n),
            of_protocol(self.records.rows@[n].1.deep_view(), protocol),
            0 <= at <= list.len(),
            forall|k: int|
                at <= k < list.len() ==> listed_before(
                    self.records.rows@[n].1.deep_view(),
                    #[trigger] list[k],
                ),
            at > 0 ==> !listed_before(self.records.rows@[n].1.deep_view(), list[at - 1]),
        ensures
            self.listed_so_far(
                protocol,
                ids.insert(at, self.records.rows@[n].0.key()),
                list.insert(at, self.records.rows@[n].1.deep_view()),
                n + 1,
            ),
    {
        let id = self.records.rows@[n].0.key();
        let r = self.records.rows@[n].1.deep_view();
        let new_ids = ids.insert(at, id);
        let new = list.insert(at, r);
        assert(!ids.contains(id)) by {
            if ids.contains(id) {
                let k = choose|k: int| 0 <= k < ids.len() && ids[k] == id;
                assert(of_protocol(list[k], protocol) && self.has_row(ids[k], list[k], n));
                let j = choose|j: int|
                    0 <= j < n && (#[trigger] self.records.rows@[j]).0.key() == ids[k]
                        && self.records.rows@[j].1.deep_view() == list[k];
                assert(self.records.rows@[j].0.key() != self.records.rows@[n].0.key());
            }
        }
        assert forall|i: int, j: int|
            0 <= i < new_ids.len() && 0 <= j < new_ids.len() && i != j implies new_ids[i]
            != new_ids[j] by {
            let a = if i < at { i } else { i - 1 };
            let b = if j < at { j } else { j - 1 };
            if i == at {
                assert(ids[b] != id);
            } else if j == at {
                assert(ids[a] != id);
            } else {
                assert(ids[a] != ids[b]);
            }
        }
        assert forall|k: int| 0 <= k < new_ids.len() implies of_protocol(#[trigger] new[k], protocol)
            && self.has_row(new_ids[k], new[k], n + 1) by {
            if k == at {
                assert(self.records.rows@[n].0.key() == new_ids[k]);
            } else {
                let a = if k < at { k } else { k - 1 };
                assert(new[k] == list[a]);
                assert(new_ids[k] == ids[a]);
                assert(self.has_row(ids[a], list[a], n));
                let j = choose|j: int|
                    0 <= j < n && (#[trigger] self.records.rows@[j]).0.key() == ids[a]
                        && self.records.rows@[j].1.deep_view() == list[a];
                assert(self.records.rows@[j].0.key() == new_ids[k]);
            }
        }
        assert forall|j: int|
            0 <= j < n + 1 && of_protocol(
                (#[trigger] self.records.rows@[j]).1.deep_view(),
                protocol,
            ) implies new_ids.contains(self.records.rows@[j].0.key()) by {
            if j == n {
                assert(new_ids[at] == id);
            } else {
                let key = self.records.rows@[j].0.key();
                assert(ids.contains(key));
                let k = choose|k: int| 0 <= k < ids.len() && ids[k] == key;
                if k < at {
                    assert(new_ids[k] == key);
                } else {
                    assert(new_ids[k + 1] == key);
                }
            }
        }
        assert forall|i: int, j: int| 0 <= i < j < new.len() implies !listed_before(
            #[trigger] new[j],
            #[trigger] new[i],
        ) by {
            let a = if i < at { i } else { i - 1 };
            let b = if j < at { j } else { j - 1 };
            if i == at {
                assert(new[j] == list[b]);
                lemma_listed_asymmetric(r, list[b]);
            } else if j == at {
                assert(new[i] == list[a]);
                if a < at - 1 {
                    assert(!listed_before(list[at - 1], list[a]));
                    lemma_not_listed_transitive(list[a], list[at - 1], r);
                }
            } else {
                assert(new[i] == list[a]);
                assert(new[j] == list[b]);
            }
        }
    }

    /// Whether a name stands for a namespace.
    pub fn namespace_exists(&self, name: &str, protocol: Option<&str>) -> (out: Result<
        bool,
        StoreError,
    >)
        requires
            self.wf(),
        ensures
            out == Ok::<bool, StoreError>(
                self.state().aliases.dom().contains(alias_text(name@, shown_str(protocol))),
            ),
    {
        Ok(self.aliases.contains(&alias_key(name, protocol)))
    }

    /// Gives a namespace another name in place of one. Only the owner can.
    pub fn namespace_rename(
        &mut self,
        old_name: &str,
        new_name: &str,
        actor: &str,
        protocol: Option<&str>,
    ) -> (out: Result<(), StoreError>)
        requires
            old(self).wf(),
        ensures
            final(self).wf(),
            ({
                let before = old(self).state();
                let old_key = alias_text(old_name@, shown_str(protocol));
                let new_key = alias_text(new_name@, shown_str(protocol));
                let id = before.aliases[old_key];
                let known = before.aliases.dom().contains(old_key);
                let taken = before.aliases.dom().contains(new_key);
                let foreign = before.records.dom().contains(id) && before.records[id].owner
                    != actor@;
                match out {
                    Ok(_) => known && !taken && !foreign && final(self).state()
                        == before.namespace_renamed(old_name@, new_name@, shown_str(protocol)),
                    Err(StoreError::NotFound(m)) => !known && m@ == "namespace alias: "@ + old_key
                        && final(self).state() == before,
                    Err(StoreError::Conflict(m)) => known && taken && m@
                        == "target alias already exists: "@ + new_key && final(self).state()
                        == before,
                    Err(StoreError::Rejected(m)) => known && !taken && foreign && m@
                        == "only owner "@ + before.records[id].owner + " can rename, actor is "@
                        + actor@ && final(self).state() == before,
                    Err(_) => false,
                }
            }),
    {
        let ghost before = self.state();
        let old_key = alias_key(old_name, protocol);
        let new_key = alias_key(new_name, protocol);
        let uuid: [u8; 16] = match self.aliases.get(&old_key) {
            Some(uuid) => *uuid,
            None => return Err(
                StoreError::NotFound(joined("namespace alias: ", old_key.as_str())),
            ),
        };
        if self.aliases.contains(&new_key) {
            return Err(
                StoreError::Conflict(joined("target alias already exists: ", new_key.as_str())),
            );
        }
        let renamed: Option<NamespaceRecord> = match self.records.get(&uuid) {
            Some(record) => {
                if !same_text(record.owner.as_str(), actor) {
                    let front = joined3("only owner ", record.owner.as_str(), " can rename, actor is ");
                    return Err(StoreError::Rejected(joined(front.as_str(), actor)));
                }
                let mut next = record.copied();
                let mut names = texts_without(&record.aliases, old_name);
                let ghost had = names.deep_view();
                names.push(new_name.to_owned());
                assert(names.deep_view() =~= had.push(new_name@));
                next.aliases = names;
                Some(next)
            },
            None => None,
        };
        if let Some(record) = renamed {
            self.records.insert(uuid, record);
        }
        self.aliases.remove(&old_key);
        self.aliases.insert(new_key, uuid);
        assert(self.state() =~= before.namespace_renamed(
            old_name@,
            new_name@,
            shown_str(protocol),
        ));
        Ok(())
    }

    /// Gives a namespace one more name. Only the owner can.
    pub fn namespace_add_alias(
        &mut self,
        uuid: &[u8; 16],
        alias: &str,
        actor: &str,
        protocol: Option<&str>,
    ) -> (out: Result<(), StoreError>)
        requires
            old(self).wf(),
        ensures
            final(self).wf(),
            ({
                let before = old(self).state();
                let key = alias_text(alias@, shown_str(protocol));
                let taken = before.aliases.dom().contains(key);
                let known = before.records.dom().contains(uuid@);
                let own = before.records[uuid@].owner == actor@;
                match out {
                    Ok(_) => !taken && known && own && final(self).state() == before.alias_added(
                        uuid@,
                        alias@,
                        shown_str(protocol),
                    ),
                    Err(StoreError::Conflict(m)) => taken && m@ == "alias already exists: "@ + key
                        && final(self).state() == before,
                    Err(StoreError::NotFound(m)) => !taken && !known && m@ == "namespace record: "@
                        + hex_of(uuid@) && final(self).state() == before,
                    Err(StoreError::Rejected(m)) => !taken && known && !own && m@ == "only owner "@
                        + before.records[uuid@].owner + " can add alias, actor is "@ + actor@
                        && final(self).state() == before,
                    Err(_) => false,
                }
            }),
    {
        let ghost before = self.state();
        let key = alias_key(alias, protocol);
        if self.aliases.contains(&key) {
            return Err(StoreError::Conflict(joined("alias already exists: ", key.as_str())));
        }
        let next = match self.records.get(uuid) {
            Some(record) => {
                if !same_text(record.owner.as_str(), actor) {
                    let front = joined3(
                        "only owner ",
                        record.owner.as_str(),
                        " can add alias, actor is ",
                    );
                    return Err(StoreError::Rejected(joined(front.as_str(), actor)));
                }
                let mut next = record.copied();
                if !holds_text(&record.aliases, alias) {
                    let ghost had = next.aliases.deep_view();
                    next.aliases.push(alias.to_owned());
                    assert(next.aliases.deep_view() =~= had.push(alias@));
                }
                next
            },
            None => {
                let id = hex_encode(uuid.as_slice());
                return Err(StoreError::NotFound(joined("namespace record: ", id.as_str())));
            },
        };
        self.records.insert(*uuid, next);
        self.aliases.insert(key, *uuid);
        assert(self.state() =~= before.alias_added(uuid@, alias@, shown_str(protocol)));
        Ok(())
    }

    /// Gives a namespace another owner. Only the owner can, or the one that
    /// succeeded the owner.
    pub fn namespace_transfer(&mut self, uuid: &[u8; 16], new_owner: &str, actor: &str) -> (out: Result<
        (),
        StoreError,
    >)
        requires
            old(self).wf(),
        ensures
            final(self).wf(),
            ({
                let before = old(self).state();
                let known = before.records.dom().contains(uuid@);
                let owner = before.records[uuid@].owner;
                let heir = succession_of(before.successions, owner);
                let may = owner == actor@ || heir == Ok::<
                    Seq<char>,
                    crate::store::identity::SuccessionFault,
                >(actor@);
                match out {
                    Ok(_) => known && may && final(self).state() == before.transferred(
                        uuid@,
                        new_owner@,
                    ),
                    Err(StoreError::NotFound(m)) => !known && m@ == "namespace record: "@ + hex_of(
                        uuid@,
                    ) && final(self).state() == before,
                    Err(StoreError::Rejected(m)) => known && !may && final(self).state() == before
                        && (match heir {
                        Ok(_) => m@ == "only owner "@ + owner
                            + " (or successor) can transfer, actor is "@ + actor@,
                        Err(f) => m@ == crate::store::identity::succession_fault_text(f),
                    }),
                    Err(_) => false,
                }
            }),
    {
        let ghost before = self.state();
        let next = match self.records.get(uuid) {
            Some(record) => {
                if !same_text(record.owner.as_str(), actor) {
                    let heir = match self.identity_succession_resolve(record.owner.as_str()) {
                        Ok(heir) => heir,
                        Err(e) => return Err(e),
                    };
                    if !same_text(heir.as_str(), actor) {
                        let front = joined3(
                            "only owner ",
                            record.owner.as_str(),
                            " (or successor) can transfer, actor is ",
                        );
                        return Err(StoreError::Rejected(joined(front.as_str(), actor)));
                    }
                }
                let mut next = record.copied();
                next.owner = new_owner.to_owned();
                next
            },
            None => {
                let id = hex_encode(uuid.as_slice());
                return Err(StoreError::NotFound(joined("namespace record: ", id.as_str())));
            },
        };
        self.records.insert(*uuid, next);
        assert(self.state() =~= before.transferred(uuid@, new_owner@));
        Ok(())
    }

    /// The record of the namespace that a name stands for.
    pub fn namespace_info(&self, name: &str, protocol: Option<&str>) -> (out: Result<
        NamespaceRecord,
        StoreError,
    >)
        requires
            self.wf(),
        ensures
            ({
                let st = self.state();
                let key = alias_text(name@, shown_str(protocol));
                let id = st.aliases[key];
                match out {
                    Ok(r) => st.aliases.dom().contains(key) && st.records.dom().contains(id)
                        && r.deep_view() == st.records[id],
                    Err(StoreError::NotFound(m)) => if !st.aliases.dom().contains(key) {
                        m@ == "namespace alias: "@ + key
                    } else {
                        !st.records.dom().contains(id) && m@ == "namespace record: "@ + hex_of(id)
                    },
                    Err(_) => false,
                }
            }),
    {
        let key = alias_key(name, protocol);
        let uuid: [u8; 16] = match self.aliases.get(&key) {
            Some(uuid) => *uuid,
            None => return Err(StoreError::NotFound(joined("namespace alias: ", key.as_str()))),
        };
        match self.records.get(&uuid) {
            Some(record) => Ok(record.copied()),
            None => {
                let id = hex_encode(uuid.as_slice());
                Err(StoreError::NotFound(joined("namespace record: ", id.as_str())))
            },
        }
    }

    fn drop_names(&mut self, names: &Vec<String>, protocol: Option<&str>)
        requires
            old(self).wf(),
        ensures
            final(self).wf(),
            final(self).state() == (StoreState {
                aliases: StoreState::names_dropped(
                    old(self).state().aliases,
                    names.deep_view(),
                    shown_str(protocol),
                ),
                ..old(self).state()
            }),
    {
        let ghost before = self.state();
        let ghost all = names.deep_view();
        let mut i: usize = 0;
        assert(all.take(0) =~= Seq::<Seq<char>>::empty());
        while i < names.len()
            invariant
                self.wf(),
                i <= names@.len(),
                all == names.deep_view(),
                all.len() == names@.len(),
                self.state() == (StoreState {
                    aliases: StoreState::names_dropped(
                        before.aliases,
                        all.take(i as int),
                        shown_str(protocol),
                    ),
                    ..before
                }),
            decreases names@.len() - i,
        {
            let ghost prev = self.state();
            proof {
                assert(all.take(i + 1).drop_last() =~= all.take(i as int));
                assert(all.take(i + 1).last() == names@[i as int]@);
            }
            self.aliases.remove(&names[i]);
            if protocol.is_some() {
                let scoped = alias_key(names[i].as_str(), protocol);
                self.aliases.remove(&scoped);
            }
            proof {
                assert(self.state() =~= (StoreState {
                    aliases: StoreState::names_dropped(
                        before.aliases,
                        all.take(i + 1),
                        shown_str(protocol),
                    ),
                    ..before
                }));
                assert(self.state().tags == prev.tags);
            }
            i += 1;
        }
        assert(all.take(i as int) =~= all);
    }

    /// Takes a namespace out of use: its names no longer stand for it. Only the
    /// owner can.
    pub fn namespace_delete(&mut self, name: &str, actor: &str, protocol: Option<&str>) -> (out: Result<
        (),
        StoreError,
    >)
        requires
            old(self).wf(),
        ensures
            final(self).wf(),
            ({
                let before = old(self).state();
                let key = alias_text(name@, shown_str(protocol));
                let id = before.aliases[key];
                let named = before.aliases.dom().contains(key);
                let known = before.records.dom().contains(id);
                let own = before.records[id].owner == actor@;
                match out {
                    Ok(_) => named && known && own && final(self).state()
                        == before.namespace_deleted(id),
                    Err(StoreError::NotFound(m)) => final(self).state() == before && if !named {
                        m@ == "namespace alias: "@ + key
                    } else {
                        !known && m@ == "namespace record: "@ + hex_of(id)
                    },
                    Err(StoreError::Rejected(m)) => named && known && !own && m@ == "only owner "@
                        + before.records[id].owner + " can delete, actor is "@ + actor@ && final(
                        self).state() == before,
                    Err(_) => false,
                }
            }),
    {
        let ghost before = self.state();
        let key = alias_key(name, protocol);
        let uuid: [u8; 16] = match self.aliases.get(&key) {
            Some(uuid) => *uuid,
            None => return Err(StoreError::NotFound(joined("namespace alias: ", key.as_str()))),
        };
        let mut next = match self.records.get(&uuid) {
            Some(record) => {
                if !same_text(record.owner.as_str(), actor) {
                    let front = joined3("only owner ", record.owner.as_str(), " can delete, actor is ");
                    return Err(StoreError::Rejected(joined(front.as_str(), actor)));
                }
                record.copied()
            },
            None => {
                let id = hex_encode(uuid.as_slice());
                return Err(StoreError::NotFound(joined("namespace record: ", id.as_str())));
            },
        };
        match &next.protocol {
            Some(p) => self.drop_names(&next.aliases, Some(p.as_str())),
            None => self.drop_names(&next.aliases, None),
        }
        next.tombstoned = true;
        self.records.insert(uuid, next);
        assert(self.state() =~= before.namespace_deleted(uuid@));
        Ok(())
    }
}

/// Whether a namespace was created under a name that was not taken.
pub open spec fn created_namespace(
    before: StoreState,
    after: StoreState,
    name: Seq<char>,
    owner: Seq<char>,
    protocol: Option<Seq<char>>,
    out: Result<NamespaceRef, StoreError>,
) -> bool {
    let key = alias_text(name, protocol);
    match out {
        Ok(ns) => !before.aliases.dom().contains(key) && ns.spec_name() == Some(name) && exists|
            now_ms: u64,
        |
            after == #[trigger] before.namespace_created(ns.id(), name, owner, protocol, now_ms),
        Err(StoreError::Conflict(m)) => before.aliases.dom().contains(key) && m@
            == "namespace alias already exists: "@ + key && after == before,
        Err(StoreError::Io(_)) => !before.aliases.dom().contains(key) && after == before,
        Err(_) => false,
    }
}

fn is_listed_before(a: &NamespaceRecord, b: &NamespaceRecord) -> (yes: bool)
    ensures
        yes == listed_before(a.deep_view(), b.deep_view()),
{
    if b.aliases.len() == 0 {
        return false;
    }
    if a.aliases.len() == 0 {
        return true;
    }
    assert(a.deep_view().aliases[0] == a.aliases@[0]@);
    assert(b.deep_view().aliases[0] == b.aliases@[0]@);
    less_text(a.aliases[0].as_str(), b.aliases[0].as_str())
}

fn listing_place(list: &Vec<NamespaceRecord>, record: &NamespaceRecord) -> (at: usize)
    ensures
        at <= list@.len(),
        forall|k: int|
            at <= k < list@.len() ==> listed_before(
                record.deep_view(),
                #[trigger] list.deep_view()[k],
            ),
        at > 0 ==> !listed_before(record.deep_view(), list.deep_view()[at - 1]),
{
    let ghost all = list.deep_view();
    let mut at: usize = list.len();
    while at > 0 && is_listed_before(record, &list[at - 1])
        invariant
            at <= list@.len(),
            all == list.deep_view(),
            forall|k: int|
                at <= k < list@.len() ==> listed_before(record.deep_view(), #[trigger] all[k]),
        decreases at,
    {
        assert(all[at - 1] == list@[at - 1].deep_view());
        at -= 1;
    }
    at
}

proof fn lemma_listed_asymmetric(a: RecordView, b: RecordView)
    requires
        listed_before(a, b),
    ensures
        !listed_before(b, a),
{
    if let (Some(x), Some(y)) = (first_alias(a), first_alias(b)) {
        if text_below(y, x) {
            crate::text::lemma_text_below_transitive(x, y, x);
        }
        crate::text::lemma_text_below_irreflexive(x);
    }
}

proof fn lemma_not_listed_transitive(a: RecordView, b: RecordView, c: RecordView)
    requires
        !listed_before(b, a),
        !listed_before(c, b),
    ensures
        !listed_before(c, a),
{
    if let (Some(x), Some(y), Some(z)) = (first_alias(a), first_alias(b), first_alias(c)) {
        crate::text::lemma_text_below_total(x, y);
        crate::text::lemma_text_below_total(y, z);
        crate::text::lemma_text_below_irreflexive(x);
        crate::text::lemma_text_below_irreflexive(z);
        if text_below(x, y) && text_below(y, z) {
            crate::text::lemma_text_below_transitive(x, y, z);
        }
        if text_below(z, x) && text_below(x, z) {
            crate::text::lemma_text_below_transitive(z, x, z);
        }
    }
}

// -- Laws ---------------------------------------------------------------------------------

/// A namespace that was created is what its name stands for.
pub proof fn law_created_resolves(
    st: StoreState,
    id: Seq<u8>,
    name: Seq<char>,
    owner: Seq<char>,
    protocol: Option<Seq<char>>,
    now_ms: u64,
)
    ensures
        ({
            let after = st.namespace_created(id, name, owner, protocol, now_ms);
            let key = alias_text(name, protocol);
            &&& after.aliases.dom().contains(key)
            &&& after.aliases[key] == id
            &&& after.records[id].owner == owner
            &&& !after.records[id].tombstoned
        }),
{
}

/// A renamed namespace is what its new name stands for, and no longer what its
/// old name stands for.
pub proof fn law_rename_resolves(
    st: StoreState,
    old_name: Seq<char>,
    new_name: Seq<char>,
    protocol: Option<Seq<char>>,
)
    requires
        st.aliases.dom().contains(alias_text(old_name, protocol)),
        !st.aliases.dom().contains(alias_text(new_name, protocol)),
    ensures
        ({
            let after = st.namespace_renamed(old_name, new_name, protocol);
            &&& after.aliases[alias_text(new_name, protocol)] == st.aliases[alias_text(
                old_name,
                protocol,
            )]
            &&& after.aliases.dom().contains(alias_text(new_name, protocol))
            &&& !after.aliases.dom().contains(alias_text(old_name, protocol))
        }),
{
}

/// After a namespace was taken out of use, none of the names on its record stands
/// for anything, plain or behind its protocol.
pub proof fn law_deleted_names(st: StoreState, id: Seq<u8>)
    ensures
        ({
            let r = st.records[id];
            let after = st.namespace_deleted(id);
            &&& after.records[id].tombstoned
            &&& forall|i: int|
                0 <= i < r.aliases.len() ==> !after.aliases.dom().contains(
                    #[trigger] r.aliases[i],
                ) && !after.aliases.dom().contains(alias_text(r.aliases[i], r.protocol))
        }),
{
    let r = st.records[id];
    lemma_names_dropped(st.aliases, r.aliases, r.protocol, r.aliases.len() as int);
    assert(r.aliases.take(r.aliases.len() as int) =~= r.aliases);
}

proof fn lemma_names_dropped(
    aliases: Map<Seq<char>, Seq<u8>>,
    names: Seq<Seq<char>>,
    protocol: Option<Seq<char>>,
    n: int,
)
    requires
        0 <= n <= names.len(),
    ensures
        ({
            let after = StoreState::names_dropped(aliases, names.take(n), protocol);
            forall|i: int|
                0 <= i < n ==> !after.dom().contains(#[trigger] names[i])
                    && !after.dom().contains(alias_text(names[i], protocol))
        }),
    decreases n,
{
    if n > 0 {
        lemma_names_dropped(aliases, names, protocol, n - 1);
        assert(names.take(n).drop_last() =~= names.take(n - 1));
    }
}

/// A namespace with one more name is what that name stands for too; its record has
/// the name, and every other name stands for what it did.
pub proof fn law_alias_added(
    st: StoreState,
    id: Seq<u8>,
    alias: Seq<char>,
    protocol: Option<Seq<char>>,
    other: Seq<char>,
)
    requires
        st.records.dom().contains(id),
    ensures
        ({
            let after = st.alias_added(id, alias, protocol);
            let key = match protocol {
                Some(p) => p + ":"@ + alias,
                None => alias,
            };
            &&& after.aliases.dom().contains(key) && after.aliases[key] == id
            &&& after.records[id].aliases.contains(alias)
            &&& after.records[id].owner == st.records[id].owner
            &&& other != key ==> after.aliases.dom().contains(other) == st.aliases.dom().contains(
                other,
            ) && after.aliases[other] == st.aliases[other]
        }),
{
    let r = st.records[id];
    crate::git::walk::lemma_push_contains(r.aliases, alias, alias);
}

/// A namespace that was given away has its new owner, and nothing else about it
/// changes.
pub proof fn law_transferred(st: StoreState, id: Seq<u8>, new_owner: Seq<char>, other: Seq<u8>)
    requires
        st.records.dom().contains(id),
    ensures
        ({
            let after = st.transferred(id, new_owner);
            &&& after.records[id].owner == new_owner
            &&& after.records[id].aliases == st.records[id].aliases
            &&& after.records[id].tombstoned == st.records[id].tombstoned
            &&& after.aliases == st.aliases
            &&& other != id ==> after.records.dom().contains(other) == st.records.dom().contains(
                other,
            ) && after.records[other] == st.records[other]
        }),
{
}

proof fn lemma_without(list: Seq<Seq<char>>, name: Seq<char>, x: Seq<char>)
    ensures
        crate::store::state::without(list, name).contains(x) <==> list.contains(x) && x != name,
    decreases list.len(),
{
    if list.len() > 0 {
        let front = list.drop_last();
        lemma_without(front, name, x);
        assert(front.push(list.last()) =~= list);
        crate::git::walk::lemma_push_contains(front, list.last(), x);
        crate::git::walk::lemma_push_contains(
            crate::store::state::without(front, name),
            list.last(),
            x,
        );
    }
}

/// The record of a renamed namespace has the new name in place of the old one and
/// keeps its other names and its owner.
pub proof fn law_rename_recorded(
    st: StoreState,
    old_name: Seq<char>,
    new_name: Seq<char>,
    protocol: Option<Seq<char>>,
    x: Seq<char>,
)
    requires
        st.aliases.dom().contains(alias_text(old_name, protocol)),
        st.records.dom().contains(st.aliases[alias_text(old_name, protocol)]),
    ensures
        ({
            let id = st.aliases[alias_text(old_name, protocol)];
            let before = st.records[id];
            let after = st.namespace_renamed(old_name, new_name, protocol).records[id];
            &&& after.aliases.contains(x) <==> x == new_name || (before.aliases.contains(x) && x
                != old_name)
            &&& after.owner == before.owner && after.protocol == before.protocol
            &&& after.tombstoned == before.tombstoned
        }),
{
    let id = st.aliases[alias_text(old_name, protocol)];
    let list = st.records[id].aliases;
    lemma_without(list, old_name, x);
    crate::git::walk::lemma_push_contains(names_without(list, old_name), new_name, x);
}

/// A list of namespaces holds every record of the protocol asked for, or every
/// record at all where none is, and no other.
pub proof fn law_namespaces_listed(
    st: StoreState,
    protocol: Option<Seq<char>>,
    list: Seq<RecordView>,
    r: RecordView,
)
    requires
        namespace_listed(st, protocol, list),
    ensures
        list.contains(r) <==> (protocol is None || r.protocol == protocol) && exists|id: Seq<u8>|
            #[trigger]
            st.records.dom().contains(id) && st.records[id] == r,
{
    let ids = choose|ids: Seq<Seq<u8>>| is_namespace_list(st, protocol, ids, list);
    if list.contains(r) {
        let i = choose|i: int| 0 <= i < list.len() && list[i] == r;
        assert(st.records.dom().contains(ids[i]));
    }
    if (protocol is None || r.protocol == protocol) && exists|id: Seq<u8>| #[trigger]
        st.records.dom().contains(id) && st.records[id] == r {
        let id = choose|id: Seq<u8>| #[trigger]
            st.records.dom().contains(id) && st.records[id] == r;
        assert(of_protocol(r, protocol));
        assert(ids.contains(id));
        let i = choose|i: int| 0 <= i < ids.len() && ids[i] == id;
        assert(list[i] == r);
    }
}

} // verus!
