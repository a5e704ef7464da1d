//! Transactions: content staged apart, then promoted together.

use vstd::prelude::*;

use crate::bytes::copy_bytes;
use crate::kappa::{content_digest, label_parts, verify_kappa};
use crate::sorted::{ascending, insert_text};
use crate::store::memory::{addresses, adds_addressed, InMemoryStore};
use crate::store::state::StoreState;
use crate::store::uploads::new_uuid;
use crate::table::{lemma_deep_bytes, lemma_deep_sixteen, Table, TableKey};
use crate::types::unix_millis;

verus! {

broadcast use {lemma_deep_bytes, lemma_deep_sixteen};

/// Why a transaction refused.
#[derive(Debug)]
pub enum TransactionError {
    Io(String),
    NotFound,
    AtCapacity(usize),
    PerTxnLimitExceeded(usize),
    GlobalLimitExceeded(usize),
    DigestMismatch(String),
    InvalidLabel { kappa: String, reason: String },
}

/// What a commit did.
#[derive(Debug)]
pub struct CommitResult {
    /// The addresses that were promoted, in ascending order.
    pub promoted: Vec<String>,
}

/// A transaction under way.
pub struct TransactionState {
    pub ns: String,
    pub created_ms: u64,
    pub staged: Table<String, Vec<u8>>,
    pub staging_bytes: usize,
}

/// What a transaction under way holds.
pub struct TxnView {
    pub ns: Seq<char>,
    pub created_ms: u64,
    pub staged: Map<Seq<char>, Seq<u8>>,
    pub staging_bytes: nat,
}

impl DeepView for TransactionState {
    type V = TxnView;

    open spec fn deep_view(&self) -> TxnView {
        TxnView {
            ns: self.ns@,
            created_ms: self.created_ms,
            staged: self.staged@,
            staging_bytes: self.staging_bytes as nat,
        }
    }
}

/// The transactions under way, and how much they may stage.
pub struct TransactionManager {
    pub(crate) active: Table<String, TransactionState>,
    pub(crate) total_staging_bytes: usize,
    pub(crate) max_concurrent: usize,
    pub(crate) max_bytes_per_txn: usize,
    pub(crate) max_bytes_global: usize,
    pub(crate) timeout_secs: u64,
}

/// What a manager holds.
#[verifier::ext_equal]
pub struct ManagerView {
    pub active: Map<Seq<char>, TxnView>,
    pub max_concurrent: usize,
    pub max_bytes_per_txn: usize,
    pub max_bytes_global: usize,
    pub timeout_secs: u64,
}

/// Bytes that all transactions have staged.
pub open spec fn staged_total(active: Map<Seq<char>, TxnView>) -> nat
    decreases active.dom().len(),
{
    if active.dom().finite() && active.dom().len() > 0 {
        let k = active.dom().choose();
        active[k].staging_bytes + staged_total(active.remove(k))
    } else {
        0
    }
}

/// The total is any transaction's bytes and the total of the others.
pub proof fn lemma_staged_total(active: Map<Seq<char>, TxnView>, k: Seq<char>)
    requires
        active.dom().finite(),
        active.dom().contains(k),
    ensures
        staged_total(active) == active[k].staging_bytes + staged_total(active.remove(k)),
    decreases active.dom().len(),
{
    let c = active.dom().choose();
    assert(active.dom().len() > 0) by {
        if active.dom().len() == 0 {
            assert(active.dom() =~= Set::<Seq<char>>::empty());
        }
    }
    if c != k {
        lemma_staged_total(active.remove(c), k);
        lemma_staged_total(active.remove(k), c);
        assert(active.remove(c).remove(k) =~= active.remove(k).remove(c));
    }
}

/// A transaction with a blob staged.
pub open spec fn txn_with(t: TxnView, kappa: Seq<char>, content: Seq<u8>) -> TxnView {
    TxnView {
        staged: t.staged.insert(kappa, content),
        staging_bytes: t.staging_bytes + content.len(),
        ..t
    }
}

/// Whether a transaction has been open for more than so many whole seconds.
pub open spec fn txn_expired(created_ms: u64, now_ms: u64, timeout_secs: u64) -> bool {
    now_ms >= created_ms && (now_ms - created_ms) / 1000 > timeout_secs
}

/// Whether a manager has opened a transaction at a time.
pub open spec fn begun(
    before: ManagerView,
    after: ManagerView,
    id: Seq<char>,
    ns: Seq<char>,
    now_ms: u64,
) -> bool {
    after == before.with(
        id,
        TxnView { ns, created_ms: now_ms, staged: Map::empty(), staging_bytes: 0 },
    )
}

/// Whether a manager has opened a transaction.
pub open spec fn opened(
    before: ManagerView,
    after: ManagerView,
    id: Seq<char>,
    ns: Seq<char>,
) -> bool {
    exists|now_ms: u64| #[trigger] begun(before, after, id, ns, now_ms)
}

/// Whether just the transactions that are not expired at a time are left.
pub open spec fn evicted(before: ManagerView, after: ManagerView, now_ms: u64) -> bool {
    &&& forall|id: Seq<char>| #[trigger]
        after.active.dom().contains(id) <==> (before.active.dom().contains(id) && !txn_expired(
            before.active[id].created_ms,
            now_ms,
            before.timeout_secs,
        ))
    &&& forall|id: Seq<char>| #[trigger]
        after.active.dom().contains(id) ==> after.active[id] == before.active[id]
}

impl ManagerView {
    /// The manager without a transaction.
    pub open spec fn without(self, id: Seq<char>) -> ManagerView {
        ManagerView { active: self.active.remove(id), ..self }
    }

    /// The manager with a transaction.
    pub open spec fn with(self, id: Seq<char>, t: TxnView) -> ManagerView {
        ManagerView { active: self.active.insert(id, t), ..self }
    }

    /// Whether content goes beyond what a transaction may stage.
    pub open spec fn over_txn_limit(self, id: Seq<char>, n: nat) -> bool {
        self.active[id].staging_bytes + n > self.max_bytes_per_txn
    }

    /// Whether content goes beyond what all transactions may stage.
    pub open spec fn over_global_limit(self, n: nat) -> bool {
        staged_total(self.active) + n > self.max_bytes_global
    }
}

/// A store with staged content promoted: what it had stays, the rest is added.
pub open spec fn promoted(st: StoreState, staged: Map<Seq<char>, Seq<u8>>) -> StoreState {
    StoreState { blobs: staged.union_prefer_right(st.blobs), ..st }
}

/// Whether everything staged is at an address of its content.
pub open spec fn staged_addressed(staged: Map<Seq<char>, Seq<u8>>) -> bool {
    forall|k: Seq<char>| #[trigger] staged.dom().contains(k) ==> addresses(k, staged[k])
}

/// Whether everything that transactions staged is at an address of its content.
pub open spec fn all_staged_addressed(active: Map<Seq<char>, TxnView>) -> bool {
    forall|id: Seq<char>| #[trigger]
        active.dom().contains(id) ==> staged_addressed(active[id].staged)
}

impl TransactionManager {
    /// What the manager holds.
    pub open(crate) spec fn state(&self) -> ManagerView {
        ManagerView {
            active: self.active@,
            max_concurrent: self.max_concurrent,
            max_bytes_per_txn: self.max_bytes_per_txn,
            max_bytes_global: self.max_bytes_global,
            timeout_secs: self.timeout_secs,
        }
    }

    /// The tables have distinct keys, the total is kept, and no limit is
    /// exceeded.
    pub open(crate) spec fn wf(&self) -> bool {
        &&& self.active.wf()
        &&& self.active@.dom().finite()
        &&& self.total_staging_bytes == staged_total(self.active@)
        &&& self.total_staging_bytes <= self.max_bytes_global
        &&& all_staged_addressed(self.active@)
        &&& forall|i: int|
            0 <= i < self.active.rows@.len() ==> (#[trigger] self.active.rows@[i]).1.staged.wf()
                && self.active.rows@[i].1.staging_bytes <= self.max_bytes_per_txn
    }

    /// A manager without transactions.
    pub fn new(
        max_concurrent: usize,
        max_bytes_per_txn: usize,
        max_bytes_global: usize,
        timeout_secs: u64,
    ) -> (out: Self)
        ensures
            out.wf(),
            out.state() == (ManagerView {
                active: Map::empty(),
                max_concurrent,
                max_bytes_per_txn,
                max_bytes_global,
                timeout_secs,
            }),
    {
        let out = TransactionManager {
            active: Table::new(),
            total_staging_bytes: 0,
            max_concurrent,
            max_bytes_per_txn,
            max_bytes_global,
            timeout_secs,
        };
        proof {
            out.active.lemma_len();
            assert(out.active@.dom() =~= Set::<Seq<char>>::empty());
            if out.active.rows@.len() > 0 {
                assert(out.active.has(out.active.rows@[0].0.key()));
                assert(out.active@.dom().contains(out.active.rows@[0].0.key()));
            }
        }
        out
    }

    /// Opens a transaction under an identifier, given the time. One that has the
    /// identifier already is replaced.
    pub fn begin_at(&mut self, id: &str, ns: &str, now_ms: u64) -> (out: Result<
        (),
        TransactionError,
    >)
        requires
            old(self).wf(),
        ensures
            final(self).wf(),
            match out {
                Ok(_) => old(self).state().active.dom().len() < old(self).state().max_concurrent
                    && begun(old(self).state(), final(self).state(), id@, ns@, now_ms),
                Err(TransactionError::AtCapacity(n)) => old(self).state().active.dom().len() >= n
                    && n == old(self).state().max_concurrent && final(self).state() == old(
                    self).state(),
                Err(_) => false,
            },
    {
        let ghost before = self.state();
        if self.active.len() >= self.max_concurrent {
            return Err(TransactionError::AtCapacity(self.max_concurrent));
        }
        let _ = self.forget(id);
        assert(self.state() =~= before.without(id@));
        let t = TransactionState {
            ns: ns.to_owned(),
            created_ms: now_ms,
            staged: Table::new(),
            staging_bytes: 0,
        };
        let ghost view = t.deep_view();
        let ghost had = self.active.rows@;
        self.active.insert(id.to_owned(), t);
        proof {
            self.active.lemma_len();
            lemma_staged_total(self.active@, id@);
            assert(self.active@.remove(id@) =~= before.active.remove(id@));
            assert(self.state() =~= before.with(id@, view));
            self.lemma_rows_kept(had);
        }
        Ok(())
    }

    /// Rows that were there before, or fit the limits, are in order.
    proof fn lemma_rows_kept(&self, had: Seq<(String, TransactionState)>)
        requires
            forall|i: int|
                0 <= i < had.len() ==> (#[trigger] had[i]).1.staged.wf() && had[i].1.staging_bytes
                    <= self.max_bytes_per_txn,
            forall|i: int|
                0 <= i < self.active.rows@.len() ==> had.contains(#[trigger] self.active.rows@[i])
                    || (self.active.rows@[i].1.staged.wf() && self.active.rows@[i].1.staging_bytes
                    <= self.max_bytes_per_txn),
        ensures
            forall|i: int|
                0 <= i < self.active.rows@.len() ==> (#[trigger] self.active.rows@[i]).1.staged.wf()
                    && self.active.rows@[i].1.staging_bytes <= self.max_bytes_per_txn,
    {
        assert forall|i: int| 0 <= i < self.active.rows@.len() implies (
        #[trigger] self.active.rows@[i]).1.staged.wf() && self.active.rows@[i].1.staging_bytes
            <= self.max_bytes_per_txn by {
            if had.contains(self.active.rows@[i]) {
                let j = choose|j: int| 0 <= j < had.len() && had[j] == self.active.rows@[i];
                assert(had[j].1.staged.wf());
            }
        }
    }

    /// Opens a transaction; its identifier. A manager at capacity refuses.
    pub fn begin(&mut self, ns: &str) -> (out: Result<String, TransactionError>)
        requires
            old(self).wf(),
        ensures
            final(self).wf(),
            match out {
                Ok(id) => {
                    &&& old(self).state().active.dom().len() < old(self).state().max_concurrent
                    &&& opened(old(self).state(), final(self).state(), id@, ns@)
                },
                Err(TransactionError::AtCapacity(n)) => old(self).state().active.dom().len() >= n
                    && n == old(self).state().max_concurrent && final(self).state() == old(
                    self).state(),
                Err(_) => false,
            },
    {
        let id = new_uuid();
        let now_ms: u64 = unix_millis();
        let ghost before = self.state();
        match self.begin_at(id.as_str(), ns, now_ms) {
            Ok(_) => {
                assert(begun(before, self.state(), id@, ns@, now_ms));
                assert(opened(before, self.state(), id@, ns@));
                Ok(id)
            },
            Err(e) => Err(e),
        }
    }

    /// Stages content under its address; tells whether it was not staged before.
    pub fn put(&mut self, txn_id: &str, kappa: &str, content: &[u8]) -> (out: Result<
        bool,
        TransactionError,
    >)
        requires
            old(self).wf(),
        ensures
            final(self).wf(),
            ({
                let before = old(self).state();
                let known = before.active.dom().contains(txn_id@);
                let t = before.active[txn_id@];
                let n = content@.len();
                match out {
                    Ok(fresh) => {
                        &&& addresses(kappa@, content@)
                        &&& known
                        &&& !before.over_txn_limit(txn_id@, n)
                        &&& !before.over_global_limit(n)
                        &&& fresh == !t.staged.dom().contains(kappa@)
                        &&& final(self).state() == (if fresh {
                            before.with(txn_id@, txn_with(t, kappa@, content@))
                        } else {
                            before
                        })
                    },
                    Err(TransactionError::DigestMismatch(k)) => label_parts(kappa@) is Some
                        && content_digest((label_parts(kappa@)->0).0, content@) is Some
                        && !addresses(kappa@, content@) && k@ == kappa@ && final(self).state()
                        == before,
                    Err(TransactionError::InvalidLabel { kappa: k, reason: _ }) => (label_parts(
                        kappa@,
                    ) is None || content_digest((label_parts(kappa@)->0).0, content@) is None)
                        && !addresses(kappa@, content@) && k@ == kappa@ && final(self).state() == before,
                    Err(TransactionError::NotFound) => addresses(kappa@, content@) && !known
                        && final(self).state() == before,
                    Err(TransactionError::PerTxnLimitExceeded(limit)) => addresses(
                        kappa@,
                        content@,
                    ) && known && before.over_txn_limit(txn_id@, n) && limit
                        == before.max_bytes_per_txn && final(self).state() == before,
                    Err(TransactionError::GlobalLimitExceeded(limit)) => addresses(
                        kappa@,
                        content@,
                    ) && known && !before.over_txn_limit(txn_id@, n) && before.over_global_limit(n)
                        && limit == before.max_bytes_global && final(self).state() == before,
                    Err(TransactionError::Io(_)) => false,
                    Err(TransactionError::AtCapacity(_)) => false,
                }
            }),
    {
        match verify_kappa(kappa, content) {
            Ok(true) => {},
            Ok(false) => return Err(TransactionError::DigestMismatch(kappa.to_owned())),
            Err(e) => return Err(
                TransactionError::InvalidLabel { kappa: kappa.to_owned(), reason: e.message() },
            ),
        }
        let ghost before = self.state();
        let n: usize = content.len();
        let id = txn_id.to_owned();
        let at: usize = match self.active.find(&id) {
            Some(i) => i,
            None => return Err(TransactionError::NotFound),
        };
        proof {
            self.active.lemma_row(at as int);
            assert(self.active.rows@[at as int].1.staged.wf());
            lemma_staged_total(self.active@, txn_id@);
        }
        if n > self.max_bytes_per_txn - self.active.rows[at].1.staging_bytes {
            return Err(TransactionError::PerTxnLimitExceeded(self.max_bytes_per_txn));
        }
        if n > self.max_bytes_global - self.total_staging_bytes {
            return Err(TransactionError::GlobalLimitExceeded(self.max_bytes_global));
        }
        let key = kappa.to_owned();
        if self.active.rows[at].1.staged.contains(&key) {
            return Ok(false);
        }
        let ghost had = self.active.rows@;
        if let Some(mut t) = self.active.remove(&id) {
            let ghost rest = self.active.rows@;
            proof {
                let i = choose|i: int| 0 <= i < had.len() && t == (#[trigger] had[i]).1;
                assert(had[i].1.staged.wf());
            }
            t.staged.insert(key, copy_bytes(content));
            t.staging_bytes = t.staging_bytes + n;
            self.total_staging_bytes = self.total_staging_bytes + n;
            let ghost view = t.deep_view();
            self.active.insert(id, t);
            proof {
                self.active.lemma_len();
                lemma_staged_total(self.active@, txn_id@);
                assert(self.active@.remove(txn_id@) =~= before.active.remove(txn_id@));
                assert(self.state() =~= before.with(
                    txn_id@,
                    txn_with(before.active[txn_id@], kappa@, content@),
                ));
                assert forall|i: int| 0 <= i < self.active.rows@.len() implies had.contains(
                    #[trigger] self.active.rows@[i],
                ) || (self.active.rows@[i].1.staged.wf() && self.active.rows@[i].1.staging_bytes
                    <= self.max_bytes_per_txn) by {
                    if rest.contains(self.active.rows@[i]) {
                        let j = choose|j: int| 0 <= j < rest.len() && rest[j] == self.active.rows@[i];
                        assert(had.contains(rest[j]));
                    }
                }
                self.lemma_rows_kept(had);
            }
        }
        Ok(true)
    }

    fn forget(&mut self, txn_id: &str) -> (out: Option<TransactionState>)
        requires
            old(self).wf(),
        ensures
            final(self).wf(),
            match out {
                Some(t) => old(self).state().active.dom().contains(txn_id@) && t.deep_view() == old(
                    self).state().active[txn_id@] && t.staged.wf() && staged_addressed(t.staged@)
                    && final(self).state() == old(
                    self).state().without(txn_id@),
                None => !old(self).state().active.dom().contains(txn_id@) && final(self).state()
                    == old(self).state(),
            },
    {
        let ghost before = self.state();
        let ghost had = self.active.rows@;
        let id = txn_id.to_owned();
        match self.active.remove(&id) {
            Some(t) => {
                proof {
                    lemma_staged_total(before.active, txn_id@);
                    let i = choose|i: int| 0 <= i < had.len() && t == (#[trigger] had[i]).1;
                    assert(had[i].1.staged.wf());
                    self.active.lemma_len();
                    self.lemma_rows_kept(had);
                    assert(self.state() =~= before.without(txn_id@));
                }
                self.total_staging_bytes = self.total_staging_bytes - t.staging_bytes;
                Some(t)
            },
            None => {
                proof {
                    self.active.lemma_len();
                    self.lemma_rows_kept(had);
                    assert(self.active@ =~= before.active);
                    assert(self.state() =~= before);
                }
                None
            },
        }
    }

    /// Closes a transaction: everything staged goes into the store.
    pub fn commit(&mut self, txn_id: &str, main_store: &mut InMemoryStore) -> (out: Result<
        CommitResult,
        TransactionError,
    >)
        requires
            old(self).wf(),
            old(main_store).wf(),
        ensures
            final(self).wf(),
            final(main_store).wf(),
            ({
                let before = old(self).state();
                let t = before.active[txn_id@];
                match out {
                    Ok(r) => {
                        &&& before.active.dom().contains(txn_id@)
                        &&& final(self).state() == before.without(txn_id@)
                        &&& final(main_store).state() == promoted(
                            old(main_store).state(),
                            t.staged,
                        )
                        &&& adds_addressed(old(main_store).state(), final(main_store).state())
                        &&& ascending(r.promoted.deep_view())
                        &&& forall|k: Seq<char>| #[trigger]
                            r.promoted.deep_view().contains(k) <==> t.staged.dom().contains(k)
                    },
                    Err(TransactionError::NotFound) => !before.active.dom().contains(txn_id@)
                        && final(self).state() == before && final(main_store).state() == old(
                        main_store).state(),
                    Err(_) => false,
                }
            }),
    {
        let t = match self.forget(txn_id) {
            Some(t) => t,
            None => return Err(TransactionError::NotFound),
        };
        let ghost first = main_store.state();
        let ghost staged = t.staged@;
        let mut list: Vec<String> = Vec::new();
        let mut i: usize = 0;
        assert(list.deep_view() =~= Seq::<Seq<char>>::empty());
        proof {
            assert(part_of(t.staged.rows@, 0) =~= Map::<Seq<char>, Seq<u8>>::empty());
            assert(promoted(first, part_of(t.staged.rows@, 0)) =~= first) by {
                assert(promoted(first, part_of(t.staged.rows@, 0)).blobs =~= first.blobs);
            }
        }
        while i < t.staged.rows.len()
            invariant
                t.staged.wf(),
                main_store.wf(),
                i <= t.staged.rows@.len(),
                main_store.state() == promoted(first, part_of(t.staged.rows@, i as int)),
                ascending(list.deep_view()),
                forall|k: Seq<char>| #[trigger]
                    list.deep_view().contains(k) <==> part_of(
                        t.staged.rows@,
                        i as int,
                    ).dom().contains(k),
            decreases t.staged.rows@.len() - i,
        {
            let row = &t.staged.rows[i];
            let ghost before = part_of(t.staged.rows@, i as int);
            let ghost after = part_of(t.staged.rows@, i + 1);
            let ghost had = list.deep_view();
            proof {
                lemma_part_more(t.staged, i as int);
                assert(after == before.insert(row.0@, row.1@));
                assert(promoted(first, before).put_blob(row.0@, row.1@) =~= promoted(first, after))
                    by {
                    assert(promoted(first, before).put_blob(row.0@, row.1@).blobs =~= promoted(
                        first,
                        after,
                    ).blobs);
                }
            }
            let _ = main_store.blob_put(row.0.as_str(), row.1.as_slice());
            insert_text(&mut list, row.0.clone());
            i += 1;
        }
        proof {
            lemma_part_all(t.staged);
            lemma_promoted_addressed(first, staged);
        }
        Ok(CommitResult { promoted: list })
    }

    /// Drops a transaction and everything it staged.
    pub fn abort(&mut self, txn_id: &str) -> (out: Result<(), TransactionError>)
        requires
            old(self).wf(),
        ensures
            final(self).wf(),
            match out {
                Ok(_) => old(self).state().active.dom().contains(txn_id@) && final(self).state()
                    == old(self).state().without(txn_id@),
                Err(e) => e is NotFound && !old(self).state().active.dom().contains(txn_id@)
                    && final(self).state() == old(self).state(),
            },
    {
        match self.forget(txn_id) {
            Some(_) => Ok(()),
            None => Err(TransactionError::NotFound),
        }
    }

    /// Drops the transactions that have been open for longer than the timeout,
    /// given the time; how many there were.
    pub fn evict_expired_at(&mut self, now_ms: u64) -> (n: usize)
        requires
            old(self).wf(),
        ensures
            final(self).wf(),
            ({
                let before = old(self).state();
                let after = final(self).state();
                &&& after == (ManagerView { active: after.active, ..before })
                &&& evicted(before, after, now_ms)
                &&& n == before.active.dom().len() - after.active.dom().len()
            }),
    {
        let ghost before = self.state();
        let all: usize = self.active.len();
        let mut n: usize = 0;
        let mut i: usize = 0;
        while i < self.active.rows.len()
            invariant
                self.wf(),
                i <= self.active.rows@.len(),
                n + self.active.rows@.len() == all,
                self.state() == (ManagerView { active: self.state().active, ..before }),
                forall|j: int|
                    0 <= j < i ==> !txn_expired(
                        (#[trigger] self.active.rows@[j]).1.created_ms,
                        now_ms,
                        before.timeout_secs,
                    ),
                forall|id: Seq<char>| #[trigger]
                    self.active@.dom().contains(id) ==> before.active.dom().contains(id)
                        && self.active@[id] == before.active[id],
                forall|id: Seq<char>| #[trigger]
                    before.active.dom().contains(id) && !self.active@.dom().contains(id)
                        ==> txn_expired(
                        before.active[id].created_ms,
                        now_ms,
                        before.timeout_secs,
                    ),
            decreases self.active.rows@.len() - i,
        {
            let created: u64 = self.active.rows[i].1.created_ms;
            if now_ms >= created && (now_ms - created) / 1000 > self.timeout_secs {
                let id = self.active.rows[i].0.clone();
                let ghost held = self.active@;
                let ghost had = self.active.rows@;
                proof {
                    self.active.lemma_row(i as int);
                    lemma_staged_total(self.active@, id@);
                }
                let bytes: usize = self.active.rows[i].1.staging_bytes;
                self.active.remove_at(i);
                self.total_staging_bytes = self.total_staging_bytes - bytes;
                n += 1;
                proof {
                    assert(self.active@ == held.remove(id@));
                    self.active.lemma_len();
                    assert forall|j: int| 0 <= j < self.active.rows@.len() implies had.contains(
                        #[trigger] self.active.rows@[j],
                    ) by {
                        let x = if j < i {
                            j
                        } else {
                            j + 1
                        };
                        assert(self.active.rows@[j] == had[x]);
                    }
                    self.lemma_rows_kept(had);
                }
            } else {
                i += 1;
            }
        }
        proof {
            self.active.lemma_len();
            assert forall|id: Seq<char>| #[trigger]
                self.state().active.dom().contains(id) <==> (before.active.dom().contains(id)
                    && !txn_expired(before.active[id].created_ms, now_ms, before.timeout_secs)) by {
                if self.active@.dom().contains(id) {
                    assert(self.active.has(id));
                    let j = self.active.row_of(id);
                    assert(self.active.rows@[j].0.key() == id);
                    self.active.lemma_row(j);
                }
            }
        }
        n
    }

    /// Drops the transactions that have been open for longer than the timeout;
    /// how many there were.
    pub fn evict_expired(&mut self) -> (n: usize)
        requires
            old(self).wf(),
        ensures
            final(self).wf(),
            ({
                let before = old(self).state();
                let after = final(self).state();
                &&& after == (ManagerView { active: after.active, ..before })
                &&& n == before.active.dom().len() - after.active.dom().len()
                &&& exists|now_ms: u64| #[trigger] evicted(before, after, now_ms)
            }),
    {
        let now_ms: u64 = unix_millis();
        let ghost before = self.state();
        let n: usize = self.evict_expired_at(now_ms);
        assert(evicted(before, self.state(), now_ms));
        n
    }

    /// Number of transactions under way.
    pub fn active_count(&self) -> (n: usize)
        requires
            self.wf(),
        ensures
            n == self.state().active.dom().len(),
    {
        self.active.len()
    }
}

/// The blobs of the first rows of a table.
spec fn part_of(rows: Seq<(String, Vec<u8>)>, n: int) -> Map<Seq<char>, Seq<u8>>
    decreases n,
{
    if n <= 0 {
        Map::empty()
    } else {
        part_of(rows, n - 1).insert(rows[n - 1].0@, rows[n - 1].1@)
    }
}

proof fn lemma_promoted_addressed(st: StoreState, staged: Map<Seq<char>, Seq<u8>>)
    requires
        staged_addressed(staged),
    ensures
        adds_addressed(st, promoted(st, staged)),
{
    reveal(adds_addressed);
    let after = promoted(st, staged);
    assert forall|k: Seq<char>| #[trigger] after.blobs.dom().contains(k) implies (
    st.blobs.dom().contains(k) && st.blobs[k] == after.blobs[k]) || addresses(k, after.blobs[k]) by {
        if !st.blobs.dom().contains(k) {
            assert(staged.dom().contains(k));
        }
    }
}

proof fn lemma_part_dom(t: Table<String, Vec<u8>>, n: int)
    requires
        t.wf(),
        0 <= n <= t.rows@.len(),
    ensures
        forall|k: Seq<char>| #[trigger]
            part_of(t.rows@, n).dom().contains(k) <==> exists|j: int|
                0 <= j < n && (#[trigger] t.rows@[j]).0@ == k,
        forall|j: int|
            0 <= j < n ==> part_of(t.rows@, n)[(#[trigger] t.rows@[j]).0@] == t.rows@[j].1@,
    decreases n,
{
    if n > 0 {
        lemma_part_dom(t, n - 1);
        assert forall|k: Seq<char>| #[trigger]
            part_of(t.rows@, n).dom().contains(k) <==> exists|j: int|
                0 <= j < n && (#[trigger] t.rows@[j]).0@ == k by {
            if k == t.rows@[n - 1].0@ {
                assert(t.rows@[n - 1].0@ == k);
            }
            if part_of(t.rows@, n - 1).dom().contains(k) {
                let j = choose|j: int| 0 <= j < n - 1 && (#[trigger] t.rows@[j]).0@ == k;
                assert(t.rows@[j].0@ == k);
            }
        }
        assert forall|j: int| 0 <= j < n implies part_of(t.rows@, n)[(#[trigger] t.rows@[j]).0@]
            == t.rows@[j].1@ by {
            if j < n - 1 {
                assert(t.rows@[j].0.key() != t.rows@[n - 1].0.key());
            }
        }
    }
}

proof fn lemma_part_more(t: Table<String, Vec<u8>>, n: int)
    requires
        t.wf(),
        0 <= n < t.rows@.len(),
    ensures
        part_of(t.rows@, n + 1) == part_of(t.rows@, n).insert(t.rows@[n].0@, t.rows@[n].1@),
        !part_of(t.rows@, n).dom().contains(t.rows@[n].0@),
{
    lemma_part_dom(t, n);
    if part_of(t.rows@, n).dom().contains(t.rows@[n].0@) {
        let j = choose|j: int| 0 <= j < n && (#[trigger] t.rows@[j]).0@ == t.rows@[n].0@;
        assert(t.rows@[j].0.key() != t.rows@[n].0.key());
    }
}

proof fn lemma_part_all(t: Table<String, Vec<u8>>)
    requires
        t.wf(),
    ensures
        part_of(t.rows@, t.rows@.len() as int) == t@,
{
    let n = t.rows@.len() as int;
    lemma_part_dom(t, n);
    assert forall|k: Seq<char>| part_of(t.rows@, n).dom().contains(k) == t@.dom().contains(k) by {
        if t@.dom().contains(k) {
            let j = t.row_of(k);
            assert(t.rows@[j].0.key() == k);
            assert(t.rows@[j].0@ == k);
        }
        if part_of(t.rows@, n).dom().contains(k) {
            let j = choose|j: int| 0 <= j < n && (#[trigger] t.rows@[j]).0@ == k;
            assert(t.rows@[j].0.key() == k);
        }
    }
    assert forall|k: Seq<char>| t@.dom().contains(k) implies part_of(t.rows@, n)[k] == t@[k] by {
        let j = t.row_of(k);
        assert(t.rows@[j].0.key() == k);
        assert(t.rows@[j].0@ == k);
        t.lemma_row(j);
    }
    assert(part_of(t.rows@, n) =~= t@);
}

/// Content that was staged is in the store once its transaction is closed,
/// unless its address held something else; and nothing that was in the store is
/// lost.
pub proof fn law_commit_keeps(st: StoreState, staged: Map<Seq<char>, Seq<u8>>, kappa: Seq<char>)
    ensures
        staged.dom().contains(kappa) ==> promoted(st, staged).blobs.dom().contains(kappa),
        staged.dom().contains(kappa) && !st.blobs.dom().contains(kappa) ==> promoted(
            st,
            staged,
        ).blobs[kappa] == staged[kappa],
        st.blobs.dom().contains(kappa) ==> promoted(st, staged).blobs.dom().contains(kappa)
            && promoted(st, staged).blobs[kappa] == st.blobs[kappa],
{
}

/// A transaction runs out once more than its whole seconds have passed: one
/// second after the timeout, and not before.
pub proof fn law_txn_expires(created_ms: u64, now_ms: u64, timeout_secs: u64)
    ensures
        txn_expired(created_ms, now_ms, timeout_secs) <==> now_ms >= created_ms + 1000 * (
        timeout_secs + 1),
{
    if now_ms >= created_ms {
        let d = now_ms - created_ms;
        assert(d / 1000 > timeout_secs <==> d >= 1000 * (timeout_secs + 1));
    }
}

/// Staging content adds it, and its bytes, to its own transaction: what was staged
/// before stays, and so do the other transactions.
pub proof fn law_txn_staged(
    m: ManagerView,
    id: Seq<char>,
    kappa: Seq<char>,
    content: Seq<u8>,
    other: Seq<char>,
)
    requires
        m.active.dom().contains(id),
        !m.active[id].staged.dom().contains(kappa),
    ensures
        ({
            let after = m.with(id, txn_with(m.active[id], kappa, content));
            &&& after.active[id].staged.dom().contains(kappa)
            &&& after.active[id].staged[kappa] == content
            &&& after.active[id].staging_bytes == m.active[id].staging_bytes + content.len()
            &&& other != kappa && m.active[id].staged.dom().contains(other)
                ==> after.active[id].staged.dom().contains(other) && after.active[id].staged[other]
                == m.active[id].staged[other]
            &&& other != id ==> after.active.dom().contains(other) == m.active.dom().contains(other)
                && after.active[other] == m.active[other]
        }),
{
}

/// A commit touches nothing but content, and adds only what was staged.
pub proof fn law_commit_adds(st: StoreState, staged: Map<Seq<char>, Seq<u8>>, kappa: Seq<char>)
    ensures
        promoted(st, staged).blobs.dom().contains(kappa) ==> st.blobs.dom().contains(kappa)
            || staged.dom().contains(kappa),
        promoted(st, staged) == (StoreState { blobs: promoted(st, staged).blobs, ..st }),
{
}

} // verus!
