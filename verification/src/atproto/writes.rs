//! Writing to repositories: who may, and what each write does.

use vstd::prelude::*;

use crate::atproto::repo::{at_uri, open_repo, opens, record_name, record_tag, record_uri, unknown};
use crate::atproto::tid::{tid_text, TidGenerator};
use crate::kappa::kappa_of;
use crate::store::compression::blob_put_computed;
use crate::store::memory::InMemoryStore;
use crate::store::state::StoreState;
use crate::text::{joined, joined3, same_text, text_strip_prefix};
use crate::types::{NamespaceRef, StoreError};

verus! {

// -- Who may write ----------------------------------------------------------------

/// The token in an authorization header: behind `Bearer` or `DPoP` and a space.
pub open spec fn token_in(header: Option<Seq<char>>) -> Seq<char> {
    match header {
        Some(h) => if "Bearer "@.is_prefix_of(h) {
            h.skip("Bearer "@.len() as int)
        } else if "DPoP "@.is_prefix_of(h) {
            h.skip("DPoP "@.len() as int)
        } else {
            Seq::empty()
        },
        None => Seq::empty(),
    }
}

/// The token in an authorization header; empty where there is none.
pub fn extract_bearer_token(header: Option<&str>) -> (out: String)
    ensures
        out@ == token_in(crate::store::namespaces::shown_str(header)),
{
    let empty = String::new();
    assert(empty@ =~= Seq::<char>::empty());
    let h = match header {
        Some(h) => h,
        None => return empty,
    };
    if let Some(token) = text_strip_prefix(h, "Bearer ") {
        proof {
            assert(token@ =~= h@.skip("Bearer "@.len() as int));
            assert("Bearer "@ =~= h@.subrange(0, "Bearer "@.len() as int));
        }
        return token;
    }
    if let Some(token) = text_strip_prefix(h, "DPoP ") {
        proof {
            assert(token@ =~= h@.skip("DPoP "@.len() as int));
            assert("DPoP "@ =~= h@.subrange(0, "DPoP "@.len() as int));
        }
        return token;
    }
    empty
}

/// What is known of a caller's session.
#[derive(Debug)]
pub enum SessionKnown {
    /// Sessions are not kept: everyone may write.
    NotKept,
    /// The token stands for no session.
    Invalid,
    /// The session of this identifier.
    Of(String),
}

/// Why a caller may not write.
#[derive(Debug)]
pub enum AuthRefusal {
    /// There is no token.
    MissingToken,
    /// The token stands for no session.
    InvalidToken,
    /// The session is another's: what to tell the caller.
    Forbidden(String),
}

impl AuthRefusal {
    /// The status of the reply: 401, or 403 where the session is another's.
    pub fn status(&self) -> (code: u16)
        ensures
            code == (if self is Forbidden {
                403u16
            } else {
                401u16
            }),
    {
        match self {
            AuthRefusal::Forbidden(_) => 403,
            _ => 401,
        }
    }

    /// The name of the error in the reply.
    pub fn error(&self) -> (out: &'static str)
        ensures
            out@ == (match self {
                AuthRefusal::MissingToken => "AuthenticationRequired"@,
                AuthRefusal::InvalidToken => "ExpiredToken"@,
                AuthRefusal::Forbidden(_) => "Forbidden"@,
            }),
    {
        match self {
            AuthRefusal::MissingToken => "AuthenticationRequired",
            AuthRefusal::InvalidToken => "ExpiredToken",
            AuthRefusal::Forbidden(_) => "Forbidden",
        }
    }

    /// What to tell the caller.
    pub fn message(&self) -> (out: String)
        ensures
            out@ == (match self {
                AuthRefusal::MissingToken => "missing access token"@,
                AuthRefusal::InvalidToken => "invalid or expired token"@,
                AuthRefusal::Forbidden(m) => m@,
            }),
    {
        match self {
            AuthRefusal::MissingToken => "missing access token".to_owned(),
            AuthRefusal::InvalidToken => "invalid or expired token".to_owned(),
            AuthRefusal::Forbidden(m) => m.clone(),
        }
    }
}

/// Whether a caller may write to a repository: with a token, for a session of
/// its own, or for none where sessions are not kept.
pub fn verify_repo_auth(token: &str, known: &SessionKnown, repo: &str) -> (out: Result<
    String,
    AuthRefusal,
>)
    ensures
        match out {
            Ok(did) => token@.len() > 0 && did@ == repo@ && (known is NotKept || (known
                matches SessionKnown::Of(d) && d@ == repo@)),
            Err(AuthRefusal::MissingToken) => token@.len() == 0,
            Err(AuthRefusal::InvalidToken) => token@.len() > 0 && known is Invalid,
            Err(AuthRefusal::Forbidden(m)) => token@.len() > 0 && (known matches SessionKnown::Of(d)
                && d@ != repo@ && m@ == "session DID "@ + d@ + " does not match repo "@ + repo@),
        },
{
    if token.unicode_len() == 0 {
        return Err(AuthRefusal::MissingToken);
    }
    match known {
        SessionKnown::NotKept => Ok(repo.to_owned()),
        SessionKnown::Invalid => Err(AuthRefusal::InvalidToken),
        SessionKnown::Of(did) => {
            if !same_text(did.as_str(), repo) {
                let head = joined3("session DID ", did.as_str(), " does not match repo ");
                return Err(AuthRefusal::Forbidden(joined(head.as_str(), repo)));
            }
            Ok(did.clone())
        },
    }
}

// -- Records ----------------------------------------------------------------------

/// Whether a repository is there, or was made with itself as owner.
pub open spec fn repo_ready(
    before: StoreState,
    after: StoreState,
    repo: Seq<char>,
    ns: NamespaceRef,
) -> bool {
    if unknown(before, repo) {
        exists|now_ms: u64|
            after == #[trigger] before.namespace_created(
                ns.id(),
                repo,
                repo,
                Some("atproto"@),
                now_ms,
            )
    } else {
        opens(before, repo, ns) && after == before
    }
}

/// Opens a repository, and makes it where it is not there.
pub fn ready_repo(store: &mut InMemoryStore, repo: &str) -> (out: Result<NamespaceRef, StoreError>)
    requires
        old(store).wf(),
    ensures
        final(store).wf(),
        match out {
            Ok(ns) => repo_ready(old(store).state(), final(store).state(), repo@, ns),
            Err(StoreError::Io(_)) => unknown(old(store).state(), repo@) && final(store).state()
                == old(store).state(),
            Err(_) => false,
        },
{
    store.namespace_resolve_or_create(repo, repo, Some("atproto"))
}

/// A store with a record kept under a name.
pub open spec fn recorded(st: StoreState, ns: NamespaceRef, name: Seq<char>, record: Seq<u8>) -> StoreState {
    st.put_blob(kappa_of(record), record).tag_set(ns, name, kappa_of(record))
}

/// Keeps a record under a name; its address.
pub fn set_record(store: &mut InMemoryStore, ns: &NamespaceRef, name: &str, record: &[u8]) -> (out: Result<
    String,
    StoreError,
>)
    requires
        old(store).wf(),
    ensures
        final(store).wf(),
        match out {
            Ok(kappa) => old(store).state().tag_version(*ns, name@) < u64::MAX && kappa@ == kappa_of(
                record@,
            ) && final(store).state() == recorded(old(store).state(), *ns, name@, record@),
            Err(e) => e is Rejected && old(store).state().tag_version(*ns, name@) == u64::MAX
                && final(store).state() == old(store).state().put_blob(
                kappa_of(record@),
                record@,
            ).ensured(*ns),
        },
{
    let kappa = match blob_put_computed(store, record) {
        Ok(kappa) => kappa,
        Err(e) => return Err(e),
    };
    match store.tag_set(ns, name, kappa.as_str()) {
        Ok(_) => Ok(kappa),
        Err(e) => Err(e),
    }
}

/// A record that was written.
#[derive(Debug)]
pub struct RecordWritten {
    pub uri: String,
    pub cid: String,
}

/// Whether a record was written as it should, given the namespace of the
/// repository and the store with it ready.
pub open spec fn record_put(
    ready: StoreState,
    after: StoreState,
    ns: NamespaceRef,
    repo: Seq<char>,
    collection: Seq<char>,
    rkey: Seq<char>,
    record: Seq<u8>,
    out: Result<RecordWritten, StoreError>,
) -> bool {
    let name = record_name(collection, rkey);
    match out {
        Ok(w) => ready.tag_version(ns, name) < u64::MAX && w.uri@ == record_uri(
            repo,
            collection,
            rkey,
        ) && w.cid@ == kappa_of(record) && after == recorded(ready, ns, name, record),
        Err(e) => e is Rejected && ready.tag_version(ns, name) == u64::MAX && after
            == ready.put_blob(kappa_of(record), record).ensured(ns),
    }
}

/// Whether a record was written as it should: to the repository that is there,
/// or was made. A repository cannot be made without random numbers.
#[verifier::opaque]
pub open spec fn record_written(
    before: StoreState,
    after: StoreState,
    repo: Seq<char>,
    collection: Seq<char>,
    rkey: Seq<char>,
    record: Seq<u8>,
    out: Result<RecordWritten, StoreError>,
) -> bool {
    ||| exists|ready: StoreState, ns: NamespaceRef| #[trigger]
        repo_ready(before, ready, repo, ns) && record_put(
            ready,
            after,
            ns,
            repo,
            collection,
            rkey,
            record,
            out,
        )
    ||| unknown(before, repo) && after == before && out matches Err(StoreError::Io(_))
}

/// Writes a record under a key.
pub fn put_record(
    store: &mut InMemoryStore,
    repo: &str,
    collection: &str,
    rkey: &str,
    record: &[u8],
) -> (out: Result<RecordWritten, StoreError>)
    requires
        old(store).wf(),
    ensures
        final(store).wf(),
        record_written(
            old(store).state(),
            final(store).state(),
            repo@,
            collection@,
            rkey@,
            record@,
            out,
        ),
{
    reveal(record_written);
    let ns = match ready_repo(store, repo) {
        Ok(ns) => ns,
        Err(e) => return Err(e),
    };
    let ghost ready = store.state();
    assert(repo_ready(old(store).state(), ready, repo@, ns));
    let name = record_tag(collection, rkey);
    match set_record(store, &ns, name.as_str(), record) {
        Ok(cid) => Ok(RecordWritten { uri: at_uri(repo, collection, rkey), cid }),
        Err(e) => Err(e),
    }
}

/// Whether a text is a key made from the time by the clock with number zero.
pub open spec fn is_fresh_key(key: Seq<char>) -> bool {
    exists|micros: u64| key == #[trigger] tid_text(micros as nat, 0)
}

/// A key made from the time.
pub fn fresh_key() -> (out: String)
    ensures
        is_fresh_key(out@),
{
    let mut clock = TidGenerator::with_clock_id(0);
    let key = clock.next();
    assert(key@ == tid_text(clock.spec_last() as nat, 0));
    key
}

/// Writes a record under a key, or under one made from the time; the record and
/// its key.
pub fn create_record(
    store: &mut InMemoryStore,
    repo: &str,
    collection: &str,
    rkey: Option<&str>,
    record: &[u8],
) -> (out: (Result<RecordWritten, StoreError>, String))
    requires
        old(store).wf(),
    ensures
        final(store).wf(),
        match rkey {
            Some(key) => out.1@ == key@,
            None => is_fresh_key(out.1@),
        },
        record_written(
            old(store).state(),
            final(store).state(),
            repo@,
            collection@,
            out.1@,
            record@,
            out.0,
        ),
{
    let key = match rkey {
        Some(key) => key.to_owned(),
        None => fresh_key(),
    };
    let out = put_record(store, repo, collection, key.as_str(), record);
    (out, key)
}

/// Deletes a record; tells whether its repository is there.
pub fn delete_record(store: &mut InMemoryStore, repo: &str, collection: &str, rkey: &str) -> (found: bool)
    requires
        old(store).wf(),
    ensures
        final(store).wf(),
        if found {
            exists|ns: NamespaceRef| #[trigger]
                opens(old(store).state(), repo@, ns) && final(store).state() == old(
                    store).state().unbound(ns, record_name(collection@, rkey@))
        } else {
            unknown(old(store).state(), repo@) && final(store).state() == old(store).state()
        },
{
    let ns = match open_repo(store, repo) {
        Some(ns) => ns,
        None => return false,
    };
    assert(opens(old(store).state(), repo@, ns));
    let name = record_tag(collection, rkey);
    let _ = store.tag_delete(&ns, name.as_str());
    true
}

// -- Batches ----------------------------------------------------------------------

/// A write of a batch.
#[derive(Debug)]
pub struct RepoWrite {
    pub action: String,
    pub collection: String,
    pub rkey: String,
    pub record: Option<Vec<u8>>,
}

/// What a write of a batch holds.
pub struct WriteView {
    pub action: Seq<char>,
    pub collection: Seq<char>,
    pub rkey: Seq<char>,
    pub record: Option<Seq<u8>>,
}

impl DeepView for RepoWrite {
    type V = WriteView;

    open spec fn deep_view(&self) -> WriteView {
        WriteView {
            action: self.action@,
            collection: self.collection@,
            rkey: self.rkey@,
            record: match self.record {
                Some(r) => Some(r@),
                None => None,
            },
        }
    }
}

/// What a write does.
#[derive(Debug, Clone, Copy, PartialEq, Eq, Structural)]
pub enum WriteAction {
    Create,
    Update,
    Delete,
}

/// What a write does, by its name: the short one, or the one with the method.
pub open spec fn action_named(name: Seq<char>) -> Option<WriteAction> {
    if name == "com.atproto.repo.applyWrites#create"@ || name == "create"@ {
        Some(WriteAction::Create)
    } else if name == "com.atproto.repo.applyWrites#update"@ || name == "update"@ {
        Some(WriteAction::Update)
    } else if name == "com.atproto.repo.applyWrites#delete"@ || name == "delete"@ {
        Some(WriteAction::Delete)
    } else {
        None
    }
}

/// What a write does, by its name.
pub fn parse_action(name: &str) -> (out: Option<WriteAction>)
    ensures
        out == action_named(name@),
{
    if same_text(name, "com.atproto.repo.applyWrites#create") || same_text(name, "create") {
        Some(WriteAction::Create)
    } else if same_text(name, "com.atproto.repo.applyWrites#update") || same_text(name, "update") {
        Some(WriteAction::Update)
    } else if same_text(name, "com.atproto.repo.applyWrites#delete") || same_text(name, "delete") {
        Some(WriteAction::Delete)
    } else {
        None
    }
}

/// The key of a write: its own, or a fresh one where it creates without.
pub open spec fn write_key(w: WriteView, fresh: Seq<char>) -> Seq<char> {
    if action_named(w.action) == Some(WriteAction::Create) && w.rkey.len() == 0 {
        fresh
    } else {
        w.rkey
    }
}

/// Why a write is refused: what to tell the caller.
pub open spec fn write_refusal(
    st: StoreState,
    ns: NamespaceRef,
    w: WriteView,
    fresh: Seq<char>,
) -> Option<Seq<char>> {
    let full = st.tag_version(ns, record_name(w.collection, write_key(w, fresh))) == u64::MAX;
    match action_named(w.action) {
        None => Some("unknown write action: "@ + w.action),
        Some(WriteAction::Delete) => None,
        Some(WriteAction::Create) => if w.record is None {
            Some("missing record in create"@)
        } else if full {
            Some("tag version exhausted"@)
        } else {
            None
        },
        Some(WriteAction::Update) => if w.record is None {
            Some("missing record in update"@)
        } else if full {
            Some("tag version exhausted"@)
        } else {
            None
        },
    }
}

/// What a write makes of a store; a refused one leaves at most its content
/// behind.
pub open spec fn write_applied(
    st: StoreState,
    ns: NamespaceRef,
    w: WriteView,
    fresh: Seq<char>,
) -> StoreState {
    let name = record_name(w.collection, write_key(w, fresh));
    match action_named(w.action) {
        Some(WriteAction::Delete) => st.unbound(ns, name),
        Some(_) => match w.record {
            Some(record) => if st.tag_version(ns, name) == u64::MAX {
                st.put_blob(kappa_of(record), record).ensured(ns)
            } else {
                recorded(st, ns, name, record)
            },
            None => st,
        },
        None => st,
    }
}

/// Applies a write, given a fresh key.
pub fn apply_write(store: &mut InMemoryStore, ns: &NamespaceRef, w: &RepoWrite, fresh: &str) -> (out: Result<
    (),
    String,
>)
    requires
        old(store).wf(),
    ensures
        final(store).wf(),
        final(store).state() == write_applied(old(store).state(), *ns, w.deep_view(), fresh@),
        match (out, write_refusal(old(store).state(), *ns, w.deep_view(), fresh@)) {
            (Ok(_), None) => true,
            (Err(m), Some(want)) => m@ == want,
            _ => false,
        },
{
    let action = match parse_action(w.action.as_str()) {
        Some(action) => action,
        None => return Err(joined("unknown write action: ", w.action.as_str())),
    };
    let key = if action == WriteAction::Create && w.rkey.as_str().unicode_len() == 0 {
        fresh
    } else {
        w.rkey.as_str()
    };
    let name = record_tag(w.collection.as_str(), key);
    if action == WriteAction::Delete {
        let _ = store.tag_delete(ns, name.as_str());
        return Ok(());
    }
    match &w.record {
        Some(record) => match set_record(store, ns, name.as_str(), record.as_slice()) {
            Ok(_) => Ok(()),
            Err(_) => Err("tag version exhausted".to_owned()),
        },
        None => if action == WriteAction::Create {
            Err("missing record in create".to_owned())
        } else {
            Err("missing record in update".to_owned())
        },
    }
}

/// What the first writes of a batch make of a store, given a fresh key for each.
pub open spec fn writes_applied(
    st: StoreState,
    ns: NamespaceRef,
    writes: Seq<WriteView>,
    keys: Seq<Seq<char>>,
    n: nat,
) -> StoreState
    decreases n,
{
    if n == 0 {
        st
    } else {
        write_applied(
            writes_applied(st, ns, writes, keys, (n - 1) as nat),
            ns,
            writes[n - 1],
            keys[n - 1],
        )
    }
}

/// Whether a batch was applied as it should, given the namespace, the store with
/// the repository ready, and a fresh key for each write: all of it, or the writes
/// before the first that is refused.
pub open spec fn batch_done(
    ready: StoreState,
    after: StoreState,
    ns: NamespaceRef,
    writes: Seq<WriteView>,
    keys: Seq<Seq<char>>,
    out: Result<(), String>,
) -> bool {
    let n = (if out is Ok {
        writes.len()
    } else {
        (keys.len() - 1) as nat
    });
    &&& n <= writes.len() && n <= keys.len()
    &&& forall|i: int| 0 <= i < keys.len() ==> is_fresh_key(#[trigger] keys[i])
    &&& forall|i: int|
        0 <= i < n ==> write_refusal(
            #[trigger] writes_applied(ready, ns, writes, keys, i as nat),
            ns,
            writes[i],
            keys[i],
        ) is None
    &&& match out {
        Ok(_) => after == writes_applied(ready, ns, writes, keys, n),
        Err(m) => n < writes.len() && keys.len() > 0 && write_refusal(
            writes_applied(ready, ns, writes, keys, n),
            ns,
            writes[n as int],
            keys[n as int],
        ) == Some(m@) && after == writes_applied(ready, ns, writes, keys, n + 1),
    }
}

/// Fresh keys that differ only behind the first writes make the same of those.
proof fn lemma_keys_kept(
    st: StoreState,
    ns: NamespaceRef,
    writes: Seq<WriteView>,
    keys: Seq<Seq<char>>,
    key: Seq<char>,
    n: nat,
)
    requires
        n <= keys.len(),
    ensures
        writes_applied(st, ns, writes, keys.push(key), n) == writes_applied(
            st,
            ns,
            writes,
            keys,
            n,
        ),
    decreases n,
{
    if n > 0 {
        lemma_keys_kept(st, ns, writes, keys, key, (n - 1) as nat);
        assert(keys.push(key)[n - 1] == keys[n - 1]);
    }
}

/// Applies the writes of a batch one after the other, up to the first that is
/// refused.
pub fn apply_writes(store: &mut InMemoryStore, repo: &str, writes: &[RepoWrite]) -> (out: Result<
    (),
    String,
>)
    requires
        old(store).wf(),
    ensures
        final(store).wf(),
        writes_done(old(store).state(), final(store).state(), repo@, writes.deep_view(), out),
{
    let ns = match ready_repo(store, repo) {
        Ok(ns) => ns,
        Err(e) => return Err(e.message()),
    };
    let ghost ready = store.state();
    let ghost all = writes.deep_view();
    let ghost mut keys: Seq<Seq<char>> = Seq::empty();
    assert(repo_ready(old(store).state(), ready, repo@, ns));
    let mut i: usize = 0;
    while i < writes.len()
        invariant
            store.wf(),
            i <= writes@.len(),
            all == writes.deep_view(),
            all.len() == writes@.len(),
            keys.len() == i,
            repo_ready(old(store).state(), ready, repo@, ns),
            store.state() == writes_applied(ready, ns, all, keys, i as nat),
            forall|j: int| 0 <= j < keys.len() ==> is_fresh_key(#[trigger] keys[j]),
            forall|j: int|
                0 <= j < i ==> write_refusal(
                    #[trigger] writes_applied(ready, ns, all, keys, j as nat),
                    ns,
                    all[j],
                    keys[j],
                ) is None,
        decreases writes@.len() - i,
    {
        assert(all[i as int] == writes@[i as int].deep_view());
        let fresh = fresh_key();
        let ghost more = keys.push(fresh@);
        let ghost here = store.state();
        let done = apply_write(store, &ns, &writes[i], fresh.as_str());
        proof {
            lemma_keys_kept(ready, ns, all, keys, fresh@, i as nat);
            assert forall|j: int| 0 <= j < i implies write_refusal(
                #[trigger] writes_applied(ready, ns, all, more, j as nat),
                ns,
                all[j],
                more[j],
            ) is None by {
                lemma_keys_kept(ready, ns, all, keys, fresh@, j as nat);
                assert(writes_applied(ready, ns, all, keys, j as nat) == writes_applied(
                    ready,
                    ns,
                    all,
                    more,
                    j as nat,
                ));
                assert(more[j] == keys[j]);
            }
            assert forall|j: int| 0 <= j < more.len() implies is_fresh_key(#[trigger] more[j]) by {
                if j < i {
                    assert(more[j] == keys[j]);
                }
            }
            assert(more[i as int] == fresh@);
            assert(writes_applied(ready, ns, all, more, i as nat) == here);
            assert(store.state() == writes_applied(ready, ns, all, more, (i + 1) as nat));
            keys = more;
        }
        if let Err(m) = done {
            assert(batch_done(ready, store.state(), ns, all, keys, Err::<(), String>(m)));
            return Err(m);
        }
        i += 1;
    }
    assert(batch_done(ready, store.state(), ns, all, keys, Ok::<(), String>(())));
    Ok(())
}

/// Whether a batch was applied as it should, given some fresh keys.
pub open spec fn batch_applied(
    ready: StoreState,
    after: StoreState,
    ns: NamespaceRef,
    writes: Seq<WriteView>,
    out: Result<(), String>,
) -> bool {
    exists|keys: Seq<Seq<char>>| #[trigger] batch_done(ready, after, ns, writes, keys, out)
}

/// Whether a batch was applied as it should to the repository that is there, or
/// was made.
pub open spec fn writes_done(
    before: StoreState,
    after: StoreState,
    repo: Seq<char>,
    writes: Seq<WriteView>,
    out: Result<(), String>,
) -> bool {
    ||| exists|ready: StoreState, ns: NamespaceRef| #[trigger]
        repo_ready(before, ready, repo, ns) && batch_applied(ready, after, ns, writes, out)
    ||| unknown(before, repo) && after == before && out is Err
}

/// A record that was written is read back, unless its address held something
/// else.
pub proof fn law_record_read_back(
    st: StoreState,
    ns: NamespaceRef,
    collection: Seq<char>,
    rkey: Seq<char>,
    record: Seq<u8>,
)
    requires
        st.blobs.dom().contains(kappa_of(record)) ==> st.blobs[kappa_of(record)] == record,
    ensures
        crate::atproto::repo::content_of(
            recorded(st, ns, record_name(collection, rkey), record),
            ns,
            record_name(collection, rkey),
        ) == Some((kappa_of(record), record)),
{
}

/// A record that was deleted is not read.
pub proof fn law_record_gone(
    st: StoreState,
    ns: NamespaceRef,
    collection: Seq<char>,
    rkey: Seq<char>,
)
    ensures
        crate::atproto::repo::content_of(
            st.unbound(ns, record_name(collection, rkey)),
            ns,
            record_name(collection, rkey),
        ) is None,
{
}

/// The token of a request is what follows `Bearer` or `DPoP` in its header.
pub proof fn law_token_in(token: Seq<char>)
    ensures
        token_in(Some("Bearer "@ + token)) == token,
        token_in(Some("DPoP "@ + token)) == token,
        token_in(None) == Seq::<char>::empty(),
{
    let bearer = "Bearer "@ + token;
    let dpop = "DPoP "@ + token;
    assert("Bearer "@ =~= bearer.subrange(0, "Bearer "@.len() as int));
    assert(bearer.skip("Bearer "@.len() as int) =~= token);
    assert("DPoP "@ =~= dpop.subrange(0, "DPoP "@.len() as int));
    assert(dpop.skip("DPoP "@.len() as int) =~= token);
    reveal_strlit("Bearer ");
    reveal_strlit("DPoP ");
    assert(!"Bearer "@.is_prefix_of(dpop)) by {
        if "Bearer "@.is_prefix_of(dpop) {
            assert("Bearer "@[0] == dpop.subrange(0, "Bearer "@.len() as int)[0]);
        }
    }
}

/// A record that was put is bound under its collection and key to the SHA-256
/// address of its content, which is stored; the URI and the content identifier
/// given back say so. Every other name stays as it was.
pub proof fn law_record_put(
    ready: StoreState,
    after: StoreState,
    ns: NamespaceRef,
    repo: Seq<char>,
    collection: Seq<char>,
    rkey: Seq<char>,
    record: Seq<u8>,
    w: RecordWritten,
    other: crate::store::state::Filed,
)
    requires
        record_put(ready, after, ns, repo, collection, rkey, record, Ok(w)),
        ready.blobs.dom().contains(kappa_of(record)) ==> ready.blobs[kappa_of(record)] == record,
    ensures
        w.uri@ == "at://"@ + repo + "/"@ + collection + "/"@ + rkey,
        w.cid@ == kappa_of(record),
        ({
            let k = StoreState::filed(ns, "record/"@ + collection + "/"@ + rkey);
            &&& after.tags.dom().contains(k)
            &&& after.tags[k].kappa == kappa_of(record)
            &&& after.blobs.dom().contains(kappa_of(record))
            &&& after.blobs[kappa_of(record)] == record
            &&& other != k ==> after.tags.dom().contains(other) == ready.tags.dom().contains(other)
                && after.tags[other] == ready.tags[other]
        }),
{
}

/// A write of a batch does what its name says: one that creates or updates binds
/// its record under its key, a new one under the fresh key where it brings none;
/// one that deletes unbinds its name; one without a record to bind, or with a name
/// that is none of these, is refused and binds nothing.
pub proof fn law_write_applied(
    st: StoreState,
    ns: NamespaceRef,
    w: WriteView,
    fresh: Seq<char>,
    record: Seq<u8>,
    other: crate::store::state::Filed,
)
    ensures
        ({
            let after = write_applied(st, ns, w, fresh);
            let refusal = write_refusal(st, ns, w, fresh);
            let creates = w.action == "create"@ || w.action
                == "com.atproto.repo.applyWrites#create"@;
            let updates = w.action == "update"@ || w.action
                == "com.atproto.repo.applyWrites#update"@;
            let deletes = w.action == "delete"@ || w.action
                == "com.atproto.repo.applyWrites#delete"@;
            let rkey = if creates && w.rkey.len() == 0 {
                fresh
            } else {
                w.rkey
            };
            let k = StoreState::filed(ns, "record/"@ + w.collection + "/"@ + rkey);
            &&& (creates || updates) && w.record == Some(record) && refusal is None
                ==> after.tags.dom().contains(k) && after.tags[k].kappa == kappa_of(record)
                && after.blobs.dom().contains(kappa_of(record))
            &&& deletes ==> refusal is None && !after.tags.dom().contains(k) && after.blobs
                == st.blobs
            &&& (creates || updates) && w.record is None ==> refusal is Some && after == st
            &&& !creates && !updates && !deletes ==> refusal is Some && after == st
            &&& (creates || updates) && w.record is Some && (!st.tags.dom().contains(k)
                || st.tags[k].version < u64::MAX) ==> refusal is None
            &&& other != k ==> after.tags.dom().contains(other) == st.tags.dom().contains(other)
                && after.tags[other] == st.tags[other]
        }),
{
    lemma_actions();
}

proof fn lemma_actions()
    ensures
        "create"@ != "update"@,
        "create"@ != "delete"@,
        "update"@ != "delete"@,
        "com.atproto.repo.applyWrites#create"@ != "com.atproto.repo.applyWrites#update"@,
        "com.atproto.repo.applyWrites#create"@ != "com.atproto.repo.applyWrites#delete"@,
        "com.atproto.repo.applyWrites#update"@ != "com.atproto.repo.applyWrites#delete"@,
        "create"@ != "com.atproto.repo.applyWrites#update"@,
        "create"@ != "com.atproto.repo.applyWrites#delete"@,
        "update"@ != "com.atproto.repo.applyWrites#create"@,
        "update"@ != "com.atproto.repo.applyWrites#delete"@,
        "delete"@ != "com.atproto.repo.applyWrites#create"@,
        "delete"@ != "com.atproto.repo.applyWrites#update"@,
{
    reveal_strlit("create");
    reveal_strlit("update");
    reveal_strlit("delete");
    reveal_strlit("com.atproto.repo.applyWrites#create");
    reveal_strlit("com.atproto.repo.applyWrites#update");
    reveal_strlit("com.atproto.repo.applyWrites#delete");
    assert("create"@[0] == 'c' && "update"@[0] == 'u' && "delete"@[0] == 'd');
    assert("com.atproto.repo.applyWrites#create"@[29] == 'c');
    assert("com.atproto.repo.applyWrites#update"@[29] == 'u');
    assert("com.atproto.repo.applyWrites#delete"@[29] == 'd');
    assert("create"@.len() == 6 && "com.atproto.repo.applyWrites#create"@.len() == 35);
    assert("update"@.len() == 6 && "com.atproto.repo.applyWrites#update"@.len() == 35);
    assert("delete"@.len() == 6 && "com.atproto.repo.applyWrites#delete"@.len() == 35);
}

} // verus!
