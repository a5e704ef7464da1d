//! Requests to repositories and accounts, with their JSON bodies. Every write is
//! followed by a commit on the changed records, which is proposed here and sealed
//! once it is signed.

use vstd::prelude::*;

use crate::atproto::account::{account_did, account_made, create_account, derived_did};
use crate::atproto::chain::{head_cid, is_tree, propose_commit, proposed, sealed};
use crate::atproto::cid::cid_of;
use crate::atproto::commit::{commit_cbor, CommitView, UnsignedCommit};
use crate::atproto::mst::{mst_written, Mst};
use crate::atproto::repo::{open_repo, opens, record_name, unknown};
use crate::atproto::session::{session_opened, Session, SessionError, SessionStore};
use crate::atproto::writes::{
    apply_writes, delete_record, fresh_key, is_fresh_key, put_record, record_written,
    recorded,
    writes_done, RecordWritten, RepoWrite, WriteView,
};
use crate::body::{
    both, denied, needed_text, needed_value, read_needed_text, read_needed_value, read_text,
    read_text_else, text_else, text_in, BodyError, BodyFault, Denied,
};
use crate::json::{
    json_rows, json_rows_of, shown_names, shown_part, shown_row, shown_rows, JsonPart, PartView,
};
use crate::kappa::kappa_of;
use crate::store::memory::InMemoryStore;
use crate::store::state::StoreState;
use crate::types::{NamespaceRef, StoreError};

verus! {

/// A commit that waits for its signature, and the namespace of its repository.
pub type Proposal = (NamespaceRef, UnsignedCommit);

/// Whether a commit was proposed on the records of a repository as they are: its
/// tree holds them, and it follows the latest commit.
pub open spec fn commit_due(
    st: StoreState,
    after: StoreState,
    repo: Seq<char>,
    rev: Seq<char>,
    out: Option<Proposal>,
) -> bool {
    match out {
        Some((ns, commit)) => opens(st, repo, ns) && on_records(
            st,
            after,
            ns,
            repo,
            rev,
            commit.content(),
        ),
        None => unknown(st, repo) && after == st,
    }
}

/// Whether a commit was proposed on the tree of the records of a namespace.
pub open spec fn on_records(
    st: StoreState,
    after: StoreState,
    ns: NamespaceRef,
    repo: Seq<char>,
    rev: Seq<char>,
    commit: CommitView,
) -> bool {
    exists|tree: Mst| #[trigger]
        is_tree(st, ns, tree) && proposed(st, after, ns, tree.pairs(), repo, rev, commit)
}

/// Proposes a commit on the records of a repository as they are.
pub fn follow_with_commit(store: &mut InMemoryStore, repo: &str, rev: &str) -> (out: Option<Proposal>)
    requires
        old(store).wf(),
    ensures
        final(store).wf(),
        commit_due(old(store).state(), final(store).state(), repo@, rev@, out),
{
    match open_repo(store, repo) {
        Some(ns) => {
            let commit = propose_commit(store, &ns, repo, rev);
            Some((ns, commit))
        },
        None => None,
    }
}

/// A write and the commit that follows it: the commit has the root of the changed
/// records as its data and the latest commit as its predecessor, and once it is
/// sealed it is the latest one, unless its address held something else or its name
/// and the revision's share a place.
pub proof fn law_write_committed(
    st: StoreState,
    after: StoreState,
    ns: NamespaceRef,
    repo: Seq<char>,
    rev: Seq<char>,
    commit: CommitView,
    sig: Seq<u8>,
)
    requires
        on_records(st, after, ns, repo, rev, commit),
        ({
            let bytes = commit_cbor(commit, Some(sig));
            after.blobs.dom().contains(kappa_of(bytes)) ==> after.blobs[kappa_of(bytes)] == bytes
        }),
        crate::types::name_hash("commit/head"@) != crate::types::name_hash("commit/rev"@),
    ensures
        exists|tree: Mst| #[trigger]
            is_tree(st, ns, tree) && commit.data == mst_written(Map::empty(), tree.pairs()).1,
        commit.prev == head_cid(st, ns),
        commit.rev == rev,
        head_cid(sealed(after, ns, commit, sig), ns) == Some(
            cid_of(commit_cbor(commit, Some(sig))),
        ),
{
    crate::atproto::chain::law_commit_chain(after, ns, commit, sig);
}

/// Writing a record leaves the latest commit as it is, unless the record's name
/// and the commit's share a place.
pub proof fn law_write_keeps_head(st: StoreState, ns: NamespaceRef, name: Seq<char>, record: Seq<u8>)
    requires
        head_cid(st, ns) is Some,
        crate::types::name_hash(name) != crate::types::name_hash("commit/head"@),
    ensures
        head_cid(recorded(st, ns, name, record), ns) == head_cid(st, ns),
        head_cid(st.unbound(ns, name), ns) == head_cid(st, ns),
{
}

// -- Records ------------------------------------------------------------------------

/// Whether a record was written and followed by a commit; a write that is refused
/// is followed by none.
pub open spec fn write_followed(
    before: StoreState,
    after: StoreState,
    repo: Seq<char>,
    collection: Seq<char>,
    rkey: Seq<char>,
    record: Seq<u8>,
    rev: Seq<char>,
    out: Result<(RecordWritten, Option<Proposal>), Denied<StoreError>>,
) -> bool {
    exists|mid: StoreState, done: Result<RecordWritten, StoreError>| #[trigger]
        record_written(before, mid, repo, collection, rkey, record, done) && (match (done, out) {
            (Ok(w), Ok((written, commit))) => w == written && commit_due(
                mid,
                after,
                repo,
                rev,
                commit,
            ),
            (Err(e), Err(Denied::Refused(f))) => e == f && after == mid,
            _ => false,
        })
}

/// Writes a record under a key and proposes the commit that follows.
fn write_and_follow(
    store: &mut InMemoryStore,
    repo: &str,
    collection: &str,
    rkey: &str,
    record: &[u8],
    rev: &str,
) -> (out: Result<(RecordWritten, Option<Proposal>), Denied<StoreError>>)
    requires
        old(store).wf(),
    ensures
        final(store).wf(),
        write_followed(
            old(store).state(),
            final(store).state(),
            repo@,
            collection@,
            rkey@,
            record@,
            rev@,
            out,
        ),
{
    let ghost before = store.state();
    let done = put_record(store, repo, collection, rkey, record);
    let ghost mid = store.state();
    let ghost kept = done;
    let out = match done {
        Ok(written) => {
            let commit = follow_with_commit(store, repo, rev);
            Ok((written, commit))
        },
        Err(e) => Err(Denied::Refused(e)),
    };
    proof {
        assert(record_written(before, mid, repo@, collection@, rkey@, record@, kept));
        assert(write_followed(
            before,
            store.state(),
            repo@,
            collection@,
            rkey@,
            record@,
            rev@,
            out,
        ));
    }
    out
}

/// What a body says of a new record: the repository and the collection, the
/// record, and the key where it has one.
pub open spec fn new_record(body: Seq<u8>) -> Result<
    ((Seq<char>, Seq<char>), (Seq<u8>, Option<Seq<char>>)),
    BodyFault,
> {
    both(
        both(needed_text(body, "repo"@), needed_text(body, "collection"@)),
        both(needed_value(body, "record"@), text_in(body, "rkey"@)),
    )
}

/// Whether a new record was written under its key, or under one made from the
/// time, and followed by a commit.
pub open spec fn created(
    before: StoreState,
    after: StoreState,
    parts: ((Seq<char>, Seq<char>), (Seq<u8>, Option<Seq<char>>)),
    rev: Seq<char>,
    out: Result<(RecordWritten, Option<Proposal>), Denied<StoreError>>,
) -> bool {
    let ((repo, collection), (record, rkey)) = parts;
    match rkey {
        Some(key) => write_followed(before, after, repo,
                collection,
                key,
                record, rev, out),
        None => exists|key: Seq<char>| #[trigger]
            is_fresh_key(key) && write_followed(
                before,
                after,
                repo,
                collection,
                key,
                record,
                rev,
                out,
            ),
    }
}

/// Writes the record of a body under a key, or under one made from the time.
pub fn create_record_body(store: &mut InMemoryStore, body: &[u8], rev: &str) -> (out: Result<
    (RecordWritten, Option<Proposal>),
    Denied<StoreError>,
>)
    requires
        old(store).wf(),
    ensures
        final(store).wf(),
        match new_record(body@) {
            Err(f) => denied(out, f) && final(store).state() == old(store).state(),
            Ok(parts) => created(old(store).state(), final(store).state(), parts, rev@, out),
        },
{
    let repo = match read_needed_text(body, "repo") {
        Ok(v) => v,
        Err(e) => return Err(Denied::Body(e)),
    };
    let collection = match read_needed_text(body, "collection") {
        Ok(v) => v,
        Err(e) => return Err(Denied::Body(e)),
    };
    let record = match read_needed_value(body, "record") {
        Ok(v) => v,
        Err(e) => return Err(Denied::Body(e)),
    };
    let rkey = match read_text(body, "rkey") {
        Ok(v) => v,
        Err(e) => return Err(Denied::Body(e)),
    };
    let key = match rkey {
        Some(key) => key,
        None => fresh_key(),
    };
    assert(rkey is None ==> is_fresh_key(key@));
    write_and_follow(
        store,
        repo.as_str(),
        collection.as_str(),
        key.as_str(),
        record.as_slice(),
        rev,
    )
}

/// What a body says of a record: the repository, the collection and the key, and
/// the record.
pub open spec fn keyed_record(body: Seq<u8>) -> Result<
    ((Seq<char>, Seq<char>), (Seq<char>, Seq<u8>)),
    BodyFault,
> {
    both(
        both(needed_text(body, "repo"@), needed_text(body, "collection"@)),
        both(needed_text(body, "rkey"@), needed_value(body, "record"@)),
    )
}

/// Writes the record of a body under its key.
pub fn put_record_body(store: &mut InMemoryStore, body: &[u8], rev: &str) -> (out: Result<
    (RecordWritten, Option<Proposal>),
    Denied<StoreError>,
>)
    requires
        old(store).wf(),
    ensures
        final(store).wf(),
        match keyed_record(body@) {
            Err(f) => denied(out, f) && final(store).state() == old(store).state(),
            Ok(((repo, collection), (rkey, record))) => write_followed(
                old(store).state(),
                final(store).state(),
                repo,
                collection,
                rkey,
                record,
                rev@,
                out,
            ),
        },
{
    let repo = match read_needed_text(body, "repo") {
        Ok(v) => v,
        Err(e) => return Err(Denied::Body(e)),
    };
    let collection = match read_needed_text(body, "collection") {
        Ok(v) => v,
        Err(e) => return Err(Denied::Body(e)),
    };
    let rkey = match read_needed_text(body, "rkey") {
        Ok(v) => v,
        Err(e) => return Err(Denied::Body(e)),
    };
    let record = match read_needed_value(body, "record") {
        Ok(v) => v,
        Err(e) => return Err(Denied::Body(e)),
    };
    write_and_follow(
        store,
        repo.as_str(),
        collection.as_str(),
        rkey.as_str(),
        record.as_slice(),
        rev,
    )
}

/// Whether a record was deleted from a repository and a commit followed; none
/// where there is no such repository.
pub open spec fn delete_followed(
    before: StoreState,
    after: StoreState,
    repo: Seq<char>,
    name: Seq<char>,
    rev: Seq<char>,
    out: Option<Option<Proposal>>,
) -> bool {
    match out {
        Some(commit) => exists|ns: NamespaceRef| #[trigger]
            opens(before, repo, ns) && commit_due(
                before.unbound(ns, name),
                after,
                repo,
                rev,
                commit,
            ),
        None => unknown(before, repo) && after == before,
    }
}

/// Deletes the record that a body names; none where its repository is not there.
pub fn delete_record_body(store: &mut InMemoryStore, body: &[u8], rev: &str) -> (out: Result<
    Option<Option<Proposal>>,
    BodyError,
>)
    requires
        old(store).wf(),
    ensures
        final(store).wf(),
        match (
            both(
                both(needed_text(body@, "repo"@), needed_text(body@, "collection"@)),
                needed_text(body@, "rkey"@),
            ),
            out,
        ) {
            (Err(f), Err(e)) => e.deep_view() == f && final(store).state() == old(store).state(),
            (Ok(((repo, collection), rkey)), Ok(done)) => delete_followed(
                old(store).state(),
                final(store).state(),
                repo,
                record_name(collection, rkey),
                rev@,
                done,
            ),
            _ => false,
        },
{
    let repo = match read_needed_text(body, "repo") {
        Ok(v) => v,
        Err(e) => return Err(e),
    };
    let collection = match read_needed_text(body, "collection") {
        Ok(v) => v,
        Err(e) => return Err(e),
    };
    let rkey = match read_needed_text(body, "rkey") {
        Ok(v) => v,
        Err(e) => return Err(e),
    };
    if !delete_record(store, repo.as_str(), collection.as_str(), rkey.as_str()) {
        return Ok(None);
    }
    Ok(Some(follow_with_commit(store, repo.as_str(), rev)))
}

// -- Batches ------------------------------------------------------------------------

/// The names that a write of a batch is read by.
pub open spec fn write_names() -> Seq<Seq<char>> {
    seq!["$type"@, "action"@, "collection"@, "rkey"@, "value"@, "record"@]
}

/// The text of a value; empty where it is none.
pub open spec fn text_or_empty(part: Option<PartView>) -> Seq<char> {
    match part {
        Some(p) => match p.text {
            Some(s) => s,
            None => Seq::empty(),
        },
        None => Seq::empty(),
    }
}

/// The first of two values that is there.
pub open spec fn first_of(a: Option<PartView>, b: Option<PartView>) -> Option<PartView> {
    if a is Some {
        a
    } else {
        b
    }
}

/// A write of a batch: what it does by `$type` or `action`, and its record by
/// `value` or `record`.
pub open spec fn write_in(row: Seq<Option<PartView>>) -> WriteView {
    WriteView {
        action: text_or_empty(first_of(row[0], row[1])),
        collection: text_or_empty(row[2]),
        rkey: text_or_empty(row[3]),
        record: match first_of(row[4], row[5]) {
            Some(p) => Some(p.bytes),
            None => None,
        },
    }
}

/// The writes of a batch in a body.
pub open spec fn writes_in(body: Seq<u8>) -> Result<Seq<WriteView>, BodyFault> {
    match json_rows_of(body, "writes"@, write_names()) {
        None => Err(BodyFault::NotJson),
        Some(None) => Err(BodyFault::Missing("writes array"@)),
        Some(Some(rows)) => Ok(Seq::new(rows.len(), |i: int| write_in(rows[i]))),
    }
}

fn part_text(part: &Option<JsonPart>) -> (out: String)
    ensures
        out@ == text_or_empty(shown_part(*part)),
{
    let empty = String::new();
    assert(empty@ =~= Seq::<char>::empty());
    match part {
        Some(p) => match &p.text {
            Some(s) => s.clone(),
            None => empty,
        },
        None => empty,
    }
}

fn read_write(row: &Vec<Option<JsonPart>>) -> (out: RepoWrite)
    requires
        row@.len() == 6,
    ensures
        out.deep_view() == write_in(shown_row(row@)),
{
    let ghost seen = shown_row(row@);
    assert(forall|i: int| 0 <= i < 6 ==> #[trigger] seen[i] == shown_part(row@[i]));
    let action = if row[0].is_some() {
        part_text(&row[0])
    } else {
        part_text(&row[1])
    };
    let chosen: &Option<JsonPart> = if row[4].is_some() {
        &row[4]
    } else {
        &row[5]
    };
    let record: Option<Vec<u8>> = match chosen {
        Some(p) => Some(crate::bytes::copy_bytes(p.bytes.as_slice())),
        None => None,
    };
    RepoWrite { action, collection: part_text(&row[2]), rkey: part_text(&row[3]), record }
}

fn read_writes(body: &[u8]) -> (out: Result<Vec<RepoWrite>, BodyError>)
    ensures
        match (out, writes_in(body@)) {
            (Ok(v), Ok(s)) => v.deep_view() == s,
            (Err(e), Err(f)) => e.deep_view() == f,
            _ => false,
        },
{
    let mut names: Vec<&str> = Vec::new();
    names.push("$type");
    names.push("action");
    names.push("collection");
    names.push("rkey");
    names.push("value");
    names.push("record");
    assert(shown_names(names@) =~= write_names());
    let rows = match json_rows(body, "writes", names.as_slice()) {
        Some(Some(rows)) => rows,
        Some(None) => return Err(BodyError::Missing("writes array".to_owned())),
        None => return Err(BodyError::NotJson),
    };
    let ghost all = shown_rows(rows@);
    let ghost want = Seq::new(all.len(), |i: int| write_in(all[i]));
    let mut out: Vec<RepoWrite> = Vec::new();
    let mut i: usize = 0;
    assert(out.deep_view() =~= want.take(0));
    while i < rows.len()
        invariant
            i <= rows@.len(),
            all == shown_rows(rows@),
            want == Seq::new(all.len(), |i: int| write_in(all[i])),
            forall|k: int| 0 <= k < rows@.len() ==> (#[trigger] rows@[k])@.len() == 6,
            out.deep_view() == want.take(i as int),
        decreases rows@.len() - i,
    {
        let ghost had = out.deep_view();
        let write = read_write(&rows[i]);
        let ghost shown = write.deep_view();
        out.push(write);
        proof {
            assert(all[i as int] == shown_row(rows@[i as int]@));
            assert(shown == want[i as int]);
            assert(out.deep_view() =~= had.push(shown));
            assert(want.take(i + 1) =~= want.take(i as int).push(want[i as int]));
        }
        i += 1;
    }
    assert(want.take(i as int) =~= want);
    Ok(out)
}

/// Whether a batch was applied and followed by a commit; one that is refused is
/// followed by none.
pub open spec fn batch_followed(
    before: StoreState,
    after: StoreState,
    repo: Seq<char>,
    writes: Seq<WriteView>,
    rev: Seq<char>,
    out: Result<Option<Proposal>, Denied<String>>,
) -> bool {
    exists|mid: StoreState, done: Result<(), String>| #[trigger]
        writes_done(before, mid, repo, writes, done) && (match (done, out) {
            (Ok(_), Ok(commit)) => commit_due(mid, after, repo, rev, commit),
            (Err(m), Err(Denied::Refused(n))) => m == n && after == mid,
            _ => false,
        })
}

/// Applies the writes of a body to its repository.
pub fn apply_writes_body(store: &mut InMemoryStore, body: &[u8], rev: &str) -> (out: Result<
    Option<Proposal>,
    Denied<String>,
>)
    requires
        old(store).wf(),
    ensures
        final(store).wf(),
        match both(needed_text(body@, "repo"@), writes_in(body@)) {
            Err(f) => denied(out, f) && final(store).state() == old(store).state(),
            Ok((repo, writes)) => batch_followed(
                old(store).state(),
                final(store).state(),
                repo,
                writes,
                rev@,
                out,
            ),
        },
{
    let repo = match read_needed_text(body, "repo") {
        Ok(v) => v,
        Err(e) => return Err(Denied::Body(e)),
    };
    let writes = match read_writes(body) {
        Ok(v) => v,
        Err(e) => return Err(Denied::Body(e)),
    };
    let list = writes.as_slice();
    assert(list.deep_view() =~= writes.deep_view());
    let ghost before = store.state();
    let done = apply_writes(store, repo.as_str(), list);
    let ghost mid = store.state();
    assert(writes_done(before, mid, repo@, list.deep_view(), done));
    match done {
        Ok(_) => Ok(follow_with_commit(store, repo.as_str(), rev)),
        Err(m) => Err(Denied::Refused(m)),
    }
}

// -- Sessions and accounts ------------------------------------------------------------

/// Why a sign-in was refused.
#[derive(Debug)]
pub enum SignInRefusal {
    /// The identifier or the password is missing.
    Incomplete,
    Session(SessionError),
}

/// Opens a session for the `identifier` and `password` of a body, with the key
/// that it names.
pub fn create_session_body(sessions: &mut SessionStore, body: &[u8]) -> (out: Result<
    Session,
    Denied<SignInRefusal>,
>)
    requires
        old(sessions).wf(),
    ensures
        final(sessions).wf(),
        match both(
            both(text_else(body@, "identifier"@, ""@), text_else(body@, "password"@, ""@)),
            text_else(body@, "dpopJkt"@, ""@),
        ) {
            Err(f) => denied(out, f) && final(sessions).state() == old(sessions).state(),
            Ok(((identifier, password), jkt)) => if identifier.len() == 0 || password.len() == 0 {
                out matches Err(Denied::Refused(SignInRefusal::Incomplete))
                    && final(sessions).state() == old(sessions).state()
            } else {
                session_opened(
                    old(sessions).state(),
                    final(sessions).state(),
                    identifier,
                    password,
                    identifier,
                    jkt,
                    match out {
                        Ok(s) => Ok(s),
                        Err(Denied::Refused(SignInRefusal::Session(e))) => Err(e),
                        Err(_) => Err(SessionError::InvalidToken),
                    },
                )
            },
        },
{
    let identifier = match read_text_else(body, "identifier", "") {
        Ok(v) => v,
        Err(e) => return Err(Denied::Body(e)),
    };
    let password = match read_text_else(body, "password", "") {
        Ok(v) => v,
        Err(e) => return Err(Denied::Body(e)),
    };
    let jkt = match read_text_else(body, "dpopJkt", "") {
        Ok(v) => v,
        Err(e) => return Err(Denied::Body(e)),
    };
    if identifier.as_str().unicode_len() == 0 || password.as_str().unicode_len() == 0 {
        return Err(Denied::Refused(SignInRefusal::Incomplete));
    }
    match sessions.create_session(
        identifier.as_str(),
        password.as_str(),
        identifier.as_str(),
        jkt.as_str(),
    ) {
        Ok(s) => Ok(s),
        Err(e) => Err(Denied::Refused(SignInRefusal::Session(e))),
    }
}

/// Why an account was refused.
#[derive(Debug)]
pub enum AccountRefusal {
    /// The handle or the password is missing.
    Incomplete,
    Store(StoreError),
}

/// A new account.
#[derive(Debug)]
pub struct NewAccount {
    pub handle: String,
    pub password: String,
    pub did: String,
    pub rev: String,
}

/// Whether the account that a body asks for was made: with the identifier that it
/// brings, or one derived from its handle.
pub open spec fn account_granted(
    before: StoreState,
    after: StoreState,
    handle: Seq<char>,
    password: Seq<char>,
    did: Option<Seq<char>>,
    out: Result<NewAccount, Denied<AccountRefusal>>,
) -> bool {
    let name = match did {
        Some(d) => d,
        None => derived_did(handle),
    };
    match out {
        Ok(a) => a.handle@ == handle && a.password@ == password && a.did@ == name && account_made(
            before,
            after,
            name,
            Ok(a.rev),
        ),
        Err(Denied::Refused(AccountRefusal::Store(e))) => account_made(
            before,
            after,
            name,
            Err(e),
        ),
        Err(_) => false,
    }
}

/// Makes the account of a body, with a `handle` and a `password`.
pub fn create_account_body(store: &mut InMemoryStore, body: &[u8]) -> (out: Result<
    NewAccount,
    Denied<AccountRefusal>,
>)
    requires
        old(store).wf(),
    ensures
        final(store).wf(),
        match both(
            both(text_else(body@, "handle"@, ""@), text_else(body@, "password"@, ""@)),
            text_in(body@, "did"@),
        ) {
            Err(f) => denied(out, f) && final(store).state() == old(store).state(),
            Ok(((handle, password), did)) => if handle.len() == 0 || password.len() == 0 {
                out matches Err(Denied::Refused(AccountRefusal::Incomplete)) && final(store).state()
                    == old(store).state()
            } else {
                account_granted(
                    old(store).state(),
                    final(store).state(),
                    handle,
                    password,
                    did,
                    out,
                )
            },
        },
{
    let handle = match read_text_else(body, "handle", "") {
        Ok(v) => v,
        Err(e) => return Err(Denied::Body(e)),
    };
    let password = match read_text_else(body, "password", "") {
        Ok(v) => v,
        Err(e) => return Err(Denied::Body(e)),
    };
    let brought = match read_text(body, "did") {
        Ok(v) => v,
        Err(e) => return Err(Denied::Body(e)),
    };
    if handle.as_str().unicode_len() == 0 || password.as_str().unicode_len() == 0 {
        return Err(Denied::Refused(AccountRefusal::Incomplete));
    }
    let given: Option<&str> = match &brought {
        Some(d) => Some(d.as_str()),
        None => None,
    };
    let did = account_did(handle.as_str(), given);
    match create_account(store, did.as_str()) {
        Ok(rev) => Ok(NewAccount { handle, password, did, rev }),
        Err(e) => Err(Denied::Refused(AccountRefusal::Store(e))),
    }
}

} // verus!
