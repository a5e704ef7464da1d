//! Reading repositories: commits, records, blobs, archives and listings.

use vstd::prelude::*;

use crate::atproto::car::{car_bytes, encode_car, CarBlock};
use crate::hexadecimal::{hex_bytes, hex_decode, hex_of, law_hex_roundtrip};
use crate::json::{json_text, json_text_of};
use crate::kappa::kappa_of;
use crate::sorted::{ascending, insert_text};
use crate::store::memory::{InMemoryStore, NamespaceRecord};
use crate::store::namespaces::{alias_text, first_alias, namespace_listed, shown_str};
use crate::store::state::{RecordView, StoreState};
use crate::text::{
    chars_of, joined, joined3, less_text, split_once, split_once_spec, text_begins_with, text_below,
    text_of, text_strip_prefix,
};
use crate::types::{name_hash, NamespaceRef, TagEntry, TagView};

verus! {

// -- Names ------------------------------------------------------------------------

/// Whether a namespace is that of a repository.
pub open spec fn opens(st: StoreState, repo: Seq<char>, ns: NamespaceRef) -> bool {
    let key = alias_text(repo, Some("atproto"@));
    st.aliases.dom().contains(key) && ns.id() == st.aliases[key]
}

/// Whether no namespace is that of a repository.
pub open spec fn unknown(st: StoreState, repo: Seq<char>) -> bool {
    !st.aliases.dom().contains(alias_text(repo, Some("atproto"@)))
}

/// The namespace of a repository.
pub fn open_repo(store: &InMemoryStore, repo: &str) -> (out: Option<NamespaceRef>)
    requires
        store.wf(),
    ensures
        match out {
            Some(ns) => opens(store.state(), repo@, ns) && ns.spec_name() == Some(repo@),
            None => unknown(store.state(), repo@),
        },
{
    match store.namespace_resolve(repo, Some("atproto")) {
        Ok(ns) => Some(ns),
        Err(_) => None,
    }
}

/// The address that a name is bound to.
pub open spec fn target_of(st: StoreState, ns: NamespaceRef, name: Seq<char>) -> Option<Seq<char>> {
    let k = StoreState::filed(ns, name);
    if st.tags.dom().contains(k) {
        Some(st.tags[k].kappa)
    } else {
        None
    }
}

/// The address that a name is bound to, and its content, where both are there.
pub open spec fn content_of(st: StoreState, ns: NamespaceRef, name: Seq<char>) -> Option<
    (Seq<char>, Seq<u8>),
> {
    match target_of(st, ns, name) {
        Some(kappa) => if st.blobs.dom().contains(kappa) {
            Some((kappa, st.blobs[kappa]))
        } else {
            None
        },
        None => None,
    }
}

fn read_name(store: &InMemoryStore, ns: &NamespaceRef, name: &str) -> (out: Option<
    (String, Vec<u8>),
>)
    requires
        store.wf(),
    ensures
        match out {
            Some((kappa, data)) => content_of(store.state(), *ns, name@) == Some(
                (kappa@, data@),
            ),
            None => content_of(store.state(), *ns, name@) is None,
        },
{
    match store.tag_get(ns, name) {
        Ok(entry) => match store.blob_get(entry.kappa.as_str()) {
            Ok(data) => Some((entry.kappa, data)),
            Err(_) => None,
        },
        Err(_) => None,
    }
}

/// The name under which a record is kept.
pub open spec fn record_name(collection: Seq<char>, rkey: Seq<char>) -> Seq<char> {
    "record/"@ + collection + "/"@ + rkey
}

/// The name under which a record is kept.
pub fn record_tag(collection: &str, rkey: &str) -> (out: String)
    ensures
        out@ == record_name(collection@, rkey@),
{
    let head = joined("record/", collection);
    joined3(head.as_str(), "/", rkey)
}

/// The URI of a record.
pub open spec fn record_uri(repo: Seq<char>, collection: Seq<char>, rkey: Seq<char>) -> Seq<char> {
    "at://"@ + repo + "/"@ + collection + "/"@ + rkey
}

/// The URI of a record.
pub fn at_uri(repo: &str, collection: &str, rkey: &str) -> (out: String)
    ensures
        out@ == record_uri(repo@, collection@, rkey@),
{
    let head = joined("at://", repo);
    let middle = joined3(head.as_str(), "/", collection);
    joined3(middle.as_str(), "/", rkey)
}

// -- Commits, blobs and records ---------------------------------------------------

/// The address and the revision of the latest commit.
pub fn latest_commit(store: &InMemoryStore, did: &str) -> (out: Option<(String, String)>)
    requires
        store.wf(),
    ensures
        match out {
            Some((cid, rev)) => exists|ns: NamespaceRef| #[trigger]
                opens(store.state(), did@, ns) && target_of(store.state(), ns, "commit/head"@)
                    == Some(cid@) && rev@ == (match target_of(
                    store.state(),
                    ns,
                    "commit/rev"@,
                ) {
                    Some(r) => r,
                    None => Seq::empty(),
                }),
            None => unknown(store.state(), did@) || exists|ns: NamespaceRef| #[trigger]
                opens(store.state(), did@, ns) && target_of(
                    store.state(),
                    ns,
                    "commit/head"@,
                ) is None,
        },
{
    let ns = match open_repo(store, did) {
        Some(ns) => ns,
        None => return None,
    };
    assert(opens(store.state(), did@, ns));
    let head = match store.tag_get(&ns, "commit/head") {
        Ok(entry) => entry.kappa,
        Err(_) => return None,
    };
    let rev = match store.tag_get(&ns, "commit/rev") {
        Ok(entry) => entry.kappa,
        Err(_) => {
            let empty = String::new();
            assert(empty@ =~= Seq::<char>::empty());
            empty
        },
    };
    Some((head, rev))
}

/// The content of a blob, by its content identifier.
pub fn get_blob(store: &InMemoryStore, did: &str, cid: &str) -> (out: Option<Vec<u8>>)
    requires
        store.wf(),
    ensures
        match out {
            Some(data) => exists|ns: NamespaceRef| #[trigger]
                opens(store.state(), did@, ns) && (content_of(store.state(), ns, "blob/"@ + cid@)
                    matches Some((_, d)) && d == data@),
            None => unknown(store.state(), did@) || exists|ns: NamespaceRef| #[trigger]
                opens(store.state(), did@, ns) && content_of(
                    store.state(),
                    ns,
                    "blob/"@ + cid@,
                ) is None,
        },
{
    let ns = match open_repo(store, did) {
        Some(ns) => ns,
        None => return None,
    };
    assert(opens(store.state(), did@, ns));
    let name = joined("blob/", cid);
    match read_name(store, &ns, name.as_str()) {
        Some((_, data)) => Some(data),
        None => None,
    }
}

/// A record that was read.
#[derive(Debug)]
pub struct RecordRead {
    pub uri: String,
    pub cid: String,
    pub data: Vec<u8>,
}

/// A record of a repository.
pub fn get_record(store: &InMemoryStore, repo: &str, collection: &str, rkey: &str) -> (out: Option<
    RecordRead,
>)
    requires
        store.wf(),
    ensures
        match out {
            Some(r) => r.uri@ == record_uri(repo@, collection@, rkey@) && exists|ns: NamespaceRef|
                #[trigger]
                opens(store.state(), repo@, ns) && content_of(
                    store.state(),
                    ns,
                    record_name(collection@, rkey@),
                ) == Some((r.cid@, r.data@)),
            None => unknown(store.state(), repo@) || exists|ns: NamespaceRef| #[trigger]
                opens(store.state(), repo@, ns) && content_of(
                    store.state(),
                    ns,
                    record_name(collection@, rkey@),
                ) is None,
        },
{
    let ns = match open_repo(store, repo) {
        Some(ns) => ns,
        None => return None,
    };
    assert(opens(store.state(), repo@, ns));
    let name = record_tag(collection, rkey);
    match read_name(store, &ns, name.as_str()) {
        Some((cid, data)) => Some(
            RecordRead { uri: at_uri(repo, collection, rkey), cid, data },
        ),
        None => None,
    }
}

/// The identifier that a stored handle stands for; empty where its record does
/// not say.
pub fn resolve_handle(store: &InMemoryStore, handle: &str) -> (out: Option<String>)
    requires
        store.wf(),
    ensures
        ({
            let st = store.state();
            match out {
                Some(did) => exists|ns: NamespaceRef| #[trigger]
                    is_handles(st, ns) && (content_of(st, ns, "handle:atproto:"@ + handle@)
                        matches Some((_, data)) && did@ == (match json_text_of(data, "anchor"@) {
                        Some(Some(anchor)) => anchor,
                        _ => Seq::empty(),
                    })),
                None => !st.aliases.dom().contains("_handles"@) || exists|ns: NamespaceRef|
                    #[trigger]
                    is_handles(st, ns) && content_of(
                        st,
                        ns,
                        "handle:atproto:"@ + handle@,
                    ) is None,
            }
        }),
{
    let ns = match store.namespace_resolve("_handles", None) {
        Ok(ns) => ns,
        Err(_) => return None,
    };
    assert(is_handles(store.state(), ns));
    let name = joined("handle:atproto:", handle);
    match read_name(store, &ns, name.as_str()) {
        Some((_, data)) => match json_text(data.as_slice(), "anchor") {
            Some(Some(anchor)) => Some(anchor),
            _ => {
                let empty = String::new();
                assert(empty@ =~= Seq::<char>::empty());
                Some(empty)
            },
        },
        None => None,
    }
}

/// Whether a namespace is that of the handles.
pub open spec fn is_handles(st: StoreState, ns: NamespaceRef) -> bool {
    st.aliases.dom().contains("_handles"@) && ns.id() == st.aliases["_handles"@]
}

// -- Archives ---------------------------------------------------------------------

/// A text without every occurrence of another, found from the front.
pub open spec fn dropped(s: Seq<char>, part: Seq<char>) -> Seq<char>
    decreases s.len(),
{
    if s.len() == 0 || part.len() == 0 {
        s
    } else if part.is_prefix_of(s) {
        dropped(s.skip(part.len() as int), part)
    } else {
        seq![s[0]] + dropped(s.skip(1), part)
    }
}

fn is_at(chars: &Vec<char>, at: usize, part: &Vec<char>) -> (yes: bool)
    requires
        at <= chars@.len(),
    ensures
        yes == part@.is_prefix_of(chars@.skip(at as int)),
{
    if part.len() > chars.len() - at {
        return false;
    }
    let total: usize = chars.len();
    let mut i: usize = 0;
    while i < part.len()
        invariant
            i <= part@.len() <= chars@.len() - at,
            at <= chars@.len(),
            total == chars@.len(),
            forall|j: int| 0 <= j < i ==> chars@[at + j] == #[trigger] part@[j],
        decreases part@.len() - i,
    {
        if chars[at + i] != part[i] {
            assert(chars@.skip(at as int)[i as int] != part@[i as int]);
            return false;
        }
        i += 1;
    }
    assert(part@ =~= chars@.skip(at as int).subrange(0, part@.len() as int));
    true
}

fn drop_text(s: &str, part: &str) -> (out: String)
    ensures
        out@ == dropped(s@, part@),
{
    let chars = chars_of(s);
    let drop = chars_of(part);
    if drop.len() == 0 {
        return s.to_owned();
    }
    let mut out: Vec<char> = Vec::new();
    let mut i: usize = 0;
    assert(chars@.skip(0) =~= chars@);
    while i < chars.len()
        invariant
            i <= chars@.len(),
            chars@ == s@,
            drop@ == part@,
            drop@.len() > 0,
            out@ + dropped(s@.skip(i as int), part@) == dropped(s@, part@),
        decreases chars@.len() - i,
    {
        let ghost rest = s@.skip(i as int);
        let ghost had = out@;
        if is_at(&chars, i, &drop) {
            proof {
                assert(rest.skip(part@.len() as int) =~= s@.skip(i + part@.len()));
            }
            i += drop.len();
        } else {
            out.push(chars[i]);
            proof {
                assert(rest.skip(1) =~= s@.skip(i + 1));
                assert(out@ + dropped(s@.skip(i + 1), part@) =~= had + (seq![rest[0]] + dropped(
                    rest.skip(1),
                    part@,
                )));
            }
            i += 1;
        }
    }
    proof {
        assert(s@.skip(i as int) =~= Seq::<char>::empty());
        assert(out@ =~= dropped(s@, part@));
    }
    text_of(out.as_slice())
}

/// The bytes under which an address goes into an archive: its SHA-256 digest,
/// nothing where it has none.
pub open spec fn archive_cid(kappa: Seq<char>) -> Seq<u8> {
    match hex_bytes(dropped(kappa, "sha256:"@)) {
        Some(digest) => digest,
        None => Seq::empty(),
    }
}

fn cid_for_archive(kappa: &str) -> (out: Vec<u8>)
    ensures
        out@ == archive_cid(kappa@),
{
    let digits = drop_text(kappa, "sha256:");
    match hex_decode(digits.as_str()) {
        Some(digest) => digest,
        None => {
            let empty: Vec<u8> = Vec::new();
            assert(empty@ =~= Seq::<u8>::empty());
            empty
        },
    }
}

/// Whether the content of a tag goes into an archive: records and tree nodes
/// that are stored.
pub open spec fn archived(st: StoreState, tag: TagView) -> bool {
    ("record/"@.is_prefix_of(tag.name) || "mst/"@.is_prefix_of(tag.name))
        && st.blobs.dom().contains(tag.kappa)
}

/// The blocks that tags bring into an archive.
pub open spec fn archive_blocks(st: StoreState, tags: Seq<TagView>) -> Seq<(Seq<u8>, Seq<u8>)>
    decreases tags.len(),
{
    if tags.len() == 0 {
        Seq::empty()
    } else {
        let before = archive_blocks(st, tags.drop_last());
        let tag = tags.last();
        if archived(st, tag) {
            before.push((archive_cid(tag.kappa), st.blobs[tag.kappa]))
        } else {
            before
        }
    }
}

/// The archive of a repository: the latest commit as root and first block, then
/// the records and tree nodes by ascending name.
pub open spec fn repo_archive(
    st: StoreState,
    head: (Seq<char>, Seq<u8>),
    tags: Seq<TagView>,
) -> Seq<u8> {
    car_bytes(
        Some(archive_cid(head.0)),
        seq![(archive_cid(head.0), head.1)] + archive_blocks(st, tags),
    )
}

/// Whether a block is small enough to be framed.
pub open spec fn frameable(block: (Seq<u8>, Seq<u8>)) -> bool {
    block.0.len() + block.1.len() <= usize::MAX
}

/// Whether all blocks are small enough to be framed.
pub open spec fn all_frameable(blocks: Seq<(Seq<u8>, Seq<u8>)>) -> bool {
    forall|i: int| 0 <= i < blocks.len() ==> frameable(#[trigger] blocks[i])
}

/// Why a repository was not archived.
#[derive(Debug, Clone, Copy, PartialEq, Eq, Structural)]
pub enum ArchiveError {
    NotFound,
    /// A block is too large to be framed.
    TooLarge,
}

/// Whether archiving did what it should, given the namespace and its tags.
pub open spec fn archived_as(
    st: StoreState,
    ns: NamespaceRef,
    tags: Seq<TagView>,
    out: Result<Vec<u8>, ArchiveError>,
) -> bool {
    match content_of(st, ns, "commit/head"@) {
        None => out matches Err(e) && e == ArchiveError::NotFound,
        Some(head) => {
            let blocks = seq![(archive_cid(head.0), head.1)] + archive_blocks(st, tags);
            match out {
                Ok(car) => all_frameable(blocks) && car@ == repo_archive(st, head, tags),
                Err(e) => e == ArchiveError::TooLarge && !all_frameable(blocks),
            }
        },
    }
}

/// Exports a repository as an archive.
pub fn get_repo(store: &InMemoryStore, did: &str) -> (out: Result<Vec<u8>, ArchiveError>)
    requires
        store.wf(),
    ensures
        if unknown(store.state(), did@) {
            out matches Err(e) && e == ArchiveError::NotFound
        } else {
            exists|ns: NamespaceRef, tags: Seq<TagView>|
                opens(store.state(), did@, ns) && #[trigger] store.state().is_listing(
                    ns,
                    Seq::empty(),
                    tags,
                ) && archived_as(store.state(), ns, tags, out)
        },
{
    let ghost st = store.state();
    let ns = match open_repo(store, did) {
        Some(ns) => ns,
        None => return Err(ArchiveError::NotFound),
    };
    let tags = match store.tag_list(&ns) {
        Ok(tags) => tags,
        Err(_) => Vec::new(),
    };
    let ghost all = tags.deep_view();
    assert(st.is_listing(ns, Seq::empty(), all));
    let (head, commit) = match read_name(store, &ns, "commit/head") {
        Some(found) => found,
        None => return Err(ArchiveError::NotFound),
    };
    let ghost first = (archive_cid(head@), commit@);
    let root = cid_for_archive(head.as_str());
    let mut blocks: Vec<CarBlock> = Vec::new();
    blocks.push(CarBlock { cid: cid_for_archive(head.as_str()), bytes: commit });
    let mut i: usize = 0;
    proof {
        assert(all.take(0) =~= Seq::<TagView>::empty());
        assert(blocks.deep_view() =~= seq![first] + archive_blocks(st, all.take(0)));
    }
    while i < tags.len()
        invariant
            store.wf(),
            st == store.state(),
            i <= tags@.len(),
            all == tags.deep_view(),
            all.len() == tags@.len(),
            blocks.deep_view() == seq![first] + archive_blocks(st, all.take(i as int)),
        decreases tags@.len() - i,
    {
        let ghost had = blocks.deep_view();
        proof {
            assert(all[i as int] == tags@[i as int].deep_view());
            assert(all.take(i + 1).drop_last() =~= all.take(i as int));
            assert(all.take(i + 1).last() == all[i as int]);
        }
        let name = tags[i].name.as_str();
        if text_begins_with(name, "record/") || text_begins_with(name, "mst/") {
            if let Ok(data) = store.blob_get(tags[i].kappa.as_str()) {
                let block = CarBlock { cid: cid_for_archive(tags[i].kappa.as_str()), bytes: data };
                let ghost pair = block.deep_view();
                blocks.push(block);
                proof {
                    assert(blocks.deep_view() =~= had.push(pair));
                    assert(had.push(pair) =~= seq![first] + archive_blocks(
                        st,
                        all.take(i as int),
                    ).push(pair));
                }
            }
        }
        i += 1;
    }
    proof {
        assert(all.take(all.len() as int) =~= all);
    }
    let mut k: usize = 0;
    let ghost list = blocks.deep_view();
    while k < blocks.len()
        invariant
            k <= blocks@.len(),
            list == blocks.deep_view(),
            list.len() == blocks@.len(),
            list == seq![first] + archive_blocks(st, all),
            st == store.state(),
            opens(st, did@, ns),
            st.is_listing(ns, Seq::empty(), all),
            content_of(st, ns, "commit/head"@) == Some((head@, first.1)),
            first.0 == archive_cid(head@),
            forall|j: int| 0 <= j < k ==> frameable(#[trigger] list[j]),
        decreases blocks@.len() - k,
    {
        assert(list[k as int] == blocks@[k as int].deep_view());
        if blocks[k].bytes.len() > usize::MAX - blocks[k].cid.len() {
            assert(!frameable(list[k as int]));
            assert(list =~= seq![(archive_cid(head@), first.1)] + archive_blocks(st, all));
            assert(!all_frameable(list));
            assert(archived_as(st, ns, all, Err::<Vec<u8>, ArchiveError>(ArchiveError::TooLarge)));
            return Err(ArchiveError::TooLarge);
        }
        k += 1;
    }
    proof {
        assert forall|j: int| 0 <= j < blocks@.len() implies (#[trigger] blocks@[j]).cid@.len()
            + blocks@[j].bytes@.len() <= usize::MAX by {
            assert(list[j] == blocks@[j].deep_view());
            assert(frameable(list[j]));
        }
    }
    let framed = blocks.as_slice();
    assert(framed.deep_view() =~= list);
    Ok(encode_car(Some(root.as_slice()), framed))
}

// -- Listings ---------------------------------------------------------------------

/// The records of namespaces that are not deleted, in their order.
pub open spec fn living(list: Seq<RecordView>) -> Seq<RecordView>
    decreases list.len(),
{
    if list.len() == 0 {
        list
    } else {
        let before = living(list.drop_last());
        if list.last().tombstoned {
            before
        } else {
            before.push(list.last())
        }
    }
}

/// Where a page begins: at the first record that is not below the cursor.
pub open spec fn page_start(list: Seq<RecordView>, cursor: Option<Seq<char>>) -> int
    decreases list.len(),
{
    match cursor {
        None => 0,
        Some(c) => if list.len() > 0 && text_below(list[0].uuid_hex, c) {
            1 + page_start(list.drop_first(), cursor)
        } else {
            0
        },
    }
}

/// The first name of each record; an empty one where it has none.
pub open spec fn first_names(list: Seq<RecordView>) -> Seq<Seq<char>> {
    Seq::new(
        list.len(),
        |i: int|
            match first_alias(list[i]) {
                Some(a) => a,
                None => Seq::empty(),
            },
    )
}

/// A page of repositories: their first names, at most so many from the cursor
/// on.
pub open spec fn repo_page(list: Seq<RecordView>, cursor: Option<Seq<char>>, limit: nat) -> Seq<
    Seq<char>,
> {
    let rest = living(list).skip(page_start(living(list), cursor));
    first_names(
        rest.take(
            if limit < rest.len() {
                limit as int
            } else {
                rest.len() as int
            },
        ),
    )
}

proof fn lemma_page_start(list: Seq<RecordView>, cursor: Option<Seq<char>>, n: int)
    requires
        0 <= n <= list.len(),
        forall|j: int|
            0 <= j < n ==> cursor is Some && text_below((#[trigger] list[j]).uuid_hex, cursor->0),
        n < list.len() && cursor is Some ==> !text_below(list[n].uuid_hex, cursor->0),
        cursor is None ==> n == 0,
    ensures
        page_start(list, cursor) == n,
    decreases list.len(),
{
    if n > 0 {
        assert(text_below(list[0].uuid_hex, cursor->0));
        assert forall|j: int| 0 <= j < n - 1 implies cursor is Some && text_below(
            (#[trigger] list.drop_first()[j]).uuid_hex,
            cursor->0,
        ) by {
            assert(list.drop_first()[j] == list[j + 1]);
        }
        lemma_page_start(list.drop_first(), cursor, n - 1);
    }
}

fn keep_living(list: &Vec<NamespaceRecord>) -> (out: Vec<NamespaceRecord>)
    ensures
        out.deep_view() == living(list.deep_view()),
{
    let ghost all = list.deep_view();
    let mut out: Vec<NamespaceRecord> = Vec::new();
    let mut i: usize = 0;
    assert(all.take(0) =~= Seq::<RecordView>::empty());
    assert(out.deep_view() =~= Seq::<RecordView>::empty());
    while i < list.len()
        invariant
            i <= list@.len(),
            all == list.deep_view(),
            all.len() == list@.len(),
            out.deep_view() == living(all.take(i as int)),
        decreases list@.len() - i,
    {
        let ghost had = out.deep_view();
        proof {
            assert(all[i as int] == list@[i as int].deep_view());
            assert(all.take(i + 1).drop_last() =~= all.take(i as int));
            assert(all.take(i + 1).last() == all[i as int]);
        }
        if !list[i].tombstoned {
            out.push(list[i].copied());
            assert(out.deep_view() =~= had.push(all[i as int]));
        }
        i += 1;
    }
    assert(all.take(all.len() as int) =~= all);
    out
}

/// A page of the repositories that are not deleted: their identifiers, at most
/// so many from the cursor on.
pub fn list_repos(store: &InMemoryStore, cursor: Option<&str>, limit: usize) -> (out: Vec<String>)
    requires
        store.wf(),
    ensures
        exists|list: Seq<RecordView>| #[trigger]
            namespace_listed(store.state(), Some("atproto"@), list) && out.deep_view() == repo_page(
                list,
                shown_str(cursor),
                limit as nat,
            ),
{
    let ghost want_cursor = shown_str(cursor);
    let records = match store.namespace_list(Some("atproto")) {
        Ok(records) => records,
        Err(_) => Vec::new(),
    };
    assert(namespace_listed(store.state(), Some("atproto"@), records.deep_view()));
    let live = keep_living(&records);
    let ghost all = live.deep_view();
    let mut start: usize = 0;
    if let Some(c) = cursor {
        while start < live.len() && less_text(live[start].uuid_hex.as_str(), c)
            invariant
                start <= live@.len(),
                all == live.deep_view(),
                all.len() == live@.len(),
                forall|j: int| 0 <= j < start ==> text_below((#[trigger] all[j]).uuid_hex, c@),
            ensures
                start < live@.len() ==> !text_below(all[start as int].uuid_hex, c@),
            decreases live@.len() - start,
        {
            assert(all[start as int] == live@[start as int].deep_view());
            start += 1;
        }
        assert(start < live@.len() ==> all[start as int] == live@[start as int].deep_view());
    }
    proof {
        lemma_page_start(all, want_cursor, start as int);
    }
    let total: usize = live.len();
    let count: usize = if limit < live.len() - start {
        limit
    } else {
        live.len() - start
    };
    let ghost page = all.skip(start as int).take(count as int);
    let mut out: Vec<String> = Vec::new();
    let mut i: usize = 0;
    assert(out.deep_view() =~= first_names(page).take(0));
    while i < count
        invariant
            i <= count <= live@.len() - start,
            total == live@.len(),
            start <= live@.len(),
            all == live.deep_view(),
            all.len() == live@.len(),
            page == all.skip(start as int).take(count as int),
            page.len() == count,
            out.deep_view() == first_names(page).take(i as int),
        decreases count - i,
    {
        let ghost had = out.deep_view();
        let r = &live[start + i];
        proof {
            assert(page[i as int] == all[start + i]);
            assert(all[start + i] == r.deep_view());
        }
        let name = if r.aliases.len() > 0 {
            assert(r.deep_view().aliases[0] == r.aliases@[0]@);
            r.aliases[0].clone()
        } else {
            let empty = String::new();
            assert(empty@ =~= Seq::<char>::empty());
            empty
        };
        let ghost shown = name@;
        out.push(name);
        proof {
            assert(first_names(page)[i as int] == shown);
            assert(out.deep_view() =~= had.push(shown));
            assert(first_names(page).take(i + 1) =~= first_names(page).take(i as int).push(shown));
        }
        i += 1;
    }
    proof {
        assert(first_names(page).take(count as int) =~= first_names(page));
        assert(page =~= living(records.deep_view()).skip(
            page_start(living(records.deep_view()), want_cursor),
        ).take(count as int));
    }
    out
}

/// Whether a collection has a record among tags.
pub open spec fn has_collection(tags: Seq<TagView>, collection: Seq<char>) -> bool {
    exists|i: int|
        0 <= i < tags.len() && collection_of((#[trigger] tags[i]).name) == Some(collection)
}

/// The collection of a record, by the name it is kept under: what stands between
/// the first slash and the second.
pub open spec fn collection_of(name: Seq<char>) -> Option<Seq<char>> {
    if "record/"@.is_prefix_of(name) {
        let key = name.skip("record/"@.len() as int);
        match split_once_spec(key, '/') {
            Some((collection, _)) => Some(collection),
            None => Some(key),
        }
    } else {
        None
    }
}

fn collection_in(name: &str) -> (out: Option<String>)
    ensures
        match (out, collection_of(name@)) {
            (Some(c), Some(want)) => c@ == want,
            (None, None) => true,
            _ => false,
        },
{
    let key = match text_strip_prefix(name, "record/") {
        Some(key) => key,
        None => return None,
    };
    proof {
        assert(key@ =~= name@.skip("record/"@.len() as int));
        assert("record/"@ =~= name@.subrange(0, "record/"@.len() as int));
    }
    match split_once(key.as_str(), '/') {
        Some((collection, _)) => Some(collection),
        None => Some(key),
    }
}

/// What a repository holds: its first name, or the one asked for, and its
/// collections by ascending name.
pub fn describe_repo(store: &InMemoryStore, repo: &str) -> (out: Option<(String, Vec<String>)>)
    requires
        store.wf(),
    ensures
        match out {
            Some((did, collections)) => exists|ns: NamespaceRef, tags: Seq<TagView>|
                opens(store.state(), repo@, ns) && #[trigger] store.state().is_listing(
                    ns,
                    Seq::empty(),
                    tags,
                ) && described_as(store.state(), repo@, ns, tags, did@, collections.deep_view()),
            None => unknown(store.state(), repo@) || exists|ns: NamespaceRef| #[trigger]
                opens(store.state(), repo@, ns) && !store.state().records.dom().contains(ns.id()),
        },
{
    let ghost st = store.state();
    let ns = match open_repo(store, repo) {
        Some(ns) => ns,
        None => return None,
    };
    assert(opens(st, repo@, ns));
    let info = match store.namespace_info(repo, Some("atproto")) {
        Ok(info) => info,
        Err(_) => return None,
    };
    let tags = match store.tag_list(&ns) {
        Ok(tags) => tags,
        Err(_) => Vec::new(),
    };
    let ghost all = tags.deep_view();
    assert(st.is_listing(ns, Seq::empty(), all));
    let mut collections: Vec<String> = Vec::new();
    assert(collections.deep_view() =~= Seq::<Seq<char>>::empty());
    let mut i: usize = 0;
    while i < tags.len()
        invariant
            i <= tags@.len(),
            all == tags.deep_view(),
            all.len() == tags@.len(),
            ascending(collections.deep_view()),
            forall|c: Seq<char>| #[trigger]
                collections.deep_view().contains(c) <==> has_collection(all.take(i as int), c),
        decreases tags@.len() - i,
    {
        let ghost tag = all[i as int];
        let ghost front = all.take(i as int);
        let ghost longer = all.take(i + 1);
        proof {
            assert(tag == tags@[i as int].deep_view());
            assert forall|c: Seq<char>| #[trigger]
                has_collection(longer, c) == (has_collection(front, c) || collection_of(tag.name)
                    == Some(c)) by {
                if has_collection(front, c) {
                    let j = choose|j: int|
                        0 <= j < front.len() && collection_of((#[trigger] front[j]).name) == Some(
                            c,
                        );
                    assert(longer[j] == front[j]);
                }
                if has_collection(longer, c) {
                    let j = choose|j: int|
                        0 <= j < longer.len() && collection_of((#[trigger] longer[j]).name) == Some(
                            c,
                        );
                    if j < i {
                        assert(front[j] == longer[j]);
                    }
                }
                assert(longer[i as int] == tag);
            }
        }
        if let Some(c) = collection_in(tags[i].name.as_str()) {
            insert_text(&mut collections, c);
        }
        i += 1;
    }
    assert(all.take(all.len() as int) =~= all);
    let did = if info.aliases.len() > 0 {
        assert(info.deep_view().aliases[0] == info.aliases@[0]@);
        info.aliases[0].clone()
    } else {
        repo.to_owned()
    };
    Some((did, collections))
}

/// Whether a repository is described as it should be.
pub open spec fn described_as(
    st: StoreState,
    repo: Seq<char>,
    ns: NamespaceRef,
    tags: Seq<TagView>,
    did: Seq<char>,
    collections: Seq<Seq<char>>,
) -> bool {
    &&& st.records.dom().contains(ns.id())
    &&& did == (match first_alias(st.records[ns.id()]) {
        Some(a) => a,
        None => repo,
    })
    &&& ascending(collections)
    &&& forall|c: Seq<char>| #[trigger] collections.contains(c) <==> has_collection(tags, c)
}

/// A record in a listing, without its data where that is not stored.
#[derive(Debug)]
pub struct ListedRecord {
    pub uri: String,
    pub cid: String,
    pub data: Option<Vec<u8>>,
}

/// What a record in a listing holds.
pub struct ListedView {
    pub uri: Seq<char>,
    pub cid: Seq<char>,
    pub data: Option<Seq<u8>>,
}

impl DeepView for ListedRecord {
    type V = ListedView;

    open spec fn deep_view(&self) -> ListedView {
        ListedView {
            uri: self.uri@,
            cid: self.cid@,
            data: match self.data {
                Some(d) => Some(d@),
                None => None,
            },
        }
    }
}

/// Whether a text ends with another.
pub open spec fn ends_with(s: Seq<char>, end: Seq<char>) -> bool {
    end.len() <= s.len() && s.skip(s.len() - end.len()) == end
}

fn text_ends_with(s: &str, end: &str) -> (yes: bool)
    ensures
        yes == ends_with(s@, end@),
{
    let chars = chars_of(s);
    let tail = chars_of(end);
    if tail.len() > chars.len() {
        return false;
    }
    let at: usize = chars.len() - tail.len();
    let yes = is_at(&chars, at, &tail);
    proof {
        let rest = s@.skip(at as int);
        if yes {
            assert(rest =~= rest.subrange(0, end@.len() as int));
        } else if rest == end@ {
            assert(end@ =~= rest.subrange(0, end@.len() as int));
        }
    }
    yes
}

/// Where a page of records begins: behind the first whose name ends with the
/// cursor.
pub open spec fn records_start(tags: Seq<TagView>, cursor: Option<Seq<char>>) -> int
    decreases tags.len(),
{
    match cursor {
        None => 0,
        Some(c) => if tags.len() == 0 {
            0
        } else if ends_with(tags[0].name, c) {
            1
        } else {
            1 + records_start(tags.drop_first(), cursor)
        },
    }
}

proof fn lemma_records_start(tags: Seq<TagView>, cursor: Seq<char>, n: int)
    requires
        0 <= n <= tags.len(),
        forall|j: int| 0 <= j < n ==> !ends_with((#[trigger] tags[j]).name, cursor),
    ensures
        n == tags.len() ==> records_start(tags, Some(cursor)) == n,
        n < tags.len() && ends_with(tags[n].name, cursor) ==> records_start(tags, Some(cursor)) == n
            + 1,
    decreases tags.len(),
{
    if n > 0 {
        assert(!ends_with(tags[0].name, cursor));
        assert forall|j: int| 0 <= j < n - 1 implies !ends_with(
            (#[trigger] tags.drop_first()[j]).name,
            cursor,
        ) by {
            assert(tags.drop_first()[j] == tags[j + 1]);
        }
        lemma_records_start(tags.drop_first(), cursor, n - 1);
    }
}

/// A tag of a collection as a record in a listing.
pub open spec fn listed_record(
    st: StoreState,
    repo: Seq<char>,
    collection: Seq<char>,
    tag: TagView,
) -> ListedView {
    ListedView {
        uri: record_uri(repo, collection, tag.name.skip(record_name(collection, Seq::empty()).len() as int)),
        cid: tag.kappa,
        data: if st.blobs.dom().contains(tag.kappa) {
            Some(st.blobs[tag.kappa])
        } else {
            None
        },
    }
}

/// A page of the records of a collection.
pub open spec fn record_page(
    st: StoreState,
    repo: Seq<char>,
    collection: Seq<char>,
    tags: Seq<TagView>,
    cursor: Option<Seq<char>>,
    limit: nat,
) -> Seq<ListedView> {
    let rest = tags.skip(records_start(tags, cursor));
    let n = if limit < rest.len() {
        limit
    } else {
        rest.len()
    };
    Seq::new(n, |i: int| listed_record(st, repo, collection, rest[i]))
}

fn start_of_records(tags: &Vec<TagEntry>, cursor: Option<&str>) -> (start: usize)
    ensures
        start == records_start(tags.deep_view(), shown_str(cursor)),
        start <= tags@.len(),
{
    let ghost all = tags.deep_view();
    let c = match cursor {
        Some(c) => c,
        None => return 0,
    };
    let mut i: usize = 0;
    while i < tags.len()
        invariant
            i <= tags@.len(),
            all == tags.deep_view(),
            all.len() == tags@.len(),
            shown_str(cursor) == Some(c@),
            forall|j: int| 0 <= j < i ==> !ends_with((#[trigger] all[j]).name, c@),
        decreases tags@.len() - i,
    {
        assert(all[i as int] == tags@[i as int].deep_view());
        if text_ends_with(tags[i].name.as_str(), c) {
            proof {
                lemma_records_start(all, c@, i as int);
            }
            return i + 1;
        }
        i += 1;
    }
    proof {
        lemma_records_start(all, c@, i as int);
    }
    i
}

/// A page of the records of a collection by ascending key: at most so many from
/// behind the cursor on.
pub fn list_records(
    store: &InMemoryStore,
    repo: &str,
    collection: &str,
    cursor: Option<&str>,
    limit: usize,
) -> (out: Option<Vec<ListedRecord>>)
    requires
        store.wf(),
    ensures
        match out {
            Some(page) => exists|ns: NamespaceRef, tags: Seq<TagView>|
                opens(store.state(), repo@, ns) && #[trigger] store.state().is_listing(
                    ns,
                    record_name(collection@, Seq::empty()),
                    tags,
                ) && page.deep_view() == record_page(
                    store.state(),
                    repo@,
                    collection@,
                    tags,
                    shown_str(cursor),
                    limit as nat,
                ),
            None => unknown(store.state(), repo@),
        },
{
    let ghost st = store.state();
    let ns = match open_repo(store, repo) {
        Some(ns) => ns,
        None => return None,
    };
    let prefix = record_tag(collection, "");
    proof {
        reveal_strlit("");
        assert(""@ =~= Seq::<char>::empty());
    }
    let tags = match store.tag_prefix(&ns, prefix.as_str()) {
        Ok(tags) => tags,
        Err(_) => Vec::new(),
    };
    let ghost all = tags.deep_view();
    assert(st.is_listing(ns, prefix@, all));
    let start: usize = start_of_records(&tags, cursor);
    let total: usize = tags.len();
    let count: usize = if limit < tags.len() - start {
        limit
    } else {
        tags.len() - start
    };
    let ghost want = record_page(
        st,
        repo@,
        collection@,
        all,
        shown_str(cursor),
        limit as nat,
    );
    let mut out: Vec<ListedRecord> = Vec::new();
    let mut i: usize = 0;
    assert(want.len() == count);
    assert(out.deep_view() =~= want.take(0));
    while i < count
        invariant
            store.wf(),
            st == store.state(),
            i <= count <= tags@.len() - start,
            total == tags@.len(),
            start <= tags@.len(),
            all == tags.deep_view(),
            all.len() == tags@.len(),
            start == records_start(all, shown_str(cursor)),
            want.len() == count,
            want == record_page(
                st,
                repo@,
                collection@,
                all,
                shown_str(cursor),
                limit as nat,
            ),
            prefix@ == record_name(collection@, Seq::empty()),
            st.is_listing(ns, prefix@, all),
            out.deep_view() == want.take(i as int),
        decreases count - i,
    {
        let ghost had = out.deep_view();
        let tag = &tags[start + i];
        proof {
            assert(all[start + i] == tag.deep_view());
            assert(all.skip(start as int)[i as int] == all[start + i]);
            assert(prefix@.is_prefix_of(all[start + i].name));
        }
        let rkey = match text_strip_prefix(tag.name.as_str(), prefix.as_str()) {
            Some(rkey) => rkey,
            None => tag.name.clone(),
        };
        assert(rkey@ =~= tag.name@.skip(prefix@.len() as int));
        let data = match store.blob_get(tag.kappa.as_str()) {
            Ok(data) => Some(data),
            Err(_) => None,
        };
        let record = ListedRecord {
            uri: at_uri(repo, collection, rkey.as_str()),
            cid: tag.kappa.clone(),
            data,
        };
        let ghost shown = record.deep_view();
        out.push(record);
        proof {
            assert(shown == listed_record(st, repo@, collection@, all[start + i]));
            assert(want[i as int] == shown);
            assert(out.deep_view() =~= had.push(shown));
            assert(want.take(i + 1) =~= want.take(i as int).push(shown));
        }
        i += 1;
    }
    assert(want.take(count as int) =~= want);
    Some(out)
}

// -- Laws -------------------------------------------------------------------------

/// A text without the first character of another stays as it is when that other
/// is dropped from it.
proof fn lemma_nothing_dropped(s: Seq<char>, part: Seq<char>)
    requires
        part.len() > 0,
        forall|i: int| 0 <= i < s.len() ==> #[trigger] s[i] != part[0],
    ensures
        dropped(s, part) == s,
    decreases s.len(),
{
    if s.len() > 0 {
        let rest = s.skip(1);
        assert forall|i: int| 0 <= i < rest.len() implies #[trigger] rest[i] != part[0] by {
            assert(rest[i] == s[i + 1]);
        }
        lemma_nothing_dropped(rest, part);
        assert(!part.is_prefix_of(s)) by {
            if part.is_prefix_of(s) {
                assert(part[0] == s.subrange(0, part.len() as int)[0]);
                assert(s[0] == part[0]);
            }
        }
        assert(seq![s[0]] + rest =~= s);
    }
}

/// An address goes into an archive under its digest.
pub proof fn law_archived_by_digest(digest: Seq<u8>)
    ensures
        archive_cid("sha256:"@ + hex_of(digest)) == digest,
{
    let part = "sha256:"@;
    let digits = hex_of(digest);
    let s = part + digits;
    reveal_strlit("sha256:");
    assert(part =~= s.subrange(0, part.len() as int));
    assert(part.is_prefix_of(s));
    assert(s.skip(part.len() as int) =~= digits);
    assert forall|i: int| 0 <= i < digits.len() implies #[trigger] digits[i] != part[0] by {}
    lemma_nothing_dropped(digits, part);
    law_hex_roundtrip(digest);
}

proof fn lemma_archive_block(st: StoreState, tags: Seq<TagView>, i: int)
    requires
        0 <= i < tags.len(),
        archived(st, tags[i]),
    ensures
        archive_blocks(st, tags).contains((archive_cid(tags[i].kappa), st.blobs[tags[i].kappa])),
    decreases tags.len(),
{
    let front = tags.drop_last();
    let before = archive_blocks(st, front);
    let all = archive_blocks(st, tags);
    let block = (archive_cid(tags[i].kappa), st.blobs[tags[i].kappa]);
    if i < front.len() {
        assert(front[i] == tags[i]);
        lemma_archive_block(st, front, i);
        let j = choose|j: int| 0 <= j < before.len() && before[j] == block;
        assert(all[j] == block);
    } else {
        assert(all[all.len() - 1] == block);
    }
}

proof fn lemma_archive_from(st: StoreState, tags: Seq<TagView>, j: int) -> (i: int)
    requires
        0 <= j < archive_blocks(st, tags).len(),
    ensures
        0 <= i < tags.len(),
        archived(st, tags[i]),
        archive_blocks(st, tags)[j] == (archive_cid(tags[i].kappa), st.blobs[tags[i].kappa]),
    decreases tags.len(),
{
    let front = tags.drop_last();
    if j < archive_blocks(st, front).len() {
        let i = lemma_archive_from(st, front, j);
        assert(front[i] == tags[i]);
        i
    } else {
        tags.len() - 1
    }
}

/// Whether bytes are an archive with a root and blocks, each an identifier and
/// content.
pub open spec fn is_archive(car: Seq<u8>, root: Seq<u8>, blocks: Seq<(Seq<u8>, Seq<u8>)>) -> bool {
    car == car_bytes(Some(root), blocks)
}

/// Whether a block is the content of a tag that names a record or a tree node.
pub open spec fn is_block_of(st: StoreState, id: Seq<u8>, h: u64, block: (Seq<u8>, Seq<u8>)) -> bool {
    &&& st.tags.dom().contains((id, h))
    &&& "record/"@.is_prefix_of(st.tags[(id, h)].name) || "mst/"@.is_prefix_of(
        st.tags[(id, h)].name,
    )
    &&& st.blobs.dom().contains(st.tags[(id, h)].kappa)
    &&& block == (archive_cid(st.tags[(id, h)].kappa), st.blobs[st.tags[(id, h)].kappa])
}

/// Whether a block is the content of some record or tree node of a repository.
pub open spec fn is_of_repo(st: StoreState, id: Seq<u8>, block: (Seq<u8>, Seq<u8>)) -> bool {
    exists|h: u64| is_block_of(st, id, h, block)
}

/// The archive of a repository has the latest commit for its root and first
/// block, under its digest. It holds the content of every tag whose name begins
/// with `record/` or `mst/` and whose content is stored, under its digest. And it
/// holds nothing else.
pub proof fn law_repo_exports(
    st: StoreState,
    ns: NamespaceRef,
    tags: Seq<TagView>,
    car: Vec<u8>,
) -> (blocks: Seq<(Seq<u8>, Seq<u8>)>)
    requires
        st.is_listing(ns, Seq::empty(), tags),
        archived_as(st, ns, tags, Ok(car)),
    ensures
        st.tags.dom().contains(StoreState::filed(ns, "commit/head"@)),
        ({
            let head = st.tags[StoreState::filed(ns, "commit/head"@)].kappa;
            &&& st.blobs.dom().contains(head)
            &&& is_archive(car@, archive_cid(head), blocks)
            &&& blocks.len() > 0
            &&& blocks[0] == (archive_cid(head), st.blobs[head])
        }),
        forall|h: u64| #[trigger]
            st.tags.dom().contains((ns.id(), h)) && "record/"@.is_prefix_of(
                st.tags[(ns.id(), h)].name,
            ) && st.blobs.dom().contains(st.tags[(ns.id(), h)].kappa) ==> blocks.contains(
                (
                    archive_cid(st.tags[(ns.id(), h)].kappa),
                    st.blobs[st.tags[(ns.id(), h)].kappa],
                ),
            ),
        forall|h: u64| #[trigger]
            st.tags.dom().contains((ns.id(), h)) && "mst/"@.is_prefix_of(
                st.tags[(ns.id(), h)].name,
            ) && st.blobs.dom().contains(st.tags[(ns.id(), h)].kappa) ==> blocks.contains(
                (
                    archive_cid(st.tags[(ns.id(), h)].kappa),
                    st.blobs[st.tags[(ns.id(), h)].kappa],
                ),
            ),
        forall|j: int|
            0 < j < blocks.len() ==> is_of_repo(st, ns.id(), #[trigger] blocks[j]),
{
    let head = content_of(st, ns, "commit/head"@)->0;
    let more = archive_blocks(st, tags);
    let blocks = seq![(archive_cid(head.0), head.1)] + more;
    assert forall|h: u64| #[trigger] st.tags.dom().contains((ns.id(), h)) && archived(
        st,
        st.tags[(ns.id(), h)],
    ) implies blocks.contains(
        (archive_cid(st.tags[(ns.id(), h)].kappa), st.blobs[st.tags[(ns.id(), h)].kappa]),
    ) by {
        let tag = st.tags[(ns.id(), h)];
        assert(Seq::<char>::empty().is_prefix_of(tag.name));
        assert(tags.contains(tag));
        let i = choose|i: int| 0 <= i < tags.len() && tags[i] == tag;
        lemma_archive_block(st, tags, i);
        let block = (archive_cid(tag.kappa), st.blobs[tag.kappa]);
        let j = choose|j: int| 0 <= j < more.len() && more[j] == block;
        assert(blocks[j + 1] == block);
    }
    assert forall|j: int| 0 < j < blocks.len() implies is_of_repo(
        st,
        ns.id(),
        #[trigger] blocks[j],
    ) by {
        assert(blocks[j] == more[j - 1]);
        let i = lemma_archive_from(st, tags, j - 1);
        let h = name_hash(tags[i].name);
        assert(StoreState::filed(ns, tags[i].name) == (ns.id(), h));
        assert(is_block_of(st, ns.id(), h, blocks[j]));
    }
    blocks
}

/// A record that is read by its key, at the address of its content, is a block of
/// the archive of the repository, under the SHA-256 digest of its content.
pub proof fn law_record_exported(
    st: StoreState,
    ns: NamespaceRef,
    tags: Seq<TagView>,
    car: Vec<u8>,
    collection: Seq<char>,
    rkey: Seq<char>,
    data: Seq<u8>,
) -> (blocks: Seq<(Seq<u8>, Seq<u8>)>)
    requires
        st.is_listing(ns, Seq::empty(), tags),
        archived_as(st, ns, tags, Ok(car)),
        content_of(st, ns, record_name(collection, rkey)) == Some((kappa_of(data), data)),
        st.tags[StoreState::filed(ns, record_name(collection, rkey))].name == "record/"@
            + collection + "/"@ + rkey,
    ensures
        exists|root: Seq<u8>| #[trigger] is_archive(car@, root, blocks),
        blocks.contains((crate::digest::sha256_of(data), data)),
{
    let blocks = law_repo_exports(st, ns, tags, car);
    let name = "record/"@ + collection + "/"@ + rkey;
    let k = StoreState::filed(ns, record_name(collection, rkey));
    assert("record/"@ =~= name.subrange(0, "record/"@.len() as int));
    assert("record/"@.is_prefix_of(name));
    assert(st.tags.dom().contains((ns.id(), k.1)));
    let digest = crate::digest::sha256_of(data);
    law_archived_by_digest(digest);
    reveal_strlit("sha256:");
    reveal_strlit("sha256");
    assert("sha256"@ + seq![':'] =~= "sha256:"@);
    assert(kappa_of(data) =~= "sha256:"@ + hex_of(digest));
    blocks
}

/// A record on file is in the listing of its collection, with its key in the URI,
/// its address and its content.
pub proof fn law_record_listed(
    st: StoreState,
    ns: NamespaceRef,
    repo: Seq<char>,
    collection: Seq<char>,
    tags: Seq<TagView>,
    limit: nat,
    rkey: Seq<char>,
) -> (i: int)
    requires
        st.is_listing(ns, record_name(collection, Seq::empty()), tags),
        limit >= tags.len(),
        st.tags.dom().contains(StoreState::filed(ns, record_name(collection, rkey))),
        st.tags[StoreState::filed(ns, record_name(collection, rkey))].name == "record/"@
            + collection + "/"@ + rkey,
    ensures
        ({
            let page = record_page(st, repo, collection, tags, None, limit);
            let kappa = st.tags[StoreState::filed(ns, record_name(collection, rkey))].kappa;
            &&& page.len() == tags.len()
            &&& 0 <= i < page.len()
            &&& page[i].uri == "at://"@ + repo + "/"@ + collection + "/"@ + rkey
            &&& page[i].cid == kappa
            &&& page[i].data == (if st.blobs.dom().contains(kappa) {
                Some(st.blobs[kappa])
            } else {
                None
            })
        }),
{
    let name = "record/"@ + collection + "/"@ + rkey;
    let start = record_name(collection, Seq::empty());
    let k = StoreState::filed(ns, record_name(collection, rkey));
    assert(start =~= "record/"@ + collection + "/"@);
    assert(start =~= name.subrange(0, start.len() as int));
    assert(start.is_prefix_of(name));
    assert(st.tags.dom().contains((ns.id(), k.1)));
    assert(tags.contains(st.tags[k]));
    let i = choose|i: int| 0 <= i < tags.len() && tags[i] == st.tags[k];
    assert(tags.skip(0) =~= tags);
    assert(name.skip(start.len() as int) =~= rkey);
    i
}

/// A listing goes on behind its cursor: where the first record whose name ends
/// with the cursor is at a place, the page with that cursor is what follows that
/// place in the listing without one. No page is longer than its limit.
pub proof fn law_records_paged(
    st: StoreState,
    repo: Seq<char>,
    collection: Seq<char>,
    tags: Seq<TagView>,
    cursor: Seq<char>,
    limit: nat,
    at: int,
    i: int,
)
    requires
        0 <= at < tags.len(),
        ends_with(tags[at].name, cursor),
        forall|j: int| 0 <= j < at ==> !ends_with((#[trigger] tags[j]).name, cursor),
        0 <= i < limit,
        at + 1 + i < tags.len(),
    ensures
        ({
            let page = record_page(st, repo, collection, tags, Some(cursor), limit);
            let all = record_page(st, repo, collection, tags, None, tags.len());
            &&& i < page.len() <= limit
            &&& page[i] == all[at + 1 + i]
        }),
{
    lemma_records_start(tags, cursor, at);
    assert(tags.skip(0) =~= tags);
    assert(tags.skip(at + 1)[i] == tags[at + 1 + i]);
}

proof fn lemma_living(list: Seq<RecordView>, i: int)
    requires
        0 <= i < list.len(),
    ensures
        !list[i].tombstoned ==> living(list).contains(list[i]),
        forall|j: int|
            0 <= j < living(list).len() ==> list.contains(#[trigger] living(list)[j])
                && !living(list)[j].tombstoned,
        living(list).len() <= list.len(),
    decreases list.len(),
{
    let front = list.drop_last();
    let before = living(front);
    let all = living(list);
    if front.len() > 0 {
        lemma_living(front, if i < front.len() { i } else { 0 });
    }
    if !list[i].tombstoned {
        if i < front.len() {
            assert(front[i] == list[i]);
            let j = choose|j: int| 0 <= j < before.len() && before[j] == list[i];
            assert(all[j] == list[i]);
        } else {
            assert(all[all.len() - 1] == list[i]);
        }
    }
    assert forall|j: int| 0 <= j < all.len() implies list.contains(#[trigger] all[j])
        && !all[j].tombstoned by {
        if j < before.len() {
            assert(all[j] == before[j]);
            let x = choose|x: int| 0 <= x < front.len() && front[x] == before[j];
            assert(list[x] == all[j]);
        } else {
            assert(list[list.len() - 1] == all[j]);
        }
    }
}

/// Every repository that is not deleted is on the page without a cursor, by its
/// first name, where the limit leaves room; and none that is deleted.
pub proof fn law_repos_listed(list: Seq<RecordView>, limit: nat, i: int)
    requires
        0 <= i < list.len(),
        limit >= list.len(),
    ensures
        !list[i].tombstoned && list[i].aliases.len() > 0 ==> repo_page(list, None, limit).contains(
            list[i].aliases[0],
        ),
        forall|j: int|
            0 <= j < repo_page(list, None, limit).len() ==> exists|r: RecordView| #[trigger]
                list.contains(r) && !r.tombstoned && #[trigger] repo_page(list, None, limit)[j] == (
                if r.aliases.len() > 0 {
                    r.aliases[0]
                } else {
                    Seq::empty()
                }),
{
    lemma_living(list, i);
    let all = living(list);
    let page = repo_page(list, None, limit);
    assert(all.skip(0) =~= all);
    assert(all.take(all.len() as int) =~= all);
    assert(page == first_names(all));
    if !list[i].tombstoned && list[i].aliases.len() > 0 {
        let j = choose|j: int| 0 <= j < all.len() && all[j] == list[i];
        assert(page[j] == list[i].aliases[0]);
    }
    assert forall|j: int| 0 <= j < page.len() implies exists|r: RecordView| #[trigger]
        list.contains(r) && !r.tombstoned && #[trigger] page[j] == (if r.aliases.len() > 0 {
            r.aliases[0]
        } else {
            Seq::empty()
        }) by {
        assert(list.contains(all[j]) && !all[j].tombstoned);
        assert(page[j] == first_names(all)[j]);
    }
}

/// No page of repositories is longer than its limit, and none begins below its
/// cursor.
pub proof fn law_repos_paged(list: Seq<RecordView>, cursor: Seq<char>, limit: nat)
    ensures
        repo_page(list, Some(cursor), limit).len() <= limit,
        repo_page(list, Some(cursor), limit).len() > 0 ==> exists|r: RecordView| #[trigger]
            living(list).contains(r) && !text_below(r.uuid_hex, cursor) && repo_page(
                list,
                Some(cursor),
                limit,
            )[0] == (if r.aliases.len() > 0 {
                r.aliases[0]
            } else {
                Seq::empty()
            }),
{
    let all = living(list);
    let at = page_start(all, Some(cursor));
    lemma_page_start_at(all, cursor);
    let rest = all.skip(at);
    let page = repo_page(list, Some(cursor), limit);
    if page.len() > 0 {
        assert(rest[0] == all[at]);
        assert(all.contains(all[at]));
    }
}

proof fn lemma_page_start_at(list: Seq<RecordView>, cursor: Seq<char>)
    ensures
        0 <= page_start(list, Some(cursor)) <= list.len(),
        page_start(list, Some(cursor)) < list.len() ==> !text_below(
            list[page_start(list, Some(cursor))].uuid_hex,
            cursor,
        ),
    decreases list.len(),
{
    if list.len() > 0 {
        lemma_page_start_at(list.drop_first(), cursor);
    }
}

/// The collections of a repository are those with a record: one whose name is
/// `record/`, the collection, a slash and a key.
pub proof fn law_collection_described(
    st: StoreState,
    repo: Seq<char>,
    ns: NamespaceRef,
    tags: Seq<TagView>,
    did: Seq<char>,
    collections: Seq<Seq<char>>,
    collection: Seq<char>,
    rkey: Seq<char>,
)
    requires
        st.is_listing(ns, Seq::empty(), tags),
        described_as(st, repo, ns, tags, did, collections),
        !collection.contains('/'),
        st.tags.dom().contains(StoreState::filed(ns, record_name(collection, rkey))),
        st.tags[StoreState::filed(ns, record_name(collection, rkey))].name == "record/"@
            + collection + "/"@ + rkey,
    ensures
        collections.contains(collection),
{
    let name = "record/"@ + collection + "/"@ + rkey;
    let k = StoreState::filed(ns, record_name(collection, rkey));
    assert(st.tags.dom().contains((ns.id(), k.1)));
    assert(Seq::<char>::empty().is_prefix_of(name));
    assert(tags.contains(st.tags[k]));
    let i = choose|i: int| 0 <= i < tags.len() && tags[i] == st.tags[k];
    assert("record/"@ =~= name.subrange(0, "record/"@.len() as int));
    let key = name.skip("record/"@.len() as int);
    reveal_strlit("/");
    assert(key =~= collection + "/"@ + rkey);
    assert forall|j: int| 0 <= j < collection.len() implies key[j] != '/' by {
        assert(key[j] == collection[j]);
        assert(collection.contains(collection[j]));
    }
    crate::text::lemma_first_index(key, '/', collection.len() as int);
    assert(key.take(collection.len() as int) =~= collection);
    assert(collection_of(tags[i].name) == Some(collection));
    assert(has_collection(tags, collection));
}

/// A page of repositories begins with the first that is not below the cursor, and goes
/// on in the order of the listing up to its limit.
pub proof fn law_repos_from_cursor(
    list: Seq<RecordView>,
    cursor: Seq<char>,
    limit: nat,
    at: int,
    i: int,
)
    requires
        0 <= at < living(list).len(),
        forall|j: int| 0 <= j < at ==> text_below((#[trigger] living(list)[j]).uuid_hex, cursor),
        !text_below(living(list)[at].uuid_hex, cursor),
        0 <= i < limit,
        at + i < living(list).len(),
    ensures
        i < repo_page(list, Some(cursor), limit).len(),
        repo_page(list, Some(cursor), limit)[i] == (if living(list)[at + i].aliases.len() > 0 {
            living(list)[at + i].aliases[0]
        } else {
            Seq::empty()
        }),
{
    let all = living(list);
    lemma_page_start(all, Some(cursor), at);
    assert(all.skip(at)[i] == all[at + i]);
}

/// Every collection of a repository has a record: a tag on file whose name is
/// `record/`, the collection, and nothing more or a slash and a key.
pub proof fn law_described_collection(
    st: StoreState,
    repo: Seq<char>,
    ns: NamespaceRef,
    tags: Seq<TagView>,
    did: Seq<char>,
    collections: Seq<Seq<char>>,
    collection: Seq<char>,
)
    requires
        st.is_listing(ns, Seq::empty(), tags),
        described_as(st, repo, ns, tags, did, collections),
        collections.contains(collection),
    ensures
        exists|h: u64|
            #[trigger] st.tags.dom().contains((ns.id(), h)) && ("record/"@ + collection).is_prefix_of(
                st.tags[(ns.id(), h)].name,
            ),
{
    assert(has_collection(tags, collection));
    let i = choose|i: int|
        0 <= i < tags.len() && collection_of((#[trigger] tags[i]).name) == Some(collection);
    let name = tags[i].name;
    let h = name_hash(name);
    let start = "record/"@;
    let key = name.skip(start.len() as int);
    assert(StoreState::filed(ns, name) == (ns.id(), h));
    assert(start.is_prefix_of(name));
    assert(name =~= start + key);
    crate::text::lemma_split_front(key, '/');
    assert(collection.is_prefix_of(key));
    assert(start + collection =~= name.subrange(0, start.len() + collection.len() as int)) by {
        assert(collection =~= key.subrange(0, collection.len() as int));
    }
    assert(st.tags.dom().contains((ns.id(), h)));
}

} // verus!
