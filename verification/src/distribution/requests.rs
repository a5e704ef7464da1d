//! Requests of the registry's own protocol, with their JSON bodies.

use vstd::prelude::*;

use crate::atproto::commit::shown_bytes;
use crate::body::{
    answer, both, denied, needed_text, number_in, read_needed_text, read_number, read_text,
    read_text_else, read_texts, read_value, text_else, text_in, texts_in, value_in, BodyError,
    BodyFault, Denied,
};
use crate::distribution::bundle::{
    bundle_ingested, gather, gathered, ingest_bundle, BundleEntry, BundleError,
};
use crate::distribution::compose::{compose, compose_done, ComposeError, Composed};
use crate::distribution::edge::{edge_diff, edge_put_done, is_edge_diff, put_edge, EdgeRefusal};
use crate::distribution::gc::{
    cascade, cascade_done, pin, pin_done, unpin, unpin_done, CascadeReport,
};
use crate::distribution::reconcile::{
    fingerprint_answered, handle_fingerprint, handle_items, items_in_range, lacking, range_items,
    range_tags, FingerprintReply,
};
use crate::hexadecimal::{hex_bytes, hex_decode};
use crate::json::{json_rows, json_rows_of, shown_names, shown_rows, JsonPart, PartView};
use crate::store::memory::InMemoryStore;
use crate::store::state::{tag_names, StoreState};
use crate::text::same_text;
use crate::types::{NamespaceRef, StoreError, TagView};

verus! {

/// Composes the addresses that a body lists under `operands`.
pub fn compose_body(
    store: &mut InMemoryStore,
    ns: &NamespaceRef,
    op: &str,
    body: &[u8],
    asserter: &str,
) -> (out: Result<Composed, ComposeError>)
    requires
        old(store).wf(),
    ensures
        final(store).wf(),
        match texts_in(body@, "operands"@) {
            Err(_) => out matches Err(ComposeError::NotJson) && final(store).state() == old(
                store,
            ).state(),
            Ok(operands) => compose_done(
                old(store).state(),
                final(store).state(),
                *ns,
                op@,
                operands,
                asserter@,
                out,
            ),
        },
{
    match read_texts(body, "operands") {
        Ok(operands) => {
            let list = operands.as_slice();
            assert(list.deep_view() =~= operands.deep_view());
            compose(store, ns, op, list, asserter)
        },
        Err(_) => Err(ComposeError::NotJson),
    }
}

/// Puts the edge that a body describes: from `source` to `target`, of a
/// `relation`, with `metadata` where it has some.
pub fn put_edge_body(store: &mut InMemoryStore, ns: &NamespaceRef, body: &[u8], asserter: &str) -> (out: Result<
    String,
    Denied<EdgeRefusal>,
>)
    requires
        old(store).wf(),
    ensures
        final(store).wf(),
        match both(
            both(needed_text(body@, "source"@), needed_text(body@, "relation"@)),
            both(needed_text(body@, "target"@), value_in(body@, "metadata"@)),
        ) {
            Err(f) => denied(out, f) && final(store).state() == old(store).state(),
            Ok(((source, relation), (target, metadata))) => answer(out) is Some && edge_put_done(
                old(store).state(),
                final(store).state(),
                *ns,
                source,
                relation,
                target,
                asserter@,
                metadata,
                answer(out)->0,
            ),
        },
{
    let source = match read_needed_text(body, "source") {
        Ok(v) => v,
        Err(e) => return Err(Denied::Body(e)),
    };
    let relation = match read_needed_text(body, "relation") {
        Ok(v) => v,
        Err(e) => return Err(Denied::Body(e)),
    };
    let target = match read_needed_text(body, "target") {
        Ok(v) => v,
        Err(e) => return Err(Denied::Body(e)),
    };
    let metadata = match read_value(body, "metadata") {
        Ok(v) => v,
        Err(e) => return Err(Denied::Body(e)),
    };
    assert(shown_bytes(metadata) == crate::distribution::edge::shown_bytes(metadata));
    match put_edge(
        store,
        ns,
        source.as_str(),
        relation.as_str(),
        target.as_str(),
        asserter,
        metadata,
    ) {
        Ok(kappa) => Ok(kappa),
        Err(e) => Err(Denied::Refused(e)),
    }
}

/// What a body wants and does not have, by `have` and `want`.
pub fn edge_diff_body(store: &InMemoryStore, ns: &NamespaceRef, body: &[u8]) -> (out: Result<
    Vec<String>,
    BodyError,
>)
    requires
        store.wf(),
    ensures
        match (both(texts_in(body@, "have"@), texts_in(body@, "want"@)), out) {
            (Err(f), Err(e)) => e.deep_view() == f,
            (Ok((have, want)), Ok(list)) => is_edge_diff(
                store.state(),
                *ns,
                have,
                want,
                list.deep_view(),
            ),
            _ => false,
        },
{
    let have = match read_texts(body, "have") {
        Ok(v) => v,
        Err(e) => return Err(e),
    };
    let want = match read_texts(body, "want") {
        Ok(v) => v,
        Err(e) => return Err(e),
    };
    let have_list = have.as_slice();
    assert(have_list.deep_view() =~= have.deep_view());
    let want_list = want.as_slice();
    assert(want_list.deep_view() =~= want.deep_view());
    Ok(edge_diff(store, ns, have_list, want_list))
}

/// Deletes everything that edges lead to from the `roots` of a body.
pub fn cascade_body(store: &mut InMemoryStore, ns: &NamespaceRef, body: &[u8]) -> (out: Result<
    CascadeReport,
    Denied<String>,
>)
    requires
        old(store).wf(),
    ensures
        final(store).wf(),
        match texts_in(body@, "roots"@) {
            Err(f) => denied(out, f) && final(store).state() == old(store).state(),
            Ok(roots) => answer(out) is Some && cascade_done(
                old(store).state(),
                final(store).state(),
                *ns,
                roots,
                answer(out)->0,
            ),
        },
{
    let roots = match read_texts(body, "roots") {
        Ok(v) => v,
        Err(e) => return Err(Denied::Body(e)),
    };
    let roots_list = roots.as_slice();
    assert(roots_list.deep_view() =~= roots.deep_view());
    match cascade(store, ns, roots_list) {
        Ok(r) => Ok(r),
        Err(e) => Err(Denied::Refused(e)),
    }
}

/// The content of the `kappas` of a body.
pub fn gather_body(store: &InMemoryStore, body: &[u8]) -> (out: Result<
    Vec<BundleEntry>,
    Denied<BundleError>,
>)
    requires
        store.wf(),
    ensures
        match texts_in(body@, "kappas"@) {
            Err(f) => denied(out, f),
            Ok(kappas) => answer(out) is Some && gathered(
                store.state().blobs,
                kappas,
                answer(out)->0,
            ),
        },
{
    let kappas = match read_texts(body, "kappas") {
        Ok(v) => v,
        Err(e) => return Err(Denied::Body(e)),
    };
    let kappas_list = kappas.as_slice();
    assert(kappas_list.deep_view() =~= kappas.deep_view());
    match gather(store, kappas_list) {
        Ok(entries) => Ok(entries),
        Err(e) => Err(Denied::Refused(e)),
    }
}

/// The texts and bytes of an entry of a bundle: its address, and its content in
/// hexadecimal.
pub open spec fn entry_in(row: Seq<Option<PartView>>) -> Option<(Seq<char>, Seq<u8>)> {
    match (row[0], row[1]) {
        (Some(a), Some(b)) => match (a.text, b.text) {
            (Some(kappa), Some(digits)) => match hex_bytes(digits) {
                Some(content) => Some((kappa, content)),
                None => None,
            },
            _ => None,
        },
        _ => None,
    }
}

/// The entries of a bundle, up to one that is not sound; none where one is not.
pub open spec fn entries_in(rows: Seq<Seq<Option<PartView>>>) -> Option<Seq<(Seq<char>, Seq<u8>)>>
    decreases rows.len(),
{
    if rows.len() == 0 {
        Some(Seq::empty())
    } else {
        match (entries_in(rows.drop_last()), entry_in(rows.last())) {
            (Some(before), Some(entry)) => Some(before.push(entry)),
            _ => None,
        }
    }
}

/// The entries of a bundle in a body.
pub open spec fn bundle_in(body: Seq<u8>) -> Result<Seq<(Seq<char>, Seq<u8>)>, BodyFault> {
    match json_rows_of(body, "entries"@, seq!["kappa"@, "content"@]) {
        None => Err(BodyFault::NotJson),
        Some(None) => Err(BodyFault::Missing("entries"@)),
        Some(Some(rows)) => match entries_in(rows) {
            Some(entries) => Ok(entries),
            None => Err(BodyFault::Missing("entries"@)),
        },
    }
}

fn read_entry(row: &Vec<Option<JsonPart>>) -> (out: Option<BundleEntry>)
    requires
        row@.len() == 2,
    ensures
        match (out, entry_in(crate::json::shown_row(row@))) {
            (Some(e), Some(v)) => e.deep_view() == v,
            (None, None) => true,
            _ => false,
        },
{
    let ghost seen = crate::json::shown_row(row@);
    assert(seen[0] == crate::json::shown_part(row@[0]) && seen[1] == crate::json::shown_part(row@[1]));
    match (&row[0], &row[1]) {
        (Some(a), Some(b)) => match (&a.text, &b.text) {
            (Some(kappa), Some(digits)) => match hex_decode(digits.as_str()) {
                Some(content) => Some(BundleEntry { kappa: kappa.clone(), content }),
                None => None,
            },
            _ => None,
        },
        _ => None,
    }
}

/// Rows after one that is not an entry change nothing.
proof fn lemma_entries_stay(rows: Seq<Seq<Option<PartView>>>, n: int)
    requires
        0 <= n <= rows.len(),
        entries_in(rows.take(n)) is None,
    ensures
        entries_in(rows) is None,
    decreases rows.len() - n,
{
    if n < rows.len() {
        assert(rows.take(n + 1).drop_last() =~= rows.take(n));
        lemma_entries_stay(rows, n + 1);
    } else {
        assert(rows.take(n) =~= rows);
    }
}

fn read_entries(body: &[u8]) -> (out: Result<Vec<BundleEntry>, BodyError>)
    ensures
        match (out, bundle_in(body@)) {
            (Ok(v), Ok(s)) => v.deep_view() == s,
            (Err(e), Err(f)) => e.deep_view() == f,
            _ => false,
        },
{
    let mut names: Vec<&str> = Vec::new();
    names.push("kappa");
    names.push("content");
    assert(shown_names(names@) =~= seq!["kappa"@, "content"@]);
    let rows = match json_rows(body, "entries", names.as_slice()) {
        Some(Some(rows)) => rows,
        Some(None) => return Err(BodyError::Missing("entries".to_owned())),
        None => return Err(BodyError::NotJson),
    };
    let ghost all = shown_rows(rows@);
    let mut out: Vec<BundleEntry> = Vec::new();
    let mut i: usize = 0;
    proof {
        assert(all.take(0) =~= Seq::<Seq<Option<PartView>>>::empty());
        assert(out.deep_view() =~= Seq::<(Seq<char>, Seq<u8>)>::empty());
    }
    while i < rows.len()
        invariant
            i <= rows@.len(),
            all == shown_rows(rows@),
            json_rows_of(body@, "entries"@, seq!["kappa"@, "content"@]) == Some(Some(all)),
            forall|k: int| 0 <= k < rows@.len() ==> (#[trigger] rows@[k])@.len() == 2,
            entries_in(all.take(i as int)) == Some(out.deep_view()),
        decreases rows@.len() - i,
    {
        proof {
            assert(all.take(i + 1).drop_last() =~= all.take(i as int));
            assert(all.take(i + 1).last() == crate::json::shown_row(rows@[i as int]@));
        }
        let ghost had = out.deep_view();
        match read_entry(&rows[i]) {
            Some(entry) => {
                let ghost shown = entry.deep_view();
                out.push(entry);
                assert(out.deep_view() =~= had.push(shown));
            },
            None => {
                proof {
                    lemma_entries_stay(all, i + 1);
                }
                return Err(BodyError::Missing("entries".to_owned()));
            },
        }
        i += 1;
    }
    assert(all.take(i as int) =~= all);
    Ok(out)
}

/// Puts in the `entries` of a body, each with a `kappa` and its `content` in
/// hexadecimal.
pub fn ingest_bundle_body(store: &mut InMemoryStore, body: &[u8]) -> (out: Result<
    Vec<String>,
    Denied<BundleError>,
>)
    requires
        old(store).wf(),
    ensures
        final(store).wf(),
        match bundle_in(body@) {
            Err(f) => denied(out, f) && final(store).state() == old(store).state(),
            Ok(entries) => answer(out) is Some && bundle_ingested(
                old(store).state(),
                final(store).state(),
                entries,
                answer(out)->0,
            ),
        },
{
    let entries = match read_entries(body) {
        Ok(v) => v,
        Err(e) => return Err(Denied::Body(e)),
    };
    let entries_list = entries.as_slice();
    assert(entries_list.deep_view() =~= entries.deep_view());
    match ingest_bundle(store, entries_list) {
        Ok(kappas) => Ok(kappas),
        Err(e) => Err(Denied::Refused(e)),
    }
}

/// Pins the `kappa` of a body, with a `ttl` and a `controller` where it has them.
pub fn pin_body(store: &mut InMemoryStore, ns: &NamespaceRef, body: &[u8]) -> (out: Result<
    String,
    Denied<StoreError>,
>)
    requires
        old(store).wf(),
    ensures
        final(store).wf(),
        match both(
            needed_text(body@, "kappa"@),
            both(number_in(body@, "ttl"@), text_else(body@, "controller"@, ""@)),
        ) {
            Err(f) => denied(out, f) && final(store).state() == old(store).state(),
            Ok((kappa, (ttl, controller))) => answer(out) is Some && pin_done(
                old(store).state(),
                final(store).state(),
                *ns,
                kappa,
                match ttl {
                    Some(n) => n,
                    None => 0,
                },
                controller,
                answer(out)->0,
            ),
        },
{
    let kappa = match read_needed_text(body, "kappa") {
        Ok(v) => v,
        Err(e) => return Err(Denied::Body(e)),
    };
    let ttl: u64 = match read_number(body, "ttl") {
        Ok(Some(n)) => n,
        Ok(None) => 0,
        Err(e) => return Err(Denied::Body(e)),
    };
    let controller = match read_text_else(body, "controller", "") {
        Ok(v) => v,
        Err(e) => return Err(Denied::Body(e)),
    };
    match pin(store, ns, kappa.as_str(), ttl, controller.as_str()) {
        Ok(k) => Ok(k),
        Err(e) => Err(Denied::Refused(e)),
    }
}

/// Takes the `pin_kappa` of a body away, or releases it where `release` is the
/// text `true`.
pub fn unpin_body(store: &mut InMemoryStore, ns: &NamespaceRef, body: &[u8]) -> (out: Result<
    (),
    Denied<StoreError>,
>)
    requires
        old(store).wf(),
    ensures
        final(store).wf(),
        match both(needed_text(body@, "pin_kappa"@), text_in(body@, "release"@)) {
            Err(f) => denied(out, f) && final(store).state() == old(store).state(),
            Ok((kappa, release)) => answer(out) is Some && unpin_done(
                old(store).state(),
                final(store).state(),
                *ns,
                kappa,
                release == Some("true"@),
                answer(out)->0,
            ),
        },
{
    let kappa = match read_needed_text(body, "pin_kappa") {
        Ok(v) => v,
        Err(e) => return Err(Denied::Body(e)),
    };
    let release: bool = match read_text(body, "release") {
        Ok(Some(s)) => same_text(s.as_str(), "true"),
        Ok(None) => false,
        Err(e) => return Err(Denied::Body(e)),
    };
    match unpin(store, ns, kappa.as_str(), release) {
        Ok(()) => Ok(()),
        Err(e) => Err(Denied::Refused(e)),
    }
}

// -- Reconciliation -----------------------------------------------------------------

/// Why a message of a reconciliation was refused.
#[derive(Debug)]
pub enum ReconcileRefusal {
    UnknownType(String),
    BadFingerprint,
}

/// The answer to a message, with the ends of its range.
#[derive(Debug)]
pub struct Reconciled {
    pub lower: String,
    pub upper: String,
    pub reply: FingerprintReply,
}

/// What a message is.
pub open spec fn message_type(body: Seq<u8>) -> Result<Seq<char>, BodyFault> {
    match text_in(body, "type"@) {
        Err(f) => Err(f),
        Ok(Some(kind)) => Ok(kind),
        Ok(None) => Err(BodyFault::Missing("type field"@)),
    }
}

/// The ends of the range of a message.
pub open spec fn message_range(body: Seq<u8>) -> Result<(Seq<char>, Seq<char>), BodyFault> {
    both(needed_text(body, "lower"@), needed_text(body, "upper"@))
}

/// Whether a range was answered with the items that a peer lacks.
pub open spec fn items_sent(
    st: StoreState,
    ns: NamespaceRef,
    out: Result<Reconciled, Denied<ReconcileRefusal>>,
    lower: Seq<char>,
    upper: Seq<char>,
    peer: Option<Seq<Seq<char>>>,
) -> bool {
    exists|tags: Seq<TagView>| #[trigger]
        st.is_listing(ns, Seq::empty(), tags) && {
            let items = range_items(tags, lower, upper);
            out matches Ok(r) && r.lower@ == lower && r.upper@ == upper && (
            r.reply matches FingerprintReply::Items(list) && list.deep_view() == (match peer {
                Some(theirs) => lacking(items, theirs),
                None => items,
            }))
        }
}

/// Whether a fingerprint in a message was answered.
pub open spec fn fingerprint_sent(
    st: StoreState,
    ns: NamespaceRef,
    out: Result<Reconciled, Denied<ReconcileRefusal>>,
    lower: Seq<char>,
    upper: Seq<char>,
    peer: Seq<char>,
) -> bool {
    match out {
        Ok(r) => r.lower@ == lower && r.upper@ == upper && exists|tags: Seq<TagView>| #[trigger]
            st.is_listing(ns, Seq::empty(), tags) && fingerprint_answered(
                tag_names(range_tags(tags, lower, upper)),
                range_items(tags, lower, upper),
                lower,
                upper,
                peer,
                Ok(r.reply),
            ),
        Err(Denied::Refused(ReconcileRefusal::BadFingerprint)) => hex_bytes(peer) is None,
        Err(_) => false,
    }
}

/// Whether a message was answered.
pub open spec fn message_answered(
    body: Seq<u8>,
    st: StoreState,
    ns: NamespaceRef,
    out: Result<Reconciled, Denied<ReconcileRefusal>>,
) -> bool {
    match message_type(body) {
        Err(f) => denied(out, f),
        Ok(kind) => if kind == "fingerprint"@ {
            match both(message_range(body), needed_text(body, "fingerprint"@)) {
                Err(f) => denied(out, f),
                Ok(((lower, upper), peer)) => fingerprint_sent(st, ns, out, lower, upper, peer),
            }
        } else if kind == "items_request"@ {
            match message_range(body) {
                Err(f) => denied(out, f),
                Ok((lower, upper)) => items_sent(st, ns, out, lower, upper, None),
            }
        } else if kind == "items"@ {
            match both(message_range(body), texts_in(body, "items"@)) {
                Err(f) => denied(out, f),
                Ok(((lower, upper), peer)) => items_sent(st, ns, out, lower, upper, Some(peer)),
            }
        } else {
            out matches Err(Denied::Refused(ReconcileRefusal::UnknownType(k))) && k@ == kind
        },
    }
}

fn read_range(body: &[u8]) -> (out: Result<(String, String), BodyError>)
    ensures
        match (out, message_range(body@)) {
            (Ok((a, b)), Ok((x, y))) => a@ == x && b@ == y,
            (Err(e), Err(f)) => e.deep_view() == f,
            _ => false,
        },
{
    let lower = match read_needed_text(body, "lower") {
        Ok(v) => v,
        Err(e) => return Err(e),
    };
    let upper = match read_needed_text(body, "upper") {
        Ok(v) => v,
        Err(e) => return Err(e),
    };
    Ok((lower, upper))
}

/// Answers a message of a reconciliation: a fingerprint of a range, a request for
/// its items, or the items of a peer.
pub fn reconcile_body(store: &InMemoryStore, ns: &NamespaceRef, body: &[u8]) -> (out: Result<
    Reconciled,
    Denied<ReconcileRefusal>,
>)
    requires
        store.wf(),
    ensures
        message_answered(body@, store.state(), *ns, out),
{
    proof {
        reveal_strlit("items");
        reveal_strlit("items_request");
        assert("items"@.len() != "items_request"@.len());
    }
    let kind = match read_text(body, "type") {
        Ok(Some(kind)) => kind,
        Ok(None) => return Err(Denied::Body(BodyError::Missing("type field".to_owned()))),
        Err(e) => return Err(Denied::Body(e)),
    };
    let wants_items = same_text(kind.as_str(), "items_request");
    let has_items = same_text(kind.as_str(), "items");
    let has_print = same_text(kind.as_str(), "fingerprint");
    if !wants_items && !has_items && !has_print {
        return Err(Denied::Refused(ReconcileRefusal::UnknownType(kind)));
    }
    let (lower, upper) = match read_range(body) {
        Ok(v) => v,
        Err(e) => return Err(Denied::Body(e)),
    };
    if has_print {
        let peer = match read_needed_text(body, "fingerprint") {
            Ok(v) => v,
            Err(e) => return Err(Denied::Body(e)),
        };
        return match handle_fingerprint(store, ns, lower.as_str(), upper.as_str(), peer.as_str()) {
            Ok(reply) => Ok(Reconciled { lower, upper, reply }),
            Err(_) => Err(Denied::Refused(ReconcileRefusal::BadFingerprint)),
        };
    }
    if has_items {
        let peer = match read_texts(body, "items") {
            Ok(v) => v,
            Err(e) => return Err(Denied::Body(e)),
        };
        let items = handle_items(store, ns, lower.as_str(), upper.as_str(), &peer);
        return Ok(Reconciled { lower, upper, reply: FingerprintReply::Items(items) });
    }
    let items = items_in_range(store, ns, lower.as_str(), upper.as_str());
    Ok(Reconciled { lower, upper, reply: FingerprintReply::Items(items) })
}

} // verus!
