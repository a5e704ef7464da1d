//! Answering fetches and listings of refs.

use vstd::prelude::*;

use crate::git::need::{
    compute_need_set, law_common_not_sent, need_context, need_found, FetchOptions, NeedContext,
};
use crate::git::object::HashKind;
use crate::git::packgen::{generate_pack_sorted, objects_found, sorted_pack_written};
use crate::git::pktline::{band_chunks, push_chunks, Packet, PacketView};
use crate::git::protocol::{
    band_text, push_band_text, push_delimiter, push_flush, push_lines, push_text, replied, send,
    shown, text_lines, text_packet, ReplyFault,
};
use crate::git::refs::{is_symref, list_refs, resolve_ref, resolved, symref_target, tag_pairs};
use crate::git::request::{
    command_line, fetch_arguments, fetch_lines, fetch_request, list_lines, read_command,
    read_fetch_request, read_list_request, read_upload_request, section_read, section_refused,
    upload_haves, upload_request, upload_wants, FetchRequest, FetchView, ListRequest, ListView,
    ProtocolError, SectionEnd,
};
use crate::git::envelope::hash_name;
use crate::git::walk::{
    hex_part, kappa_to_hex_oid, label_with, labels, lemma_push_contains, oid_to_kappa_string,
    peel_tag, peeled, Blobs,
};
use crate::store::memory::InMemoryStore;
use crate::store::state::StoreState;
use crate::table::Table;
use crate::text::{
    decimal, decimal_text, holds_text, joined, joined3, text_begins_with, text_strip_prefix,
};
use crate::types::{NamespaceRef, TagView};

verus! {

// -- Common objects and progress -------------------------------------------------------

/// The object names under which something is stored.
pub open spec fn stored_names(blobs: Blobs, hash: HashKind, oids: Seq<Seq<char>>) -> Seq<Seq<char>>
    decreases oids.len(),
{
    if oids.len() == 0 {
        Seq::empty()
    } else {
        let before = stored_names(blobs, hash, oids.drop_last());
        if blobs.dom().contains(label_with(hash_name(hash), oids.last())) {
            before.push(oids.last())
        } else {
            before
        }
    }
}

fn is_stored(store: &InMemoryStore, hash: HashKind, oid: &str) -> (yes: bool)
    requires
        store.wf(),
    ensures
        yes == store.state().blobs.dom().contains(label_with(hash_name(hash), oid@)),
{
    let kappa = oid_to_kappa_string(hash, oid);
    match store.blob_exists(kappa.as_str()) {
        Ok(yes) => yes,
        Err(_) => false,
    }
}

fn common_names(store: &InMemoryStore, hash: HashKind, haves: &Vec<String>) -> (out: Vec<String>)
    requires
        store.wf(),
    ensures
        out.deep_view() == stored_names(store.state().blobs, hash, haves.deep_view()),
{
    let ghost all = haves.deep_view();
    let ghost blobs = store.state().blobs;
    let mut out: Vec<String> = Vec::new();
    let mut i: usize = 0;
    proof {
        assert(all.take(0) =~= Seq::<Seq<char>>::empty());
        assert(out.deep_view() =~= Seq::<Seq<char>>::empty());
    }
    while i < haves.len()
        invariant
            store.wf(),
            i <= haves@.len(),
            all == haves.deep_view(),
            all.len() == haves@.len(),
            blobs == store.state().blobs,
            out.deep_view() == stored_names(blobs, hash, all.take(i as int)),
        decreases haves@.len() - i,
    {
        let ghost before = out.deep_view();
        proof {
            assert(all.take(i + 1).drop_last() =~= all.take(i as int));
            assert(all.take(i + 1).last() == haves@[i as int]@);
        }
        if is_stored(store, hash, haves[i].as_str()) {
            out.push(haves[i].clone());
            assert(out.deep_view() =~= before.push(haves@[i as int]@));
        }
        i += 1;
    }
    assert(all.take(i as int) =~= all);
    out
}

/// A count as it is shown: its last thirty-two bits.
pub open spec fn count_of(n: nat) -> nat {
    n % 0x1_0000_0000
}

/// The last report on compression.
pub open spec fn compressed_text(total: nat) -> Seq<char> {
    "Compressing objects: 100% ("@ + decimal(total) + "/"@ + decimal(total) + "), done.\n"@
}

fn compressed_report(total: u64) -> (out: String)
    ensures
        out@ == compressed_text(total as nat),
{
    let number = decimal_text(total);
    let front = joined3("Compressing objects: 100% (", number.as_str(), "/");
    joined3(front.as_str(), number.as_str(), "), done.\n")
}

/// A report on compression under way.
pub open spec fn progress_text(written: nat, total: nat) -> Seq<char> {
    "Compressing objects: "@ + decimal((written * 100 / total) as nat) + "% ("@ + decimal(written)
        + "/"@ + decimal(total) + ")\r"@
}

/// The reports on compression, one after each object.
pub open spec fn progress_reports(total: nat) -> Seq<PacketView> {
    Seq::new(total, |i: int| band_text(2, progress_text((i + 1) as nat, total)))
}

fn push_progress(packets: &mut Vec<Packet>, total: u64)
    requires
        total < 0x1_0000_0000,
    ensures
        final(packets).deep_view() == old(packets).deep_view() + progress_reports(total as nat),
{
    let ghost before = packets.deep_view();
    let ghost all = progress_reports(total as nat);
    let mut i: u64 = 0;
    assert(before + all.take(0) =~= before);
    while i < total
        invariant
            i <= total < 0x1_0000_0000,
            all == progress_reports(total as nat),
            packets.deep_view() == before + all.take(i as int),
        decreases total - i,
    {
        let written: u64 = i + 1;
        let percent: u64 = written * 100 / total;
        let front = joined3("Compressing objects: ", decimal_text(percent).as_str(), "% (");
        let middle = joined3(front.as_str(), decimal_text(written).as_str(), "/");
        let line = joined3(middle.as_str(), decimal_text(total).as_str(), ")\r");
        push_band_text(packets, 2, line.as_str());
        proof {
            assert(all[i as int] == band_text(2, line@));
            assert(before + all.take(i + 1) =~= (before + all.take(i as int)).push(all[i as int]));
        }
        i += 1;
    }
    assert(all.take(i as int) =~= all);
}

// -- Fetches, first version ------------------------------------------------------------

/// What is answered to a client's haves: the common objects, or that there are
/// none.
pub open spec fn acknowledgments(common: Seq<Seq<char>>, done: bool) -> Seq<PacketView> {
    if common.len() == 0 {
        seq![text_packet("NAK\n"@)]
    } else {
        let all = text_lines("ACK "@, common, " common\n"@);
        if done {
            all.push(text_packet("ACK "@ + common[0] + "\n"@))
        } else {
            all
        }
    }
}

/// The ends of a client's history that it can do without now: something is
/// stored for them, and they are no ends of the new history.
pub open spec fn unshallowed(
    blobs: Blobs,
    hash: HashKind,
    client: Seq<Seq<char>>,
    shallows: Seq<Seq<char>>,
) -> Seq<Seq<char>>
    decreases client.len(),
{
    if client.len() == 0 {
        Seq::empty()
    } else {
        let before = unshallowed(blobs, hash, client.drop_last(), shallows);
        let oid = client.last();
        if blobs.dom().contains(label_with(hash_name(hash), oid)) && !shallows.contains(oid) {
            before.push(oid)
        } else {
            before
        }
    }
}

fn unshallow_names(store: &InMemoryStore, hash: HashKind, client: &Vec<String>, shallows: &Vec<String>) -> (out: Vec<
    String,
>)
    requires
        store.wf(),
    ensures
        out.deep_view() == unshallowed(
            store.state().blobs,
            hash,
            client.deep_view(),
            shallows.deep_view(),
        ),
{
    let ghost all = client.deep_view();
    let ghost blobs = store.state().blobs;
    let mut out: Vec<String> = Vec::new();
    let mut i: usize = 0;
    proof {
        assert(all.take(0) =~= Seq::<Seq<char>>::empty());
        assert(out.deep_view() =~= Seq::<Seq<char>>::empty());
    }
    while i < client.len()
        invariant
            store.wf(),
            i <= client@.len(),
            all == client.deep_view(),
            all.len() == client@.len(),
            blobs == store.state().blobs,
            out.deep_view() == unshallowed(
                blobs,
                hash,
                all.take(i as int),
                shallows.deep_view(),
            ),
        decreases client@.len() - i,
    {
        let ghost before = out.deep_view();
        proof {
            assert(all.take(i + 1).drop_last() =~= all.take(i as int));
            assert(all.take(i + 1).last() == client@[i as int]@);
        }
        if is_stored(store, hash, client[i].as_str()) && !holds_text(shallows, client[i].as_str()) {
            out.push(client[i].clone());
            assert(out.deep_view() =~= before.push(client@[i as int]@));
        }
        i += 1;
    }
    assert(all.take(i as int) =~= all);
    out
}

/// The search that a request leads to.
pub open spec fn request_context(blobs: Blobs, hash: HashKind, r: FetchView) -> NeedContext {
    NeedContext {
        blobs,
        hash,
        common: labels(hash, stored_names(blobs, hash, r.haves)),
        deepen: r.deepen,
        filter: r.filter,
    }
}

/// What comes before the pack in the answer to a fetch.
pub open spec fn upload_front(
    blobs: Blobs,
    hash: HashKind,
    r: FetchView,
    done: bool,
    needed: Seq<Seq<char>>,
    shallows: Seq<Seq<char>>,
) -> Seq<PacketView> {
    acknowledgments(stored_names(blobs, hash, r.haves), done) + text_lines(
        "shallow "@,
        shallows,
        "\n"@,
    ) + text_lines("unshallow "@, unshallowed(blobs, hash, r.shallows, shallows), "\n"@) + seq![
        band_text(2, "Counting objects: "@ + decimal(count_of(needed.len())) + ", done.\n"@),
    ]
}

/// The answer to a fetch that found these objects and ends of history.
pub open spec fn upload_reply(
    blobs: Blobs,
    hash: HashKind,
    r: FetchView,
    done: bool,
    needed: Seq<Seq<char>>,
    shallows: Seq<Seq<char>>,
) -> (Seq<PacketView>, Option<ReplyFault>) {
    let front = upload_front(blobs, hash, r, done, needed, shallows);
    let (pack, fault) = sorted_pack_written(blobs, needed, Map::empty(), hash);
    let written = count_of(objects_found(blobs, needed, Map::empty()).len());
    match fault {
        Some(f) => (front, Some(ReplyFault::PackGen(f))),
        None => (
            (front + progress_reports(written)).push(
                band_text(2, compressed_text(count_of(needed.len()))),
            ) + band_chunks(1, pack).push(PacketView::Flush),
            None,
        ),
    }
}

/// The answer to a fetch of nothing.
pub open spec fn nothing_wanted() -> Seq<PacketView> {
    seq![text_packet("NAK\n"@), PacketView::Flush]
}

fn push_acknowledgments(packets: &mut Vec<Packet>, common: &Vec<String>, done: bool)
    ensures
        final(packets).deep_view() == old(packets).deep_view() + acknowledgments(
            common.deep_view(),
            done,
        ),
{
    let ghost before = packets.deep_view();
    if common.len() == 0 {
        push_text(packets, "NAK\n");
        assert(packets.deep_view() =~= before + seq![text_packet("NAK\n"@)]);
    } else {
        push_lines(packets, "ACK ", common, " common\n");
        if done {
            let line = joined3("ACK ", common[0].as_str(), "\n");
            push_text(packets, line.as_str());
            proof {
                let all = text_lines("ACK "@, common.deep_view(), " common\n"@);
                assert(common.deep_view()[0] == common@[0]@);
                assert((before + all).push(text_packet(line@)) =~= before + all.push(
                    text_packet(line@),
                ));
            }
        }
    }
}

fn push_upload_front(
    store: &InMemoryStore,
    packets: &mut Vec<Packet>,
    hash: HashKind,
    r: &FetchRequest,
    done: bool,
    common: &Vec<String>,
    needed: &Vec<String>,
    shallows: &Vec<String>,
)
    requires
        store.wf(),
        old(packets)@.len() == 0,
        common.deep_view() == stored_names(store.state().blobs, hash, r.deep_view().haves),
    ensures
        final(packets).deep_view() == upload_front(
            store.state().blobs,
            hash,
            r.deep_view(),
            done,
            needed.deep_view(),
            shallows.deep_view(),
        ),
{
    let ghost none = Seq::<PacketView>::empty();
    assert(packets.deep_view() =~= none);
    push_acknowledgments(packets, common, done);
    assert(none + acknowledgments(common.deep_view(), done) =~= acknowledgments(
        common.deep_view(),
        done,
    ));
    push_lines(packets, "shallow ", shallows, "\n");
    let gone = unshallow_names(store, hash, &r.options.client_shallows, shallows);
    push_lines(packets, "unshallow ", &gone, "\n");
    let total: u64 = needed.len() as u64 % 0x1_0000_0000;
    let line = joined3("Counting objects: ", decimal_text(total).as_str(), ", done.\n");
    let ghost before = packets.deep_view();
    push_band_text(packets, 2, line.as_str());
    assert(packets.deep_view() =~= before + seq![band_text(2, line@)]);
}

/// Answers a fetch.
pub fn answer_upload(
    store: &InMemoryStore,
    namespace: &NamespaceRef,
    r: &FetchRequest,
    done: bool,
    response: &mut Vec<u8>,
    hash: HashKind,
) -> (out: Result<(), ProtocolError>)
    requires
        store.wf(),
    ensures
        upload_answered(
            store.state().blobs,
            r.deep_view(),
            done,
            hash,
            old(response)@,
            final(response)@,
            out,
        ),
{
    let ghost before = response@;
    let ghost blobs = store.state().blobs;
    let mut packets: Vec<Packet> = Vec::new();
    if r.wants.len() == 0 {
        push_text(&mut packets, "NAK\n");
        push_flush(&mut packets);
        assert(packets.deep_view() =~= nothing_wanted());
        return send(&packets, None, response);
    }
    let common = common_names(store, hash, &r.haves);
    let wants = r.wants.as_slice();
    let names = common.as_slice();
    proof {
        assert(wants.deep_view() =~= r.wants.deep_view());
        assert(names.deep_view() =~= common.deep_view());
    }
    let (needed, shallows) = compute_need_set(store, namespace, wants, names, hash, &r.options);
    let ghost cx = request_context(blobs, hash, r.deep_view());
    assert(need_context(blobs, hash, names.deep_view(), r.options) == cx);
    push_upload_front(store, &mut packets, hash, r, done, &common, &needed, &shallows);
    let ghost front = packets.deep_view();
    let hints: Table<String, String> = Table::new();
    let mut pack: Vec<u8> = Vec::new();
    let mut reports: Vec<(u32, u32)> = Vec::new();
    let list = needed.as_slice();
    assert(list.deep_view() =~= needed.deep_view());
    let ghost want = upload_reply(
        blobs,
        hash,
        r.deep_view(),
        done,
        needed.deep_view(),
        shallows.deep_view(),
    );
    assert(upload_found(blobs, r.deep_view(), hash, needed.deep_view(), shallows.deep_view()));
    let written: u64 = match generate_pack_sorted(store, list, hash, &hints, &mut reports, &mut pack) {
        Ok(result) => result.objects_written as u64,
        Err(e) => {
            return send(&packets, Some(ProtocolError::PackGen(e)), response);
        },
    };
    push_progress(&mut packets, written);
    let report = compressed_report(needed.len() as u64 % 0x1_0000_0000);
    push_band_text(&mut packets, 2, report.as_str());
    let ghost so_far = packets.deep_view();
    push_chunks(&mut packets, 1, pack.as_slice());
    push_flush(&mut packets);
    proof {
        let body = sorted_pack_written(blobs, needed.deep_view(), Map::empty(), hash).0;
        assert(Seq::<u8>::empty() + body =~= body);
        assert(pack@ == body);
        let chunks = band_chunks(1, pack@);
        assert((so_far + chunks).push(PacketView::Flush) =~= so_far + chunks.push(
            PacketView::Flush,
        ));
        assert(packets.deep_view() == want.0);
    }
    send(&packets, None, response)
}

/// Whether a search for a request finds these objects and ends of history.
pub open spec fn upload_found(
    blobs: Blobs,
    r: FetchView,
    hash: HashKind,
    needed: Seq<Seq<char>>,
    shallows: Seq<Seq<char>>,
) -> bool {
    need_found(request_context(blobs, hash, r), labels(hash, r.wants), needed, shallows)
}

/// Whether a fetch was answered.
pub open spec fn upload_answered(
    blobs: Blobs,
    r: FetchView,
    done: bool,
    hash: HashKind,
    before: Seq<u8>,
    after: Seq<u8>,
    out: Result<(), ProtocolError>,
) -> bool {
    if r.wants.len() == 0 {
        replied(before, after, nothing_wanted(), None, out)
    } else {
        exists|needed: Seq<Seq<char>>, shallows: Seq<Seq<char>>|
            #![trigger upload_found(blobs, r, hash, needed, shallows)]
            {
                let (packets, fault) = upload_reply(blobs, hash, r, done, needed, shallows);
                &&& upload_found(blobs, r, hash, needed, shallows)
                &&& replied(before, after, packets, fault, out)
            }
    }
}

/// Handles a fetch in the first version of the protocol.
pub fn handle_upload_pack(
    store: &InMemoryStore,
    namespace: &NamespaceRef,
    request: &[u8],
    response: &mut Vec<u8>,
    hash: HashKind,
) -> (out: Result<(), ProtocolError>)
    requires
        store.wf(),
    ensures
        ({
            let wants = upload_wants(request@);
            let haves = upload_haves(request@);
            if !section_read(wants) {
                &&& out matches Err(e) && section_refused(e, wants, "non-utf8 want line"@)
                &&& final(response)@ == old(response)@
            } else if !section_read(haves) {
                &&& out matches Err(e) && section_refused(e, haves, "non-utf8 have line"@)
                &&& final(response)@ == old(response)@
            } else {
                upload_answered(
                    store.state().blobs,
                    upload_request(request@),
                    haves.end is Done,
                    hash,
                    old(response)@,
                    final(response)@,
                    out,
                )
            }
        }),
{
    match read_upload_request(request) {
        Ok((r, done)) => answer_upload(store, namespace, &r, done, response, hash),
        Err(e) => Err(e),
    }
}

// -- Listings, second version ------------------------------------------------------------

/// Whether one of the prefixes begins a name; any name, where there are none.
pub open spec fn name_matches(prefixes: Seq<Seq<char>>, name: Seq<char>) -> bool {
    prefixes.len() == 0 || exists|i: int|
        0 <= i < prefixes.len() && (#[trigger] prefixes[i]).is_prefix_of(name)
}

fn matches_prefix(prefixes: &Vec<String>, name: &str) -> (yes: bool)
    ensures
        yes == name_matches(prefixes.deep_view(), name@),
{
    if prefixes.len() == 0 {
        return true;
    }
    let ghost all = prefixes.deep_view();
    let mut i: usize = 0;
    while i < prefixes.len()
        invariant
            i <= prefixes@.len(),
            all == prefixes.deep_view(),
            forall|k: int| 0 <= k < i ==> !(#[trigger] all[k]).is_prefix_of(name@),
        decreases prefixes@.len() - i,
    {
        assert(all[i as int] == prefixes@[i as int]@);
        if text_begins_with(name, prefixes[i].as_str()) {
            return true;
        }
        i += 1;
    }
    false
}

/// What is added to the line of `HEAD` where it is a symbolic ref and these are
/// asked for.
pub open spec fn symref_note(st: StoreState, ns: NamespaceRef, r: ListView) -> Seq<char> {
    let k = StoreState::filed(ns, "HEAD"@);
    if r.symrefs && st.tags.dom().contains(k) && is_symref(st.tags[k].kappa) {
        " symref-target:"@ + symref_target(st.tags[k].kappa)
    } else {
        Seq::empty()
    }
}

/// The line for `HEAD` in a listing.
pub open spec fn head_listed(st: StoreState, ns: NamespaceRef, r: ListView, head: Option<Seq<char>>) -> Seq<
    PacketView,
> {
    match head {
        Some(target) => if name_matches(r.prefixes, "HEAD"@) {
            seq![
                text_packet(hex_part(target) + " HEAD"@ + symref_note(st, ns, r) + "\n"@),
            ]
        } else {
            Seq::empty()
        },
        None => Seq::empty(),
    }
}

/// What is added to the line of a ref to an annotated tag where this is asked
/// for.
pub open spec fn peel_note(blobs: Blobs, r: ListView, name: Seq<char>, value: Seq<char>) -> Seq<char> {
    match peeled(blobs, name, value) {
        Some(oid) => if r.peel {
            " peeled:"@ + oid
        } else {
            Seq::empty()
        },
        None => Seq::empty(),
    }
}

/// The lines for refs in a listing: for those that match, but for symbolic
/// ones.
pub open spec fn refs_listed(blobs: Blobs, r: ListView, refs: Seq<(Seq<char>, Seq<char>)>) -> Seq<
    PacketView,
>
    decreases refs.len(),
{
    if refs.len() == 0 {
        Seq::empty()
    } else {
        let before = refs_listed(blobs, r, refs.drop_last());
        let (name, value) = refs.last();
        if is_symref(value) || !name_matches(r.prefixes, name) {
            before
        } else {
            before.push(
                text_packet(
                    hex_part(value) + " "@ + name + peel_note(blobs, r, name, value) + "\n"@,
                ),
            )
        }
    }
}

/// A listing of refs.
pub open spec fn listing(st: StoreState, ns: NamespaceRef, r: ListView, refs: Seq<TagView>) -> (
    Seq<PacketView>,
    Option<ReplyFault>,
) {
    match resolved(st, ns, "HEAD"@) {
        Err(_) => (Seq::empty(), Some(ReplyFault::SymrefLoop)),
        Ok(head) => (
            (head_listed(st, ns, r, head) + refs_listed(st.blobs, r, tag_pairs(refs))).push(
                PacketView::Flush,
            ),
            None,
        ),
    }
}

fn push_head(
    store: &InMemoryStore,
    namespace: &NamespaceRef,
    packets: &mut Vec<Packet>,
    r: &ListRequest,
    head: &Option<String>,
)
    requires
        store.wf(),
        old(packets)@.len() == 0,
    ensures
        final(packets).deep_view() == head_listed(
            store.state(),
            *namespace,
            r.deep_view(),
            shown(*head),
        ),
{
    assert(packets.deep_view() =~= Seq::<PacketView>::empty());
    if let Some(target) = head {
        if matches_prefix(&r.prefixes, "HEAD") {
            let oid = kappa_to_hex_oid(target.as_str());
            let mut note = String::new();
            assert(note@ =~= Seq::<char>::empty());
            if r.symrefs {
                if let Ok(entry) = store.tag_get(namespace, "HEAD") {
                    if let Some(name) = text_strip_prefix(entry.kappa.as_str(), "ref: ") {
                        proof {
                            let value = entry.kappa@;
                            assert(value.subrange(0, "ref: "@.len() as int) =~= "ref: "@);
                            assert(value.skip("ref: "@.len() as int) =~= name@);
                        }
                        note = joined(" symref-target:", name.as_str());
                    }
                }
            }
            let front = joined3(oid.as_str(), " HEAD", note.as_str());
            let line = joined(front.as_str(), "\n");
            push_text(packets, line.as_str());
            assert(packets.deep_view() =~= seq![text_packet(line@)]);
        }
    }
}

fn push_listed(
    store: &InMemoryStore,
    packets: &mut Vec<Packet>,
    r: &ListRequest,
    refs: &Vec<(String, String)>,
)
    requires
        store.wf(),
    ensures
        final(packets).deep_view() == old(packets).deep_view() + refs_listed(
            store.state().blobs,
            r.deep_view(),
            crate::verified::pair_texts(refs@),
        ),
{
    let ghost before = packets.deep_view();
    let ghost blobs = store.state().blobs;
    let ghost all = crate::verified::pair_texts(refs@);
    let mut i: usize = 0;
    proof {
        assert(all.take(0) =~= Seq::<(Seq<char>, Seq<char>)>::empty());
        assert(before + Seq::<PacketView>::empty() =~= before);
    }
    while i < refs.len()
        invariant
            store.wf(),
            i <= refs@.len(),
            blobs == store.state().blobs,
            all == crate::verified::pair_texts(refs@),
            all.len() == refs@.len(),
            packets.deep_view() == before + refs_listed(blobs, r.deep_view(), all.take(i as int)),
        decreases refs@.len() - i,
    {
        let name = refs[i].0.as_str();
        let value = refs[i].1.as_str();
        let ghost had = refs_listed(blobs, r.deep_view(), all.take(i as int));
        proof {
            assert(all.take(i + 1).drop_last() =~= all.take(i as int));
            assert(all.take(i + 1).last() == (name@, value@));
        }
        if !text_begins_with(value, "ref: ") && matches_prefix(&r.prefixes, name) {
            let oid = kappa_to_hex_oid(value);
            let mut note = String::new();
            assert(note@ =~= Seq::<char>::empty());
            if r.peel {
                if let Some(target) = peel_tag(store, name, value) {
                    note = joined(" peeled:", target.as_str());
                }
            }
            let front = joined3(oid.as_str(), " ", name);
            let line = joined3(front.as_str(), note.as_str(), "\n");
            push_text(packets, line.as_str());
            assert((before + had).push(text_packet(line@)) =~= before + had.push(
                text_packet(line@),
            ));
        }
        i += 1;
    }
    assert(all.take(i as int) =~= all);
}

/// Answers a request for a listing of refs.
pub fn answer_listing(
    store: &InMemoryStore,
    namespace: &NamespaceRef,
    r: &ListRequest,
    response: &mut Vec<u8>,
) -> (out: Result<(), ProtocolError>)
    requires
        store.wf(),
    ensures
        listing_answered(
            store.state(),
            *namespace,
            r.deep_view(),
            old(response)@,
            final(response)@,
            out,
        ),
{
    let none = String::new();
    assert(none@ =~= Seq::<char>::empty());
    let refs = match list_refs(store, namespace, none.as_str()) {
        Ok(refs) => refs,
        Err(e) => return Err(ProtocolError::Ref(e)),
    };
    let ghost tags = choose|tags: Seq<TagView>| #[trigger]
        store.state().is_listing(*namespace, Seq::empty(), tags) && crate::verified::pair_texts(
            refs@,
        ) == tag_pairs(tags);
    let mut packets: Vec<Packet> = Vec::new();
    let head = match resolve_ref(store, namespace, "HEAD") {
        Ok(head) => head,
        Err(e) => {
            assert(packets.deep_view() =~= Seq::<PacketView>::empty());
            return send(&packets, Some(ProtocolError::Ref(e)), response);
        },
    };
    push_head(store, namespace, &mut packets, r, &head);
    push_listed(store, &mut packets, r, &refs);
    push_flush(&mut packets);
    send(&packets, None, response)
}

/// Whether a request for a listing of refs was answered.
pub open spec fn listing_answered(
    st: StoreState,
    ns: NamespaceRef,
    r: ListView,
    before: Seq<u8>,
    after: Seq<u8>,
    out: Result<(), ProtocolError>,
) -> bool {
    exists|refs: Seq<TagView>|
        #![trigger st.is_listing(ns, Seq::empty(), refs)]
        {
            let (packets, fault) = listing(st, ns, r, refs);
            &&& st.is_listing(ns, Seq::empty(), refs)
            &&& replied(before, after, packets, fault, out)
        }
}

// -- Fetches, second version --------------------------------------------------------------

/// What is answered to haves in the second version of the protocol.
pub open spec fn v2_acknowledgments(haves: Seq<Seq<char>>, common: Seq<Seq<char>>) -> Seq<PacketView> {
    if haves.len() == 0 {
        Seq::empty()
    } else {
        seq![text_packet("acknowledgments\n"@)] + text_lines("ACK "@, common, "\n"@) + (
        if common.len() == 0 {
            seq![text_packet("NAK\n"@)]
        } else {
            Seq::empty()
        }) + seq![text_packet("ready\n"@), PacketView::Delimiter]
    }
}

/// The ends of history, on the side band of the pack.
pub open spec fn band_shallows(shallows: Seq<Seq<char>>) -> Seq<PacketView> {
    Seq::new(shallows.len(), |i: int| band_text(1, "shallow "@ + shallows[i] + "\n"@))
}

/// What comes before the pack in the second version of the protocol.
pub open spec fn fetch_front(blobs: Blobs, hash: HashKind, r: FetchView, shallows: Seq<Seq<char>>) -> Seq<
    PacketView,
> {
    v2_acknowledgments(r.haves, stored_names(blobs, hash, r.haves)) + seq![
        text_packet("packfile\n"@),
    ] + band_shallows(shallows)
}

/// The answer to a fetch in the second version of the protocol.
pub open spec fn fetch_reply(
    blobs: Blobs,
    hash: HashKind,
    r: FetchView,
    needed: Seq<Seq<char>>,
    shallows: Seq<Seq<char>>,
) -> (Seq<PacketView>, Option<ReplyFault>) {
    let front = fetch_front(blobs, hash, r, shallows);
    let (pack, fault) = sorted_pack_written(blobs, needed, Map::empty(), hash);
    match fault {
        Some(f) => (front, Some(ReplyFault::PackGen(f))),
        None => (
            front + (if r.no_progress {
                Seq::empty()
            } else {
                seq![band_text(2, compressed_text(count_of(needed.len())))]
            }) + band_chunks(1, pack).push(PacketView::Flush),
            None,
        ),
    }
}

/// The answer to a fetch of nothing in the second version of the protocol.
pub open spec fn v2_nothing_wanted() -> Seq<PacketView> {
    seq![text_packet("acknowledgments\n"@), text_packet("NAK\n"@), PacketView::Flush]
}

/// Whether a fetch in the second version of the protocol was answered.
pub open spec fn fetch_answered(
    blobs: Blobs,
    r: FetchView,
    hash: HashKind,
    before: Seq<u8>,
    after: Seq<u8>,
    out: Result<(), ProtocolError>,
) -> bool {
    if r.wants.len() == 0 {
        replied(before, after, v2_nothing_wanted(), None, out)
    } else {
        exists|needed: Seq<Seq<char>>, shallows: Seq<Seq<char>>|
            #![trigger upload_found(blobs, r, hash, needed, shallows)]
            {
                let (packets, fault) = fetch_reply(blobs, hash, r, needed, shallows);
                &&& upload_found(blobs, r, hash, needed, shallows)
                &&& replied(before, after, packets, fault, out)
            }
    }
}

fn push_v2_acknowledgments(packets: &mut Vec<Packet>, haves: &Vec<String>, common: &Vec<String>)
    requires
        old(packets)@.len() == 0,
    ensures
        final(packets).deep_view() == v2_acknowledgments(haves.deep_view(), common.deep_view()),
{
    assert(packets.deep_view() =~= Seq::<PacketView>::empty());
    if haves.len() > 0 {
        push_text(packets, "acknowledgments\n");
        assert(packets.deep_view() =~= seq![text_packet("acknowledgments\n"@)]);
        push_lines(packets, "ACK ", common, "\n");
        let ghost so_far = packets.deep_view();
        if common.len() == 0 {
            push_text(packets, "NAK\n");
        }
        push_text(packets, "ready\n");
        push_delimiter(packets);
        assert(packets.deep_view() =~= so_far + (if common@.len() == 0 {
            seq![text_packet("NAK\n"@)]
        } else {
            Seq::empty()
        }) + seq![text_packet("ready\n"@), PacketView::Delimiter]);
    }
}

fn push_band_shallows(packets: &mut Vec<Packet>, shallows: &Vec<String>)
    ensures
        final(packets).deep_view() == old(packets).deep_view() + band_shallows(
            shallows.deep_view(),
        ),
{
    let ghost before = packets.deep_view();
    let ghost all = band_shallows(shallows.deep_view());
    let mut i: usize = 0;
    assert(before + all.take(0) =~= before);
    while i < shallows.len()
        invariant
            i <= shallows@.len(),
            all == band_shallows(shallows.deep_view()),
            packets.deep_view() == before + all.take(i as int),
        decreases shallows@.len() - i,
    {
        let line = joined3("shallow ", shallows[i].as_str(), "\n");
        push_band_text(packets, 1, line.as_str());
        assert(before + all.take(i + 1) =~= (before + all.take(i as int)).push(all[i as int]));
        i += 1;
    }
    assert(all.take(i as int) =~= all);
}

/// Answers a fetch in the second version of the protocol.
pub fn answer_fetch(
    store: &InMemoryStore,
    namespace: &NamespaceRef,
    r: &FetchRequest,
    response: &mut Vec<u8>,
    hash: HashKind,
) -> (out: Result<(), ProtocolError>)
    requires
        store.wf(),
    ensures
        fetch_answered(
            store.state().blobs,
            r.deep_view(),
            hash,
            old(response)@,
            final(response)@,
            out,
        ),
{
    let ghost blobs = store.state().blobs;
    let mut packets: Vec<Packet> = Vec::new();
    if r.wants.len() == 0 {
        push_text(&mut packets, "acknowledgments\n");
        push_text(&mut packets, "NAK\n");
        push_flush(&mut packets);
        assert(packets.deep_view() =~= v2_nothing_wanted());
        return send(&packets, None, response);
    }
    let common = common_names(store, hash, &r.haves);
    push_v2_acknowledgments(&mut packets, &r.haves, &common);
    let ghost acks = packets.deep_view();
    push_text(&mut packets, "packfile\n");
    assert(packets.deep_view() =~= acks + seq![text_packet("packfile\n"@)]);
    let wants = r.wants.as_slice();
    let names = common.as_slice();
    proof {
        assert(wants.deep_view() =~= r.wants.deep_view());
        assert(names.deep_view() =~= common.deep_view());
    }
    let (needed, shallows) = compute_need_set(store, namespace, wants, names, hash, &r.options);
    let ghost cx = request_context(blobs, hash, r.deep_view());
    assert(need_context(blobs, hash, names.deep_view(), r.options) == cx);
    push_band_shallows(&mut packets, &shallows);
    let ghost front = packets.deep_view();
    let hints: Table<String, String> = Table::new();
    let mut pack: Vec<u8> = Vec::new();
    let mut reports: Vec<(u32, u32)> = Vec::new();
    let list = needed.as_slice();
    assert(list.deep_view() =~= needed.deep_view());
    let ghost want = fetch_reply(
        blobs,
        hash,
        r.deep_view(),
        needed.deep_view(),
        shallows.deep_view(),
    );
    assert(upload_found(blobs, r.deep_view(), hash, needed.deep_view(), shallows.deep_view()));
    if let Err(e) = generate_pack_sorted(store, list, hash, &hints, &mut reports, &mut pack) {
        return send(&packets, Some(ProtocolError::PackGen(e)), response);
    }
    if !r.no_progress {
        let report = compressed_report(needed.len() as u64 % 0x1_0000_0000);
        push_band_text(&mut packets, 2, report.as_str());
    }
    let ghost so_far = packets.deep_view();
    push_chunks(&mut packets, 1, pack.as_slice());
    push_flush(&mut packets);
    proof {
        let body = sorted_pack_written(blobs, needed.deep_view(), Map::empty(), hash).0;
        assert(Seq::<u8>::empty() + body =~= body);
        assert(pack@ == body);
        assert(so_far =~= front + (if r.no_progress {
            Seq::empty()
        } else {
            seq![band_text(2, compressed_text(count_of(needed.deep_view().len())))]
        }));
        let chunks = band_chunks(1, pack@);
        assert((so_far + chunks).push(PacketView::Flush) =~= so_far + chunks.push(
            PacketView::Flush,
        ));
        assert(packets.deep_view() == want.0);
    }
    send(&packets, None, response)
}

/// Whether a request in the second version of the protocol was handled: by its
/// command, a listing of refs or a fetch.
pub open spec fn v2_handled(
    st: StoreState,
    ns: NamespaceRef,
    request: Seq<u8>,
    hash: HashKind,
    before: Seq<u8>,
    after: Seq<u8>,
    out: Result<(), ProtocolError>,
) -> bool {
    match command_line(request) {
        Err(SectionEnd::NotText) => after == before && (out matches Err(ProtocolError::Protocol(m))
            && m@ == "non-utf8 command"@),
        Err(_) => after == before && (out matches Err(ProtocolError::Protocol(_))),
        Ok((command, from)) => if "command=ls-refs"@.is_prefix_of(command) {
            let arguments = fetch_arguments(request, from);
            if !section_read(arguments) {
                after == before && (out matches Err(e) && section_refused(
                    e,
                    arguments,
                    "non-utf8 arg"@,
                ))
            } else {
                listing_answered(st, ns, list_lines(arguments.lines), before, after, out)
            }
        } else if "command=fetch"@.is_prefix_of(command) {
            let arguments = fetch_arguments(request, from);
            let lines = fetch_lines(request, from);
            if !section_read(arguments) {
                after == before && (out matches Err(e) && section_refused(
                    e,
                    arguments,
                    "non-utf8 arg"@,
                ))
            } else if !section_read(lines) {
                after == before && (out matches Err(e) && section_refused(e, lines, "non-utf8"@))
            } else {
                fetch_answered(st.blobs, fetch_request(request, from), hash, before, after, out)
            }
        } else {
            after == before && (out matches Err(ProtocolError::Protocol(m)) && m@
                == "unknown v2 command: "@ + command)
        },
    }
}

/// Handles a request in the second version of the protocol.
pub fn handle_v2_upload_pack(
    store: &InMemoryStore,
    namespace: &NamespaceRef,
    request: &[u8],
    response: &mut Vec<u8>,
    hash: HashKind,
) -> (out: Result<(), ProtocolError>)
    requires
        store.wf(),
    ensures
        v2_handled(
            store.state(),
            *namespace,
            request@,
            hash,
            old(response)@,
            final(response)@,
            out,
        ),
{
    let (command, from) = match read_command(request) {
        Ok(c) => c,
        Err(e) => return Err(e),
    };
    if text_begins_with(command.as_str(), "command=ls-refs") {
        match read_list_request(request, from) {
            Ok(r) => answer_listing(store, namespace, &r, response),
            Err(e) => Err(e),
        }
    } else if text_begins_with(command.as_str(), "command=fetch") {
        match read_fetch_request(request, from) {
            Ok(r) => answer_fetch(store, namespace, &r, response, hash),
            Err(e) => Err(e),
        }
    } else {
        Err(ProtocolError::Protocol(joined("unknown v2 command: ", command.as_str())))
    }
}

// -- Laws ---------------------------------------------------------------------------------

/// A client's object is common where something is stored under its name.
pub proof fn law_common_names(blobs: Blobs, hash: HashKind, haves: Seq<Seq<char>>, oid: Seq<char>)
    ensures
        stored_names(blobs, hash, haves).contains(oid) <==> haves.contains(oid)
            && blobs.dom().contains(hash_name(hash) + ":"@ + oid),
    decreases haves.len(),
{
    if haves.len() > 0 {
        let front = haves.drop_last();
        law_common_names(blobs, hash, front, oid);
        lemma_push_contains(stored_names(blobs, hash, front), haves.last(), oid);
        lemma_push_contains(front, haves.last(), oid);
        assert(front.push(haves.last()) =~= haves);
    }
}

/// An end of a client's history is lifted where something is stored under its
/// name and the new history does not end there.
pub proof fn law_unshallowed(
    blobs: Blobs,
    hash: HashKind,
    client: Seq<Seq<char>>,
    shallows: Seq<Seq<char>>,
    oid: Seq<char>,
)
    ensures
        unshallowed(blobs, hash, client, shallows).contains(oid) <==> client.contains(oid)
            && blobs.dom().contains(hash_name(hash) + ":"@ + oid) && !shallows.contains(oid),
    decreases client.len(),
{
    if client.len() > 0 {
        let front = client.drop_last();
        law_unshallowed(blobs, hash, front, shallows, oid);
        lemma_push_contains(unshallowed(blobs, hash, front, shallows), client.last(), oid);
        lemma_push_contains(front, client.last(), oid);
        assert(front.push(client.last()) =~= client);
    }
}

proof fn lemma_line_of(front: Seq<char>, list: Seq<Seq<char>>, back: Seq<char>, oid: Seq<char>)
    requires
        list.contains(oid),
    ensures
        text_lines(front, list, back).contains(text_packet(front + oid + back)),
{
    let i = choose|i: int| 0 <= i < list.len() && list[i] == oid;
    assert(text_lines(front, list, back)[i] == text_packet(front + oid + back));
}

proof fn lemma_in_either(a: Seq<PacketView>, b: Seq<PacketView>, x: PacketView)
    requires
        a.contains(x) || b.contains(x),
    ensures
        (a + b).contains(x),
{
    if a.contains(x) {
        let i = choose|i: int| 0 <= i < a.len() && a[i] == x;
        assert((a + b)[i] == x);
    } else {
        let i = choose|i: int| 0 <= i < b.len() && b[i] == x;
        assert((a + b)[a.len() + i] == x);
    }
}

/// In the first version of the protocol a fetch is told of each object that it
/// has and that is stored, or that there is none; of each end of history; and of
/// each end that it can do without.
pub proof fn law_upload_told(
    blobs: Blobs,
    hash: HashKind,
    r: FetchView,
    done: bool,
    needed: Seq<Seq<char>>,
    shallows: Seq<Seq<char>>,
    oid: Seq<char>,
)
    ensures
        ({
            let front = upload_front(blobs, hash, r, done, needed, shallows);
            let stored = blobs.dom().contains(hash_name(hash) + ":"@ + oid);
            &&& r.haves.contains(oid) && stored ==> front.contains(
                text_packet("ACK "@ + oid + " common\n"@),
            )
            &&& (forall|h: Seq<char>| #[trigger]
                r.haves.contains(h) ==> !blobs.dom().contains(hash_name(hash) + ":"@ + h))
                ==> front[0] == text_packet("NAK\n"@)
            &&& shallows.contains(oid) ==> front.contains(
                text_packet("shallow "@ + oid + "\n"@),
            )
            &&& r.shallows.contains(oid) && stored && !shallows.contains(oid) ==> front.contains(
                text_packet("unshallow "@ + oid + "\n"@),
            )
        }),
{
    let common = stored_names(blobs, hash, r.haves);
    let acks = acknowledgments(common, done);
    let ends = text_lines("shallow "@, shallows, "\n"@);
    let gone = unshallowed(blobs, hash, r.shallows, shallows);
    let lifted = text_lines("unshallow "@, gone, "\n"@);
    let count = seq![
        band_text(2, "Counting objects: "@ + decimal(count_of(needed.len())) + ", done.\n"@),
    ];
    let stored = blobs.dom().contains(hash_name(hash) + ":"@ + oid);
    law_common_names(blobs, hash, r.haves, oid);
    law_unshallowed(blobs, hash, r.shallows, shallows, oid);
    if r.haves.contains(oid) && stored {
        let all = text_lines("ACK "@, common, " common\n"@);
        let x = text_packet("ACK "@ + oid + " common\n"@);
        lemma_line_of("ACK "@, common, " common\n"@, oid);
        let i = choose|i: int| 0 <= i < all.len() && all[i] == x;
        assert(acks[i] == x);
        lemma_in_either(acks, ends, x);
        lemma_in_either(acks + ends, lifted, x);
        lemma_in_either(acks + ends + lifted, count, x);
    }
    if forall|h: Seq<char>| #[trigger]
        r.haves.contains(h) ==> !blobs.dom().contains(hash_name(hash) + ":"@ + h) {
        if common.len() > 0 {
            law_common_names(blobs, hash, r.haves, common[0]);
            assert(common.contains(common[0]));
        }
    }
    if shallows.contains(oid) {
        let x = text_packet("shallow "@ + oid + "\n"@);
        lemma_line_of("shallow "@, shallows, "\n"@, oid);
        lemma_in_either(acks, ends, x);
        lemma_in_either(acks + ends, lifted, x);
        lemma_in_either(acks + ends + lifted, count, x);
    }
    if gone.contains(oid) {
        let x = text_packet("unshallow "@ + oid + "\n"@);
        lemma_line_of("unshallow "@, gone, "\n"@, oid);
        lemma_in_either(acks + ends, lifted, x);
        lemma_in_either(acks + ends + lifted, count, x);
    }
}

/// In the second version of the protocol a fetch that says what it has is told
/// of each object that is stored, and a fetch of each end of history.
pub proof fn law_fetch_told(
    blobs: Blobs,
    hash: HashKind,
    r: FetchView,
    shallows: Seq<Seq<char>>,
    oid: Seq<char>,
)
    ensures
        ({
            let front = fetch_front(blobs, hash, r, shallows);
            let stored = blobs.dom().contains(hash_name(hash) + ":"@ + oid);
            &&& r.haves.contains(oid) && stored ==> front[0] == text_packet("acknowledgments\n"@)
                && front.contains(text_packet("ACK "@ + oid + "\n"@))
            &&& r.haves.len() > 0 && (forall|h: Seq<char>| #[trigger]
                r.haves.contains(h) ==> !blobs.dom().contains(hash_name(hash) + ":"@ + h))
                ==> front[1] == text_packet("NAK\n"@)
            &&& r.haves.len() == 0 ==> front[0] == text_packet("packfile\n"@)
            &&& shallows.contains(oid) ==> front.contains(
                band_text(1, "shallow "@ + oid + "\n"@),
            )
        }),
{
    let common = stored_names(blobs, hash, r.haves);
    let acks = v2_acknowledgments(r.haves, common);
    let word = seq![text_packet("packfile\n"@)];
    let ends = band_shallows(shallows);
    let stored = blobs.dom().contains(hash_name(hash) + ":"@ + oid);
    law_common_names(blobs, hash, r.haves, oid);
    if r.haves.contains(oid) && stored {
        let x = text_packet("ACK "@ + oid + "\n"@);
        let lines = text_lines("ACK "@, common, "\n"@);
        lemma_line_of("ACK "@, common, "\n"@, oid);
        let i = choose|i: int| 0 <= i < lines.len() && lines[i] == x;
        assert(acks[i + 1] == x);
        lemma_in_either(acks, word, x);
        lemma_in_either(acks + word, ends, x);
    }
    if r.haves.len() > 0 && (forall|h: Seq<char>| #[trigger]
        r.haves.contains(h) ==> !blobs.dom().contains(hash_name(hash) + ":"@ + h)) {
        if common.len() > 0 {
            law_common_names(blobs, hash, r.haves, common[0]);
            assert(common.contains(common[0]));
        }
        assert(acks[1] == text_packet("NAK\n"@));
    }
    if shallows.contains(oid) {
        let i = choose|i: int| 0 <= i < shallows.len() && shallows[i] == oid;
        let x = band_text(1, "shallow "@ + oid + "\n"@);
        assert(ends[i] == x);
        lemma_in_either(acks + word, ends, x);
    }
}

/// A fetch is a search for what it wants, with its own depth and filter, from
/// what it has and what is stored of that.
pub proof fn law_fetch_searches(
    blobs: Blobs,
    r: FetchView,
    hash: HashKind,
    needed: Seq<Seq<char>>,
    shallows: Seq<Seq<char>>,
    opts: FetchOptions,
) -> (common: Seq<Seq<char>>)
    requires
        upload_found(blobs, r, hash, needed, shallows),
        opts.deepen == r.deepen,
        opts.filter == r.filter,
    ensures
        forall|oid: Seq<char>| #[trigger]
            common.contains(oid) <==> r.haves.contains(oid) && blobs.dom().contains(
                hash_name(hash) + ":"@ + oid,
            ),
        need_found(
            need_context(blobs, hash, common, opts),
            labels(hash, r.wants),
            needed,
            shallows,
        ),
{
    let common = stored_names(blobs, hash, r.haves);
    assert forall|oid: Seq<char>| #[trigger] common.contains(oid) <==> r.haves.contains(oid)
        && blobs.dom().contains(hash_name(hash) + ":"@ + oid) by {
        law_common_names(blobs, hash, r.haves, oid);
    }
    assert(need_context(blobs, hash, common, opts) == request_context(blobs, hash, r));
    common
}

/// A client is not sent what it says that it has, where that is stored.
pub proof fn law_haves_not_sent(
    blobs: Blobs,
    r: FetchView,
    hash: HashKind,
    needed: Seq<Seq<char>>,
    shallows: Seq<Seq<char>>,
    opts: FetchOptions,
    oid: Seq<char>,
)
    requires
        upload_found(blobs, r, hash, needed, shallows),
        opts.deepen == r.deepen,
        opts.filter == r.filter,
        r.haves.contains(oid),
        blobs.dom().contains(hash_name(hash) + ":"@ + oid),
    ensures
        !needed.contains(hash_name(hash) + ":"@ + oid),
{
    let common = law_fetch_searches(blobs, r, hash, needed, shallows, opts);
    assert(common.contains(oid));
    let i = choose|i: int| 0 <= i < common.len() && common[i] == oid;
    let path = seq![hash_name(hash) + ":"@ + oid];
    law_common_not_sent(blobs, hash, r.wants, common, opts, needed, shallows, path, i);
    assert(path.last() == hash_name(hash) + ":"@ + oid);
}

proof fn lemma_ref_listed(
    blobs: Blobs,
    r: ListView,
    refs: Seq<(Seq<char>, Seq<char>)>,
    i: int,
)
    requires
        0 <= i < refs.len(),
        !is_symref(refs[i].1),
        name_matches(r.prefixes, refs[i].0),
    ensures
        refs_listed(blobs, r, refs).contains(
            text_packet(
                hex_part(refs[i].1) + " "@ + refs[i].0 + peel_note(blobs, r, refs[i].0, refs[i].1)
                    + "\n"@,
            ),
        ),
    decreases refs.len(),
{
    let front = refs.drop_last();
    let before = refs_listed(blobs, r, front);
    let all = refs_listed(blobs, r, refs);
    let x = text_packet(
        hex_part(refs[i].1) + " "@ + refs[i].0 + peel_note(blobs, r, refs[i].0, refs[i].1) + "\n"@,
    );
    if i < front.len() {
        assert(front[i] == refs[i]);
        lemma_ref_listed(blobs, r, front, i);
        let j = choose|j: int| 0 <= j < before.len() && before[j] == x;
        assert(all[j] == x);
    } else {
        assert(all[all.len() - 1] == x);
    }
}

/// A listing without prefixes, or with one that begins the name, has a line for
/// every ref that is not symbolic: the name of its object and its own. Where
/// peeling is asked for, the line of a ref under `refs/tags/` to an annotated tag
/// says what the tag names.
pub proof fn law_ref_listed(
    st: StoreState,
    ns: NamespaceRef,
    r: ListView,
    refs: Seq<TagView>,
    h: u64,
    digits: Seq<char>,
)
    requires
        st.is_listing(ns, Seq::empty(), refs),
        listing(st, ns, r, refs).1 is None,
        st.tags.dom().contains((ns.id(), h)),
        st.tags[(ns.id(), h)].kappa == "sha1:"@ + digits || st.tags[(ns.id(), h)].kappa
            == "sha256:"@ + digits,
        r.prefixes.len() == 0 || exists|i: int|
            0 <= i < r.prefixes.len() && (#[trigger] r.prefixes[i]).is_prefix_of(
                st.tags[(ns.id(), h)].name,
            ),
    ensures
        ({
            let tag = st.tags[(ns.id(), h)];
            let packets = listing(st, ns, r, refs).0;
            &&& packets.last() == PacketView::Flush
            &&& !r.peel || !("refs/tags/"@.is_prefix_of(tag.name)) ==> packets.contains(
                text_packet(digits + " "@ + tag.name + "\n"@),
            )
            &&& forall|oid: Seq<char>|
                r.peel && #[trigger] peeled(st.blobs, tag.name, tag.kappa) == Some(oid)
                    ==> packets.contains(
                    text_packet(digits + " "@ + tag.name + " peeled:"@ + oid + "\n"@),
                )
        }),
{
    let tag = st.tags[(ns.id(), h)];
    let pairs = tag_pairs(refs);
    assert(Seq::<char>::empty().is_prefix_of(tag.name));
    assert(refs.contains(tag));
    let i = choose|i: int| 0 <= i < refs.len() && refs[i] == tag;
    reveal_strlit("ref: ");
    reveal_strlit("sha1:");
    reveal_strlit("sha256:");
    assert(tag.kappa[0] == 's');
    assert(!is_symref(tag.kappa)) by {
        if is_symref(tag.kappa) {
            assert("ref: "@[0] == tag.kappa.subrange(0, "ref: "@.len() as int)[0]);
        }
    }
    lemma_hex_part(tag.kappa, digits);
    lemma_ref_listed(st.blobs, r, pairs, i);
    let note = peel_note(st.blobs, r, tag.name, tag.kappa);
    let x = text_packet(digits + " "@ + tag.name + note + "\n"@);
    let head = match resolved(st, ns, "HEAD"@) {
        Ok(head) => head_listed(st, ns, r, head),
        Err(_) => Seq::empty(),
    };
    let lines = refs_listed(st.blobs, r, pairs);
    lemma_in_either(head, lines, x);
    let both = head + lines;
    let j = choose|j: int| 0 <= j < both.len() && both[j] == x;
    assert(listing(st, ns, r, refs).0[j] == x);
    if !r.peel || !("refs/tags/"@.is_prefix_of(tag.name)) {
        assert(digits + " "@ + tag.name + note + "\n"@ =~= digits + " "@ + tag.name + "\n"@);
    }
    assert forall|oid: Seq<char>|
        r.peel && #[trigger] peeled(st.blobs, tag.name, tag.kappa) == Some(oid) implies listing(
        st,
        ns,
        r,
        refs,
    ).0.contains(text_packet(digits + " "@ + tag.name + " peeled:"@ + oid + "\n"@)) by {
        assert(digits + " "@ + tag.name + note + "\n"@ =~= digits + " "@ + tag.name + " peeled:"@
            + oid + "\n"@);
    }
}

proof fn lemma_hex_part(kappa: Seq<char>, digits: Seq<char>)
    requires
        kappa == "sha1:"@ + digits || kappa == "sha256:"@ + digits,
    ensures
        hex_part(kappa) == digits,
{
    reveal_strlit("sha1:");
    reveal_strlit("sha256:");
    let n: int = if kappa == "sha1:"@ + digits {
        4
    } else {
        6
    };
    crate::text::lemma_first_index(kappa, ':', n);
    assert(kappa.skip(n + 1) =~= digits);
}

/// A listing says of `HEAD`, where it leads to an object and is asked for, what that
/// is; and where symbolic refs are asked for, the ref that it points to.
pub proof fn law_head_listed(
    st: StoreState,
    ns: NamespaceRef,
    r: ListView,
    refs: Seq<TagView>,
    target: Seq<char>,
    name: Seq<char>,
)
    requires
        resolved(st, ns, "HEAD"@) == Ok::<Option<Seq<char>>, ()>(Some(target)),
        r.prefixes.len() == 0,
    ensures
        ({
            let k = StoreState::filed(ns, "HEAD"@);
            let first = listing(st, ns, r, refs).0[0];
            &&& listing(st, ns, r, refs).1 is None
            &&& !r.symrefs || !st.tags.dom().contains(k) || !"ref: "@.is_prefix_of(
                st.tags[k].kappa,
            ) ==> first == text_packet(hex_part(target) + " HEAD\n"@)
            &&& r.symrefs && st.tags.dom().contains(k) && st.tags[k].kappa == "ref: "@ + name
                ==> first == text_packet(
                hex_part(target) + " HEAD symref-target:"@ + name + "\n"@,
            )
        }),
{
    let k = StoreState::filed(ns, "HEAD"@);
    let head = head_listed(st, ns, r, Some(target));
    let note = symref_note(st, ns, r);
    assert(listing(st, ns, r, refs).0[0] == head[0]);
    reveal_strlit(" HEAD");
    reveal_strlit("\n");
    reveal_strlit(" HEAD\n");
    reveal_strlit(" symref-target:");
    reveal_strlit(" HEAD symref-target:");
    if !r.symrefs || !st.tags.dom().contains(k) || !"ref: "@.is_prefix_of(st.tags[k].kappa) {
        assert(" HEAD"@ + "\n"@ =~= " HEAD\n"@);
        assert(hex_part(target) + " HEAD"@ + note + "\n"@ =~= hex_part(target) + " HEAD\n"@);
    }
    if r.symrefs && st.tags.dom().contains(k) && st.tags[k].kappa == "ref: "@ + name {
        let value = "ref: "@ + name;
        assert("ref: "@ =~= value.subrange(0, "ref: "@.len() as int));
        assert(symref_target(value) =~= name);
        assert(" HEAD"@ + " symref-target:"@ =~= " HEAD symref-target:"@);
        assert(hex_part(target) + " HEAD"@ + (" symref-target:"@ + name) + "\n"@ =~= hex_part(
            target,
        ) + " HEAD symref-target:"@ + name + "\n"@);
    }
}

/// A client that is done is told once more of the first object that it has in common;
/// and every fetch how many objects there are.
pub proof fn law_upload_counted(
    blobs: Blobs,
    hash: HashKind,
    r: FetchView,
    needed: Seq<Seq<char>>,
    shallows: Seq<Seq<char>>,
    done: bool,
)
    requires
        needed.len() < 0x1_0000_0000,
    ensures
        upload_front(blobs, hash, r, done, needed, shallows).last() == band_text(
            2,
            "Counting objects: "@ + decimal(needed.len()) + ", done.\n"@,
        ),
        ({
            let common = stored_names(blobs, hash, r.haves);
            common.len() > 0 ==> acknowledgments(common, true) == acknowledgments(
                common,
                false,
            ).push(text_packet("ACK "@ + common[0] + "\n"@)) && acknowledgments(common, false).len()
                == common.len()
        }),
{
}

} // verus!
