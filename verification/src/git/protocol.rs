//! The smart protocol: what is answered to listings, fetches and pushes.

use vstd::prelude::*;
use vstd::string::*;
use vstd::utf8::encode_utf8;

use crate::bytes::copy_bytes;
use crate::git::object::{hash_len, HashKind};
use crate::git::packgen::{gen_reports, PackGenFault};
use crate::git::pktline::{
    band_packet, flush_to_write, law_written_concat, on_band, packets_written, pkt_bytes,
    text_to_write, write_packets, Packet, PacketView,
};
use crate::git::refs::{is_symref, list_refs, resolve_ref, resolved, tag_pairs, RefError};
use crate::git::request::ProtocolError;
use crate::git::walk::{digest_len, hex_part, kappa_to_hex_oid, peel_tag, peeled, Blobs};
use crate::store::memory::InMemoryStore;
use crate::store::state::StoreState;
use crate::text::{joined, joined3, text_begins_with};
use crate::types::{NamespaceRef, TagView};

verus! {

// -- Replies ------------------------------------------------------------------------

/// Why a reply was broken off.
pub enum ReplyFault {
    /// A packet cannot be written.
    Io,
    /// Symbolic refs lead nowhere.
    SymrefLoop,
    /// The pack could not be generated.
    PackGen(PackGenFault),
}

/// Whether a reply was sent: its packets, as far as they can be written, and
/// after them the fault, if there is one.
pub open spec fn replied(
    before: Seq<u8>,
    after: Seq<u8>,
    packets: Seq<PacketView>,
    fault: Option<ReplyFault>,
    out: Result<(), ProtocolError>,
) -> bool {
    let (written, all) = packets_written(packets);
    &&& after == before + written
    &&& if !all {
        out matches Err(ProtocolError::Io(_))
    } else {
        match fault {
            None => out is Ok,
            Some(ReplyFault::Io) => out matches Err(ProtocolError::Io(_)),
            Some(ReplyFault::SymrefLoop) => out matches Err(
                ProtocolError::Ref(RefError::SymrefLoop { .. }),
            ),
            Some(ReplyFault::PackGen(f)) => out matches Err(ProtocolError::PackGen(e))
                && gen_reports(e, f),
        }
    }
}

/// Sends packets, and after them a fault where there is one.
pub(crate) fn send(packets: &Vec<Packet>, fault: Option<ProtocolError>, response: &mut Vec<u8>) -> (out: Result<
    (),
    ProtocolError,
>)
    ensures
        ({
            let (written, all) = packets_written(packets.deep_view());
            &&& final(response)@ == old(response)@ + written
            &&& if !all {
                out matches Err(ProtocolError::Io(_))
            } else {
                match fault {
                    None => out is Ok,
                    Some(e) => out == Err::<(), ProtocolError>(e),
                }
            }
        }),
{
    if !write_packets(packets, response) {
        return Err(ProtocolError::Io("packet line cannot be written".to_owned()));
    }
    match fault {
        Some(e) => Err(e),
        None => Ok(()),
    }
}

/// A packet that carries text.
pub open spec fn text_packet(text: Seq<char>) -> PacketView {
    PacketView::Data(encode_utf8(text))
}

/// A packet that carries text on a side band.
pub open spec fn band_text(band: u8, text: Seq<char>) -> PacketView {
    on_band(band, encode_utf8(text))
}

pub(crate) fn push_text(packets: &mut Vec<Packet>, text: &str)
    ensures
        final(packets).deep_view() == old(packets).deep_view().push(text_packet(text@)),
{
    let ghost had = packets.deep_view();
    packets.push(Packet::Data(copy_bytes(text.as_bytes())));
    assert(packets.deep_view() =~= had.push(text_packet(text@)));
}

pub(crate) fn push_band_text(packets: &mut Vec<Packet>, band: u8, text: &str)
    ensures
        final(packets).deep_view() == old(packets).deep_view().push(band_text(band, text@)),
{
    let ghost had = packets.deep_view();
    let packet = band_packet(band, text.as_bytes());
    packets.push(packet);
    assert(packets.deep_view() =~= had.push(band_text(band, text@)));
}

pub(crate) fn push_flush(packets: &mut Vec<Packet>)
    ensures
        final(packets).deep_view() == old(packets).deep_view().push(PacketView::Flush),
{
    let ghost had = packets.deep_view();
    packets.push(Packet::Flush);
    assert(packets.deep_view() =~= had.push(PacketView::Flush));
}

pub(crate) fn push_delimiter(packets: &mut Vec<Packet>)
    ensures
        final(packets).deep_view() == old(packets).deep_view().push(PacketView::Delimiter),
{
    let ghost had = packets.deep_view();
    packets.push(Packet::Delimiter);
    assert(packets.deep_view() =~= had.push(PacketView::Delimiter));
}

/// One line for each text of a list.
pub open spec fn text_lines(front: Seq<char>, list: Seq<Seq<char>>, back: Seq<char>) -> Seq<PacketView> {
    Seq::new(list.len(), |i: int| text_packet(front + list[i] + back))
}

pub(crate) fn push_lines(packets: &mut Vec<Packet>, front: &str, list: &Vec<String>, back: &str)
    ensures
        final(packets).deep_view() == old(packets).deep_view() + text_lines(
            front@,
            list.deep_view(),
            back@,
        ),
{
    let ghost before = packets.deep_view();
    let ghost all = text_lines(front@, list.deep_view(), back@);
    let mut i: usize = 0;
    assert(before + all.take(0) =~= before);
    while i < list.len()
        invariant
            i <= list@.len(),
            all == text_lines(front@, list.deep_view(), back@),
            packets.deep_view() == before + all.take(i as int),
        decreases list@.len() - i,
    {
        let line = joined3(front, list[i].as_str(), back);
        push_text(packets, line.as_str());
        assert(before + all.take(i + 1) =~= (before + all.take(i as int)).push(all[i as int]));
        i += 1;
    }
    assert(all.take(i as int) =~= all);
}

// -- Ref advertisement ----------------------------------------------------------------

/// The name of a repository's object format.
pub open spec fn format_name(hash: HashKind) -> Seq<char> {
    match hash {
        HashKind::Sha256 => "sha256"@,
        HashKind::Sha1 => "sha1"@,
    }
}

/// What the server can do.
pub open spec fn capabilities(hash: HashKind) -> Seq<char> {
    "multi_ack_detailed no-done side-band-64k thin-pack ofs-delta shallow filter report-status-v2 object-format="@
        + format_name(hash) + " agent=kappa-registry"@
}

/// The name of no object: all zeros.
pub open spec fn zero_oid(hash: HashKind) -> Seq<char> {
    Seq::new((2 * hash_len(hash)) as nat, |i: int| '0')
}

pub(crate) fn zero_oid_text(hash: HashKind) -> (out: String)
    ensures
        out@ == zero_oid(hash),
{
    let n: usize = 2 * digest_len(hash);
    let mut out = String::new();
    let mut i: usize = 0;
    while i < n
        invariant
            i <= n,
            n == 2 * hash_len(hash),
            out@ =~= Seq::new(i as nat, |k: int| '0'),
        decreases n - i,
    {
        out.push('0');
        i += 1;
    }
    assert(out@ =~= zero_oid(hash));
    out
}

/// A line of an advertisement; the first one carries the capabilities.
pub open spec fn advert_line(first: bool, oid: Seq<char>, name: Seq<char>, caps: Seq<char>) -> PacketView {
    if first {
        text_packet(oid + " "@ + name + "\0"@ + caps + "\n"@)
    } else {
        text_packet(oid + " "@ + name + "\n"@)
    }
}

fn push_advert_line(packets: &mut Vec<Packet>, first: bool, oid: &str, name: &str, caps: &str)
    ensures
        final(packets).deep_view() == old(packets).deep_view().push(
            advert_line(first, oid@, name@, caps@),
        ),
{
    let front = joined3(oid, " ", name);
    let line = if first {
        let more = joined3(front.as_str(), "\0", caps);
        joined(more.as_str(), "\n")
    } else {
        joined(front.as_str(), "\n")
    };
    push_text(packets, line.as_str());
}

/// The lines for refs, behind the lines before them: none for symbolic refs,
/// and a second one for what an annotated tag leads to.
pub open spec fn advert_refs(
    blobs: Blobs,
    before: Seq<PacketView>,
    refs: Seq<(Seq<char>, Seq<char>)>,
    caps: Seq<char>,
) -> Seq<PacketView>
    decreases refs.len(),
{
    if refs.len() == 0 {
        before
    } else {
        let lines = advert_refs(blobs, before, refs.drop_last(), caps);
        let (name, value) = refs.last();
        if is_symref(value) {
            lines
        } else {
            let more = lines.push(advert_line(lines.len() == 0, hex_part(value), name, caps));
            match peeled(blobs, name, value) {
                Some(oid) => more.push(text_packet(oid + " "@ + name + "^{}\n"@)),
                None => more,
            }
        }
    }
}

/// The lines of an advertisement.
pub open spec fn advert_lines(
    blobs: Blobs,
    head: Option<Seq<char>>,
    refs: Seq<(Seq<char>, Seq<char>)>,
    hash: HashKind,
) -> Seq<PacketView> {
    let caps = capabilities(hash);
    match head {
        Some(target) => advert_refs(
            blobs,
            seq![advert_line(true, hex_part(target), "HEAD"@, caps)],
            refs,
            caps,
        ),
        None => if refs.len() == 0 {
            seq![advert_line(true, zero_oid(hash), "capabilities^{}"@, caps)]
        } else {
            advert_refs(blobs, Seq::empty(), refs, caps)
        },
    }
}

/// What opens an advertisement.
pub open spec fn advert_opening(service: Seq<char>) -> Seq<PacketView> {
    seq![
        PacketView::Data(encode_utf8("# service="@ + service).push(10)),
        PacketView::Flush,
    ]
}

/// An advertisement of refs.
pub open spec fn advertisement(
    st: StoreState,
    ns: NamespaceRef,
    service: Seq<char>,
    refs: Seq<TagView>,
    hash: HashKind,
) -> (Seq<PacketView>, Option<ReplyFault>) {
    match resolved(st, ns, "HEAD"@) {
        Err(_) => (advert_opening(service), Some(ReplyFault::SymrefLoop)),
        Ok(head) => (
            advert_opening(service) + advert_lines(st.blobs, head, tag_pairs(refs), hash).push(
                PacketView::Flush,
            ),
            None,
        ),
    }
}

fn push_advert_refs(
    store: &InMemoryStore,
    packets: &mut Vec<Packet>,
    refs: &Vec<(String, String)>,
    caps: &str,
)
    requires
        store.wf(),
    ensures
        final(packets).deep_view() == advert_refs(
            store.state().blobs,
            old(packets).deep_view(),
            crate::verified::pair_texts(refs@),
            caps@,
        ),
{
    let ghost before = packets.deep_view();
    let ghost all = crate::verified::pair_texts(refs@);
    let mut i: usize = 0;
    assert(all.take(0) =~= Seq::<(Seq<char>, Seq<char>)>::empty());
    while i < refs.len()
        invariant
            store.wf(),
            i <= refs@.len(),
            all == crate::verified::pair_texts(refs@),
            all.len() == refs@.len(),
            packets.deep_view() == advert_refs(
                store.state().blobs,
                before,
                all.take(i as int),
                caps@,
            ),
        decreases refs@.len() - i,
    {
        let name = refs[i].0.as_str();
        let value = refs[i].1.as_str();
        proof {
            assert(all.take(i + 1).drop_last() =~= all.take(i as int));
            assert(all.take(i + 1).last() == (name@, value@));
        }
        if !text_begins_with(value, "ref: ") {
            let oid = kappa_to_hex_oid(value);
            let first = packets.len() == 0;
            push_advert_line(packets, first, oid.as_str(), name, caps);
            if let Some(target) = peel_tag(store, name, value) {
                let front = joined3(target.as_str(), " ", name);
                let line = joined(front.as_str(), "^{}\n");
                push_text(packets, line.as_str());
            }
        }
        i += 1;
    }
    assert(all.take(i as int) =~= all);
}

fn capabilities_text(hash: HashKind) -> (out: String)
    ensures
        out@ == capabilities(hash),
{
    let name: &str = match hash {
        HashKind::Sha256 => "sha256",
        HashKind::Sha1 => "sha1",
    };
    joined3(
        "multi_ack_detailed no-done side-band-64k thin-pack ofs-delta shallow filter report-status-v2 object-format=",
        name,
        " agent=kappa-registry",
    )
}

fn write_opening(service: &str, response: &mut Vec<u8>) -> (done: bool)
    ensures
        ({
            let (written, all) = packets_written(advert_opening(service@));
            done == all && final(response)@ == old(response)@ + written
        }),
{
    let ghost before = response@;
    let line = joined("# service=", service);
    let ghost data = encode_utf8(line@).push(10);
    let ghost opening = advert_opening(service@);
    let ghost flush = crate::git::pktline::flush_bytes();
    proof {
        let first = seq![opening[0]];
        reveal_with_fuel(packets_written, 3);
        reveal_strlit("# service=");
        if encode_utf8(line@).len() == 0 {
            assert(encode_utf8(line@) =~= encode_utf8(Seq::<char>::empty()));
            crate::text::lemma_utf8_injective(line@, Seq::empty());
        }
        assert(first.drop_last() =~= Seq::<PacketView>::empty());
        assert(opening.drop_last() =~= first);
        assert(Seq::<u8>::empty() + pkt_bytes(data) =~= pkt_bytes(data));
        assert(before + Seq::<u8>::empty() =~= before);
    }
    if !text_to_write(line.as_str().as_bytes(), response) {
        return false;
    }
    flush_to_write(response);
    assert(before + pkt_bytes(data) + flush =~= before + (pkt_bytes(data) + flush));
    true
}

fn advert_packets(store: &InMemoryStore, head: &Option<String>, refs: &Vec<(String, String)>, hash: HashKind) -> (packets:
    Vec<Packet>)
    requires
        store.wf(),
    ensures
        packets.deep_view() == advert_lines(
            store.state().blobs,
            shown(*head),
            crate::verified::pair_texts(refs@),
            hash,
        ).push(PacketView::Flush),
{
    let caps = capabilities_text(hash);
    let mut packets: Vec<Packet> = Vec::new();
    assert(packets.deep_view() =~= Seq::<PacketView>::empty());
    match head {
        Some(target) => {
            let oid = kappa_to_hex_oid(target.as_str());
            push_advert_line(&mut packets, true, oid.as_str(), "HEAD", caps.as_str());
            assert(packets.deep_view() =~= seq![
                advert_line(true, hex_part(target@), "HEAD"@, caps@),
            ]);
            push_advert_refs(store, &mut packets, refs, caps.as_str());
        },
        None => {
            if refs.len() == 0 {
                let zero = zero_oid_text(hash);
                push_advert_line(
                    &mut packets,
                    true,
                    zero.as_str(),
                    "capabilities^{}",
                    caps.as_str(),
                );
                assert(packets.deep_view() =~= seq![
                    advert_line(true, zero@, "capabilities^{}"@, caps@),
                ]);
            } else {
                push_advert_refs(store, &mut packets, refs, caps.as_str());
            }
        },
    }
    push_flush(&mut packets);
    packets
}

/// The text of an optional string.
pub open spec fn shown(s: Option<String>) -> Option<Seq<char>> {
    match s {
        Some(s) => Some(s@),
        None => None,
    }
}

/// Writes an advertisement of refs for a service.
pub fn write_ref_advertisement(
    store: &InMemoryStore,
    namespace: &NamespaceRef,
    service: &str,
    response: &mut Vec<u8>,
    hash: HashKind,
) -> (out: Result<(), ProtocolError>)
    requires
        store.wf(),
    ensures
        exists|refs: Seq<TagView>|
            #![trigger store.state().is_listing(*namespace, Seq::empty(), refs)]
            {
                let (packets, fault) = advertisement(
                    store.state(),
                    *namespace,
                    service@,
                    refs,
                    hash,
                );
                &&& store.state().is_listing(*namespace, Seq::empty(), refs)
                &&& replied(old(response)@, final(response)@, packets, fault, out)
            },
{
    let ghost before = response@;
    let none = String::new();
    assert(none@ =~= Seq::<char>::empty());
    let refs = match list_refs(store, namespace, none.as_str()) {
        Ok(refs) => refs,
        Err(e) => return Err(ProtocolError::Ref(e)),
    };
    let ghost tags = choose|tags: Seq<TagView>| #[trigger]
        store.state().is_listing(*namespace, Seq::empty(), tags) && crate::verified::pair_texts(
            refs@,
        ) == tag_pairs(tags);
    let ghost opening = advert_opening(service@);
    let ghost want = advertisement(store.state(), *namespace, service@, tags, hash);
    let ghost lines = want.0.skip(2);
    proof {
        assert(want.0 =~= opening + lines);
        law_written_concat(opening, lines);
    }
    if !write_opening(service, response) {
        return Err(ProtocolError::Io("packet line cannot be written".to_owned()));
    }
    let head = match resolve_ref(store, namespace, "HEAD") {
        Ok(head) => head,
        Err(e) => {
            assert(lines =~= Seq::<PacketView>::empty());
            assert(response@ + Seq::<u8>::empty() =~= response@);
            return Err(ProtocolError::Ref(e));
        },
    };
    let packets = advert_packets(store, &head, &refs, hash);
    proof {
        assert(lines =~= packets.deep_view());
        let rest = packets_written(lines).0;
        let front = packets_written(opening).0;
        assert(before + front + rest =~= before + (front + rest));
    }
    send(&packets, None, response)
}

/// The capabilities of the second version of the protocol.
pub open spec fn v2_capabilities(hash: HashKind) -> Seq<PacketView> {
    seq![
        text_packet("version 2\n"@),
        text_packet("agent=kappa-registry\n"@),
        text_packet("ls-refs\n"@),
        text_packet("fetch=shallow filter\n"@),
        text_packet(
            match hash {
                HashKind::Sha256 => "object-format=sha256\n"@,
                HashKind::Sha1 => "object-format=sha1\n"@,
            },
        ),
        PacketView::Flush,
    ]
}

/// Writes the capabilities of the second version of the protocol.
pub fn write_v2_capability_advertisement(response: &mut Vec<u8>, hash: HashKind) -> (out: Result<
    (),
    ProtocolError,
>)
    ensures
        replied(old(response)@, final(response)@, v2_capabilities(hash), None, out),
{
    let mut packets: Vec<Packet> = Vec::new();
    push_text(&mut packets, "version 2\n");
    push_text(&mut packets, "agent=kappa-registry\n");
    push_text(&mut packets, "ls-refs\n");
    push_text(&mut packets, "fetch=shallow filter\n");
    let format: &str = match hash {
        HashKind::Sha256 => "object-format=sha256\n",
        HashKind::Sha1 => "object-format=sha1\n",
    };
    push_text(&mut packets, format);
    push_flush(&mut packets);
    assert(packets.deep_view() =~= v2_capabilities(hash));
    send(&packets, None, response)
}

// -- Laws -------------------------------------------------------------------------------

/// The lines before those for refs stay where they are.
proof fn lemma_advert_front(
    blobs: Blobs,
    before: Seq<PacketView>,
    refs: Seq<(Seq<char>, Seq<char>)>,
    caps: Seq<char>,
)
    ensures
        before.is_prefix_of(advert_refs(blobs, before, refs, caps)),
    decreases refs.len(),
{
    if refs.len() > 0 {
        lemma_advert_front(blobs, before, refs.drop_last(), caps);
        let lines = advert_refs(blobs, before, refs.drop_last(), caps);
        let all = advert_refs(blobs, before, refs, caps);
        assert(lines.is_prefix_of(all));
        assert(before =~= all.subrange(0, before.len() as int)) by {
            assert(before =~= lines.subrange(0, before.len() as int));
        }
    }
}

/// Whether lines say of a ref what it is bound to: a line of its own, or the
/// first one, which carries the capabilities too.
pub open spec fn says_of(
    lines: Seq<PacketView>,
    oid: Seq<char>,
    name: Seq<char>,
    caps: Seq<char>,
) -> bool {
    lines.contains(text_packet(oid + " "@ + name + "\n"@)) || (lines.len() > 0 && lines[0]
        == text_packet(oid + " "@ + name + "\0"@ + caps + "\n"@))
}

proof fn lemma_advert_ref(
    blobs: Blobs,
    before: Seq<PacketView>,
    refs: Seq<(Seq<char>, Seq<char>)>,
    caps: Seq<char>,
    i: int,
)
    requires
        0 <= i < refs.len(),
        !is_symref(refs[i].1),
    ensures
        says_of(advert_refs(blobs, before, refs, caps), hex_part(refs[i].1), refs[i].0, caps),
        peeled(blobs, refs[i].0, refs[i].1) matches Some(oid) ==> advert_refs(
            blobs,
            before,
            refs,
            caps,
        ).contains(text_packet(oid + " "@ + refs[i].0 + "^{}\n"@)),
    decreases refs.len(),
{
    let front = refs.drop_last();
    let lines = advert_refs(blobs, before, front, caps);
    let all = advert_refs(blobs, before, refs, caps);
    let (name, value) = refs[i];
    let plain = text_packet(hex_part(value) + " "@ + name + "\n"@);
    if i < front.len() {
        assert(front[i] == refs[i]);
        lemma_advert_ref(blobs, before, front, caps, i);
        if lines.contains(plain) {
            let j = choose|j: int| 0 <= j < lines.len() && lines[j] == plain;
            assert(all[j] == plain);
        } else {
            assert(all[0] == lines[0]);
        }
        if let Some(oid) = peeled(blobs, name, value) {
            let x = text_packet(oid + " "@ + name + "^{}\n"@);
            let j = choose|j: int| 0 <= j < lines.len() && lines[j] == x;
            assert(all[j] == x);
        }
    } else {
        let n = lines.len() as int;
        if n == 0 {
            assert(all[0] == advert_line(true, hex_part(value), name, caps));
        } else {
            assert(all[n] == plain);
        }
        if let Some(oid) = peeled(blobs, name, value) {
            assert(all[n + 1] == text_packet(oid + " "@ + name + "^{}\n"@));
        }
    }
}

/// An advertisement says of `HEAD` and of every ref that is not symbolic what it
/// leads to, of an annotated tag also what it names; `HEAD` comes first. It opens
/// with the service, and closes with a flush packet. Where there is nothing to
/// say, it gives the capabilities with the zero name.
pub proof fn law_advertised(
    st: StoreState,
    ns: NamespaceRef,
    service: Seq<char>,
    refs: Seq<TagView>,
    hash: HashKind,
    h: u64,
)
    requires
        st.is_listing(ns, Seq::empty(), refs),
        advertisement(st, ns, service, refs, hash).1 is None,
    ensures
        ({
            let packets = advertisement(st, ns, service, refs, hash).0;
            let lines = packets.subrange(2, packets.len() - 1);
            let caps = capabilities(hash);
            &&& packets.len() > 2
            &&& packets[0] == PacketView::Data(encode_utf8("# service="@ + service).push(10))
            &&& packets[1] == PacketView::Flush
            &&& packets.last() == PacketView::Flush
            &&& resolved(st, ns, "HEAD"@) matches Ok(Some(target)) ==> lines.len() > 0 && lines[0]
                == text_packet(hex_part(target) + " HEAD"@ + "\0"@ + caps + "\n"@)
            &&& st.tags.dom().contains((ns.id(), h)) && !"ref: "@.is_prefix_of(
                st.tags[(ns.id(), h)].kappa,
            ) ==> {
                let tag = st.tags[(ns.id(), h)];
                &&& says_of(lines, hex_part(tag.kappa), tag.name, caps)
                &&& peeled(st.blobs, tag.name, tag.kappa) matches Some(oid) ==> lines.contains(
                    text_packet(oid + " "@ + tag.name + "^{}\n"@),
                )
            }
            &&& resolved(st, ns, "HEAD"@) == Ok::<Option<Seq<char>>, ()>(None) && refs.len() == 0
                ==> lines == seq![
                text_packet(
                    Seq::new((2 * hash_len(hash)) as nat, |i: int| '0') + " capabilities^{}"@
                        + "\0"@ + caps + "\n"@,
                ),
            ]
        }),
{
    let pairs = tag_pairs(refs);
    let caps = capabilities(hash);
    let head = match resolved(st, ns, "HEAD"@) {
        Ok(head) => head,
        Err(_) => None,
    };
    let all = advert_lines(st.blobs, head, pairs, hash);
    let packets = advertisement(st, ns, service, refs, hash).0;
    let lines = packets.subrange(2, packets.len() - 1);
    assert(lines =~= all);
    let before = match head {
        Some(target) => seq![advert_line(true, hex_part(target), "HEAD"@, caps)],
        None => Seq::empty(),
    };
    reveal_strlit(" ");
    reveal_strlit("HEAD");
    reveal_strlit(" HEAD");
    reveal_strlit("capabilities^{}");
    reveal_strlit(" capabilities^{}");
    if let Some(target) = head {
        lemma_advert_front(st.blobs, before, pairs, caps);
        assert(all[0] == all.subrange(0, 1)[0]);
        assert(" "@ + "HEAD"@ =~= " HEAD"@);
        assert(hex_part(target) + " "@ + "HEAD"@ =~= hex_part(target) + " HEAD"@);
    }
    if st.tags.dom().contains((ns.id(), h)) && !"ref: "@.is_prefix_of(st.tags[(ns.id(), h)].kappa) {
        let tag = st.tags[(ns.id(), h)];
        assert(Seq::<char>::empty().is_prefix_of(tag.name));
        assert(refs.contains(tag));
        let i = choose|i: int| 0 <= i < refs.len() && refs[i] == tag;
        lemma_advert_ref(st.blobs, before, pairs, caps, i);
    }
    if head is None && refs.len() == 0 {
        assert(zero_oid(hash) + " "@ + "capabilities^{}"@ =~= zero_oid(hash) + " capabilities^{}"@);
    }
}

/// Both versions of the protocol name the hash of the repository.
pub proof fn law_format_named(hash: HashKind)
    ensures
        format_name(hash) == crate::git::envelope::hash_name(hash),
        v2_capabilities(hash)[4] == text_packet(
            "object-format="@ + crate::git::envelope::hash_name(hash) + "\n"@,
        ),
{
    reveal_strlit("object-format=");
    reveal_strlit("sha1");
    reveal_strlit("sha256");
    reveal_strlit("\n");
    reveal_strlit("object-format=sha1\n");
    reveal_strlit("object-format=sha256\n");
    assert("object-format="@ + "sha1"@ + "\n"@ =~= "object-format=sha1\n"@);
    assert("object-format="@ + "sha256"@ + "\n"@ =~= "object-format=sha256\n"@);
}

} // verus!
