//! What a client reads on the side bands of an answer.

use vstd::prelude::*;
use vstd::utf8::encode_utf8;

use crate::git::fetch::{
    acknowledgments, count_of, fetch_front, fetch_reply, progress_reports, progress_text,
    stored_names, unshallowed, upload_front, upload_reply, v2_acknowledgments,
};
use crate::git::object::HashKind;
use crate::git::packgen::{objects_found, sorted_pack_written};
use crate::git::pktline::{band_chunks, encodable, on_band, packets_written, PacketView, BAND_CHUNK};
use crate::git::protocol::{band_text, text_lines, text_packet};
use crate::git::request::FetchView;
use crate::text::decimal;

verus! {

/// What a packet carries on a band.
pub open spec fn packet_on(packet: PacketView, band: u8) -> Seq<u8> {
    match packet {
        PacketView::Data(data) => if data.len() > 0 && data[0] == band {
            data.skip(1)
        } else {
            Seq::empty()
        },
        _ => Seq::empty(),
    }
}

/// What packets carry on a band, put together.
pub open spec fn band_data(packets: Seq<PacketView>, band: u8) -> Seq<u8>
    decreases packets.len(),
{
    if packets.len() == 0 {
        Seq::empty()
    } else {
        band_data(packets.drop_last(), band) + packet_on(packets.last(), band)
    }
}

/// Whether packets carry nothing on a band.
pub open spec fn is_silent(packets: Seq<PacketView>, band: u8) -> bool {
    forall|i: int| 0 <= i < packets.len() ==> packet_on(#[trigger] packets[i], band).len() == 0
}

proof fn lemma_band_concat(a: Seq<PacketView>, b: Seq<PacketView>, band: u8)
    ensures
        band_data(a + b, band) == band_data(a, band) + band_data(b, band),
    decreases b.len(),
{
    if b.len() == 0 {
        assert(a + b =~= a);
        assert(band_data(a, band) + Seq::<u8>::empty() =~= band_data(a, band));
    } else {
        lemma_band_concat(a, b.drop_last(), band);
        assert((a + b).drop_last() =~= a + b.drop_last());
        assert((a + b).last() == b.last());
        assert(band_data(a, band) + band_data(b.drop_last(), band) + packet_on(b.last(), band)
            =~= band_data(a, band) + (band_data(b.drop_last(), band) + packet_on(b.last(), band)));
    }
}

proof fn lemma_silent(packets: Seq<PacketView>, band: u8)
    requires
        is_silent(packets, band),
    ensures
        band_data(packets, band) == Seq::<u8>::empty(),
    decreases packets.len(),
{
    if packets.len() > 0 {
        let front = packets.drop_last();
        assert forall|i: int| 0 <= i < front.len() implies packet_on(
            #[trigger] front[i],
            band,
        ).len() == 0 by {
            assert(packets[i] == front[i]);
        }
        lemma_silent(front, band);
        assert(packets[packets.len() - 1] == packets.last());
        assert(band_data(packets, band) =~= Seq::<u8>::empty());
    }
}

/// Data that was cut into chunks for a side band is read back whole, and every
/// chunk fits into a packet.
pub proof fn law_chunks_read_back(band: u8, data: Seq<u8>)
    ensures
        band_data(band_chunks(band, data), band) == data,
        packets_written(band_chunks(band, data)).1,
    decreases data.len(),
{
    let chunks = band_chunks(band, data);
    if data.len() == 0 {
        assert(data =~= Seq::<u8>::empty());
    } else {
        let n = if data.len() <= BAND_CHUNK {
            data.len() as int
        } else {
            BAND_CHUNK as int
        };
        let chunk = data.take(n);
        let one = seq![on_band(band, chunk)];
        assert((seq![band] + chunk).skip(1) =~= chunk);
        reveal_with_fuel(band_data, 2);
        reveal_with_fuel(packets_written, 2);
        assert(one.drop_last() =~= Seq::<PacketView>::empty());
        assert(one.last() == on_band(band, chunk));
        assert((seq![band] + chunk)[0] == band);
        assert(band_data(one, band) =~= chunk);
        assert(encodable(seq![band] + chunk));
        assert(packets_written(one).1);
        if data.len() <= BAND_CHUNK {
            assert(chunk =~= data);
        } else {
            let rest = data.skip(n);
            law_chunks_read_back(band, rest);
            lemma_band_concat(one, band_chunks(band, rest), band);
            crate::git::pktline::law_written_concat(one, band_chunks(band, rest));
            assert(chunk + rest =~= data);
        }
    }
}

/// A text that begins with a printable character is not on a band.
proof fn lemma_text_silent(text: Seq<char>, band: u8)
    requires
        text.len() > 0,
        32 <= text[0] as u32,
        (text[0] as u32) < 128,
        band < 32,
    ensures
        packet_on(text_packet(text), band) == Seq::<u8>::empty(),
{
    let c = text[0] as u32;
    assert((c & 0x7F) == c) by (bit_vector)
        requires
            c < 128,
    ;
    let rest = encode_utf8(text.drop_first());
    assert(encode_utf8(text) == vstd::utf8::encode_scalar(c) + rest);
    assert(encode_utf8(text)[0] == c as u8);
}

/// Lines of text that begin with a printable character are not on a band.
proof fn lemma_lines_silent(front: Seq<char>, list: Seq<Seq<char>>, back: Seq<char>, band: u8)
    requires
        front.len() > 0,
        32 <= front[0] as u32,
        (front[0] as u32) < 128,
        band < 32,
    ensures
        is_silent(text_lines(front, list, back), band),
{
    let all = text_lines(front, list, back);
    assert forall|i: int| 0 <= i < all.len() implies packet_on(#[trigger] all[i], band).len()
        == 0 by {
        assert((front + list[i] + back)[0] == front[0]);
        lemma_text_silent(front + list[i] + back, band);
    }
}

proof fn lemma_silent_concat(a: Seq<PacketView>, b: Seq<PacketView>, band: u8)
    requires
        is_silent(a, band),
        is_silent(b, band),
    ensures
        is_silent(a + b, band),
{
    assert forall|i: int| 0 <= i < (a + b).len() implies packet_on(
        #[trigger] (a + b)[i],
        band,
    ).len() == 0 by {
        if i < a.len() {
            assert((a + b)[i] == a[i]);
        } else {
            assert((a + b)[i] == b[i - a.len()]);
        }
    }
}

proof fn lemma_one_silent(packet: PacketView, band: u8)
    requires
        packet_on(packet, band).len() == 0,
    ensures
        is_silent(seq![packet], band),
{
}

/// A text on another band is not on this one.
proof fn lemma_other_band(other: u8, text: Seq<char>, band: u8)
    requires
        other != band,
    ensures
        packet_on(band_text(other, text), band) == Seq::<u8>::empty(),
{
    assert((seq![other] + encode_utf8(text))[0] == other);
}

proof fn lemma_acknowledgments_silent(common: Seq<Seq<char>>, done: bool)
    ensures
        is_silent(acknowledgments(common, done), 1),
{
    reveal_strlit("NAK\n");
    reveal_strlit("ACK ");
    if common.len() == 0 {
        lemma_text_silent("NAK\n"@, 1);
        lemma_one_silent(text_packet("NAK\n"@), 1);
    } else {
        let all = text_lines("ACK "@, common, " common\n"@);
        lemma_lines_silent("ACK "@, common, " common\n"@, 1);
        let last = "ACK "@ + common[0] + "\n"@;
        assert(last[0] == "ACK "@[0]);
        lemma_text_silent(last, 1);
        lemma_one_silent(text_packet(last), 1);
        lemma_silent_concat(all, seq![text_packet(last)], 1);
        assert(all + seq![text_packet(last)] =~= all.push(text_packet(last)));
    }
}

proof fn lemma_upload_front_silent(
    blobs: Map<Seq<char>, Seq<u8>>,
    hash: HashKind,
    r: FetchView,
    done: bool,
    needed: Seq<Seq<char>>,
    shallows: Seq<Seq<char>>,
)
    ensures
        is_silent(upload_front(blobs, hash, r, done, needed, shallows), 1),
{
    reveal_strlit("shallow ");
    reveal_strlit("unshallow ");
    let a = acknowledgments(stored_names(blobs, hash, r.haves), done);
    let b = text_lines("shallow "@, shallows, "\n"@);
    let c = text_lines("unshallow "@, unshallowed(blobs, hash, r.shallows, shallows), "\n"@);
    let counted = "Counting objects: "@ + decimal(count_of(needed.len())) + ", done.\n"@;
    let d = seq![band_text(2, counted)];
    lemma_acknowledgments_silent(stored_names(blobs, hash, r.haves), done);
    lemma_lines_silent("shallow "@, shallows, "\n"@, 1);
    lemma_lines_silent(
        "unshallow "@,
        unshallowed(blobs, hash, r.shallows, shallows),
        "\n"@,
        1,
    );
    lemma_other_band(2, counted, 1);
    lemma_one_silent(band_text(2, counted), 1);
    lemma_silent_concat(a, b, 1);
    lemma_silent_concat(a + b, c, 1);
    lemma_silent_concat(a + b + c, d, 1);
}

/// What follows silent packets on a band, up to the flush that ends it, is what
/// was cut into chunks for it.
proof fn lemma_pack_behind(front: Seq<PacketView>, pack: Seq<u8>)
    requires
        is_silent(front, 1),
    ensures
        band_data(front + band_chunks(1, pack).push(PacketView::Flush), 1) == pack,
{
    let chunks = band_chunks(1, pack);
    let flush = seq![PacketView::Flush];
    lemma_silent(front, 1);
    law_chunks_read_back(1, pack);
    lemma_one_silent(PacketView::Flush, 1);
    lemma_silent(flush, 1);
    lemma_band_concat(chunks, flush, 1);
    assert(chunks + flush =~= chunks.push(PacketView::Flush));
    lemma_band_concat(front, chunks.push(PacketView::Flush), 1);
    assert(Seq::<u8>::empty() + (pack + Seq::<u8>::empty()) =~= pack);
}

/// What a client reads on the first band of the answer to a fetch is the pack of
/// the objects that it needs.
pub proof fn law_upload_pack_read(
    blobs: Map<Seq<char>, Seq<u8>>,
    hash: HashKind,
    r: FetchView,
    done: bool,
    needed: Seq<Seq<char>>,
    shallows: Seq<Seq<char>>,
)
    requires
        sorted_pack_written(blobs, needed, Map::empty(), hash).1 is None,
    ensures
        band_data(upload_reply(blobs, hash, r, done, needed, shallows).0, 1)
            == sorted_pack_written(blobs, needed, Map::empty(), hash).0,
{
    let front = upload_front(blobs, hash, r, done, needed, shallows);
    let pack = sorted_pack_written(blobs, needed, Map::empty(), hash).0;
    let written = count_of(objects_found(blobs, needed, Map::empty()).len());
    let reports = progress_reports(written);
    let text = crate::git::fetch::compressed_text(count_of(needed.len()));
    lemma_upload_front_silent(blobs, hash, r, done, needed, shallows);
    assert forall|i: int| 0 <= i < reports.len() implies packet_on(
        #[trigger] reports[i],
        1,
    ).len() == 0 by {
        lemma_other_band(2, progress_text((i + 1) as nat, written), 1);
    }
    lemma_silent_concat(front, reports, 1);
    lemma_other_band(2, text, 1);
    lemma_one_silent(band_text(2, text), 1);
    lemma_silent_concat(front + reports, seq![band_text(2, text)], 1);
    assert(front + reports + seq![band_text(2, text)] =~= (front + reports).push(
        band_text(2, text),
    ));
    lemma_pack_behind((front + reports).push(band_text(2, text)), pack);
}

proof fn lemma_v2_front_silent(blobs: Map<Seq<char>, Seq<u8>>, hash: HashKind, r: FetchView)
    ensures
        is_silent(fetch_front(blobs, hash, r, Seq::empty()), 1),
{
    reveal_strlit("acknowledgments\n");
    reveal_strlit("ACK ");
    reveal_strlit("NAK\n");
    reveal_strlit("ready\n");
    reveal_strlit("packfile\n");
    let common = stored_names(blobs, hash, r.haves);
    let a = seq![text_packet("acknowledgments\n"@)];
    let b = text_lines("ACK "@, common, "\n"@);
    let c = if common.len() == 0 {
        seq![text_packet("NAK\n"@)]
    } else {
        Seq::<PacketView>::empty()
    };
    let d = seq![text_packet("ready\n"@), PacketView::Delimiter];
    let p = seq![text_packet("packfile\n"@)];
    let shallow = crate::git::fetch::band_shallows(Seq::empty());
    lemma_text_silent("acknowledgments\n"@, 1);
    lemma_text_silent("NAK\n"@, 1);
    lemma_text_silent("ready\n"@, 1);
    lemma_text_silent("packfile\n"@, 1);
    lemma_lines_silent("ACK "@, common, "\n"@, 1);
    assert(is_silent(a, 1) && is_silent(c, 1) && is_silent(p, 1) && is_silent(shallow, 1));
    assert(is_silent(d, 1)) by {
        assert(d[0] == text_packet("ready\n"@));
        assert(d[1] == PacketView::Delimiter);
    }
    lemma_silent_concat(a, b, 1);
    lemma_silent_concat(a + b, c, 1);
    lemma_silent_concat(a + b + c, d, 1);
    let acks = v2_acknowledgments(r.haves, common);
    assert(is_silent(acks, 1));
    lemma_silent_concat(acks, p, 1);
    lemma_silent_concat(acks + p, shallow, 1);
}

/// What a client reads on the first band of the answer to a fetch in the second
/// version of the protocol is the pack of the objects that it needs, where no ends
/// of history are named before it.
pub proof fn law_fetch_read(
    blobs: Map<Seq<char>, Seq<u8>>,
    hash: HashKind,
    r: FetchView,
    needed: Seq<Seq<char>>,
)
    requires
        sorted_pack_written(blobs, needed, Map::empty(), hash).1 is None,
    ensures
        band_data(fetch_reply(blobs, hash, r, needed, Seq::empty()).0, 1) == sorted_pack_written(
            blobs,
            needed,
            Map::empty(),
            hash,
        ).0,
{
    let front = fetch_front(blobs, hash, r, Seq::empty());
    let pack = sorted_pack_written(blobs, needed, Map::empty(), hash).0;
    let text = crate::git::fetch::compressed_text(count_of(needed.len()));
    let report = if r.no_progress {
        Seq::<PacketView>::empty()
    } else {
        seq![band_text(2, text)]
    };
    lemma_v2_front_silent(blobs, hash, r);
    lemma_other_band(2, text, 1);
    lemma_silent_concat(front, report, 1);
    lemma_pack_behind(front + report, pack);
}

} // verus!
