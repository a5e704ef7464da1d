//! Packet lines: the framing of the smart protocol.

use gix_packetline::blocking_io::{encode, StreamingPeekableIter};
use gix_packetline::PacketLineRef;
use vstd::prelude::*;

use crate::bytes::append_bytes;

verus! {

/// Most bytes that a packet line can carry.
pub const MAX_DATA_LEN: usize = 65516;

/// The lower-case hexadecimal digit of `v`, as a byte.
pub open spec fn hex_byte(v: int) -> u8 {
    if v < 10 {
        (48 + v) as u8
    } else {
        (87 + v) as u8
    }
}

/// The value of a hexadecimal digit of either case.
pub open spec fn hex_byte_value(b: u8) -> Option<int> {
    if 48 <= b <= 57 {
        Some(b - 48)
    } else if 97 <= b <= 102 {
        Some(b - 87)
    } else if 65 <= b <= 70 {
        Some(b - 55)
    } else {
        None
    }
}

/// Four hexadecimal digits.
pub open spec fn length_prefix(n: int) -> Seq<u8> {
    seq![
        hex_byte((n / 4096) % 16),
        hex_byte((n / 256) % 16),
        hex_byte((n / 16) % 16),
        hex_byte(n % 16),
    ]
}

/// The number that four hexadecimal digits stand for.
pub open spec fn prefix_length(p: Seq<u8>) -> Option<int> {
    match (hex_byte_value(p[0]), hex_byte_value(p[1]), hex_byte_value(p[2]), hex_byte_value(p[3])) {
        (Some(a), Some(b), Some(c), Some(d)) => Some(4096 * a + 256 * b + 16 * c + d),
        _ => None,
    }
}

/// A packet line: the length of the whole, then the data.
pub open spec fn pkt_bytes(data: Seq<u8>) -> Seq<u8> {
    length_prefix(data.len() as int + 4) + data
}

/// The packet that ends a section of a conversation.
pub open spec fn flush_bytes() -> Seq<u8> {
    seq![48u8, 48, 48, 48]
}

/// The packet that separates sections.
pub open spec fn delimiter_bytes() -> Seq<u8> {
    seq![48u8, 48, 48, 49]
}

/// Whether a packet line can carry data: some, and not too much.
pub open spec fn encodable(data: Seq<u8>) -> bool {
    0 < data.len() <= MAX_DATA_LEN
}

/// What stands at the front of a stream of packet lines.
#[derive(Debug)]
pub enum PktLine {
    Data(Vec<u8>),
    Flush,
    Delimiter,
    ResponseEnd,
    /// The stream ends within the line.
    Cut,
    /// The length is not one.
    Malformed,
}

/// What stands at the front of a stream of packet lines.
pub enum PktView {
    Data(Seq<u8>),
    Flush,
    Delimiter,
    ResponseEnd,
    Cut,
    Malformed,
}

impl DeepView for PktLine {
    type V = PktView;

    open spec fn deep_view(&self) -> PktView {
        match self {
            PktLine::Data(data) => PktView::Data(data@),
            PktLine::Flush => PktView::Flush,
            PktLine::Delimiter => PktView::Delimiter,
            PktLine::ResponseEnd => PktView::ResponseEnd,
            PktLine::Cut => PktView::Cut,
            PktLine::Malformed => PktView::Malformed,
        }
    }
}

/// What stands at the front of a stream: four digits of length, three lengths
/// of which are packets of their own, and as much data as the rest of the
/// length says.
pub open spec fn pkt_line(stream: Seq<u8>) -> PktView {
    if stream.len() < 4 {
        PktView::Cut
    } else {
        match prefix_length(stream) {
            None => PktView::Malformed,
            Some(n) => if n == 0 {
                PktView::Flush
            } else if n == 1 {
                PktView::Delimiter
            } else if n == 2 {
                PktView::ResponseEnd
            } else if n <= 4 || n > MAX_DATA_LEN + 4 {
                PktView::Malformed
            } else if stream.len() < n {
                PktView::Cut
            } else {
                PktView::Data(stream.subrange(4, n))
            },
        }
    }
}

/// `gix_packetline::blocking_io::StreamingPeekableIter::read_line`, on a fresh
/// reader that stops at no packet: the first packet line. `Cut` stands for its
/// input error, `Malformed` for its decoding error.
#[verifier::external_body]
pub(crate) fn read_line(stream: &[u8]) -> (out: PktLine)
    ensures
        out.deep_view() == pkt_line(stream@),
{
    match StreamingPeekableIter::new(stream, &[], false).read_line() {
        Some(Ok(Ok(PacketLineRef::Data(data)))) => PktLine::Data(data.to_vec()),
        Some(Ok(Ok(PacketLineRef::Flush))) => PktLine::Flush,
        Some(Ok(Ok(PacketLineRef::Delimiter))) => PktLine::Delimiter,
        Some(Ok(Ok(PacketLineRef::ResponseEnd))) => PktLine::ResponseEnd,
        Some(Ok(Err(_))) => PktLine::Malformed,
        Some(Err(_)) | None => PktLine::Cut,
    }
}

/// `gix_packetline::blocking_io::encode::data_to_write`, into memory: appends a
/// packet line, or nothing where the data is empty or too long; tells which.
#[verifier::external_body]
pub(crate) fn data_to_write(data: &[u8], out: &mut Vec<u8>) -> (done: bool)
    ensures
        done == encodable(data@),
        final(out)@ == (if done {
            old(out)@ + pkt_bytes(data@)
        } else {
            old(out)@
        }),
{
    encode::data_to_write(data, out).is_ok()
}

/// `gix_packetline::blocking_io::encode::text_to_write`, into memory: appends a
/// packet line with a line feed added, or nothing where the text is empty or
/// too long; tells which.
#[verifier::external_body]
pub(crate) fn text_to_write(text: &[u8], out: &mut Vec<u8>) -> (done: bool)
    ensures
        done == (0 < text@.len() < MAX_DATA_LEN),
        final(out)@ == (if done {
            old(out)@ + pkt_bytes(text@.push(10))
        } else {
            old(out)@
        }),
{
    encode::text_to_write(text, out).is_ok()
}

/// `gix_packetline::blocking_io::encode::flush_to_write`, into memory: appends
/// a flush packet.
#[verifier::external_body]
pub(crate) fn flush_to_write(out: &mut Vec<u8>)
    ensures
        final(out)@ == old(out)@ + flush_bytes(),
{
    encode::flush_to_write(out).ok();
}

/// `gix_packetline::blocking_io::encode::delim_to_write`, into memory: appends
/// a delimiter packet.
#[verifier::external_body]
pub(crate) fn delim_to_write(out: &mut Vec<u8>)
    ensures
        final(out)@ == old(out)@ + delimiter_bytes(),
{
    encode::delim_to_write(out).ok();
}

proof fn lemma_hex_byte(v: int)
    requires
        0 <= v < 16,
    ensures
        hex_byte_value(hex_byte(v)) == Some(v),
{
}

proof fn lemma_four_digits(n: int)
    requires
        0 <= n < 65536,
    ensures
        4096 * ((n / 4096) % 16) + 256 * ((n / 256) % 16) + 16 * ((n / 16) % 16) + n % 16 == n,
{
    let a = n / 16;
    let b = a / 16;
    assert(n / 256 == b);
    assert(n / 4096 == b / 16);
    assert(n == 16 * a + n % 16);
    assert(a == 16 * b + a % 16);
    assert(b == 16 * (b / 16) + b % 16);
}

proof fn lemma_prefix(n: int, rest: Seq<u8>)
    requires
        0 <= n < 65536,
    ensures
        prefix_length(length_prefix(n) + rest) == Some(n),
{
    let p = length_prefix(n) + rest;
    lemma_hex_byte((n / 4096) % 16);
    lemma_hex_byte((n / 256) % 16);
    lemma_hex_byte((n / 16) % 16);
    lemma_hex_byte(n % 16);
    lemma_four_digits(n);
    assert(p[0] == length_prefix(n)[0]);
    assert(p[1] == length_prefix(n)[1]);
    assert(p[2] == length_prefix(n)[2]);
    assert(p[3] == length_prefix(n)[3]);
}

/// Reading what was written as a packet line gives the data back, whatever
/// follows; and the two packets without data are read as themselves.
pub proof fn law_pkt_roundtrip(data: Seq<u8>, rest: Seq<u8>)
    ensures
        encodable(data) ==> pkt_line(pkt_bytes(data) + rest) == PktView::Data(data),
        pkt_line(flush_bytes() + rest) == PktView::Flush,
        pkt_line(delimiter_bytes() + rest) == PktView::Delimiter,
{
    let n = data.len() as int + 4;
    let stream = pkt_bytes(data) + rest;
    if encodable(data) {
        lemma_prefix(n, data + rest);
        assert(stream =~= length_prefix(n) + (data + rest));
        assert(stream.subrange(4, n) =~= data);
    }
    lemma_prefix(0, rest);
    assert(flush_bytes() =~= length_prefix(0));
    lemma_prefix(1, rest);
    assert(delimiter_bytes() =~= length_prefix(1));
}

// -- Replies ------------------------------------------------------------------------

/// A packet of a reply.
pub enum Packet {
    Data(Vec<u8>),
    Flush,
    Delimiter,
}

/// A packet of a reply.
pub enum PacketView {
    Data(Seq<u8>),
    Flush,
    Delimiter,
}

impl DeepView for Packet {
    type V = PacketView;

    open spec fn deep_view(&self) -> PacketView {
        match self {
            Packet::Data(data) => PacketView::Data(data@),
            Packet::Flush => PacketView::Flush,
            Packet::Delimiter => PacketView::Delimiter,
        }
    }
}

/// What packets are written as, up to the first that cannot be, and whether
/// all could.
pub open spec fn packets_written(packets: Seq<PacketView>) -> (Seq<u8>, bool)
    decreases packets.len(),
{
    if packets.len() == 0 {
        (Seq::empty(), true)
    } else {
        let (before, done) = packets_written(packets.drop_last());
        if !done {
            (before, false)
        } else {
            match packets.last() {
                PacketView::Data(data) => if encodable(data) {
                    (before + pkt_bytes(data), true)
                } else {
                    (before, false)
                },
                PacketView::Flush => (before + flush_bytes(), true),
                PacketView::Delimiter => (before + delimiter_bytes(), true),
            }
        }
    }
}

proof fn lemma_written_stays(packets: Seq<PacketView>, n: int)
    requires
        0 <= n <= packets.len(),
        !packets_written(packets.take(n)).1,
    ensures
        packets_written(packets) == packets_written(packets.take(n)),
    decreases packets.len() - n,
{
    if n < packets.len() {
        assert(packets.take(n + 1).drop_last() =~= packets.take(n));
        lemma_written_stays(packets, n + 1);
    } else {
        assert(packets.take(n) =~= packets);
    }
}

/// Packets written one list after the other are written as one list.
pub proof fn law_written_concat(a: Seq<PacketView>, b: Seq<PacketView>)
    ensures
        packets_written(a + b) == (if packets_written(a).1 {
            (packets_written(a).0 + packets_written(b).0, packets_written(b).1)
        } else {
            packets_written(a)
        }),
    decreases b.len(),
{
    if b.len() == 0 {
        assert(a + b =~= a);
        assert(packets_written(a).0 + Seq::<u8>::empty() =~= packets_written(a).0);
    } else {
        law_written_concat(a, b.drop_last());
        assert((a + b).drop_last() =~= a + b.drop_last());
        assert((a + b).last() == b.last());
        let x = packets_written(a).0;
        let y = packets_written(b.drop_last()).0;
        match b.last() {
            PacketView::Data(data) => {
                assert(x + y + pkt_bytes(data) =~= x + (y + pkt_bytes(data)));
            },
            PacketView::Flush => {
                assert(x + y + flush_bytes() =~= x + (y + flush_bytes()));
            },
            PacketView::Delimiter => {
                assert(x + y + delimiter_bytes() =~= x + (y + delimiter_bytes()));
            },
        }
    }
}

/// Appends packets, up to the first that cannot be written; tells whether all
/// could.
pub fn write_packets(packets: &Vec<Packet>, out: &mut Vec<u8>) -> (done: bool)
    ensures
        ({
            let (written, all) = packets_written(packets.deep_view());
            done == all && final(out)@ == old(out)@ + written
        }),
{
    let ghost before = out@;
    let ghost all = packets.deep_view();
    let mut i: usize = 0;
    proof {
        assert(all.take(0) =~= Seq::<PacketView>::empty());
        assert(before + Seq::<u8>::empty() =~= before);
    }
    while i < packets.len()
        invariant
            i <= packets@.len(),
            before == old(out)@,
            all == packets.deep_view(),
            all.len() == packets@.len(),
            packets_written(all.take(i as int)).1,
            out@ == before + packets_written(all.take(i as int)).0,
        decreases packets@.len() - i,
    {
        let ghost had = packets_written(all.take(i as int)).0;
        proof {
            assert(all.take(i + 1).drop_last() =~= all.take(i as int));
            assert(all.take(i + 1).last() == packets@[i as int].deep_view());
            if !packets_written(all.take(i + 1)).1 {
                lemma_written_stays(all, i + 1);
            }
        }
        match &packets[i] {
            Packet::Data(data) => {
                if !data_to_write(data.as_slice(), out) {
                    return false;
                }
                assert(before + had + pkt_bytes(data@) =~= before + (had + pkt_bytes(data@)));
            },
            Packet::Flush => {
                flush_to_write(out);
                assert(before + had + flush_bytes() =~= before + (had + flush_bytes()));
            },
            Packet::Delimiter => {
                delim_to_write(out);
                assert(before + had + delimiter_bytes() =~= before + (had + delimiter_bytes()));
            },
        }
        i += 1;
    }
    assert(all.take(i as int) =~= all);
    true
}

/// Data on a side band: the number of the band, then the data.
pub open spec fn on_band(band: u8, data: Seq<u8>) -> PacketView {
    PacketView::Data(seq![band] + data)
}

/// Puts data on a side band.
pub fn band_packet(band: u8, data: &[u8]) -> (out: Packet)
    ensures
        out.deep_view() == on_band(band, data@),
{
    let mut bytes: Vec<u8> = Vec::new();
    bytes.push(band);
    append_bytes(&mut bytes, data);
    assert(bytes@ =~= seq![band] + data@);
    Packet::Data(bytes)
}

/// Most bytes of a pack on one side-band packet: with the number of the band
/// they fill it.
pub const BAND_CHUNK: usize = 65515;

/// Data cut into chunks for a side band.
pub open spec fn band_chunks(band: u8, data: Seq<u8>) -> Seq<PacketView>
    decreases data.len(),
{
    if data.len() == 0 {
        Seq::empty()
    } else if data.len() <= BAND_CHUNK {
        seq![on_band(band, data)]
    } else {
        seq![on_band(band, data.take(BAND_CHUNK as int))] + band_chunks(
            band,
            data.skip(BAND_CHUNK as int),
        )
    }
}

/// Appends data, cut into chunks, on a side band.
pub fn push_chunks(packets: &mut Vec<Packet>, band: u8, data: &[u8])
    ensures
        final(packets).deep_view() == old(packets).deep_view() + band_chunks(band, data@),
{
    let ghost before = packets.deep_view();
    let mut at: usize = 0;
    assert(data@.skip(0) =~= data@);
    while at < data.len()
        invariant
            at <= data@.len(),
            packets.deep_view() + band_chunks(band, data@.skip(at as int)) == before + band_chunks(
                band,
                data@,
            ),
        decreases data@.len() - at,
    {
        let room: usize = data.len() - at;
        let n: usize = if room < BAND_CHUNK { room } else { BAND_CHUNK };
        let chunk = vstd::slice::slice_subrange(data, at, at + n);
        let ghost had = packets.deep_view();
        let ghost rest = data@.skip(at as int);
        let packet = band_packet(band, chunk);
        packets.push(packet);
        proof {
            let one = on_band(band, chunk@);
            let more = band_chunks(band, data@.skip(at + n));
            assert(packets.deep_view() =~= had.push(one));
            assert(rest.skip(n as int) =~= data@.skip(at + n));
            if rest.len() <= BAND_CHUNK {
                assert(chunk@ =~= rest);
                assert(data@.skip(at + n) =~= Seq::<u8>::empty());
            } else {
                assert(chunk@ =~= rest.take(BAND_CHUNK as int));
            }
            assert(band_chunks(band, rest) =~= seq![one] + more);
            assert(had + (seq![one] + more) =~= had.push(one) + more);
        }
        at = at + n;
    }
    assert(data@.skip(at as int) =~= Seq::<u8>::empty());
    assert(packets.deep_view() + Seq::<PacketView>::empty() =~= packets.deep_view());
}

} // verus!
