//! What clients of the smart protocol send.

use vstd::prelude::*;
use vstd::slice::slice_subrange;
use vstd::utf8::{
    decode_utf8, encode_utf8, encode_utf8_decode_utf8, encode_utf8_valid_utf8, valid_utf8,
};

use crate::git::envelope::EnvelopeError;
use crate::git::hooks::RefUpdate;
use crate::git::ingest::IngestError;
use crate::git::need::{with_text, FetchOptions, FilterSpec};
use crate::git::packgen::PackGenError;
use crate::git::pktline::{
    encodable, flush_bytes, law_pkt_roundtrip, pkt_bytes, pkt_line, read_line, PktLine, PktView,
};
use crate::git::refs::RefError;
use crate::git::walk::lemma_push_contains;
use crate::text::{
    decimal, holds_text, law_decimal_roundtrip, parse_u64, parse_u64_spec, same_text, split_once, split_once_spec,
    text_strip_prefix, trim_text, trimmed, utf8_text, words, words_of,
};

verus! {

/// Why a conversation failed.
#[derive(Debug)]
pub enum ProtocolError {
    Io(String),
    Ref(RefError),
    Ingest(IngestError),
    PackGen(PackGenError),
    Envelope(EnvelopeError),
    Protocol(String),
}

// -- Sections -----------------------------------------------------------------------

/// How a section of lines ends.
pub enum SectionEnd {
    /// At the packet that ends it.
    Stopped,
    /// At a `done` line.
    Done,
    /// At a line that is not text.
    NotText,
    /// At something that is not a packet line.
    Fault,
}

/// A section of lines, and where what follows it begins.
pub struct Section {
    pub lines: Seq<Seq<char>>,
    pub end: SectionEnd,
    pub next: nat,
}

/// The section with one more line at its front.
pub open spec fn with_line(line: Seq<char>, rest: Section) -> Section {
    Section { lines: seq![line] + rest.lines, ..rest }
}

/// The section that begins at a position: the lines, without the white space
/// around them, up to a flush packet, to a delimiter where `delimited` is set,
/// or to a `done` line where `done` is set. Other packets without data are
/// passed over.
pub open spec fn section(stream: Seq<u8>, from: nat, delimited: bool, done: bool) -> Section
    decreases stream.len() - from,
{
    if from > stream.len() {
        Section { lines: Seq::empty(), end: SectionEnd::Fault, next: from }
    } else {
        match pkt_line(stream.skip(from as int)) {
            PktView::Data(data) => if !valid_utf8(data) {
                Section { lines: Seq::empty(), end: SectionEnd::NotText, next: from }
            } else {
                let line = trimmed(decode_utf8(data));
                let next = from + 4 + data.len();
                if done && line == "done"@ {
                    Section { lines: Seq::empty(), end: SectionEnd::Done, next }
                } else {
                    with_line(line, section(stream, next, delimited, done))
                }
            },
            PktView::Flush => Section {
                lines: Seq::empty(),
                end: SectionEnd::Stopped,
                next: from + 4,
            },
            PktView::Delimiter => if delimited {
                Section { lines: Seq::empty(), end: SectionEnd::Stopped, next: from + 4 }
            } else {
                section(stream, from + 4, delimited, done)
            },
            PktView::ResponseEnd => section(stream, from + 4, delimited, done),
            PktView::Cut => Section {
                lines: Seq::empty(),
                end: SectionEnd::Fault,
                next: from,
            },
            PktView::Malformed => Section {
                lines: Seq::empty(),
                end: SectionEnd::Fault,
                next: from,
            },
        }
    }
}

/// Whether a section could be read to its end.
pub open spec fn section_read(s: Section) -> bool {
    s.end is Stopped || s.end is Done
}

/// Whether an error tells why a section could not be read: it is not text, as
/// `not_text` says, or not packet lines.
pub open spec fn section_refused(e: ProtocolError, s: Section, not_text: Seq<char>) -> bool {
    match s.end {
        SectionEnd::NotText => e matches ProtocolError::Protocol(m) && m@ == not_text,
        SectionEnd::Fault => e is Protocol,
        _ => false,
    }
}

/// Reads a section: its lines, where what follows begins, and whether a `done`
/// line ended it.
pub fn read_section(stream: &[u8], from: usize, delimited: bool, done: bool, not_text: &str) -> (out: Result<
    (Vec<String>, usize, bool),
    ProtocolError,
>)
    requires
        from <= stream@.len(),
    ensures
        ({
            let s = section(stream@, from as nat, delimited, done);
            match out {
                Ok((lines, next, ended)) => section_read(s) && lines.deep_view() == s.lines && next
                    == s.next && next <= stream@.len() && ended == (s.end is Done),
                Err(e) => section_refused(e, s, not_text@),
            }
        }),
{
    let ghost whole = section(stream@, from as nat, delimited, done);
    let mut lines: Vec<String> = Vec::new();
    let mut at: usize = from;
    proof {
        assert(lines.deep_view() + whole.lines =~= whole.lines);
    }
    while at < stream.len()
        invariant
            from <= at <= stream@.len(),
            whole == section(stream@, from as nat, delimited, done),
            ({
                let rest = section(stream@, at as nat, delimited, done);
                &&& whole.lines == lines.deep_view() + rest.lines
                &&& whole.end == rest.end
                &&& whole.next == rest.next
            }),
        decreases stream@.len() - at,
    {
        let rest = slice_subrange(stream, at, stream.len());
        assert(rest@ =~= stream@.skip(at as int));
        let ghost none = Seq::<Seq<char>>::empty();
        assert(lines.deep_view() + none =~= lines.deep_view());
        match read_line(rest) {
            PktLine::Data(data) => {
                let n: usize = data.len();
                let text = match utf8_text(data) {
                    Some(text) => text,
                    None => return Err(ProtocolError::Protocol(not_text.to_owned())),
                };
                let line = trim_text(text.as_str());
                if done && same_text(line.as_str(), "done") {
                    return Ok((lines, at + 4 + n, true));
                }
                let ghost had = lines.deep_view();
                let ghost shown = line@;
                lines.push(line);
                at = at + 4 + n;
                proof {
                    let more = section(stream@, at as nat, delimited, done).lines;
                    assert(lines.deep_view() =~= had.push(shown));
                    assert(had + (seq![shown] + more) =~= had.push(shown) + more);
                }
            },
            PktLine::Flush => return Ok((lines, at + 4, false)),
            PktLine::Delimiter => {
                if delimited {
                    return Ok((lines, at + 4, false));
                }
                at = at + 4;
            },
            PktLine::ResponseEnd => {
                at = at + 4;
            },
            PktLine::Cut => return Err(
                ProtocolError::Protocol("failed to fill whole buffer".to_owned()),
            ),
            PktLine::Malformed => return Err(
                ProtocolError::Protocol("decode: malformed packet line".to_owned()),
            ),
        }
    }
    assert(stream@.skip(at as int).len() == 0);
    Err(ProtocolError::Protocol("failed to fill whole buffer".to_owned()))
}

// -- Fetches --------------------------------------------------------------------------

/// What a client asks to fetch.
#[derive(Debug)]
pub struct FetchRequest {
    pub wants: Vec<String>,
    /// The objects that the client says it has, each once.
    pub haves: Vec<String>,
    pub options: FetchOptions,
    pub no_progress: bool,
}

/// What a client asks to fetch.
#[verifier::ext_equal]
pub struct FetchView {
    pub wants: Seq<Seq<char>>,
    pub haves: Seq<Seq<char>>,
    pub deepen: Option<u32>,
    pub shallows: Seq<Seq<char>>,
    pub filter: Option<FilterSpec>,
    pub no_progress: bool,
}

impl DeepView for FetchRequest {
    type V = FetchView;

    open spec fn deep_view(&self) -> FetchView {
        FetchView {
            wants: self.wants.deep_view(),
            haves: self.haves.deep_view(),
            deepen: self.options.deepen,
            shallows: self.options.client_shallows.deep_view(),
            filter: self.options.filter,
            no_progress: self.no_progress,
        }
    }
}

impl FetchRequest {
    /// A request for nothing.
    pub fn new() -> (out: FetchRequest)
        ensures
            out.deep_view() == no_fetch(),
    {
        let out = FetchRequest {
            wants: Vec::new(),
            haves: Vec::new(),
            options: FetchOptions::default(),
            no_progress: false,
        };
        assert(out.deep_view() =~= no_fetch());
        out
    }
}

/// A request for nothing.
pub open spec fn no_fetch() -> FetchView {
    FetchView {
        wants: Seq::empty(),
        haves: Seq::empty(),
        deepen: None,
        shallows: Seq::empty(),
        filter: None,
        no_progress: false,
    }
}

/// What follows a word at the front of a line.
pub open spec fn after_word(line: Seq<char>, word: Seq<char>) -> Option<Seq<char>> {
    if word.is_prefix_of(line) {
        Some(line.skip(word.len() as int))
    } else {
        None
    }
}

fn strip_word(line: &str, word: &str) -> (out: Option<String>)
    ensures
        match (out, after_word(line@, word@)) {
            (Some(rest), Some(r)) => rest@ == r,
            (None, None) => true,
            _ => false,
        },
{
    match text_strip_prefix(line, word) {
        Some(rest) => {
            proof {
                assert(line@.skip(word@.len() as int) =~= rest@);
                assert(line@.subrange(0, word@.len() as int) =~= word@);
            }
            Some(rest)
        },
        None => None,
    }
}

/// The first word of a text, or all of it where it has none.
pub open spec fn first_word(s: Seq<char>) -> Seq<char> {
    if words(s).len() > 0 {
        words(s)[0]
    } else {
        s
    }
}

fn word_at_front(s: &str) -> (out: String)
    ensures
        out@ == first_word(s@),
{
    let mut list = words_of(s);
    if list.len() > 0 {
        let ghost shown = list.deep_view();
        let word = list.remove(0);
        assert(shown[0] == word@);
        word
    } else {
        s.to_owned()
    }
}

/// A depth, where the text is one.
pub open spec fn depth_named(s: Seq<char>) -> Option<u32> {
    match parse_u64_spec(s) {
        Some(n) => if n <= u32::MAX {
            Some(n as u32)
        } else {
            None
        },
        None => None,
    }
}

fn parse_depth(s: &str) -> (out: Option<u32>)
    ensures
        out == depth_named(s@),
{
    match parse_u64(s) {
        Some(n) => if n <= u32::MAX as u64 {
            Some(n as u32)
        } else {
            None
        },
        None => None,
    }
}

/// A filter, where the text names one.
pub open spec fn filter_named(s: Seq<char>) -> Option<FilterSpec> {
    if s == "blob:none"@ {
        Some(FilterSpec::BlobNone)
    } else {
        match after_word(s, "blob:limit="@) {
            Some(limit) => match parse_u64_spec(limit) {
                Some(n) => Some(FilterSpec::BlobLimit(n)),
                None => None,
            },
            None => None,
        }
    }
}

fn parse_filter(s: &str) -> (out: Option<FilterSpec>)
    ensures
        out == filter_named(s@),
{
    if same_text(s, "blob:none") {
        return Some(FilterSpec::BlobNone);
    }
    match strip_word(s, "blob:limit=") {
        Some(limit) => match parse_u64(limit.as_str()) {
            Some(n) => Some(FilterSpec::BlobLimit(n)),
            None => None,
        },
        None => None,
    }
}

/// The new value where there is one, the old one otherwise.
pub open spec fn or_else<T>(new: Option<T>, old: Option<T>) -> Option<T> {
    match new {
        Some(_) => new,
        None => old,
    }
}

/// A request after a line of its first section.
pub open spec fn want_line(r: FetchView, line: Seq<char>) -> FetchView {
    if let Some(rest) = after_word(line, "want "@) {
        FetchView { wants: r.wants.push(first_word(rest)), ..r }
    } else if let Some(rest) = after_word(line, "deepen "@) {
        FetchView { deepen: or_else(depth_named(trimmed(rest)), r.deepen), ..r }
    } else if let Some(rest) = after_word(line, "shallow "@) {
        FetchView { shallows: with_text(r.shallows, trimmed(rest)), ..r }
    } else if let Some(rest) = after_word(line, "filter "@) {
        FetchView { filter: or_else(filter_named(trimmed(rest)), r.filter), ..r }
    } else {
        r
    }
}

/// A request after a line of its second section.
pub open spec fn have_line(r: FetchView, line: Seq<char>) -> FetchView {
    if let Some(rest) = after_word(line, "have "@) {
        FetchView { haves: with_text(r.haves, trimmed(rest)), ..r }
    } else {
        r
    }
}

/// A request, in the second version of the protocol, after an argument.
pub open spec fn argument_line(r: FetchView, line: Seq<char>) -> FetchView {
    if line == "no-progress"@ {
        FetchView { no_progress: true, ..r }
    } else if let Some(rest) = after_word(line, "deepen "@) {
        FetchView { deepen: or_else(depth_named(rest), r.deepen), ..r }
    } else if let Some(rest) = after_word(line, "filter "@) {
        FetchView { filter: or_else(filter_named(rest), r.filter), ..r }
    } else {
        r
    }
}

/// A request, in the second version of the protocol, after a line of its second
/// section.
pub open spec fn fetch_line(r: FetchView, line: Seq<char>) -> FetchView {
    if let Some(rest) = after_word(line, "want "@) {
        FetchView { wants: r.wants.push(first_word(rest)), ..r }
    } else if let Some(rest) = after_word(line, "have "@) {
        FetchView { haves: with_text(r.haves, trimmed(rest)), ..r }
    } else if let Some(rest) = after_word(line, "shallow "@) {
        FetchView { shallows: with_text(r.shallows, trimmed(rest)), ..r }
    } else {
        r
    }
}

fn add_text(list: &mut Vec<String>, x: String)
    ensures
        final(list).deep_view() == with_text(old(list).deep_view(), x@),
{
    if !holds_text(list, x.as_str()) {
        let ghost had = list.deep_view();
        let ghost shown = x@;
        list.push(x);
        assert(list.deep_view() =~= had.push(shown));
    }
}

fn add_want(r: &mut FetchRequest, rest: &str)
    ensures
        final(r).deep_view() == (FetchView {
            wants: old(r).deep_view().wants.push(first_word(rest@)),
            ..old(r).deep_view()
        }),
{
    let ghost before = r.deep_view();
    let word = word_at_front(rest);
    let ghost shown = word@;
    r.wants.push(word);
    assert(r.deep_view().wants =~= before.wants.push(shown));
}

fn take_want_line(r: &mut FetchRequest, line: &str)
    ensures
        final(r).deep_view() == want_line(old(r).deep_view(), line@),
{
    let ghost before = r.deep_view();
    if let Some(rest) = strip_word(line, "want ") {
        add_want(r, rest.as_str());
    } else if let Some(rest) = strip_word(line, "deepen ") {
        let rest = trim_text(rest.as_str());
        if let Some(depth) = parse_depth(rest.as_str()) {
            r.options.deepen = Some(depth);
        }
    } else if let Some(rest) = strip_word(line, "shallow ") {
        add_text(&mut r.options.client_shallows, trim_text(rest.as_str()));
    } else if let Some(rest) = strip_word(line, "filter ") {
        let rest = trim_text(rest.as_str());
        if let Some(filter) = parse_filter(rest.as_str()) {
            r.options.filter = Some(filter);
        }
    }
    assert(r.deep_view() =~= want_line(before, line@));
}

fn take_have_line(r: &mut FetchRequest, line: &str)
    ensures
        final(r).deep_view() == have_line(old(r).deep_view(), line@),
{
    let ghost before = r.deep_view();
    if let Some(rest) = strip_word(line, "have ") {
        add_text(&mut r.haves, trim_text(rest.as_str()));
    }
    assert(r.deep_view() =~= have_line(before, line@));
}

fn take_argument_line(r: &mut FetchRequest, line: &str)
    ensures
        final(r).deep_view() == argument_line(old(r).deep_view(), line@),
{
    let ghost before = r.deep_view();
    if same_text(line, "no-progress") {
        r.no_progress = true;
    } else if let Some(rest) = strip_word(line, "deepen ") {
        if let Some(depth) = parse_depth(rest.as_str()) {
            r.options.deepen = Some(depth);
        }
    } else if let Some(rest) = strip_word(line, "filter ") {
        if let Some(filter) = parse_filter(rest.as_str()) {
            r.options.filter = Some(filter);
        }
    }
    assert(r.deep_view() =~= argument_line(before, line@));
}

fn take_fetch_line(r: &mut FetchRequest, line: &str)
    ensures
        final(r).deep_view() == fetch_line(old(r).deep_view(), line@),
{
    let ghost before = r.deep_view();
    if let Some(rest) = strip_word(line, "want ") {
        add_want(r, rest.as_str());
    } else if let Some(rest) = strip_word(line, "have ") {
        add_text(&mut r.haves, trim_text(rest.as_str()));
    } else if let Some(rest) = strip_word(line, "shallow ") {
        add_text(&mut r.options.client_shallows, trim_text(rest.as_str()));
    }
    assert(r.deep_view() =~= fetch_line(before, line@));
}

/// What the lines of a section are read as.
#[derive(Debug, Clone, Copy, PartialEq, Eq, Structural)]
pub enum LineKind {
    Want,
    Have,
    Argument,
    Fetch,
}

/// A request after a line.
pub open spec fn line_taken(kind: LineKind, r: FetchView, line: Seq<char>) -> FetchView {
    match kind {
        LineKind::Want => want_line(r, line),
        LineKind::Have => have_line(r, line),
        LineKind::Argument => argument_line(r, line),
        LineKind::Fetch => fetch_line(r, line),
    }
}

/// A request after the lines of a section.
pub open spec fn lines_taken(kind: LineKind, r: FetchView, lines: Seq<Seq<char>>) -> FetchView
    decreases lines.len(),
{
    if lines.len() == 0 {
        r
    } else {
        line_taken(kind, lines_taken(kind, r, lines.drop_last()), lines.last())
    }
}

fn take_lines(kind: LineKind, r: &mut FetchRequest, lines: &Vec<String>)
    ensures
        final(r).deep_view() == lines_taken(kind, old(r).deep_view(), lines.deep_view()),
{
    let ghost first = r.deep_view();
    let ghost all = lines.deep_view();
    let mut i: usize = 0;
    assert(all.take(0) =~= Seq::<Seq<char>>::empty());
    while i < lines.len()
        invariant
            i <= lines@.len(),
            all == lines.deep_view(),
            all.len() == lines@.len(),
            r.deep_view() == lines_taken(kind, first, all.take(i as int)),
        decreases lines@.len() - i,
    {
        let line = lines[i].as_str();
        proof {
            assert(all.take(i + 1).drop_last() =~= all.take(i as int));
            assert(all.take(i + 1).last() == line@);
        }
        match kind {
            LineKind::Want => take_want_line(r, line),
            LineKind::Have => take_have_line(r, line),
            LineKind::Argument => take_argument_line(r, line),
            LineKind::Fetch => take_fetch_line(r, line),
        }
        i += 1;
    }
    assert(all.take(i as int) =~= all);
}

/// The first section of a fetch in the first version of the protocol.
pub open spec fn upload_wants(stream: Seq<u8>) -> Section {
    section(stream, 0, false, false)
}

/// The second section of a fetch in the first version of the protocol.
pub open spec fn upload_haves(stream: Seq<u8>) -> Section {
    section(stream, upload_wants(stream).next, false, true)
}

/// A fetch in the first version of the protocol.
pub open spec fn upload_request(stream: Seq<u8>) -> FetchView {
    lines_taken(
        LineKind::Have,
        lines_taken(LineKind::Want, no_fetch(), upload_wants(stream).lines),
        upload_haves(stream).lines,
    )
}

/// Reads a fetch in the first version of the protocol; also whether the client
/// said it is done.
pub fn read_upload_request(stream: &[u8]) -> (out: Result<(FetchRequest, bool), ProtocolError>)
    ensures
        match out {
            Ok((r, done)) => section_read(upload_wants(stream@)) && section_read(
                upload_haves(stream@),
            ) && r.deep_view() == upload_request(stream@) && done == (upload_haves(
                stream@,
            ).end is Done),
            Err(e) => section_refused(e, upload_wants(stream@), "non-utf8 want line"@) || (
            section_read(upload_wants(stream@)) && section_refused(
                e,
                upload_haves(stream@),
                "non-utf8 have line"@,
            )),
        },
{
    let mut r = FetchRequest::new();
    let (lines, next, _) = match read_section(stream, 0, false, false, "non-utf8 want line") {
        Ok(s) => s,
        Err(e) => return Err(e),
    };
    take_lines(LineKind::Want, &mut r, &lines);
    let (lines, _, done) = match read_section(stream, next, false, true, "non-utf8 have line") {
        Ok(s) => s,
        Err(e) => return Err(e),
    };
    take_lines(LineKind::Have, &mut r, &lines);
    Ok((r, done))
}

/// The arguments of a fetch in the second version of the protocol.
pub open spec fn fetch_arguments(stream: Seq<u8>, from: nat) -> Section {
    section(stream, from, true, false)
}

/// The wants and haves of a fetch in the second version of the protocol.
pub open spec fn fetch_lines(stream: Seq<u8>, from: nat) -> Section {
    section(stream, fetch_arguments(stream, from).next, false, true)
}

/// A fetch in the second version of the protocol.
pub open spec fn fetch_request(stream: Seq<u8>, from: nat) -> FetchView {
    lines_taken(
        LineKind::Fetch,
        lines_taken(LineKind::Argument, no_fetch(), fetch_arguments(stream, from).lines),
        fetch_lines(stream, from).lines,
    )
}

/// Reads a fetch in the second version of the protocol.
pub fn read_fetch_request(stream: &[u8], from: usize) -> (out: Result<FetchRequest, ProtocolError>)
    requires
        from <= stream@.len(),
    ensures
        match out {
            Ok(r) => section_read(fetch_arguments(stream@, from as nat)) && section_read(
                fetch_lines(stream@, from as nat),
            ) && r.deep_view() == fetch_request(stream@, from as nat),
            Err(e) => section_refused(e, fetch_arguments(stream@, from as nat), "non-utf8 arg"@)
                || (section_read(fetch_arguments(stream@, from as nat)) && section_refused(
                e,
                fetch_lines(stream@, from as nat),
                "non-utf8"@,
            )),
        },
{
    let mut r = FetchRequest::new();
    let (lines, next, _) = match read_section(stream, from, true, false, "non-utf8 arg") {
        Ok(s) => s,
        Err(e) => return Err(e),
    };
    take_lines(LineKind::Argument, &mut r, &lines);
    let (lines, _, _) = match read_section(stream, next, false, true, "non-utf8") {
        Ok(s) => s,
        Err(e) => return Err(e),
    };
    take_lines(LineKind::Fetch, &mut r, &lines);
    Ok(r)
}

// -- Commands -------------------------------------------------------------------------

/// The command line at the front of a request in the second version of the
/// protocol: its text, empty where a packet without data stands in its place,
/// and where what follows begins.
pub open spec fn command_line(stream: Seq<u8>) -> Result<(Seq<char>, nat), SectionEnd> {
    match pkt_line(stream) {
        PktView::Data(data) => if valid_utf8(data) {
            Ok((trimmed(decode_utf8(data)), 4 + data.len()))
        } else {
            Err(SectionEnd::NotText)
        },
        PktView::Cut => Err(SectionEnd::Fault),
        PktView::Malformed => Err(SectionEnd::Fault),
        _ => Ok((Seq::empty(), 4)),
    }
}

/// Reads the command line of a request.
pub fn read_command(stream: &[u8]) -> (out: Result<(String, usize), ProtocolError>)
    ensures
        match (out, command_line(stream@)) {
            (Ok((command, next)), Ok((c, n))) => command@ == c && next == n && next <= stream@.len(),
            (Err(ProtocolError::Protocol(m)), Err(SectionEnd::NotText)) => m@
                == "non-utf8 command"@,
            (Err(ProtocolError::Protocol(_)), Err(SectionEnd::Fault)) => true,
            _ => false,
        },
{
    match read_line(stream) {
        PktLine::Data(data) => {
            let n: usize = data.len();
            match utf8_text(data) {
                Some(text) => Ok((trim_text(text.as_str()), 4 + n)),
                None => Err(ProtocolError::Protocol("non-utf8 command".to_owned())),
            }
        },
        PktLine::Cut => Err(ProtocolError::Protocol("failed to fill whole buffer".to_owned())),
        PktLine::Malformed => Err(
            ProtocolError::Protocol("decode: malformed packet line".to_owned()),
        ),
        _ => {
            let none = String::new();
            assert(none@ =~= Seq::<char>::empty());
            Ok((none, 4))
        },
    }
}

/// What a listing of refs is asked to hold.
#[derive(Debug)]
pub struct ListRequest {
    pub prefixes: Vec<String>,
    pub symrefs: bool,
    pub peel: bool,
}

/// What a listing of refs is asked to hold.
#[verifier::ext_equal]
pub struct ListView {
    pub prefixes: Seq<Seq<char>>,
    pub symrefs: bool,
    pub peel: bool,
}

impl DeepView for ListRequest {
    type V = ListView;

    open spec fn deep_view(&self) -> ListView {
        ListView {
            prefixes: self.prefixes.deep_view(),
            symrefs: self.symrefs,
            peel: self.peel,
        }
    }
}

/// A listing after an argument.
pub open spec fn list_line(r: ListView, line: Seq<char>) -> ListView {
    if let Some(prefix) = after_word(line, "ref-prefix "@) {
        ListView { prefixes: r.prefixes.push(prefix), ..r }
    } else if line == "symrefs"@ {
        ListView { symrefs: true, ..r }
    } else if line == "peel"@ {
        ListView { peel: true, ..r }
    } else {
        r
    }
}

/// A listing after its arguments.
pub open spec fn list_lines(lines: Seq<Seq<char>>) -> ListView
    decreases lines.len(),
{
    if lines.len() == 0 {
        ListView { prefixes: Seq::empty(), symrefs: false, peel: false }
    } else {
        list_line(list_lines(lines.drop_last()), lines.last())
    }
}

/// Reads what a listing of refs is asked to hold.
pub fn read_list_request(stream: &[u8], from: usize) -> (out: Result<ListRequest, ProtocolError>)
    requires
        from <= stream@.len(),
    ensures
        match out {
            Ok(r) => section_read(fetch_arguments(stream@, from as nat)) && r.deep_view()
                == list_lines(fetch_arguments(stream@, from as nat).lines),
            Err(e) => section_refused(e, fetch_arguments(stream@, from as nat), "non-utf8 arg"@),
        },
{
    let (lines, _, _) = match read_section(stream, from, true, false, "non-utf8 arg") {
        Ok(s) => s,
        Err(e) => return Err(e),
    };
    let ghost all = lines.deep_view();
    let mut r = ListRequest { prefixes: Vec::new(), symrefs: false, peel: false };
    let mut i: usize = 0;
    proof {
        assert(all.take(0) =~= Seq::<Seq<char>>::empty());
        assert(r.deep_view() =~= list_lines(all.take(0)));
    }
    while i < lines.len()
        invariant
            i <= lines@.len(),
            all == lines.deep_view(),
            all.len() == lines@.len(),
            r.deep_view() == list_lines(all.take(i as int)),
        decreases lines@.len() - i,
    {
        let line = lines[i].as_str();
        let ghost before = r.deep_view();
        proof {
            assert(all.take(i + 1).drop_last() =~= all.take(i as int));
            assert(all.take(i + 1).last() == line@);
        }
        if let Some(prefix) = strip_word(line, "ref-prefix ") {
            let ghost shown = prefix@;
            r.prefixes.push(prefix);
            assert(r.deep_view().prefixes =~= before.prefixes.push(shown));
        } else if same_text(line, "symrefs") {
            r.symrefs = true;
        } else if same_text(line, "peel") {
            r.peel = true;
        }
        assert(r.deep_view() =~= list_line(before, line@));
        i += 1;
    }
    assert(all.take(i as int) =~= all);
    Ok(r)
}

// -- Pushes ---------------------------------------------------------------------------

/// What a ref update holds.
pub struct RefUpdateView {
    pub old_oid: Seq<char>,
    pub new_oid: Seq<char>,
    pub ref_name: Seq<char>,
}

impl DeepView for RefUpdate {
    type V = RefUpdateView;

    open spec fn deep_view(&self) -> RefUpdateView {
        RefUpdateView {
            old_oid: self.old_oid@,
            new_oid: self.new_oid@,
            ref_name: self.ref_name@,
        }
    }
}

/// What stands before the first zero character of a line.
pub open spec fn before_nul(line: Seq<char>) -> Seq<char> {
    match split_once_spec(line, '\0') {
        Some((front, _)) => front,
        None => line,
    }
}

/// The ref update that a line asks for: old and new object and name, the first
/// three words before any capabilities.
pub open spec fn update_line(line: Seq<char>) -> Option<RefUpdateView> {
    let parts = words(before_nul(line));
    if parts.len() >= 3 {
        Some(RefUpdateView { old_oid: parts[0], new_oid: parts[1], ref_name: parts[2] })
    } else {
        None
    }
}

/// The ref updates that lines ask for.
pub open spec fn update_lines(lines: Seq<Seq<char>>) -> Seq<RefUpdateView>
    decreases lines.len(),
{
    if lines.len() == 0 {
        Seq::empty()
    } else {
        let before = update_lines(lines.drop_last());
        match update_line(lines.last()) {
            Some(u) => before.push(u),
            None => before,
        }
    }
}

/// Reads the ref updates of a push; also where the pack begins.
pub fn read_updates(stream: &[u8]) -> (out: Result<(Vec<RefUpdate>, usize), ProtocolError>)
    ensures
        match out {
            Ok((updates, next)) => section_read(upload_wants(stream@)) && updates.deep_view()
                == update_lines(upload_wants(stream@).lines) && next == upload_wants(stream@).next
                && next <= stream@.len(),
            Err(e) => section_refused(e, upload_wants(stream@), "non-utf8 ref update"@),
        },
{
    let (lines, next, _) = match read_section(stream, 0, false, false, "non-utf8 ref update") {
        Ok(s) => s,
        Err(e) => return Err(e),
    };
    let ghost all = lines.deep_view();
    let mut updates: Vec<RefUpdate> = Vec::new();
    let mut i: usize = 0;
    proof {
        assert(all.take(0) =~= Seq::<Seq<char>>::empty());
        assert(updates.deep_view() =~= Seq::<RefUpdateView>::empty());
    }
    while i < lines.len()
        invariant
            i <= lines@.len(),
            all == lines.deep_view(),
            all.len() == lines@.len(),
            updates.deep_view() == update_lines(all.take(i as int)),
        decreases lines@.len() - i,
    {
        let line = lines[i].as_str();
        let ghost before = updates.deep_view();
        proof {
            assert(all.take(i + 1).drop_last() =~= all.take(i as int));
            assert(all.take(i + 1).last() == line@);
        }
        let command: String = match split_once(line, '\0') {
            Some(parts) => parts.0,
            None => line.to_owned(),
        };
        let parts = words_of(command.as_str());
        if parts.len() >= 3 {
            let ghost seen = parts.deep_view();
            let update = RefUpdate {
                old_oid: parts[0].clone(),
                new_oid: parts[1].clone(),
                ref_name: parts[2].clone(),
            };
            let ghost shown = update.deep_view();
            proof {
                assert(shown.old_oid == seen[0]);
                assert(shown.new_oid == seen[1]);
                assert(shown.ref_name == seen[2]);
            }
            updates.push(update);
            assert(updates.deep_view() =~= before.push(shown));
        }
        i += 1;
    }
    assert(all.take(i as int) =~= all);
    Ok((updates, next))
}

// -- Laws -------------------------------------------------------------------------------

proof fn lemma_after_word(word: Seq<char>, rest: Seq<char>)
    ensures
        after_word(word + rest, word) == Some(rest),
{
    assert(word =~= (word + rest).subrange(0, word.len() as int));
    assert((word + rest).skip(word.len() as int) =~= rest);
}

/// A line that begins with one of the words of the protocol begins with no other
/// of them.
proof fn lemma_other_words(rest: Seq<char>)
    ensures
        after_word("have "@ + rest, "want "@) is None,
        after_word("shallow "@ + rest, "want "@) is None,
        after_word("shallow "@ + rest, "have "@) is None,
        after_word("shallow "@ + rest, "deepen "@) is None,
        after_word("deepen "@ + rest, "want "@) is None,
        after_word("filter "@ + rest, "want "@) is None,
        after_word("filter "@ + rest, "deepen "@) is None,
        after_word("filter "@ + rest, "shallow "@) is None,
        "deepen "@ + rest != "no-progress"@,
        "filter "@ + rest != "no-progress"@,
{
    reveal_strlit("have ");
    reveal_strlit("want ");
    reveal_strlit("shallow ");
    reveal_strlit("deepen ");
    reveal_strlit("filter ");
    reveal_strlit("no-progress");
    assert(("have "@ + rest)[0] == 'h');
    assert(("shallow "@ + rest)[0] == 's');
    assert(("deepen "@ + rest)[0] == 'd');
    assert(("filter "@ + rest)[0] == 'f');
    lemma_first_char("have "@ + rest, "want "@);
    lemma_first_char("shallow "@ + rest, "want "@);
    lemma_first_char("shallow "@ + rest, "have "@);
    lemma_first_char("shallow "@ + rest, "deepen "@);
    lemma_first_char("deepen "@ + rest, "want "@);
    lemma_first_char("filter "@ + rest, "want "@);
    lemma_first_char("filter "@ + rest, "deepen "@);
    lemma_first_char("filter "@ + rest, "shallow "@);
}

proof fn lemma_first_char(line: Seq<char>, word: Seq<char>)
    requires
        line.len() > 0,
        word.len() > 0,
        line[0] != word[0],
    ensures
        after_word(line, word) is None,
{
    if word.is_prefix_of(line) {
        assert(word[0] == line.subrange(0, word.len() as int)[0]);
    }
}

/// What was asked for stays asked for, whatever lines follow.
proof fn lemma_lines_grow(kind: LineKind, r: FetchView, lines: Seq<Seq<char>>, oid: Seq<char>)
    ensures
        r.wants.contains(oid) ==> lines_taken(kind, r, lines).wants.contains(oid),
        r.haves.contains(oid) ==> lines_taken(kind, r, lines).haves.contains(oid),
        r.shallows.contains(oid) ==> lines_taken(kind, r, lines).shallows.contains(oid),
    decreases lines.len(),
{
    if lines.len() > 0 {
        lemma_lines_grow(kind, r, lines.drop_last(), oid);
        lemma_line_grows(kind, lines_taken(kind, r, lines.drop_last()), lines.last(), oid);
    }
}

proof fn lemma_line_grows(kind: LineKind, r: FetchView, line: Seq<char>, oid: Seq<char>)
    ensures
        r.wants.contains(oid) ==> line_taken(kind, r, line).wants.contains(oid),
        r.haves.contains(oid) ==> line_taken(kind, r, line).haves.contains(oid),
        r.shallows.contains(oid) ==> line_taken(kind, r, line).shallows.contains(oid),
{
    if let Some(rest) = after_word(line, "want "@) {
        lemma_push_contains(r.wants, first_word(rest), oid);
    }
    if let Some(rest) = after_word(line, "have "@) {
        lemma_push_contains(r.haves, trimmed(rest), oid);
    }
    if let Some(rest) = after_word(line, "shallow "@) {
        lemma_push_contains(r.shallows, trimmed(rest), oid);
    }
}

/// A line `want` adds its object to what is wanted, in either version of the
/// protocol, wherever it stands among the lines.
pub proof fn law_want_taken(
    kind: LineKind,
    r: FetchView,
    lines: Seq<Seq<char>>,
    i: int,
    oid: Seq<char>,
)
    requires
        kind is Want || kind is Fetch,
        0 <= i < lines.len(),
        lines[i] == "want "@ + oid,
        first_word(oid) == oid,
    ensures
        lines_taken(kind, r, lines).wants.contains(oid),
    decreases lines.len(),
{
    let before = lines_taken(kind, r, lines.drop_last());
    if i < lines.len() - 1 {
        law_want_taken(kind, r, lines.drop_last(), i, oid);
        lemma_line_grows(kind, before, lines.last(), oid);
    } else {
        lemma_after_word("want "@, oid);
        lemma_push_contains(before.wants, oid, oid);
    }
}

/// A line `have` adds its object to what the client has.
pub proof fn law_have_taken(
    kind: LineKind,
    r: FetchView,
    lines: Seq<Seq<char>>,
    i: int,
    oid: Seq<char>,
)
    requires
        kind is Have || kind is Fetch,
        0 <= i < lines.len(),
        lines[i] == "have "@ + oid,
        trimmed(oid) == oid,
    ensures
        lines_taken(kind, r, lines).haves.contains(oid),
    decreases lines.len(),
{
    let before = lines_taken(kind, r, lines.drop_last());
    if i < lines.len() - 1 {
        law_have_taken(kind, r, lines.drop_last(), i, oid);
        lemma_line_grows(kind, before, lines.last(), oid);
    } else {
        lemma_after_word("have "@, oid);
        lemma_other_words(oid);
        lemma_push_contains(before.haves, oid, oid);
    }
}

/// A line `shallow` adds its object to where the client's history ends.
pub proof fn law_shallow_taken(
    kind: LineKind,
    r: FetchView,
    lines: Seq<Seq<char>>,
    i: int,
    oid: Seq<char>,
)
    requires
        kind is Want || kind is Fetch,
        0 <= i < lines.len(),
        lines[i] == "shallow "@ + oid,
        trimmed(oid) == oid,
    ensures
        lines_taken(kind, r, lines).shallows.contains(oid),
    decreases lines.len(),
{
    let before = lines_taken(kind, r, lines.drop_last());
    if i < lines.len() - 1 {
        law_shallow_taken(kind, r, lines.drop_last(), i, oid);
        lemma_line_grows(kind, before, lines.last(), oid);
    } else {
        lemma_after_word("shallow "@, oid);
        lemma_other_words(oid);
        lemma_push_contains(before.shallows, oid, oid);
    }
}

/// The last line `filter` says what is left out: `blob:none` all blobs,
/// `blob:limit` with a number those with more bytes.
pub proof fn law_filter_taken(
    kind: LineKind,
    r: FetchView,
    lines: Seq<Seq<char>>,
    i: int,
    limit: u64,
)
    requires
        kind is Want || kind is Argument,
        0 <= i < lines.len(),
        forall|j: int| i < j < lines.len() ==> after_word(#[trigger] lines[j], "filter "@) is None,
    ensures
        lines[i] == "filter "@ + "blob:none"@ && trimmed("blob:none"@) == "blob:none"@
            ==> lines_taken(kind, r, lines).filter == Some(FilterSpec::BlobNone),
        lines[i] == "filter "@ + ("blob:limit="@ + decimal(limit as nat)) && trimmed(
            "blob:limit="@ + decimal(limit as nat),
        ) == "blob:limit="@ + decimal(limit as nat) ==> lines_taken(kind, r, lines).filter == Some(
            FilterSpec::BlobLimit(limit),
        ),
    decreases lines.len(),
{
    let front = lines.drop_last();
    let number = "blob:limit="@ + decimal(limit as nat);
    if i < lines.len() - 1 {
        assert forall|j: int| i < j < front.len() implies after_word(
            #[trigger] front[j],
            "filter "@,
        ) is None by {
            assert(front[j] == lines[j]);
        }
        law_filter_taken(kind, r, front, i, limit);
        assert(after_word(lines[lines.len() - 1], "filter "@) is None);
    } else {
        lemma_after_word("filter "@, "blob:none"@);
        lemma_other_words("blob:none"@);
        lemma_after_word("filter "@, number);
        lemma_other_words(number);
        lemma_after_word("blob:limit="@, decimal(limit as nat));
        law_decimal_roundtrip(limit);
        reveal_strlit("blob:none");
        reveal_strlit("blob:limit=");
        assert(number[5] == 'l' && "blob:none"@[5] == 'n');
    }
}

/// The last line `deepen` with a number says how deep.
pub proof fn law_depth_taken(kind: LineKind, r: FetchView, lines: Seq<Seq<char>>, i: int, depth: u32)
    requires
        kind is Want || kind is Argument,
        0 <= i < lines.len(),
        forall|j: int| i < j < lines.len() ==> after_word(#[trigger] lines[j], "deepen "@) is None,
        lines[i] == "deepen "@ + decimal(depth as nat),
        trimmed(decimal(depth as nat)) == decimal(depth as nat),
    ensures
        lines_taken(kind, r, lines).deepen == Some(depth),
    decreases lines.len(),
{
    let front = lines.drop_last();
    if i < lines.len() - 1 {
        assert forall|j: int| i < j < front.len() implies after_word(
            #[trigger] front[j],
            "deepen "@,
        ) is None by {
            assert(front[j] == lines[j]);
        }
        law_depth_taken(kind, r, front, i, depth);
        assert(after_word(lines[lines.len() - 1], "deepen "@) is None);
    } else {
        lemma_after_word("deepen "@, decimal(depth as nat));
        lemma_other_words(decimal(depth as nat));
        law_decimal_roundtrip(depth as u64);
    }
}

/// A line of a push that holds three words, or three words and capabilities
/// behind a zero character, asks for the update from the first to the second of
/// the ref that the third names.
pub proof fn law_update_line(
    front: Seq<char>,
    capabilities: Seq<char>,
    old_oid: Seq<char>,
    new_oid: Seq<char>,
    ref_name: Seq<char>,
)
    requires
        !front.contains('\0'),
        words(front) == seq![old_oid, new_oid, ref_name],
    ensures
        update_line(front) == Some(RefUpdateView { old_oid, new_oid, ref_name }),
        update_line(front + seq!['\0'] + capabilities) == Some(
            RefUpdateView { old_oid, new_oid, ref_name },
        ),
{
    let line = front + seq!['\0'] + capabilities;
    assert forall|k: int| 0 <= k < front.len() implies front[k] != '\0' && line[k] != '\0' by {
        assert(front.contains(front[k]));
        assert(line[k] == front[k]);
    }
    crate::text::lemma_first_index(front, '\0', front.len() as int);
    assert(line[front.len() as int] == '\0');
    crate::text::lemma_first_index(line, '\0', front.len() as int);
    assert(line.take(front.len() as int) =~= front);
}

/// Every line of a push that asks for an update is taken, in the order of the
/// lines, and nothing else is.
pub proof fn law_updates_taken(lines: Seq<Seq<char>>)
    requires
        forall|i: int| 0 <= i < lines.len() ==> update_line(#[trigger] lines[i]) is Some,
    ensures
        update_lines(lines).len() == lines.len(),
        forall|i: int|
            0 <= i < lines.len() ==> Some(#[trigger] update_lines(lines)[i]) == update_line(
                lines[i],
            ),
    decreases lines.len(),
{
    if lines.len() > 0 {
        let front = lines.drop_last();
        assert forall|i: int| 0 <= i < front.len() implies update_line(
            #[trigger] front[i],
        ) is Some by {
            assert(front[i] == lines[i]);
        }
        law_updates_taken(front);
        assert(update_line(lines[lines.len() - 1]) is Some);
        assert forall|i: int| 0 <= i < lines.len() implies Some(
            #[trigger] update_lines(lines)[i],
        ) == update_line(lines[i]) by {
            if i < front.len() {
                assert(update_lines(lines)[i] == update_lines(front)[i]);
                assert(front[i] == lines[i]);
            }
        }
    }
}

/// The arguments of a listing turn on what they name: symbolic refs, peeling,
/// and each prefix.
pub proof fn law_list_lines(lines: Seq<Seq<char>>, prefix: Seq<char>)
    ensures
        list_lines(lines).symrefs == lines.contains("symrefs"@),
        list_lines(lines).peel == lines.contains("peel"@),
        lines.contains("ref-prefix "@ + prefix) == list_lines(lines).prefixes.contains(prefix),
    decreases lines.len(),
{
    if lines.len() > 0 {
        let front = lines.drop_last();
        let line = lines.last();
        law_list_lines(front, prefix);
        assert(front.push(line) =~= lines);
        lemma_push_contains(front, line, "symrefs"@);
        lemma_push_contains(front, line, "peel"@);
        lemma_push_contains(front, line, "ref-prefix "@ + prefix);
        reveal_strlit("symrefs");
        reveal_strlit("peel");
        reveal_strlit("ref-prefix ");
        lemma_first_char("symrefs"@, "ref-prefix "@);
        lemma_first_char("peel"@, "ref-prefix "@);
        assert("symrefs"@[0] == 's' && "peel"@[0] == 'p');
        lemma_after_word("ref-prefix "@, prefix);
        if let Some(rest) = after_word(line, "ref-prefix "@) {
            lemma_push_contains(list_lines(front).prefixes, rest, prefix);
            assert("ref-prefix "@ + rest =~= line);
        }
    }
}

/// Lines as a client sends them, one packet each.
pub open spec fn lines_sent(lines: Seq<Seq<char>>) -> Seq<u8>
    decreases lines.len(),
{
    if lines.len() == 0 {
        Seq::empty()
    } else {
        pkt_bytes(encode_utf8(lines[0])) + lines_sent(lines.drop_first())
    }
}

/// Lines without the white space around them.
pub open spec fn lines_trimmed(lines: Seq<Seq<char>>) -> Seq<Seq<char>> {
    Seq::new(lines.len(), |i: int| trimmed(lines[i]))
}

/// A section is read as it was sent: the lines that a client sends before a flush
/// packet, without the white space around them, whatever stands before and behind
/// them.
pub proof fn law_section_read(
    front: Seq<u8>,
    lines: Seq<Seq<char>>,
    rest: Seq<u8>,
    delimited: bool,
    done: bool,
)
    requires
        forall|i: int| 0 <= i < lines.len() ==> encodable(encode_utf8(#[trigger] lines[i])),
        done ==> forall|i: int| 0 <= i < lines.len() ==> trimmed(#[trigger] lines[i]) != "done"@,
    ensures
        section(front + (lines_sent(lines) + flush_bytes() + rest), front.len(), delimited, done)
            == (Section {
            lines: lines_trimmed(lines),
            end: SectionEnd::Stopped,
            next: front.len() + lines_sent(lines).len() + 4,
        }),
    decreases lines.len(),
{
    let stream = front + (lines_sent(lines) + flush_bytes() + rest);
    let n = front.len();
    if lines.len() == 0 {
        assert(stream.skip(n as int) =~= flush_bytes() + rest);
        law_pkt_roundtrip(Seq::empty(), rest);
        assert(lines_trimmed(lines) =~= Seq::<Seq<char>>::empty());
    } else {
        let data = encode_utf8(lines[0]);
        let more = lines.drop_first();
        let line = pkt_bytes(data);
        let tail = lines_sent(more) + flush_bytes() + rest;
        let longer = front + line;
        lemma_sent_parts(front, lines, rest);
        lemma_line_read(stream, n, lines[0], tail, delimited, done);
        assert forall|i: int| 0 <= i < more.len() implies encodable(
            encode_utf8(#[trigger] more[i]),
        ) by {
            assert(more[i] == lines[i + 1]);
        }
        if done {
            assert forall|i: int| 0 <= i < more.len() implies trimmed(#[trigger] more[i])
                != "done"@ by {
                assert(more[i] == lines[i + 1]);
            }
        }
        law_section_read(longer, more, rest, delimited, done);
        assert(seq![trimmed(lines[0])] + lines_trimmed(more) =~= lines_trimmed(lines));
    }
}

/// The first of the lines sent, and the others behind it.
proof fn lemma_sent_parts(front: Seq<u8>, lines: Seq<Seq<char>>, rest: Seq<u8>)
    requires
        lines.len() > 0,
    ensures
        ({
            let stream = front + (lines_sent(lines) + flush_bytes() + rest);
            let line = pkt_bytes(encode_utf8(lines[0]));
            let tail = lines_sent(lines.drop_first()) + flush_bytes() + rest;
            &&& stream.skip(front.len() as int) == line + tail
            &&& (front + line) + tail == stream
            &&& line.len() == 4 + encode_utf8(lines[0]).len()
            &&& lines_sent(lines).len() == line.len() + lines_sent(lines.drop_first()).len()
        }),
{
    let stream = front + (lines_sent(lines) + flush_bytes() + rest);
    let line = pkt_bytes(encode_utf8(lines[0]));
    let sent = lines_sent(lines.drop_first());
    let tail = sent + flush_bytes() + rest;
    assert(lines_sent(lines) == line + sent);
    assert((line + sent) + flush_bytes() + rest =~= line + tail);
    assert(stream.skip(front.len() as int) =~= line + tail);
    assert((front + line) + tail =~= stream);
}

/// A line at the front of a section is its first line.
proof fn lemma_line_read(
    stream: Seq<u8>,
    from: nat,
    text: Seq<char>,
    tail: Seq<u8>,
    delimited: bool,
    done: bool,
)
    requires
        from <= stream.len(),
        encodable(encode_utf8(text)),
        stream.skip(from as int) == pkt_bytes(encode_utf8(text)) + tail,
        done ==> trimmed(text) != "done"@,
    ensures
        section(stream, from, delimited, done) == with_line(
            trimmed(text),
            section(stream, from + 4 + encode_utf8(text).len(), delimited, done),
        ),
{
    law_pkt_roundtrip(encode_utf8(text), tail);
    encode_utf8_valid_utf8(text);
    encode_utf8_decode_utf8(text);
}

} // verus!
