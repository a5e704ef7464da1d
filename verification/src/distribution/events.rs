//! Streams of what happened to the tags of a namespace.

use vstd::prelude::*;

use crate::store::memory::InMemoryStore;
use crate::text::{decimal, decimal_text, holds_text, text_begins_with};
use crate::types::{NamespaceRef, TagView};

verus! {

/// An event that was logged, with its text in JSON.
#[derive(Debug)]
pub struct LoggedEvent {
    pub operation: String,
    pub name: String,
    pub sequence: u64,
    pub json: String,
}

/// What a logged event holds.
pub struct LoggedView {
    pub operation: Seq<char>,
    pub name: Seq<char>,
    pub sequence: u64,
    pub json: Seq<char>,
}

impl DeepView for LoggedEvent {
    type V = LoggedView;

    open spec fn deep_view(&self) -> LoggedView {
        LoggedView {
            operation: self.operation@,
            name: self.name@,
            sequence: self.sequence,
            json: self.json@,
        }
    }
}

/// Whether a name begins with a prefix, where one is asked for.
pub open spec fn has_prefix(prefix: Option<Seq<char>>, name: Seq<char>) -> bool {
    match prefix {
        Some(p) => p.is_prefix_of(name),
        None => true,
    }
}

/// What a prefix asks for.
pub open spec fn shown_prefix(prefix: Option<&str>) -> Option<Seq<char>> {
    match prefix {
        Some(p) => Some(p@),
        None => None,
    }
}

fn fits_prefix(prefix: Option<&str>, name: &str) -> (yes: bool)
    ensures
        yes == has_prefix(shown_prefix(prefix), name@),
{
    match prefix {
        Some(p) => text_begins_with(name, p),
        None => true,
    }
}

/// One event of a stream: its kind, its number and its data.
pub open spec fn event_text(kind: Seq<char>, id: u64, data: Seq<char>) -> Seq<char> {
    "event: "@ + kind + "\nid: "@ + decimal(id as nat) + "\ndata: "@ + data + "\n\n"@
}

fn append_event(out: &mut String, kind: &str, id: u64, data: &str)
    ensures
        final(out)@ == old(out)@ + event_text(kind@, id, data@),
{
    let ghost had = out@;
    out.append("event: ");
    out.append(kind);
    out.append("\nid: ");
    out.append(decimal_text(id).as_str());
    out.append("\ndata: ");
    out.append(data);
    out.append("\n\n");
    assert(out@ =~= had + event_text(kind@, id, data@));
}

/// The stream of logged events whose names begin with a prefix.
pub open spec fn log_stream(events: Seq<LoggedView>, prefix: Option<Seq<char>>) -> Seq<char>
    decreases events.len(),
{
    if events.len() == 0 {
        Seq::empty()
    } else {
        let before = log_stream(events.drop_last(), prefix);
        let e = events.last();
        if has_prefix(prefix, e.name) {
            before + event_text(e.operation, e.sequence, e.json)
        } else {
            before
        }
    }
}

/// The stream of logged events whose names begin with a prefix.
pub fn stream_log(events: &[LoggedEvent], prefix: Option<&str>) -> (out: String)
    ensures
        out@ == log_stream(events.deep_view(), shown_prefix(prefix)),
{
    let ghost all = events.deep_view();
    let mut out = String::new();
    let mut i: usize = 0;
    assert(all.take(0) =~= Seq::<LoggedView>::empty());
    assert(out@ =~= Seq::<char>::empty());
    while i < events.len()
        invariant
            i <= events@.len(),
            all == events.deep_view(),
            all.len() == events@.len(),
            out@ == log_stream(all.take(i as int), shown_prefix(prefix)),
        decreases events@.len() - i,
    {
        proof {
            assert(all[i as int] == events@[i as int].deep_view());
            assert(all.take(i + 1).drop_last() =~= all.take(i as int));
            assert(all.take(i + 1).last() == all[i as int]);
        }
        let e = &events[i];
        if fits_prefix(prefix, e.name.as_str()) {
            append_event(&mut out, e.operation.as_str(), e.sequence, e.json.as_str());
        }
        i += 1;
    }
    assert(all.take(all.len() as int) =~= all);
    out
}

/// The data of an event made from a tag.
pub open spec fn tag_data(ns: Seq<char>, tag: TagView) -> Seq<char> {
    "{\"namespace\":\""@ + ns + "\",\"name\":\""@ + tag.name + "\",\"kappa\":\""@ + tag.kappa
        + "\"}"@
}

/// The stream made from the tags of a namespace: one event for each public tag
/// whose name begins with a prefix, numbered by its place among all tags, of those
/// behind a number.
pub open spec fn tag_stream(
    ns: Seq<char>,
    tags: Seq<TagView>,
    prefix: Option<Seq<char>>,
    since: u64,
) -> Seq<char>
    decreases tags.len(),
{
    if tags.len() == 0 {
        Seq::empty()
    } else {
        let before = tag_stream(ns, tags.drop_last(), prefix, since);
        let tag = tags.last();
        if !"_"@.is_prefix_of(tag.name) && has_prefix(prefix, tag.name) && tags.len() > since {
            before + event_text("tag_set"@, tags.len() as u64, tag_data(ns, tag))
        } else {
            before
        }
    }
}

/// The stream made from the tags of a namespace, for want of a log.
pub fn stream_tags(store: &InMemoryStore, ns: &NamespaceRef, prefix: Option<&str>, since: u64) -> (out: String)
    requires
        store.wf(),
    ensures
        exists|tags: Seq<TagView>| #[trigger]
            store.state().is_listing(*ns, Seq::empty(), tags) && out@ == tag_stream(
                ns.shown(),
                tags,
                shown_prefix(prefix),
                since,
            ),
{
    let tags = match store.tag_list(ns) {
        Ok(tags) => tags,
        Err(_) => Vec::new(),
    };
    let ghost all = tags.deep_view();
    assert(store.state().is_listing(*ns, Seq::empty(), all));
    let shown = ns.as_str();
    let mut out = String::new();
    let mut i: usize = 0;
    assert(all.take(0) =~= Seq::<TagView>::empty());
    assert(out@ =~= Seq::<char>::empty());
    while i < tags.len()
        invariant
            i <= tags@.len(),
            all == tags.deep_view(),
            all.len() == tags@.len(),
            shown@ == ns.shown(),
            out@ == tag_stream(shown@, all.take(i as int), shown_prefix(prefix), since),
        decreases tags@.len() - i,
    {
        proof {
            assert(all[i as int] == tags@[i as int].deep_view());
            assert(all.take(i + 1).drop_last() =~= all.take(i as int));
            assert(all.take(i + 1).last() == all[i as int]);
        }
        let name = tags[i].name.as_str();
        let number: u64 = i as u64 + 1;
        if !text_begins_with(name, "_") && fits_prefix(prefix, name) && number > since {
            let mut data = String::new();
            assert(data@ =~= Seq::<char>::empty());
            data.append("{\"namespace\":\"");
            data.append(shown.as_str());
            data.append("\",\"name\":\"");
            data.append(name);
            data.append("\",\"kappa\":\"");
            data.append(tags[i].kappa.as_str());
            data.append("\"}");
            assert(data@ =~= tag_data(shown@, all[i as int]));
            append_event(&mut out, "tag_set", number, data.as_str());
        }
        i += 1;
    }
    assert(all.take(all.len() as int) =~= all);
    out
}

// -- Connections ------------------------------------------------------------------

/// What a client asks of a connection.
#[derive(Debug)]
pub enum ClientCommand {
    /// Only events of these kinds from now on.
    Filter(Vec<String>),
    /// The events behind a number, whatever their kind.
    Replay(u64),
}

/// What a connection to a client remembers.
#[derive(Debug)]
pub struct EventConnection {
    pub filter: Option<Vec<String>>,
    pub last_seq: u64,
}

/// What to do for a connection.
#[derive(Debug, Clone, Copy, PartialEq, Eq, Structural)]
pub enum EventStep {
    /// Nothing.
    Wait,
    /// Send the logged events behind this number.
    Send(u64),
}

impl EventConnection {
    /// What kinds of events the client wants; all of them where it did not say.
    pub open spec fn kinds(&self) -> Option<Seq<Seq<char>>> {
        match self.filter {
            Some(list) => Some(list.deep_view()),
            None => None,
        }
    }

    /// A client that has seen nothing and wants everything.
    pub fn new() -> (out: Self)
        ensures
            out.kinds() is None,
            out.last_seq == 0,
    {
        EventConnection { filter: None, last_seq: 0 }
    }

    /// Takes a command from the client.
    pub fn command(&mut self, command: ClientCommand) -> (step: EventStep)
        ensures
            final(self).last_seq == old(self).last_seq,
            match command {
                ClientCommand::Filter(kinds) => step == EventStep::Wait && final(self).kinds()
                    == Some(kinds.deep_view()),
                ClientCommand::Replay(since) => step == EventStep::Send(since) && final(
                    self).kinds() == old(self).kinds(),
            },
    {
        match command {
            ClientCommand::Filter(kinds) => {
                self.filter = Some(kinds);
                EventStep::Wait
            },
            ClientCommand::Replay(since) => EventStep::Send(since),
        }
    }

    /// The heartbeat: what came since the client last saw something is due.
    pub fn tick(&self) -> (step: EventStep)
        ensures
            step == EventStep::Send(self.last_seq),
    {
        EventStep::Send(self.last_seq)
    }

    /// Whether an event goes to the client on a heartbeat; either way it counts
    /// as seen. Replayed events go regardless of their kind.
    pub fn take_event(&mut self, operation: &str, sequence: u64, replayed: bool) -> (send: bool)
        ensures
            final(self).kinds() == old(self).kinds(),
            final(self).last_seq == sequence,
            send == (replayed || match old(self).kinds() {
                Some(kinds) => kinds.contains(operation@),
                None => true,
            }),
    {
        self.last_seq = sequence;
        if replayed {
            return true;
        }
        match &self.filter {
            Some(kinds) => holds_text(kinds, operation),
            None => true,
        }
    }
}

// -- Laws ---------------------------------------------------------------------------

/// The stream of events logged one after the other is their streams one after
/// the other; that of a single event is its text where its name begins with the
/// prefix, or none is asked for, and empty otherwise.
pub proof fn law_log_streamed(
    first: Seq<LoggedView>,
    second: Seq<LoggedView>,
    e: LoggedView,
    prefix: Option<Seq<char>>,
)
    ensures
        log_stream(first + second, prefix) == log_stream(first, prefix) + log_stream(second, prefix),
        (prefix matches Some(p) ==> p.is_prefix_of(e.name)) ==> log_stream(seq![e], prefix)
            == "event: "@ + e.operation + "\nid: "@ + decimal(e.sequence as nat) + "\ndata: "@
            + e.json + "\n\n"@,
        (prefix matches Some(p) && !p.is_prefix_of(e.name)) ==> log_stream(seq![e], prefix).len()
            == 0,
    decreases second.len(),
{
    let text = event_text(e.operation, e.sequence, e.json);
    assert(seq![e].drop_last() =~= Seq::<LoggedView>::empty());
    assert(log_stream(Seq::<LoggedView>::empty(), prefix) =~= Seq::<char>::empty());
    assert(Seq::<char>::empty() + text =~= text);
    if second.len() == 0 {
        assert(first + second =~= first);
        assert(log_stream(first, prefix) + Seq::<char>::empty() =~= log_stream(first, prefix));
    } else {
        law_log_streamed(first, second.drop_last(), e, prefix);
        assert((first + second).drop_last() =~= first + second.drop_last());
        assert((first + second).last() == second.last());
        let last = second.last();
        let more = event_text(last.operation, last.sequence, last.json);
        assert(log_stream(first, prefix) + log_stream(second.drop_last(), prefix) + more
            =~= log_stream(first, prefix) + (log_stream(second.drop_last(), prefix) + more));
    }
}

/// Every public tag whose name begins with the prefix, and whose place among all
/// tags, counted from one, lies behind the number asked for, is an event of the
/// stream: its text follows that of the tags before it. No other tag is.
pub proof fn law_tag_streamed(
    ns: Seq<char>,
    tags: Seq<TagView>,
    prefix: Option<Seq<char>>,
    since: u64,
    tag: TagView,
)
    requires
        tags.len() < u64::MAX,
    ensures
        ({
            let before = tag_stream(ns, tags, prefix, since);
            let after = tag_stream(ns, tags.push(tag), prefix, since);
            let wanted = !"_"@.is_prefix_of(tag.name) && (prefix matches Some(p) ==> p.is_prefix_of(
                tag.name,
            )) && tags.len() + 1 > since;
            &&& wanted ==> after == before + ("event: tag_set\nid: "@ + decimal(tags.len() + 1)
                + "\ndata: "@ + tag_data(ns, tag) + "\n\n"@)
            &&& !wanted ==> after == before
        }),
{
    let more = tags.push(tag);
    assert(more.drop_last() =~= tags);
    assert(more.last() == tag);
    reveal_strlit("event: ");
    reveal_strlit("tag_set");
    reveal_strlit("\nid: ");
    reveal_strlit("event: tag_set\nid: ");
    assert("event: "@ + "tag_set"@ + "\nid: "@ =~= "event: tag_set\nid: "@);
}

} // verus!
