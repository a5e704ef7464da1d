//! The stream of commits: what a subscriber is sent, and when it is let go.

use vstd::prelude::*;

use crate::atproto::car::shown_slice;
use crate::atproto::cid::cid_prefix;
use crate::atproto::dag_cbor::{
    commit_map, encode_commit_body, encode_header, encode_info_body, frame, header_map, info_map,
    op_views,
};
use crate::bytes::append_bytes;
use crate::kappa::{label_parts, Axis, KappaLabel};
use crate::text::{decimal, decimal_text, joined3, same_text};

verus! {

/// How events reach a subscriber.
#[derive(Debug, Clone, Copy, PartialEq, Eq, Structural)]
pub enum FirehoseMode {
    /// As they happen.
    Broadcast,
    /// When a counter has moved, asked for at an interval.
    Poll { interval_ms: u64 },
}

impl Default for FirehoseMode {
    fn default() -> (out: Self)
        ensures
            out == FirehoseMode::Broadcast,
    {
        FirehoseMode::Broadcast
    }
}

/// Settings of the stream.
#[derive(Debug)]
pub struct FirehoseConfig {
    pub mode: FirehoseMode,
    /// Most events that a subscriber may have missed.
    pub max_lag: u64,
    pub heartbeat_interval_ms: u64,
}

impl Default for FirehoseConfig {
    fn default() -> (out: Self)
        ensures
            out.mode == FirehoseMode::Broadcast,
            out.max_lag == 10000,
            out.heartbeat_interval_ms == 30000,
    {
        FirehoseConfig { mode: FirehoseMode::Broadcast, max_lag: 10000, heartbeat_interval_ms: 30000 }
    }
}

impl FirehoseConfig {
    /// Milliseconds between two looks at the counter.
    pub fn poll_interval_ms(&self) -> (out: u64)
        ensures
            out == (match self.mode {
                FirehoseMode::Poll { interval_ms } => interval_ms,
                FirehoseMode::Broadcast => 500u64,
            }),
    {
        match self.mode {
            FirehoseMode::Poll { interval_ms } => interval_ms,
            FirehoseMode::Broadcast => 500,
        }
    }

    /// Whether events are passed on as they happen, given whether there is a
    /// channel for them.
    pub fn listens(&self, has_channel: bool) -> (yes: bool)
        ensures
            yes == (self.mode == FirehoseMode::Broadcast && has_channel),
    {
        match self.mode {
            FirehoseMode::Broadcast => has_channel,
            FirehoseMode::Poll { .. } => false,
        }
    }
}

/// What happened to a tag.
#[derive(Debug, Clone, Copy, PartialEq, Eq, Structural)]
pub enum TagChange {
    Bound,
    Unbound,
    Other,
}

/// The name of a change in the stream.
pub open spec fn change_name(change: TagChange) -> Seq<char> {
    match change {
        TagChange::Bound => "create"@,
        TagChange::Unbound => "delete"@,
        TagChange::Other => "update"@,
    }
}

/// The name of a change in the stream.
pub fn action_name(change: TagChange) -> (out: &'static str)
    ensures
        out@ == change_name(change),
{
    match change {
        TagChange::Bound => "create",
        TagChange::Unbound => "delete",
        TagChange::Other => "update",
    }
}

/// What an operation on a tag does, by its name.
pub open spec fn change_named(operation: Seq<char>) -> TagChange {
    if operation == "tag_set"@ {
        TagChange::Bound
    } else if operation == "tag_delete"@ {
        TagChange::Unbound
    } else {
        TagChange::Other
    }
}

/// What an operation on a tag does, by its name.
pub fn change_of(operation: &str) -> (out: TagChange)
    ensures
        out == change_named(operation@),
{
    if same_text(operation, "tag_set") {
        TagChange::Bound
    } else if same_text(operation, "tag_delete") {
        TagChange::Unbound
    } else {
        TagChange::Other
    }
}

/// The content identifier of what a SHA-256 label addresses; none for another
/// text.
pub open spec fn label_cid_of(label: Seq<char>) -> Option<Seq<u8>> {
    match label_parts(label) {
        Some((Axis::Sha256, digest)) => Some(cid_prefix() + digest),
        _ => None,
    }
}

/// The content identifier of what a SHA-256 label addresses; none for another
/// text.
pub fn label_cid(label: &str) -> (out: Option<Vec<u8>>)
    ensures
        match out {
            Some(cid) => label_cid_of(label@) == Some(cid@),
            None => label_cid_of(label@) is None,
        },
{
    match KappaLabel::parse(label) {
        Ok(l) => {
            if l.axis_enum() != Axis::Sha256 {
                return None;
            }
            let mut cid: Vec<u8> = Vec::new();
            cid.push(0x01);
            cid.push(0x71);
            cid.push(0x12);
            cid.push(0x20);
            assert(cid@ =~= cid_prefix());
            append_bytes(&mut cid, l.digest_bytes());
            Some(cid)
        },
        Err(_) => None,
    }
}

/// An info frame.
pub open spec fn info_frame_of(name: Seq<char>, message: Seq<char>) -> Seq<u8> {
    header_map(1, "#info"@) + info_map(name, message)
}

/// An info frame.
pub fn info_frame(name: &str, message: &str) -> (out: Vec<u8>)
    ensures
        out@ == info_frame_of(name@, message@),
{
    frame(encode_header(1, "#info"), encode_info_body(name, message))
}

/// The next event for a subscriber, as a commit frame: one change in a
/// repository.
pub fn commit_frame(
    client: &mut Subscriber,
    repo: &str,
    change: TagChange,
    path: &str,
    cid: Option<&[u8]>,
) -> (out: Vec<u8>)
    requires
        old(client).seq < u64::MAX,
    ensures
        final(client).seq == old(client).seq + 1,
        final(client).max_lag == old(client).max_lag,
        out@ == header_map(1, "#commit"@) + commit_map(
            final(client).seq,
            repo@,
            Seq::empty(),
            Seq::empty(),
            None,
            Seq::empty(),
            seq![(change_name(change), path@, shown_slice(cid))],
        ),
{
    let seq_no: u64 = client.next();
    let mut ops: Vec<(&str, &str, Option<&[u8]>)> = Vec::new();
    ops.push((action_name(change), path, cid));
    let none: Vec<u8> = Vec::new();
    let body = encode_commit_body(seq_no, repo, none.as_slice(), "", None, none.as_slice(), ops.as_slice());
    proof {
        reveal_strlit("");
        assert(""@ =~= Seq::<char>::empty());
        assert(none@ =~= Seq::<u8>::empty());
        assert(op_views(ops@) =~= seq![(change_name(change), path@, shown_slice(cid))]);
    }
    frame(encode_header(1, "#commit"), body)
}

/// Some events were missed: the frame to close with where they are too many.
pub fn lag_frame(client: &mut Subscriber, missed: u64) -> (out: Option<Vec<u8>>)
    requires
        missed <= old(client).max_lag ==> old(client).seq + missed <= u64::MAX,
    ensures
        final(client).max_lag == old(client).max_lag,
        match out {
            Some(f) => missed > old(client).max_lag && f@ == info_frame_of(
                "OutdatedCursor"@,
                "lagged "@ + decimal(missed as nat) + " events, closing"@,
            ) && final(client).seq == old(client).seq,
            None => missed <= old(client).max_lag && final(client).seq == old(client).seq + missed,
        },
{
    match client.lagged(missed) {
        LagStep::Close(m) => Some(info_frame("OutdatedCursor", m.as_str())),
        LagStep::Continue => None,
    }
}

/// The next of the events that a counter has come to, as an info frame that
/// names its number; none where all are sent.
pub fn advance_frame(client: &mut Subscriber, current: u64) -> (out: Option<Vec<u8>>)
    ensures
        final(client).max_lag == old(client).max_lag,
        match out {
            Some(f) => old(client).seq < current && final(client).seq == old(client).seq + 1 && f@
                == info_frame_of("SequenceAdvance"@, decimal(final(client).seq as nat)),
            None => old(client).seq >= current && final(client).seq == old(client).seq,
        },
{
    match client.advance(current) {
        Some(seq_no) => Some(info_frame("SequenceAdvance", decimal_text(seq_no).as_str())),
        None => None,
    }
}

/// The frame to close with where the counter is further ahead than allowed.
pub fn outdated_frame(client: &Subscriber, current: u64) -> (out: Option<Vec<u8>>)
    ensures
        match out {
            Some(f) => current > client.seq && current - client.seq > client.max_lag && f@
                == info_frame_of("OutdatedCursor"@, "cursor too far behind"@),
            None => current <= client.seq || current - client.seq <= client.max_lag,
        },
{
    if client.outdated(current) {
        Some(info_frame("OutdatedCursor", "cursor too far behind"))
    } else {
        None
    }
}

/// What a subscriber has been sent.
#[derive(Debug)]
pub struct Subscriber {
    pub seq: u64,
    pub max_lag: u64,
}

/// What to do about missed events.
#[derive(Debug)]
pub enum LagStep {
    /// Go on.
    Continue,
    /// Tell the subscriber, and close.
    Close(String),
}

impl Subscriber {
    /// A subscriber that has seen the events up to a cursor.
    pub fn new(cursor: Option<u64>, max_lag: u64) -> (out: Self)
        ensures
            out.max_lag == max_lag,
            out.seq == (match cursor {
                Some(c) => c,
                None => 0u64,
            }),
    {
        Subscriber {
            seq: match cursor {
                Some(c) => c,
                None => 0,
            },
            max_lag,
        }
    }

    /// The number of the next event to send.
    pub fn next(&mut self) -> (seq: u64)
        requires
            old(self).seq < u64::MAX,
        ensures
            seq == old(self).seq + 1,
            final(self).seq == seq,
            final(self).max_lag == old(self).max_lag,
    {
        self.seq = self.seq + 1;
        self.seq
    }

    /// Some events were missed: more than allowed ends the stream, fewer count as
    /// sent.
    pub fn lagged(&mut self, missed: u64) -> (step: LagStep)
        requires
            missed <= old(self).max_lag ==> old(self).seq + missed <= u64::MAX,
        ensures
            final(self).max_lag == old(self).max_lag,
            match step {
                LagStep::Close(m) => missed > old(self).max_lag && m@ == "lagged "@ + decimal(
                    missed as nat,
                ) + " events, closing"@ && final(self).seq == old(self).seq,
                LagStep::Continue => missed <= old(self).max_lag && final(self).seq == old(self).seq
                    + missed,
            },
    {
        if missed > self.max_lag {
            let n = decimal_text(missed);
            return LagStep::Close(joined3("lagged ", n.as_str(), " events, closing"));
        }
        self.seq = self.seq + missed;
        LagStep::Continue
    }

    /// The number of the next event to send of those that a counter has come to;
    /// none where all are sent.
    pub fn advance(&mut self, current: u64) -> (out: Option<u64>)
        ensures
            final(self).max_lag == old(self).max_lag,
            match out {
                Some(seq) => old(self).seq < current && seq == old(self).seq + 1 && final(self).seq
                    == seq,
                None => old(self).seq >= current && final(self).seq == old(self).seq,
            },
    {
        if self.seq < current {
            self.seq = self.seq + 1;
            Some(self.seq)
        } else {
            None
        }
    }

    /// Whether the counter is further ahead than allowed.
    pub fn outdated(&self, current: u64) -> (yes: bool)
        ensures
            yes == (current > self.seq && current - self.seq > self.max_lag),
    {
        current > self.seq && current - self.seq > self.max_lag
    }
}

/// A SHA-256 label has the content identifier of its digest, and a label on another
/// axis none.
pub proof fn law_label_cid(axis: Axis, digest: Seq<u8>)
    requires
        digest.len() == crate::kappa::axis_len(axis),
    ensures
        axis == Axis::Sha256 ==> label_cid_of(crate::kappa::label_text(axis, digest)) == Some(
            seq![1u8, 0x71, 0x12, 0x20] + digest,
        ),
        axis != Axis::Sha256 ==> label_cid_of(crate::kappa::label_text(axis, digest)) is None,
{
    crate::kappa::law_label_roundtrip(axis, digest);
}

} // verus!
