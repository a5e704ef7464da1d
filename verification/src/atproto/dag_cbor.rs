//! Frames of the event stream: a header and a body, both DAG-CBOR maps with
//! their keys in order.

use vstd::prelude::*;
use vstd::utf8::encode_utf8;

use crate::atproto::cbor::{
    cid_item, full_head, null_item, optional_cid_item, push_cid_item, push_full_head,
    push_null_item, push_short_head, push_text_item, short_head, text_item,
};
use crate::atproto::node::{
    glued, lemma_cid_among, lemma_glued_ends, lemma_glued_more, lemma_short, lemma_text_among,
    reads_cid, reads_text,
};
use crate::bytes::append_bytes;
use crate::types::{be_bytes, big_endian};

verus! {

/// A byte string of up to four gigabytes.
pub open spec fn bytes_item(data: Seq<u8>) -> Seq<u8> {
    if data.len() < 65536 {
        short_head(2, data.len()) + data
    } else {
        seq![0x5Au8] + be_bytes(data.len() as int, 4) + data
    }
}

/// A whole number.
pub open spec fn int_item(op: i64) -> Seq<u8> {
    if op >= 0 {
        full_head(0, op as nat)
    } else {
        full_head(1, (-1 - op) as nat)
    }
}

/// A frame's header.
pub open spec fn header_map(op: i64, frame_type: Seq<char>) -> Seq<u8> {
    seq![0xA2u8] + text_item("op"@) + int_item(op) + text_item("t"@) + text_item(frame_type)
}

/// What one record of a repository went through: what was done, to which path,
/// and the content identifier it has now.
pub type OpView = (Seq<char>, Seq<char>, Option<Seq<u8>>);

/// One operation.
pub open spec fn op_item(op: OpView) -> Seq<u8> {
    seq![0xA3u8] + text_item("action"@) + text_item(op.0) + text_item("cid"@) + (match op.2 {
        Some(cid) => cid_item(cid),
        None => null_item(),
    }) + text_item("path"@) + text_item(op.1)
}

/// Operations, one after the other.
pub open spec fn op_items(ops: Seq<OpView>) -> Seq<u8>
    decreases ops.len(),
{
    if ops.len() == 0 {
        Seq::empty()
    } else {
        op_items(ops.drop_last()) + op_item(ops.last())
    }
}

/// A content identifier; nothing where it is empty.
pub open spec fn commit_cid_item(cid: Seq<u8>) -> Seq<u8> {
    if cid.len() == 0 {
        null_item()
    } else {
        cid_item(cid)
    }
}

/// The body of a commit frame.
pub open spec fn commit_map(
    seq_no: u64,
    repo: Seq<char>,
    commit_cid: Seq<u8>,
    rev: Seq<char>,
    since: Option<Seq<char>>,
    blocks: Seq<u8>,
    ops: Seq<OpView>,
) -> Seq<u8> {
    seq![0xA7u8] + text_item("blocks"@) + bytes_item(blocks) + text_item("commit"@)
        + commit_cid_item(commit_cid) + text_item("ops"@) + short_head(4, ops.len()) + op_items(ops)
        + text_item("repo"@) + text_item(repo) + text_item("rev"@) + text_item(rev) + text_item(
        "seq"@,
    ) + full_head(0, seq_no as nat) + text_item("since"@) + (match since {
        Some(s) => text_item(s),
        None => null_item(),
    })
}

/// The body of a handle frame.
pub open spec fn handle_map(seq_no: u64, did: Seq<char>, handle: Seq<char>) -> Seq<u8> {
    seq![0xA3u8] + text_item("did"@) + text_item(did) + text_item("handle"@) + text_item(handle)
        + text_item("seq"@) + full_head(0, seq_no as nat)
}

/// The body of an identity frame.
pub open spec fn identity_map(seq_no: u64, did: Seq<char>) -> Seq<u8> {
    seq![0xA2u8] + text_item("did"@) + text_item(did) + text_item("seq"@) + full_head(
        0,
        seq_no as nat,
    )
}

/// The body of an info frame.
pub open spec fn info_map(name: Seq<char>, message: Seq<char>) -> Seq<u8> {
    seq![0xA2u8] + text_item("message"@) + text_item(message) + text_item("name"@) + text_item(name)
}

fn begin_map(head: u8) -> (out: Vec<u8>)
    ensures
        out@ == seq![head],
{
    let mut out: Vec<u8> = Vec::new();
    out.push(head);
    assert(out@ =~= seq![head]);
    out
}

fn push_bytes_item(out: &mut Vec<u8>, data: &[u8])
    ensures
        final(out)@ == old(out)@ + bytes_item(data@),
{
    let ghost had = out@;
    if data.len() < 65536 {
        push_short_head(out, 2, data.len() as u64);
    } else {
        out.push(0x5A);
        let number = big_endian(data.len() as u64, 4);
        append_bytes(out, number.as_slice());
    }
    append_bytes(out, data);
    assert(out@ =~= had + bytes_item(data@));
}

/// Encodes a frame's header.
pub fn encode_header(op: i64, frame_type: &str) -> (out: Vec<u8>)
    ensures
        out@ == header_map(op, frame_type@),
{
    let mut out = begin_map(0xA2);
    push_text_item(&mut out, "op");
    let ghost had = out@;
    if op >= 0 {
        push_full_head(&mut out, 0, op as u64);
    } else {
        push_full_head(&mut out, 1, (-1 - op) as u64);
    }
    assert(out@ =~= had + int_item(op));
    push_text_item(&mut out, "t");
    push_text_item(&mut out, frame_type);
    out
}

/// The operations of a list.
pub open spec fn op_views(ops: Seq<(&str, &str, Option<&[u8]>)>) -> Seq<OpView> {
    Seq::new(
        ops.len(),
        |i: int|
            (
                ops[i].0@,
                ops[i].1@,
                match ops[i].2 {
                    Some(cid) => Some(cid@),
                    None => None,
                },
            ),
    )
}

fn push_ops(out: &mut Vec<u8>, ops: &[(&str, &str, Option<&[u8]>)])
    ensures
        final(out)@ == old(out)@ + op_items(op_views(ops@)),
{
    let ghost had = out@;
    let ghost all = op_views(ops@);
    let mut i: usize = 0;
    proof {
        assert(all.take(0) =~= Seq::<OpView>::empty());
        assert(had + Seq::<u8>::empty() =~= had);
    }
    while i < ops.len()
        invariant
            i <= ops@.len(),
            all == op_views(ops@),
            all.len() == ops@.len(),
            out@ == had + op_items(all.take(i as int)),
        decreases ops@.len() - i,
    {
        let ghost before = op_items(all.take(i as int));
        proof {
            assert(all.take(i + 1).drop_last() =~= all.take(i as int));
            assert(all.take(i + 1).last() == all[i as int]);
        }
        let mut one = begin_map(0xA3);
        push_text_item(&mut one, "action");
        push_text_item(&mut one, ops[i].0);
        push_text_item(&mut one, "cid");
        match ops[i].2 {
            Some(cid) => push_cid_item(&mut one, cid),
            None => push_null_item(&mut one),
        }
        push_text_item(&mut one, "path");
        push_text_item(&mut one, ops[i].1);
        assert(one@ == op_item(all[i as int]));
        append_bytes(out, one.as_slice());
        assert(had + before + one@ =~= had + (before + one@));
        i += 1;
    }
    assert(all.take(i as int) =~= all);
}

/// Encodes the body of a commit frame.
pub fn encode_commit_body(
    seq_no: u64,
    repo: &str,
    commit_cid: &[u8],
    rev: &str,
    since: Option<&str>,
    blocks_car: &[u8],
    ops: &[(&str, &str, Option<&[u8]>)],
) -> (out: Vec<u8>)
    ensures
        out@ == commit_map(
            seq_no,
            repo@,
            commit_cid@,
            rev@,
            match since {
                Some(s) => Some(s@),
                None => None,
            },
            blocks_car@,
            op_views(ops@),
        ),
{
    let mut out = begin_map(0xA7);
    push_text_item(&mut out, "blocks");
    push_bytes_item(&mut out, blocks_car);
    push_text_item(&mut out, "commit");
    if commit_cid.is_empty() {
        push_null_item(&mut out);
    } else {
        push_cid_item(&mut out, commit_cid);
    }
    push_text_item(&mut out, "ops");
    push_short_head(&mut out, 4, ops.len() as u64);
    push_ops(&mut out, ops);
    push_text_item(&mut out, "repo");
    push_text_item(&mut out, repo);
    push_text_item(&mut out, "rev");
    push_text_item(&mut out, rev);
    push_text_item(&mut out, "seq");
    push_full_head(&mut out, 0, seq_no);
    push_text_item(&mut out, "since");
    match since {
        Some(s) => push_text_item(&mut out, s),
        None => push_null_item(&mut out),
    }
    out
}

/// Encodes the body of a handle frame.
pub fn encode_handle_body(seq_no: u64, did: &str, handle: &str) -> (out: Vec<u8>)
    ensures
        out@ == handle_map(seq_no, did@, handle@),
{
    let mut out = begin_map(0xA3);
    push_text_item(&mut out, "did");
    push_text_item(&mut out, did);
    push_text_item(&mut out, "handle");
    push_text_item(&mut out, handle);
    push_text_item(&mut out, "seq");
    push_full_head(&mut out, 0, seq_no);
    out
}

/// Encodes the body of an identity frame.
pub fn encode_identity_body(seq_no: u64, did: &str) -> (out: Vec<u8>)
    ensures
        out@ == identity_map(seq_no, did@),
{
    let mut out = begin_map(0xA2);
    push_text_item(&mut out, "did");
    push_text_item(&mut out, did);
    push_text_item(&mut out, "seq");
    push_full_head(&mut out, 0, seq_no);
    out
}

/// Encodes the body of a tombstone frame, which has the shape of an identity
/// frame's.
pub fn encode_tombstone_body(seq_no: u64, did: &str) -> (out: Vec<u8>)
    ensures
        out@ == identity_map(seq_no, did@),
{
    encode_identity_body(seq_no, did)
}

/// Encodes the body of an info frame.
pub fn encode_info_body(name: &str, message: &str) -> (out: Vec<u8>)
    ensures
        out@ == info_map(name@, message@),
{
    let mut out = begin_map(0xA2);
    push_text_item(&mut out, "message");
    push_text_item(&mut out, message);
    push_text_item(&mut out, "name");
    push_text_item(&mut out, name);
    out
}

/// Joins a header and a body into a frame.
pub fn frame(header: Vec<u8>, body: Vec<u8>) -> (out: Vec<u8>)
    ensures
        out@ == header@ + body@,
{
    let mut out = header;
    append_bytes(&mut out, body.as_slice());
    out
}

// -- Laws ---------------------------------------------------------------------------

proof fn lemma_keys()
    ensures
        encode_utf8("action"@).len() < 65536,
        encode_utf8("cid"@).len() < 65536,
        encode_utf8("path"@).len() < 65536,
        encode_utf8("did"@).len() < 65536,
        encode_utf8("handle"@).len() < 65536,
        encode_utf8("seq"@).len() < 65536,
        encode_utf8("message"@).len() < 65536,
        encode_utf8("name"@).len() < 65536,
{
    reveal_strlit("action");
    reveal_strlit("cid");
    reveal_strlit("path");
    reveal_strlit("did");
    reveal_strlit("handle");
    reveal_strlit("seq");
    reveal_strlit("message");
    reveal_strlit("name");
    lemma_short("action"@);
    lemma_short("cid"@);
    lemma_short("path"@);
    lemma_short("did"@);
    lemma_short("handle"@);
    lemma_short("seq"@);
    lemma_short("message"@);
    lemma_short("name"@);
}

/// An operation of a commit frame is read back as it was meant: what was done, the
/// content identifier that the record has now, and its path, in that order.
pub proof fn law_op_read(op: OpView) -> (at: Seq<nat>)
    requires
        encode_utf8(op.0).len() < 65536,
        encode_utf8(op.1).len() < 65536,
        op.2 matches Some(cid) ==> cid.len() < 65535,
    ensures
        at.len() == 7,
        at[0] == 1 && at[6] == op_item(op).len(),
        reads_text(op_item(op), at[0], "action"@, at[1]),
        reads_text(op_item(op), at[1], op.0, at[2]),
        reads_text(op_item(op), at[2], "cid"@, at[3]),
        reads_cid(op_item(op), at[3], op.2, at[4]),
        reads_text(op_item(op), at[4], "path"@, at[5]),
        reads_text(op_item(op), at[5], op.1, at[6]),
{
    let items = seq![
        seq![0xA3u8],
        text_item("action"@),
        text_item(op.0),
        text_item("cid"@),
        optional_cid_item(op.2),
        text_item("path"@),
        text_item(op.1),
    ];
    lemma_keys();
    lemma_seven(items);
    assert(glued(items) == op_item(op));
    lemma_text_among(items, 1, "action"@);
    lemma_text_among(items, 2, op.0);
    lemma_text_among(items, 3, "cid"@);
    lemma_text_among(items, 5, "path"@);
    lemma_text_among(items, 6, op.1);
    lemma_cid_among(items, 4, op.2);
    lemma_glued_ends(items);
    seq![
        glued(items.take(1)).len(),
        glued(items.take(2)).len(),
        glued(items.take(3)).len(),
        glued(items.take(4)).len(),
        glued(items.take(5)).len(),
        glued(items.take(6)).len(),
        glued(items.take(7)).len(),
    ]
}

/// Seven items, one behind the other.
proof fn lemma_seven(items: Seq<Seq<u8>>)
    requires
        items.len() == 7,
    ensures
        glued(items) == items[0] + items[1] + items[2] + items[3] + items[4] + items[5] + items[6],
{
    reveal_with_fuel(glued, 8);
    let a = items.drop_last();
    let b = a.drop_last();
    let c = b.drop_last();
    let d = c.drop_last();
    let e = d.drop_last();
    let f = e.drop_last();
    let g = f.drop_last();
    assert(g =~= Seq::<Seq<u8>>::empty());
    assert(Seq::<u8>::empty() + items[0] =~= items[0]);
}

/// A handle frame says whose handle it is, and which.
pub proof fn law_handle_read(seq_no: u64, did: Seq<char>, handle: Seq<char>) -> (at: Seq<nat>)
    requires
        encode_utf8(did).len() < 65536,
        encode_utf8(handle).len() < 65536,
    ensures
        at.len() == 5,
        at[0] == 1,
        reads_text(handle_map(seq_no, did, handle), at[0], "did"@, at[1]),
        reads_text(handle_map(seq_no, did, handle), at[1], did, at[2]),
        reads_text(handle_map(seq_no, did, handle), at[2], "handle"@, at[3]),
        reads_text(handle_map(seq_no, did, handle), at[3], handle, at[4]),
{
    let items = seq![
        seq![0xA3u8],
        text_item("did"@),
        text_item(did),
        text_item("handle"@),
        text_item(handle),
        text_item("seq"@),
        full_head(0, seq_no as nat),
    ];
    lemma_keys();
    lemma_seven(items);
    assert(glued(items) == handle_map(seq_no, did, handle));
    lemma_text_among(items, 1, "did"@);
    lemma_text_among(items, 2, did);
    lemma_text_among(items, 3, "handle"@);
    lemma_text_among(items, 4, handle);
    lemma_glued_ends(items);
    seq![
        glued(items.take(1)).len(),
        glued(items.take(2)).len(),
        glued(items.take(3)).len(),
        glued(items.take(4)).len(),
        glued(items.take(5)).len(),
    ]
}

proof fn lemma_frame_keys()
    ensures
        encode_utf8("blocks"@).len() < 65536,
        encode_utf8("commit"@).len() < 65536,
        encode_utf8("ops"@).len() < 65536,
        encode_utf8("repo"@).len() < 65536,
        encode_utf8("rev"@).len() < 65536,
{
    reveal_strlit("blocks");
    reveal_strlit("commit");
    reveal_strlit("ops");
    reveal_strlit("repo");
    reveal_strlit("rev");
    lemma_short("blocks"@);
    lemma_short("commit"@);
    lemma_short("ops"@);
    lemma_short("repo"@);
    lemma_short("rev"@);
}

/// The items of a commit frame's body up to its revision, and what follows them.
#[verifier::spinoff_prover]
proof fn lemma_commit_items(
    seq_no: u64,
    repo: Seq<char>,
    commit_cid: Seq<u8>,
    rev: Seq<char>,
    since: Option<Seq<char>>,
    blocks: Seq<u8>,
    ops: Seq<OpView>,
) -> (items: Seq<Seq<u8>>)
    ensures
        items.len() == 16,
        glued(items) == commit_map(seq_no, repo, commit_cid, rev, since, blocks, ops),
        items[0] == seq![0xA7u8],
        items[1] == text_item("blocks"@),
        items[2] == bytes_item(blocks),
        items[3] == text_item("commit"@),
        items[4] == commit_cid_item(commit_cid),
        items[5] == text_item("ops"@),
        items[6] == short_head(4, ops.len()),
        items[7] == op_items(ops),
        items[8] == text_item("repo"@),
        items[9] == text_item(repo),
        items[10] == text_item("rev"@),
        items[11] == text_item(rev),
{
    let last = match since {
        Some(s) => text_item(s),
        None => null_item(),
    };
    let i0 = Seq::<Seq<u8>>::empty();
    let i1 = i0.push(seq![0xA7u8]);
    let i2 = i1.push(text_item("blocks"@));
    let i3 = i2.push(bytes_item(blocks));
    let i4 = i3.push(text_item("commit"@));
    let i5 = i4.push(commit_cid_item(commit_cid));
    let i6 = i5.push(text_item("ops"@));
    let i7 = i6.push(short_head(4, ops.len()));
    let i8 = i7.push(op_items(ops));
    let i9 = i8.push(text_item("repo"@));
    let i10 = i9.push(text_item(repo));
    let i11 = i10.push(text_item("rev"@));
    let i12 = i11.push(text_item(rev));
    let i13 = i12.push(text_item("seq"@));
    let i14 = i13.push(full_head(0, seq_no as nat));
    let i15 = i14.push(text_item("since"@));
    lemma_glued_more(i0, seq![0xA7u8]);
    assert(glued(i0) + seq![0xA7u8] =~= seq![0xA7u8]);
    lemma_glued_more(i1, text_item("blocks"@));
    lemma_glued_more(i2, bytes_item(blocks));
    lemma_glued_more(i3, text_item("commit"@));
    lemma_glued_more(i4, commit_cid_item(commit_cid));
    lemma_glued_more(i5, text_item("ops"@));
    lemma_glued_more(i6, short_head(4, ops.len()));
    lemma_glued_more(i7, op_items(ops));
    lemma_glued_more(i8, text_item("repo"@));
    lemma_glued_more(i9, text_item(repo));
    lemma_glued_more(i10, text_item("rev"@));
    lemma_glued_more(i11, text_item(rev));
    lemma_glued_more(i12, text_item("seq"@));
    lemma_glued_more(i13, full_head(0, seq_no as nat));
    lemma_glued_more(i14, text_item("since"@));
    lemma_glued_more(i15, last);
    i15.push(last)
}

/// A commit frame's body says which commit it is about, whose repository that is in,
/// and its revision.
pub proof fn law_commit_frame_read(
    seq_no: u64,
    repo: Seq<char>,
    commit_cid: Seq<u8>,
    rev: Seq<char>,
    since: Option<Seq<char>>,
    blocks: Seq<u8>,
    ops: Seq<OpView>,
) -> (at: Seq<nat>)
    requires
        encode_utf8(repo).len() < 65536,
        encode_utf8(rev).len() < 65536,
        commit_cid.len() < 65535,
    ensures
        at.len() == 7,
        ({
            let data = commit_map(seq_no, repo, commit_cid, rev, since, blocks, ops);
            &&& reads_text(data, at[0], "commit"@, at[1])
            &&& reads_cid(
                data,
                at[1],
                if commit_cid.len() == 0 {
                    None
                } else {
                    Some(commit_cid)
                },
                at[2],
            )
            &&& reads_text(data, at[3], "repo"@, at[4])
            &&& reads_text(data, at[4], repo, at[5])
            &&& reads_text(data, at[5], "rev"@, at[6])
        }),
        exists|end: nat|
            reads_text(
                commit_map(seq_no, repo, commit_cid, rev, since, blocks, ops),
                at[6],
                rev,
                end,
            ),
{
    let items = lemma_commit_items(seq_no, repo, commit_cid, rev, since, blocks, ops);
    let cid = if commit_cid.len() == 0 {
        None
    } else {
        Some(commit_cid)
    };
    assert(items[4] == optional_cid_item(cid));
    lemma_frame_keys();
    lemma_text_among(items, 3, "commit"@);
    lemma_cid_among(items, 4, cid);
    lemma_text_among(items, 8, "repo"@);
    lemma_text_among(items, 9, repo);
    lemma_text_among(items, 10, "rev"@);
    lemma_text_among(items, 11, rev);
    seq![
        glued(items.take(3)).len(),
        glued(items.take(4)).len(),
        glued(items.take(5)).len(),
        glued(items.take(8)).len(),
        glued(items.take(9)).len(),
        glued(items.take(10)).len(),
        glued(items.take(11)).len(),
    ]
}

/// An info frame's body carries a message and its name.
pub proof fn law_info_read(name: Seq<char>, message: Seq<char>) -> (at: Seq<nat>)
    requires
        encode_utf8(name).len() < 65536,
        encode_utf8(message).len() < 65536,
    ensures
        at.len() == 5,
        at[0] == 1 && at[4] == info_map(name, message).len(),
        reads_text(info_map(name, message), at[0], "message"@, at[1]),
        reads_text(info_map(name, message), at[1], message, at[2]),
        reads_text(info_map(name, message), at[2], "name"@, at[3]),
        reads_text(info_map(name, message), at[3], name, at[4]),
{
    let i0 = Seq::<Seq<u8>>::empty();
    let i1 = i0.push(seq![0xA2u8]);
    let i2 = i1.push(text_item("message"@));
    let i3 = i2.push(text_item(message));
    let i4 = i3.push(text_item("name"@));
    let items = i4.push(text_item(name));
    lemma_glued_more(i0, seq![0xA2u8]);
    assert(glued(i0) + seq![0xA2u8] =~= seq![0xA2u8]);
    lemma_glued_more(i1, text_item("message"@));
    lemma_glued_more(i2, text_item(message));
    lemma_glued_more(i3, text_item("name"@));
    lemma_glued_more(i4, text_item(name));
    lemma_keys();
    lemma_text_among(items, 1, "message"@);
    lemma_text_among(items, 2, message);
    lemma_text_among(items, 3, "name"@);
    lemma_text_among(items, 4, name);
    lemma_glued_ends(items);
    seq![
        glued(items.take(1)).len(),
        glued(items.take(2)).len(),
        glued(items.take(3)).len(),
        glued(items.take(4)).len(),
        glued(items.take(5)).len(),
    ]
}

} // verus!
