//! Repository commits: signed snapshots of a repository's tree.

use vstd::prelude::*;

use crate::atproto::cbor::{
    cid_item, full_head, optional_cid_item, push_cid_item, push_full_head, push_null_item,
    push_short_bytes_item, push_text_item, short_bytes_item, text_item,
};
use crate::atproto::cid::{cid_for_cbor, cid_of};
use crate::atproto::node::{
    glued, lemma_cid_among, lemma_glued_ends, lemma_glued_more, lemma_short, lemma_text_among,
    reads_cid, reads_text,
};

verus! {

/// A commit that has not been signed.
#[derive(Debug)]
pub struct UnsignedCommit {
    pub did: String,
    pub version: u32,
    /// Content identifier of the tree's root.
    pub data: Vec<u8>,
    pub rev: String,
    /// Content identifier of the commit before.
    pub prev: Option<Vec<u8>>,
}

/// A signed commit.
#[derive(Debug)]
pub struct Commit {
    pub did: String,
    pub version: u32,
    /// Content identifier of the tree's root.
    pub data: Vec<u8>,
    pub rev: String,
    /// Content identifier of the commit before.
    pub prev: Option<Vec<u8>>,
    pub sig: Vec<u8>,
}

/// What a commit says, apart from its signature.
pub struct CommitView {
    pub did: Seq<char>,
    pub version: u32,
    pub data: Seq<u8>,
    pub rev: Seq<char>,
    pub prev: Option<Seq<u8>>,
}

/// The bytes of an optional byte string.
pub open spec fn shown_bytes(v: Option<Vec<u8>>) -> Option<Seq<u8>> {
    match v {
        Some(b) => Some(b@),
        None => None,
    }
}

/// A commit as DAG-CBOR: a map with its keys in order, with or without a
/// signature.
pub open spec fn commit_cbor(c: CommitView, sig: Option<Seq<u8>>) -> Seq<u8> {
    let head = seq![if sig is Some { 0xA6u8 } else { 0xA5u8 }];
    let front = head + text_item("data"@) + cid_item(c.data) + text_item("did"@) + text_item(c.did)
        + text_item("prev"@) + optional_cid_item(c.prev) + text_item("rev"@) + text_item(c.rev);
    let signed = match sig {
        Some(s) => front + text_item("sig"@) + short_bytes_item(s),
        None => front,
    };
    signed + text_item("version"@) + full_head(0, c.version as nat)
}

fn encode_commit_cbor(
    did: &str,
    version: u32,
    data_cid: &[u8],
    rev: &str,
    prev_cid: &Option<Vec<u8>>,
    sig: Option<&[u8]>,
) -> (out: Vec<u8>)
    ensures
        out@ == commit_cbor(
            CommitView {
                did: did@,
                version,
                data: data_cid@,
                rev: rev@,
                prev: shown_bytes(*prev_cid),
            },
            match sig {
                Some(s) => Some(s@),
                None => None,
            },
        ),
{
    let mut out: Vec<u8> = Vec::new();
    out.push(
        match sig {
            Some(_) => 0xA6,
            None => 0xA5,
        },
    );
    assert(out@ =~= seq![if sig is Some { 0xA6u8 } else { 0xA5u8 }]);
    push_text_item(&mut out, "data");
    push_cid_item(&mut out, data_cid);
    push_text_item(&mut out, "did");
    push_text_item(&mut out, did);
    push_text_item(&mut out, "prev");
    match prev_cid {
        Some(cid) => push_cid_item(&mut out, cid.as_slice()),
        None => push_null_item(&mut out),
    }
    push_text_item(&mut out, "rev");
    push_text_item(&mut out, rev);
    if let Some(s) = sig {
        push_text_item(&mut out, "sig");
        push_short_bytes_item(&mut out, s);
    }
    push_text_item(&mut out, "version");
    push_full_head(&mut out, 0, version as u64);
    out
}

impl Commit {
    /// What the commit says.
    pub open spec fn content(&self) -> CommitView {
        CommitView {
            did: self.did@,
            version: self.version,
            data: self.data@,
            rev: self.rev@,
            prev: shown_bytes(self.prev),
        }
    }

    /// The commit as DAG-CBOR.
    pub fn to_cbor(&self) -> (out: Vec<u8>)
        ensures
            out@ == commit_cbor(self.content(), Some(self.sig@)),
    {
        encode_commit_cbor(
            self.did.as_str(),
            self.version,
            self.data.as_slice(),
            self.rev.as_str(),
            &self.prev,
            Some(self.sig.as_slice()),
        )
    }

    /// The commit without its signature, as DAG-CBOR: what the signature
    /// covers.
    pub fn unsigned_cbor(&self) -> (out: Vec<u8>)
        ensures
            out@ == commit_cbor(self.content(), None),
    {
        encode_commit_cbor(
            self.did.as_str(),
            self.version,
            self.data.as_slice(),
            self.rev.as_str(),
            &self.prev,
            None,
        )
    }

    /// The commit's content identifier.
    pub fn cid(&self) -> (out: [u8; 36])
        ensures
            out@ == cid_of(commit_cbor(self.content(), Some(self.sig@))),
    {
        cid_for_cbor(self.to_cbor().as_slice())
    }
}

impl UnsignedCommit {
    /// What the commit says.
    pub open spec fn content(&self) -> CommitView {
        CommitView {
            did: self.did@,
            version: self.version,
            data: self.data@,
            rev: self.rev@,
            prev: shown_bytes(self.prev),
        }
    }

    /// The commit as DAG-CBOR, for signing.
    pub fn to_cbor(&self) -> (out: Vec<u8>)
        ensures
            out@ == commit_cbor(self.content(), None),
    {
        encode_commit_cbor(
            self.did.as_str(),
            self.version,
            self.data.as_slice(),
            self.rev.as_str(),
            &self.prev,
            None,
        )
    }

    /// The unsigned commit's content identifier.
    pub fn cid(&self) -> (out: [u8; 36])
        ensures
            out@ == cid_of(commit_cbor(self.content(), None)),
    {
        cid_for_cbor(self.to_cbor().as_slice())
    }
}

/// A signature covers what was signed: a commit without its signature is
/// written as the unsigned commit that says the same.
pub proof fn law_signature_covers(signed: Commit, unsigned: UnsignedCommit)
    requires
        signed.content() == unsigned.content(),
    ensures
        commit_cbor(signed.content(), None) == commit_cbor(unsigned.content(), None),
        commit_cbor(signed.content(), Some(signed.sig@)) != commit_cbor(unsigned.content(), None),
{
    let c = signed.content();
    let a = commit_cbor(c, Some(signed.sig@));
    let b = commit_cbor(c, None);
    assert(a[0] == 0xA6);
    assert(b[0] == 0xA5);
}

/// An unsigned commit is read back as it was meant: the root of its tree, whose it
/// is, the commit before it, and its revision, in that order.
pub proof fn law_commit_read(c: CommitView) -> (at: Seq<nat>)
    requires
        vstd::utf8::encode_utf8(c.did).len() < 65536,
        vstd::utf8::encode_utf8(c.rev).len() < 65536,
        c.data.len() < 65535,
        c.prev matches Some(p) ==> p.len() < 65535,
    ensures
        at.len() == 9,
        at[0] == 1,
        ({
            let data = commit_cbor(c, None);
            &&& reads_text(data, at[0], "data"@, at[1])
            &&& reads_cid(data, at[1], Some(c.data), at[2])
            &&& reads_text(data, at[2], "did"@, at[3])
            &&& reads_text(data, at[3], c.did, at[4])
            &&& reads_text(data, at[4], "prev"@, at[5])
            &&& reads_cid(data, at[5], c.prev, at[6])
            &&& reads_text(data, at[6], "rev"@, at[7])
            &&& reads_text(data, at[7], c.rev, at[8])
        }),
{
    reveal_strlit("data");
    reveal_strlit("did");
    reveal_strlit("prev");
    reveal_strlit("rev");
    lemma_short("data"@);
    lemma_short("did"@);
    lemma_short("prev"@);
    lemma_short("rev"@);
    let items = lemma_commit_items(c);
    assert(items[2] == optional_cid_item(Some(c.data)));
    lemma_text_among(items, 1, "data"@);
    lemma_cid_among(items, 2, Some(c.data));
    lemma_text_among(items, 3, "did"@);
    lemma_text_among(items, 4, c.did);
    lemma_text_among(items, 5, "prev"@);
    lemma_cid_among(items, 6, c.prev);
    lemma_text_among(items, 7, "rev"@);
    lemma_text_among(items, 8, c.rev);
    lemma_glued_ends(items);
    seq![
        glued(items.take(1)).len(),
        glued(items.take(2)).len(),
        glued(items.take(3)).len(),
        glued(items.take(4)).len(),
        glued(items.take(5)).len(),
        glued(items.take(6)).len(),
        glued(items.take(7)).len(),
        glued(items.take(8)).len(),
        glued(items.take(9)).len(),
    ]
}

/// The items of an unsigned commit.
proof fn lemma_commit_items(c: CommitView) -> (items: Seq<Seq<u8>>)
    ensures
        items.len() == 11,
        glued(items) == commit_cbor(c, None),
        items[0] == seq![0xA5u8],
        items[1] == text_item("data"@),
        items[2] == cid_item(c.data),
        items[3] == text_item("did"@),
        items[4] == text_item(c.did),
        items[5] == text_item("prev"@),
        items[6] == optional_cid_item(c.prev),
        items[7] == text_item("rev"@),
        items[8] == text_item(c.rev),
{
    let i0 = Seq::<Seq<u8>>::empty();
    let head = seq![0xA5u8];
    let i1 = i0.push(head);
    let i2 = i1.push(text_item("data"@));
    let i3 = i2.push(cid_item(c.data));
    let i4 = i3.push(text_item("did"@));
    let i5 = i4.push(text_item(c.did));
    let i6 = i5.push(text_item("prev"@));
    let i7 = i6.push(optional_cid_item(c.prev));
    let i8 = i7.push(text_item("rev"@));
    let i9 = i8.push(text_item(c.rev));
    let i10 = i9.push(text_item("version"@));
    let i11 = i10.push(full_head(0, c.version as nat));
    lemma_glued_more(i0, head);
    assert(glued(i0) + head =~= head);
    lemma_glued_more(i1, text_item("data"@));
    lemma_glued_more(i2, cid_item(c.data));
    lemma_glued_more(i3, text_item("did"@));
    lemma_glued_more(i4, text_item(c.did));
    lemma_glued_more(i5, text_item("prev"@));
    lemma_glued_more(i6, optional_cid_item(c.prev));
    lemma_glued_more(i7, text_item("rev"@));
    lemma_glued_more(i8, text_item(c.rev));
    lemma_glued_more(i9, text_item("version"@));
    lemma_glued_more(i10, full_head(0, c.version as nat));
    i11
}

} // verus!
