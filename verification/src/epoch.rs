//! Epoch roots: the chained record of a namespace's state.

use vstd::prelude::*;
use vstd::string::*;
use vstd::utf8::encode_utf8;

use crate::bytes::append_bytes;
use crate::canonical::{canonical_mutation, canonical_tag, mutation_fields, record_of, tag_fields};
use crate::kappa::{kappa_from_bytes, kappa_of};
use crate::merkle::{leaf_hash, leaf_row, merkle_root, root_above};
use crate::text::lemma_utf8_injective;
use crate::types::{be_bytes, big_endian, EpochMutation, TagEntry, TagView};

verus! {

/// The state of a namespace at one step of its history.
#[derive(Debug)]
pub struct EpochRoot {
    pub namespace: String,
    pub epoch_number: u64,
    pub prev_root_kappa: Option<String>,
    pub state_root: [u8; 32],
    pub mutations_root: [u8; 32],
    pub timestamp_ms: u64,
    pub signer_anchor: String,
}

/// What an epoch root holds.
pub struct EpochView {
    pub namespace: Seq<char>,
    pub epoch_number: u64,
    pub prev_root_kappa: Option<Seq<char>>,
    pub state_root: Seq<u8>,
    pub mutations_root: Seq<u8>,
    pub timestamp_ms: u64,
    pub signer_anchor: Seq<char>,
}

impl DeepView for EpochRoot {
    type V = EpochView;

    open spec fn deep_view(&self) -> EpochView {
        EpochView {
            namespace: self.namespace@,
            epoch_number: self.epoch_number,
            prev_root_kappa: match self.prev_root_kappa {
                Some(k) => Some(k@),
                None => None,
            },
            state_root: self.state_root@,
            mutations_root: self.mutations_root@,
            timestamp_ms: self.timestamp_ms,
            signer_anchor: self.signer_anchor@,
        }
    }
}

/// The root over a list of records; zeros where there is none.
pub open spec fn records_root(records: Seq<Seq<u8>>) -> Seq<u8> {
    if records.len() == 0 {
        Seq::new(32, |i: int| 0u8)
    } else {
        root_above(Seq::new(records.len(), |i: int| leaf_hash(records[i])))
    }
}

/// The root over the tags of a namespace.
pub open spec fn state_root_of(tags: Seq<TagView>) -> Seq<u8> {
    records_root(Seq::new(tags.len(), |i: int| record_of(tag_fields(tags[i]))))
}

/// The root over the changes that led to an epoch.
pub open spec fn mutations_root_of(mutations: Seq<EpochMutation>) -> Seq<u8> {
    records_root(Seq::new(mutations.len(), |i: int| record_of(mutation_fields(mutations[i]))))
}

/// A leaf behind its length, four bytes, most significant first.
pub open spec fn framed_leaf(leaf: Seq<u8>) -> Seq<u8> {
    be_bytes(leaf.len() as int, 4) + leaf
}

/// The bytes of an absent or present address.
pub open spec fn optional_bytes(kappa: Option<Seq<char>>) -> Seq<u8> {
    match kappa {
        Some(k) => encode_utf8(k),
        None => Seq::empty(),
    }
}

/// The blob of an epoch root: its seven fields, each behind its length.
pub open spec fn epoch_bytes(e: EpochView) -> Seq<u8> {
    framed_leaf(encode_utf8(e.namespace)) + framed_leaf(be_bytes(e.epoch_number as int, 8))
        + framed_leaf(optional_bytes(e.prev_root_kappa)) + framed_leaf(e.state_root) + framed_leaf(
        e.mutations_root,
    ) + framed_leaf(be_bytes(e.timestamp_ms as int, 8)) + framed_leaf(encode_utf8(e.signer_anchor))
}

/// The address of an epoch root.
pub open spec fn epoch_kappa(e: EpochView) -> Seq<char> {
    kappa_of(epoch_bytes(e))
}

fn root_of_records(records: &Vec<Vec<u8>>) -> (out: [u8; 32])
    ensures
        out@ == records_root(records.deep_view()),
{
    let ghost views = records.deep_view();
    let mut leaves: Vec<&[u8]> = Vec::new();
    let mut i: usize = 0;
    while i < records.len()
        invariant
            i <= records@.len(),
            leaves@.len() == i,
            forall|k: int| 0 <= k < i ==> (#[trigger] leaves@[k])@ == records@[k]@,
        decreases records@.len() - i,
    {
        leaves.push(records[i].as_slice());
        i += 1;
    }
    assert forall|k: int| 0 <= k < records@.len() implies #[trigger] views[k] == records@[k]@ by {
        assert(records@[k].deep_view() =~= records@[k]@);
    }
    match merkle_root(leaves.as_slice()) {
        Some(root) => {
            assert(leaf_row(leaves@) =~= Seq::new(views.len(), |k: int| leaf_hash(views[k])));
            root
        },
        None => {
            let zeros: [u8; 32] = [0u8; 32];
            assert(zeros@ =~= Seq::new(32, |k: int| 0u8));
            zeros
        },
    }
}

/// The root over the tags of a namespace, in the order given.
pub fn state_merkle_root(tags: &[TagEntry]) -> (out: [u8; 32])
    ensures
        out@ == state_root_of(tags.deep_view()),
{
    let mut records: Vec<Vec<u8>> = Vec::new();
    let mut i: usize = 0;
    while i < tags.len()
        invariant
            i <= tags@.len(),
            records@.len() == i,
            forall|k: int|
                0 <= k < i ==> (#[trigger] records@[k])@ == record_of(
                    tag_fields(tags@[k].deep_view()),
                ),
        decreases tags@.len() - i,
    {
        records.push(canonical_tag(&tags[i]));
        i += 1;
    }
    proof {
        let views = tags.deep_view();
        let want = Seq::new(views.len(), |k: int| record_of(tag_fields(views[k])));
        assert forall|k: int| 0 <= k < want.len() implies records.deep_view()[k] == want[k] by {
            assert(records@[k].deep_view() =~= records@[k]@);
        }
        assert(records.deep_view() =~= want);
    }
    root_of_records(&records)
}

/// The root over the changes that lead to an epoch.
pub fn mutations_merkle_root(mutations: &[EpochMutation]) -> (out: [u8; 32])
    ensures
        out@ == mutations_root_of(mutations@),
{
    let mut records: Vec<Vec<u8>> = Vec::new();
    let mut i: usize = 0;
    while i < mutations.len()
        invariant
            i <= mutations@.len(),
            records@.len() == i,
            forall|k: int|
                0 <= k < i ==> (#[trigger] records@[k])@ == record_of(
                    mutation_fields(mutations@[k]),
                ),
        decreases mutations@.len() - i,
    {
        records.push(canonical_mutation(&mutations[i]));
        i += 1;
    }
    proof {
        let want = Seq::new(mutations@.len(), |k: int| record_of(mutation_fields(mutations@[k])));
        assert forall|k: int| 0 <= k < want.len() implies records.deep_view()[k] == want[k] by {
            assert(records@[k].deep_view() =~= records@[k]@);
        }
        assert(records.deep_view() =~= want);
    }
    root_of_records(&records)
}

fn push_leaf(out: &mut Vec<u8>, leaf: &[u8])
    ensures
        final(out)@ == old(out)@ + framed_leaf(leaf@),
{
    let ghost before = out@;
    let size = big_endian(leaf.len() as u64, 4);
    append_bytes(out, size.as_slice());
    append_bytes(out, leaf);
    assert(out@ =~= before + framed_leaf(leaf@));
}

impl EpochRoot {
    /// A copy.
    pub fn copied(&self) -> (out: Self)
        ensures
            out.deep_view() == self.deep_view(),
    {
        let prev_root_kappa = match &self.prev_root_kappa {
            Some(k) => Some(k.clone()),
            None => None,
        };
        EpochRoot {
            namespace: self.namespace.clone(),
            epoch_number: self.epoch_number,
            prev_root_kappa,
            state_root: self.state_root,
            mutations_root: self.mutations_root,
            timestamp_ms: self.timestamp_ms,
            signer_anchor: self.signer_anchor.clone(),
        }
    }

    /// The blob of the epoch root.
    pub fn to_leaf_bytes(&self) -> (out: Vec<u8>)
        ensures
            out@ == epoch_bytes(self.deep_view()),
    {
        let mut out: Vec<u8> = Vec::new();
        push_leaf(&mut out, self.namespace.as_str().as_bytes());
        let number = big_endian(self.epoch_number, 8);
        push_leaf(&mut out, number.as_slice());
        match &self.prev_root_kappa {
            Some(k) => push_leaf(&mut out, k.as_str().as_bytes()),
            None => {
                let none: Vec<u8> = Vec::new();
                assert(none@ =~= Seq::<u8>::empty());
                push_leaf(&mut out, none.as_slice())
            },
        }
        push_leaf(&mut out, self.state_root.as_slice());
        push_leaf(&mut out, self.mutations_root.as_slice());
        let time = big_endian(self.timestamp_ms, 8);
        push_leaf(&mut out, time.as_slice());
        push_leaf(&mut out, self.signer_anchor.as_str().as_bytes());
        assert(out@ =~= epoch_bytes(self.deep_view()));
        out
    }

    /// The address of the epoch root.
    pub fn kappa(&self) -> (out: String)
        ensures
            out@ == epoch_kappa(self.deep_view()),
            crate::kappa::label_parts(out@) == Some(
                (crate::kappa::Axis::Sha256, crate::digest::sha256_of(epoch_bytes(self.deep_view()))),
            ),
    {
        kappa_from_bytes(self.to_leaf_bytes().as_slice())
    }
}

/// The root over nothing is zeros, and over one record the hash of it as a leaf.
pub proof fn law_small_roots(record: Seq<u8>)
    ensures
        records_root(Seq::<Seq<u8>>::empty()) == Seq::new(32, |i: int| 0u8),
        records_root(seq![record]) == crate::digest::sha256_of(seq![0u8] + record),
{
}

/// A framed leaf can be told from whatever follows it.
proof fn lemma_framed(x: Seq<u8>, r: Seq<u8>, y: Seq<u8>, s: Seq<u8>)
    requires
        framed_leaf(x) + r == framed_leaf(y) + s,
        x.len() < 0x1_0000_0000,
        y.len() < 0x1_0000_0000,
    ensures
        x == y,
        r == s,
{
    let a = framed_leaf(x) + r;
    let b = framed_leaf(y) + s;
    vstd::arithmetic::power::lemma_pow1(256);
    assert(vstd::arithmetic::power::pow(256, 4) == 0x1_0000_0000) by {
        reveal_with_fuel(vstd::arithmetic::power::pow, 5);
    }
    crate::nesting::law_big_endian_read(x.len(), 4);
    crate::nesting::law_big_endian_read(y.len(), 4);
    assert(a.take(4) =~= be_bytes(x.len() as int, 4));
    assert(b.take(4) =~= be_bytes(y.len() as int, 4));
    assert(x.len() == y.len());
    assert(a.subrange(4, 4 + x.len() as int) =~= x);
    assert(b.subrange(4, 4 + y.len() as int) =~= y);
    assert(a.skip(4 + x.len() as int) =~= r);
    assert(b.skip(4 + y.len() as int) =~= s);
}

/// Whether each field of an epoch can be framed, and an epoch before it has an
/// address.
pub open spec fn epoch_frameable(e: EpochView) -> bool {
    &&& encode_utf8(e.namespace).len() < 0x1_0000_0000
    &&& e.prev_root_kappa matches Some(k) ==> 0 < encode_utf8(k).len() < 0x1_0000_0000
    &&& e.state_root.len() < 0x1_0000_0000
    &&& e.mutations_root.len() < 0x1_0000_0000
    &&& encode_utf8(e.signer_anchor).len() < 0x1_0000_0000
}

proof fn lemma_eight(v: u64, w: u64)
    requires
        be_bytes(v as int, 8) == be_bytes(w as int, 8),
    ensures
        v == w,
{
    assert(vstd::arithmetic::power::pow(256, 8) == 0x1_0000_0000_0000_0000) by {
        reveal_with_fuel(vstd::arithmetic::power::pow, 9);
    }
    crate::nesting::law_big_endian_read(v as nat, 8);
    crate::nesting::law_big_endian_read(w as nat, 8);
}

proof fn lemma_regrouped(a: Seq<u8>, b: Seq<u8>, c: Seq<u8>)
    ensures
        (a + b) + c == a + (b + c),
{
    assert((a + b) + c =~= a + (b + c));
}

/// The bytes of an epoch, grouped from the back.
#[verifier::spinoff_prover]
proof fn lemma_grouped(e: EpochView)
    ensures
        epoch_bytes(e) == framed_leaf(encode_utf8(e.namespace)) + (framed_leaf(
            be_bytes(e.epoch_number as int, 8),
        ) + (framed_leaf(optional_bytes(e.prev_root_kappa)) + (framed_leaf(e.state_root) + (
        framed_leaf(e.mutations_root) + (framed_leaf(be_bytes(e.timestamp_ms as int, 8)) + (
        framed_leaf(encode_utf8(e.signer_anchor)) + Seq::<u8>::empty())))))),
{
    let x1 = framed_leaf(encode_utf8(e.namespace));
    let x2 = framed_leaf(be_bytes(e.epoch_number as int, 8));
    let x3 = framed_leaf(optional_bytes(e.prev_root_kappa));
    let x4 = framed_leaf(e.state_root);
    let x5 = framed_leaf(e.mutations_root);
    let x6 = framed_leaf(be_bytes(e.timestamp_ms as int, 8));
    let x7 = framed_leaf(encode_utf8(e.signer_anchor));
    let r7 = x7 + Seq::<u8>::empty();
    assert(r7 =~= x7);
    lemma_regrouped(x1 + x2 + x3 + x4 + x5, x6, r7);
    lemma_regrouped(x1 + x2 + x3 + x4, x5, x6 + r7);
    lemma_regrouped(x1 + x2 + x3, x4, x5 + (x6 + r7));
    lemma_regrouped(x1 + x2, x3, x4 + (x5 + (x6 + r7)));
    lemma_regrouped(x1, x2, x3 + (x4 + (x5 + (x6 + r7))));
}

/// The bytes of an epoch tell all that it holds: epochs with the same bytes are the
/// same.
pub proof fn law_epoch_bytes(a: EpochView, b: EpochView)
    requires
        epoch_bytes(a) == epoch_bytes(b),
        epoch_frameable(a),
        epoch_frameable(b),
    ensures
        a.namespace == b.namespace && a.epoch_number == b.epoch_number,
        a.prev_root_kappa == b.prev_root_kappa,
        a.state_root == b.state_root && a.mutations_root == b.mutations_root,
        a.timestamp_ms == b.timestamp_ms && a.signer_anchor == b.signer_anchor,
{
    let none = Seq::<u8>::empty();
    let a7 = framed_leaf(encode_utf8(a.signer_anchor)) + none;
    let a6 = framed_leaf(be_bytes(a.timestamp_ms as int, 8)) + a7;
    let a5 = framed_leaf(a.mutations_root) + a6;
    let a4 = framed_leaf(a.state_root) + a5;
    let a3 = framed_leaf(optional_bytes(a.prev_root_kappa)) + a4;
    let a2 = framed_leaf(be_bytes(a.epoch_number as int, 8)) + a3;
    let a1 = framed_leaf(encode_utf8(a.namespace)) + a2;
    let b7 = framed_leaf(encode_utf8(b.signer_anchor)) + none;
    let b6 = framed_leaf(be_bytes(b.timestamp_ms as int, 8)) + b7;
    let b5 = framed_leaf(b.mutations_root) + b6;
    let b4 = framed_leaf(b.state_root) + b5;
    let b3 = framed_leaf(optional_bytes(b.prev_root_kappa)) + b4;
    let b2 = framed_leaf(be_bytes(b.epoch_number as int, 8)) + b3;
    let b1 = framed_leaf(encode_utf8(b.namespace)) + b2;
    lemma_grouped(a);
    lemma_grouped(b);
    lemma_be_len(a.epoch_number as int, 8);
    lemma_be_len(b.epoch_number as int, 8);
    lemma_be_len(a.timestamp_ms as int, 8);
    lemma_be_len(b.timestamp_ms as int, 8);
    lemma_framed(encode_utf8(a.namespace), a2, encode_utf8(b.namespace), b2);
    lemma_framed(be_bytes(a.epoch_number as int, 8), a3, be_bytes(b.epoch_number as int, 8), b3);
    lemma_framed(optional_bytes(a.prev_root_kappa), a4, optional_bytes(b.prev_root_kappa), b4);
    lemma_framed(a.state_root, a5, b.state_root, b5);
    lemma_framed(a.mutations_root, a6, b.mutations_root, b6);
    lemma_framed(be_bytes(a.timestamp_ms as int, 8), a7, be_bytes(b.timestamp_ms as int, 8), b7);
    lemma_framed(encode_utf8(a.signer_anchor), none, encode_utf8(b.signer_anchor), none);
    lemma_eight(a.epoch_number, b.epoch_number);
    lemma_eight(a.timestamp_ms, b.timestamp_ms);
    lemma_utf8_injective(a.namespace, b.namespace);
    lemma_utf8_injective(a.signer_anchor, b.signer_anchor);
    if a.prev_root_kappa is Some && b.prev_root_kappa is Some {
        lemma_utf8_injective(a.prev_root_kappa->0, b.prev_root_kappa->0);
    }
}

proof fn lemma_be_len(v: int, n: nat)
    ensures
        be_bytes(v, n).len() == n,
    decreases n,
{
    if n > 0 {
        lemma_be_len(v / 256, (n - 1) as nat);
    }
}

} // verus!
