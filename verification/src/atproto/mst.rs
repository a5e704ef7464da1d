//! Merkle search trees: the same keys and values give the same tree, in
//! whatever order they were put in.

use vstd::prelude::*;
use vstd::string::*;
use vstd::utf8::encode_utf8;

use crate::atproto::cid::{cid_for_cbor, cid_of};
use crate::atproto::node::{encode_node, node_bytes, shown_cid, MstEntry, MstError, NodeEntry};
use crate::bytes::{copy_bytes, copy_range, same_bytes};
use crate::digest::{sha256, sha256_of};
use crate::sorted::ascending;
use crate::table::{lemma_deep_bytes, Table, TableKey};
use crate::text::{
    chars_of, less_text, same_text, split_once, split_once_spec, text_below,
};

verus! {

broadcast use lemma_deep_bytes;

// -- Blocks -----------------------------------------------------------------------------

/// A store of blocks by their content identifiers.
pub trait BlockStore: Sized {
    /// The blocks that are stored.
    spec fn blocks(&self) -> Map<Seq<u8>, Seq<u8>>;

    /// Whether the store is in order.
    spec fn wf(&self) -> bool;

    /// The block with a content identifier.
    fn get(&self, cid: &[u8]) -> (out: Option<Vec<u8>>)
        requires
            self.wf(),
        ensures
            match out {
                Some(data) => self.blocks().dom().contains(cid@) && data@ == self.blocks()[cid@],
                None => !self.blocks().dom().contains(cid@),
            },
    ;

    /// Stores a block; its content identifier.
    fn put(&mut self, data: &[u8]) -> (cid: [u8; 36])
        requires
            old(self).wf(),
        ensures
            final(self).wf(),
            cid@ == cid_of(data@),
            final(self).blocks() == old(self).blocks().insert(cid_of(data@), data@),
    ;
}

/// A store of blocks in memory.
pub struct MemoryBlockStore {
    pub table: Table<[u8; 36], Vec<u8>>,
}

impl MemoryBlockStore {
    /// An empty store.
    pub fn new() -> (out: Self)
        ensures
            out.wf(),
            out.blocks() == Map::<Seq<u8>, Seq<u8>>::empty(),
    {
        MemoryBlockStore { table: Table::new() }
    }
}

impl Default for MemoryBlockStore {
    fn default() -> (out: Self)
        ensures
            out.wf(),
            out.blocks() == Map::<Seq<u8>, Seq<u8>>::empty(),
    {
        Self::new()
    }
}

fn cid_key(cid: &[u8]) -> (out: [u8; 36])
    requires
        cid@.len() == 36,
    ensures
        out@ == cid@,
{
    let mut out = [0u8; 36];
    let mut i: usize = 0;
    while i < 36
        invariant
            i <= 36,
            out@.len() == 36,
            cid@.len() == 36,
            forall|k: int| 0 <= k < i ==> out@[k] == cid@[k],
        decreases 36 - i,
    {
        out[i] = cid[i];
        i += 1;
    }
    assert(out@ =~= cid@);
    out
}

impl BlockStore for MemoryBlockStore {
    open spec fn blocks(&self) -> Map<Seq<u8>, Seq<u8>> {
        self.table@
    }

    open spec fn wf(&self) -> bool {
        self.table.wf()
    }

    fn get(&self, cid: &[u8]) -> (out: Option<Vec<u8>>) {
        if cid.len() != 36 {
            proof {
                if self.table.has(cid@) {
                    let i = self.table.row_of(cid@);
                    assert(self.table.rows@[i].0.key().len() == 36);
                }
            }
            return None;
        }
        match self.table.get(&cid_key(cid)) {
            Some(data) => Some(copy_bytes(data.as_slice())),
            None => None,
        }
    }

    fn put(&mut self, data: &[u8]) -> (cid: [u8; 36]) {
        let cid = cid_for_cbor(data);
        self.table.insert(cid, copy_bytes(data));
        cid
    }
}

// -- Keys ---------------------------------------------------------------------------------

/// Most bytes of a key.
pub const MAX_KEY_LEN: usize = 1024;

/// Whether a character may stand in a key.
pub open spec fn is_key_char(c: char) -> bool {
    'a' <= c <= 'z' || 'A' <= c <= 'Z' || '0' <= c <= '9' || c == '_' || c == '~' || c == '-' || c
        == ':' || c == '.'
}

/// Whether all characters of a text may stand in a key, and it has any.
pub open spec fn is_key_part(s: Seq<char>) -> bool {
    s.len() > 0 && forall|i: int| 0 <= i < s.len() ==> is_key_char(#[trigger] s[i])
}

/// Whether a text is a key: two parts with a slash between them, of no more
/// than 1024 bytes.
pub open spec fn is_key(s: Seq<char>) -> bool {
    &&& encode_utf8(s).len() <= MAX_KEY_LEN
    &&& split_once_spec(s, '/') matches Some((a, b)) && is_key_part(a) && is_key_part(b)
}

fn is_valid_mst_char(c: char) -> (yes: bool)
    ensures
        yes == is_key_char(c),
{
    ('a' <= c && c <= 'z') || ('A' <= c && c <= 'Z') || ('0' <= c && c <= '9') || c == '_' || c
        == '~' || c == '-' || c == ':' || c == '.'
}

fn is_valid_part(s: &str) -> (yes: bool)
    ensures
        yes == is_key_part(s@),
{
    let chars = chars_of(s);
    if chars.len() == 0 {
        return false;
    }
    let mut i: usize = 0;
    while i < chars.len()
        invariant
            chars@ == s@,
            i <= chars@.len(),
            forall|k: int| 0 <= k < i ==> is_key_char(#[trigger] s@[k]),
        decreases chars@.len() - i,
    {
        if !is_valid_mst_char(chars[i]) {
            assert(!is_key_char(s@[i as int]));
            return false;
        }
        i += 1;
    }
    true
}

/// Whether a text is a key.
pub fn is_valid_mst_key(key: &str) -> (yes: bool)
    ensures
        yes == is_key(key@),
{
    if key.as_bytes().len() > MAX_KEY_LEN {
        return false;
    }
    match split_once(key, '/') {
        Some((a, b)) => is_valid_part(a.as_str()) && is_valid_part(b.as_str()),
        None => false,
    }
}

/// Pairs of zero bits that bytes begin with.
pub open spec fn zero_pairs(data: Seq<u8>) -> nat
    decreases data.len(),
{
    if data.len() == 0 || data[0] >= 64 {
        0
    } else if data[0] >= 16 {
        1
    } else if data[0] >= 4 {
        2
    } else if data[0] > 0 {
        3
    } else {
        4 + zero_pairs(data.drop_first())
    }
}

/// The layer of a key in a tree: the pairs of zero bits that its SHA-256 digest
/// begins with.
pub open spec fn key_layer(key: Seq<char>) -> nat {
    zero_pairs(sha256_of(encode_utf8(key)))
}

/// The layer of a key.
pub fn leading_zeros(key: &str) -> (zeros: usize)
    ensures
        zeros == key_layer(key@),
        zeros <= 128,
{
    let hash = sha256(key.as_bytes());
    let ghost all = hash@;
    let mut zeros: usize = 0;
    let mut i: usize = 0;
    assert(all.skip(0) =~= all);
    while i < 32
        invariant
            i <= 32,
            zeros == 4 * i,
            all == hash@,
            all == sha256_of(encode_utf8(key@)),
            hash@.len() == 32,
            zero_pairs(all) == zeros + zero_pairs(all.skip(i as int)),
        decreases 32 - i,
    {
        let byte: u8 = hash[i];
        assert(all.skip(i as int)[0] == byte);
        assert(all.skip(i as int).drop_first() =~= all.skip(i + 1));
        if byte >= 64 {
            return zeros;
        }
        if byte >= 16 {
            return zeros + 1;
        }
        if byte >= 4 {
            return zeros + 2;
        }
        if byte > 0 {
            return zeros + 3;
        }
        zeros += 4;
        i += 1;
    }
    assert(all.skip(i as int).len() == 0);
    zeros
}

// -- The tree -------------------------------------------------------------------------------

/// A key and its value.
#[derive(Debug)]
pub struct MstRow {
    pub key: String,
    pub value: [u8; 36],
}

/// A key and its value.
pub type Pair = (Seq<char>, Seq<u8>);

impl DeepView for MstRow {
    type V = Pair;

    open spec fn deep_view(&self) -> Pair {
        (self.key@, self.value@)
    }
}

/// The keys of pairs.
pub open spec fn pair_keys(pairs: Seq<Pair>) -> Seq<Seq<char>> {
    Seq::new(pairs.len(), |i: int| pairs[i].0)
}

/// A tree, as its keys and values in order.
#[derive(Debug)]
pub struct Mst {
    rows: Vec<MstRow>,
}

/// Where a key stands among pairs.
pub open spec fn holds_at(pairs: Seq<Pair>, key: Seq<char>, i: int) -> bool {
    0 <= i < pairs.len() && pairs[i].0 == key
}

/// Whether pairs hold a key.
pub open spec fn holds(pairs: Seq<Pair>, key: Seq<char>) -> bool {
    exists|i: int| holds_at(pairs, key, i)
}

/// The value of a key that pairs hold.
pub open spec fn value_in(pairs: Seq<Pair>, key: Seq<char>) -> Seq<u8> {
    pairs[choose|i: int| holds_at(pairs, key, i)].1
}

impl Mst {
    /// The keys and values, in order.
    pub closed spec fn pairs(&self) -> Seq<Pair> {
        self.rows.deep_view()
    }

    /// What the tree holds.
    pub open spec fn view(&self) -> Map<Seq<char>, Seq<u8>> {
        Map::new(
            |key: Seq<char>| holds(self.pairs(), key),
            |key: Seq<char>| value_in(self.pairs(), key),
        )
    }

    /// The keys are keys, each comes before the next, and the values are
    /// content identifiers of thirty-six bytes.
    pub open spec fn wf(&self) -> bool {
        in_order(self.pairs())
    }

    /// An empty tree.
    pub fn new() -> (out: Self)
        ensures
            out.wf(),
            out.pairs().len() == 0,
            out@ == Map::<Seq<char>, Seq<u8>>::empty(),
    {
        let out = Mst { rows: Vec::new() };
        assert(out@ =~= Map::<Seq<char>, Seq<u8>>::empty());
        out
    }

    /// Where a key is, or belongs: before the first that is not below it.
    fn position(&self, key: &str) -> (out: (usize, bool))
        requires
            self.wf(),
        ensures
            out.0 <= self.pairs().len(),
            self.pairs().len() == self.rows@.len(),
            forall|i: int| 0 <= i < out.0 ==> text_below(#[trigger] self.pairs()[i].0, key@),
            forall|i: int|
                out.0 <= i < self.pairs().len() ==> !text_below(#[trigger] self.pairs()[i].0, key@),
            out.1 == holds(self.pairs(), key@),
            out.1 == holds_at(self.pairs(), key@, out.0 as int),
    {
        let ghost all = self.pairs();
        let mut i: usize = 0;
        while i < self.rows.len()
            invariant
                self.wf(),
                all == self.pairs(),
                all.len() == self.rows@.len(),
                i <= self.rows@.len(),
                forall|k: int| 0 <= k < i ==> text_below(#[trigger] all[k].0, key@),
            decreases self.rows@.len() - i,
        {
            assert(all[i as int].0 == self.rows@[i as int].key@);
            if !less_text(self.rows[i].key.as_str(), key) {
                let here = same_text(self.rows[i].key.as_str(), key);
                proof {
                    lemma_position(all, key@, i as int);
                }
                return (i, here);
            }
            i += 1;
        }
        proof {
            lemma_position(all, key@, i as int);
        }
        (i, false)
    }

    /// Puts in a key that is not there.
    pub fn insert(&mut self, key: &str, value: [u8; 36]) -> (out: Result<(), MstError>)
        requires
            old(self).wf(),
        ensures
            final(self).wf(),
            match out {
                Ok(_) => is_key(key@) && !old(self)@.dom().contains(key@) && final(self)@ == old(
                    self)@.insert(key@, value@),
                Err(MstError::InvalidKey(k)) => !is_key(key@) && k@ == key@ && final(self)@ == old(
                    self)@,
                Err(MstError::KeyExists(k)) => is_key(key@) && old(self)@.dom().contains(key@) && k@
                    == key@ && final(self)@ == old(self)@,
                Err(_) => false,
            },
    {
        if !is_valid_mst_key(key) {
            return Err(MstError::InvalidKey(key.to_owned()));
        }
        let (at, here) = self.position(key);
        if here {
            return Err(MstError::KeyExists(key.to_owned()));
        }
        let ghost before = self.pairs();
        let ghost map = self@;
        self.rows.insert(at, MstRow { key: key.to_owned(), value });
        proof {
            assert(self.pairs() =~= before.insert(at as int, (key@, value@)));
            lemma_inserted(before, at as int, key@, value@);
            assert(self@ =~= map.insert(key@, value@)) by {
                lemma_inserted_map(before, at as int, key@, value@);
                lemma_view(*self);
            }
        }
        Ok(())
    }

    /// Changes the value of a key that is there.
    pub fn update(&mut self, key: &str, value: [u8; 36]) -> (out: Result<(), MstError>)
        requires
            old(self).wf(),
        ensures
            final(self).wf(),
            match out {
                Ok(_) => old(self)@.dom().contains(key@) && final(self)@ == old(self)@.insert(
                    key@,
                    value@,
                ),
                Err(MstError::KeyNotFound(k)) => !old(self)@.dom().contains(key@) && k@ == key@
                    && final(self)@ == old(self)@,
                Err(_) => false,
            },
    {
        let (at, here) = self.position(key);
        if !here {
            return Err(MstError::KeyNotFound(key.to_owned()));
        }
        let ghost before = self.pairs();
        let ghost map = self@;
        self.rows.remove(at);
        assert(self.pairs() =~= before.remove(at as int));
        self.rows.insert(at, MstRow { key: key.to_owned(), value });
        proof {
            assert(self.pairs() =~= before.update(at as int, (key@, value@)));
            lemma_updated(before, at as int, key@, value@);
            assert(self@ =~= map.insert(key@, value@));
        }
        Ok(())
    }

    /// Takes out a key that is there; its value.
    pub fn delete(&mut self, key: &str) -> (out: Result<[u8; 36], MstError>)
        requires
            old(self).wf(),
        ensures
            final(self).wf(),
            match out {
                Ok(value) => old(self)@.dom().contains(key@) && value@ == old(self)@[key@] && final(
                    self)@ == old(self)@.remove(key@),
                Err(MstError::KeyNotFound(k)) => !old(self)@.dom().contains(key@) && k@ == key@
                    && final(self)@ == old(self)@,
                Err(_) => false,
            },
    {
        let (at, here) = self.position(key);
        if !here {
            return Err(MstError::KeyNotFound(key.to_owned()));
        }
        let ghost before = self.pairs();
        let ghost map = self@;
        let row = self.rows.remove(at);
        proof {
            assert(self.pairs() =~= before.remove(at as int));
            lemma_removed(before, at as int);
            lemma_value(before, at as int);
            assert(row.deep_view() == before[at as int]);
            assert(self@ =~= map.remove(key@));
        }
        Ok(row.value)
    }

    /// The value of a key.
    pub fn get(&self, key: &str) -> (out: Option<&[u8; 36]>)
        requires
            self.wf(),
        ensures
            match out {
                Some(value) => self@.dom().contains(key@) && value@ == self@[key@],
                None => !self@.dom().contains(key@),
            },
    {
        let (at, here) = self.position(key);
        if here {
            proof {
                lemma_value(self.pairs(), at as int);
                assert(self.pairs()[at as int] == self.rows@[at as int].deep_view());
            }
            Some(&self.rows[at].value)
        } else {
            None
        }
    }

    /// Number of keys.
    pub fn len(&self) -> (n: usize)
        ensures
            n == self.pairs().len(),
    {
        self.rows.len()
    }

    /// Whether there are no keys.
    pub fn is_empty(&self) -> (yes: bool)
        ensures
            yes == (self.pairs().len() == 0),
    {
        self.rows.len() == 0
    }

    /// The keys and values, in order.
    pub fn iter(&self) -> (out: Vec<(String, [u8; 36])>)
        ensures
            out@.len() == self.pairs().len(),
            forall|i: int|
                0 <= i < out@.len() ==> ((#[trigger] out@[i]).0@, out@[i].1@) == self.pairs()[i],
    {
        let mut out: Vec<(String, [u8; 36])> = Vec::new();
        let mut i: usize = 0;
        while i < self.rows.len()
            invariant
                i <= self.rows@.len(),
                out@.len() == i,
                forall|k: int|
                    0 <= k < i ==> ((#[trigger] out@[k]).0@, out@[k].1@) == self.pairs()[k],
            decreases self.rows@.len() - i,
        {
            assert(self.pairs()[i as int] == self.rows@[i as int].deep_view());
            out.push((self.rows[i].key.clone(), self.rows[i].value));
            i += 1;
        }
        out
    }
}

impl Default for Mst {
    fn default() -> (out: Self)
        ensures
            out.wf(),
            out@ == Map::<Seq<char>, Seq<u8>>::empty(),
    {
        Self::new()
    }
}

/// Whether pairs are keys and content identifiers, each key before the next.
pub open spec fn in_order(pairs: Seq<Pair>) -> bool {
    &&& ascending(pair_keys(pairs))
    &&& forall|i: int|
        0 <= i < pairs.len() ==> is_key((#[trigger] pairs[i]).0) && pairs[i].1.len() == 36
}

/// What pairs map keys to.
pub open spec fn pair_map(pairs: Seq<Pair>) -> Map<Seq<char>, Seq<u8>> {
    Map::new(|key: Seq<char>| holds(pairs, key), |key: Seq<char>| value_in(pairs, key))
}

proof fn lemma_view(m: Mst)
    ensures
        m@ == pair_map(m.pairs()),
{
    assert(m@ =~= pair_map(m.pairs()));
}

proof fn lemma_distinct(pairs: Seq<Pair>, i: int, j: int)
    requires
        in_order(pairs),
        0 <= i < pairs.len(),
        0 <= j < pairs.len(),
        pairs[i].0 == pairs[j].0,
    ensures
        i == j,
{
    let keys = pair_keys(pairs);
    crate::text::lemma_text_below_irreflexive(pairs[i].0);
    if i < j {
        assert(text_below(keys[i], keys[j]));
    } else if j < i {
        assert(text_below(keys[j], keys[i]));
    }
}

proof fn lemma_value(pairs: Seq<Pair>, i: int)
    requires
        in_order(pairs),
        0 <= i < pairs.len(),
    ensures
        holds(pairs, pairs[i].0),
        value_in(pairs, pairs[i].0) == pairs[i].1,
{
    let key = pairs[i].0;
    assert(holds_at(pairs, key, i));
    let j = choose|j: int| holds_at(pairs, key, j);
    lemma_distinct(pairs, i, j);
}

proof fn lemma_position(pairs: Seq<Pair>, key: Seq<char>, at: int)
    requires
        in_order(pairs),
        0 <= at <= pairs.len(),
        forall|i: int| 0 <= i < at ==> text_below(#[trigger] pairs[i].0, key),
        at < pairs.len() ==> !text_below(pairs[at].0, key),
    ensures
        forall|i: int| at <= i < pairs.len() ==> !text_below(#[trigger] pairs[i].0, key),
        holds(pairs, key) == holds_at(pairs, key, at),
{
    let keys = pair_keys(pairs);
    assert forall|i: int| at <= i < pairs.len() implies !text_below(#[trigger] pairs[i].0, key) by {
        if at < i && text_below(pairs[i].0, key) {
            assert(text_below(keys[at], keys[i]));
            crate::text::lemma_text_below_transitive(keys[at], keys[i], key);
        }
    }
    if holds(pairs, key) {
        let j = choose|j: int| holds_at(pairs, key, j);
        crate::text::lemma_text_below_irreflexive(key);
        if j < at {
            assert(text_below(pairs[j].0, key));
        } else if j > at {
            assert(text_below(keys[at], keys[j]));
        }
    }
}

proof fn lemma_inserted(pairs: Seq<Pair>, at: int, key: Seq<char>, value: Seq<u8>)
    requires
        in_order(pairs),
        is_key(key),
        value.len() == 36,
        0 <= at <= pairs.len(),
        forall|i: int| 0 <= i < at ==> text_below(#[trigger] pairs[i].0, key),
        forall|i: int| at <= i < pairs.len() ==> !text_below(#[trigger] pairs[i].0, key),
        !holds(pairs, key),
    ensures
        in_order(pairs.insert(at, (key, value))),
{
    let new = pairs.insert(at, (key, value));
    let keys = pair_keys(pairs);
    let new_keys = pair_keys(new);
    assert forall|i: int| at <= i < pairs.len() implies text_below(key, #[trigger] pairs[i].0) by {
        crate::text::lemma_text_below_total(key, pairs[i].0);
        if pairs[i].0 == key {
            assert(holds_at(pairs, key, i));
        }
    }
    assert forall|i: int, j: int| 0 <= i < j < new_keys.len() implies text_below(
        #[trigger] new_keys[i],
        #[trigger] new_keys[j],
    ) by {
        let a = if i < at {
            i
        } else {
            i - 1
        };
        let b = if j < at {
            j
        } else {
            j - 1
        };
        if i == at {
            assert(new_keys[j] == pairs[b].0);
        } else if j == at {
            assert(new_keys[i] == pairs[a].0);
        } else {
            assert(new_keys[i] == keys[a]);
            assert(new_keys[j] == keys[b]);
        }
    }
    assert forall|i: int| 0 <= i < new.len() implies is_key((#[trigger] new[i]).0)
        && new[i].1.len() == 36 by {
        if i < at {
            assert(new[i] == pairs[i]);
        } else if i > at {
            assert(new[i] == pairs[i - 1]);
        }
    }
}

proof fn lemma_inserted_map(pairs: Seq<Pair>, at: int, key: Seq<char>, value: Seq<u8>)
    requires
        in_order(pairs),
        in_order(pairs.insert(at, (key, value))),
        0 <= at <= pairs.len(),
    ensures
        pair_map(pairs.insert(at, (key, value))) == pair_map(pairs).insert(key, value),
{
    let new = pairs.insert(at, (key, value));
    assert forall|k: Seq<char>| #[trigger] holds(new, k) == (holds(pairs, k) || k == key) by {
        if holds(new, k) {
            let j = choose|j: int| holds_at(new, k, j);
            if j < at {
                assert(holds_at(pairs, k, j));
            } else if j > at {
                assert(holds_at(pairs, k, j - 1));
            }
        }
        if holds(pairs, k) {
            let j = choose|j: int| holds_at(pairs, k, j);
            if j < at {
                assert(holds_at(new, k, j));
            } else {
                assert(holds_at(new, k, j + 1));
            }
        }
        if k == key {
            assert(holds_at(new, k, at));
        }
    }
    assert forall|k: Seq<char>| holds(new, k) implies value_in(new, k) == pair_map(pairs).insert(
        key,
        value,
    )[k] by {
        let j = choose|j: int| holds_at(new, k, j);
        lemma_value(new, j);
        lemma_value(new, at);
        if k != key {
            let i = if j < at {
                j
            } else {
                j - 1
            };
            assert(holds_at(pairs, k, i));
            lemma_value(pairs, i);
        } else {
            lemma_distinct(new, j, at);
        }
    }
    assert(pair_map(new) =~= pair_map(pairs).insert(key, value));
}

proof fn lemma_updated(pairs: Seq<Pair>, at: int, key: Seq<char>, value: Seq<u8>)
    requires
        in_order(pairs),
        holds_at(pairs, key, at),
        value.len() == 36,
    ensures
        in_order(pairs.update(at, (key, value))),
        pair_map(pairs.update(at, (key, value))) == pair_map(pairs).insert(key, value),
{
    let new = pairs.update(at, (key, value));
    assert(pair_keys(new) =~= pair_keys(pairs));
    assert forall|i: int| 0 <= i < new.len() implies is_key((#[trigger] new[i]).0)
        && new[i].1.len() == 36 by {
        assert(is_key(pairs[i].0));
    }
    assert forall|k: Seq<char>| #[trigger] holds(new, k) == (holds(pairs, k) || k == key) by {
        if holds(new, k) {
            let j = choose|j: int| holds_at(new, k, j);
            assert(holds_at(pairs, k, j));
        }
        if holds(pairs, k) {
            let j = choose|j: int| holds_at(pairs, k, j);
            assert(holds_at(new, k, j));
        }
        if k == key {
            assert(holds_at(new, k, at));
        }
    }
    assert forall|k: Seq<char>| holds(new, k) implies value_in(new, k) == pair_map(pairs).insert(
        key,
        value,
    )[k] by {
        let j = choose|j: int| holds_at(new, k, j);
        lemma_value(new, j);
        lemma_value(pairs, j);
        if k == key {
            lemma_distinct(new, j, at);
        } else {
            assert(holds_at(pairs, k, j));
        }
    }
    assert(pair_map(new) =~= pair_map(pairs).insert(key, value));
}

proof fn lemma_removed(pairs: Seq<Pair>, at: int)
    requires
        in_order(pairs),
        0 <= at < pairs.len(),
    ensures
        in_order(pairs.remove(at)),
        pair_map(pairs.remove(at)) == pair_map(pairs).remove(pairs[at].0),
{
    let new = pairs.remove(at);
    let key = pairs[at].0;
    let keys = pair_keys(pairs);
    let new_keys = pair_keys(new);
    assert forall|i: int, j: int| 0 <= i < j < new_keys.len() implies text_below(
        #[trigger] new_keys[i],
        #[trigger] new_keys[j],
    ) by {
        let a = if i < at {
            i
        } else {
            i + 1
        };
        let b = if j < at {
            j
        } else {
            j + 1
        };
        assert(new_keys[i] == keys[a]);
        assert(new_keys[j] == keys[b]);
    }
    assert forall|i: int| 0 <= i < new.len() implies is_key((#[trigger] new[i]).0)
        && new[i].1.len() == 36 by {
        if i < at {
            assert(new[i] == pairs[i]);
        } else {
            assert(new[i] == pairs[i + 1]);
        }
    }
    assert forall|k: Seq<char>| #[trigger] holds(new, k) == (holds(pairs, k) && k != key) by {
        if holds(new, k) {
            let j = choose|j: int| holds_at(new, k, j);
            let i = if j < at {
                j
            } else {
                j + 1
            };
            assert(holds_at(pairs, k, i));
            if k == key {
                lemma_distinct(pairs, i, at);
            }
        }
        if holds(pairs, k) && k != key {
            let j = choose|j: int| holds_at(pairs, k, j);
            if j < at {
                assert(holds_at(new, k, j));
            } else {
                assert(holds_at(new, k, j - 1));
            }
        }
    }
    assert forall|k: Seq<char>| holds(new, k) implies value_in(new, k) == pair_map(pairs)[k] by {
        let j = choose|j: int| holds_at(new, k, j);
        let i = if j < at {
            j
        } else {
            j + 1
        };
        lemma_value(new, j);
        assert(holds_at(pairs, k, i));
        lemma_value(pairs, i);
    }
    assert(pair_map(new) =~= pair_map(pairs).remove(key));
}

// -- Writing the tree -------------------------------------------------------------------------

/// Number of pairs at the front whose keys are below a layer.
pub open spec fn lead(pairs: Seq<Pair>, layer: nat) -> nat
    decreases pairs.len(),
{
    if pairs.len() == 0 || key_layer(pairs[0].0) >= layer {
        0
    } else {
        1 + lead(pairs.drop_first(), layer)
    }
}

/// No more pairs are at the front than there are.
pub proof fn lemma_lead(pairs: Seq<Pair>, layer: nat)
    ensures
        lead(pairs, layer) <= pairs.len(),
    decreases pairs.len(),
{
    if pairs.len() > 0 {
        lemma_lead(pairs.drop_first(), layer);
    }
}

/// The blocks after a tree was written, and its content identifier.
pub type TreeWritten = (Map<Seq<u8>, Seq<u8>>, Seq<u8>);

/// The entry of a key, given the bytes of the key before it.
pub open spec fn leaf_entry(pair: Pair, prev: Seq<u8>, tree: Option<Seq<u8>>) -> NodeEntry {
    let bytes = encode_utf8(pair.0);
    let shared = crate::git::delta::common_len(prev, bytes);
    NodeEntry {
        prefix_len: shared,
        key_suffix: bytes.skip(shared as int),
        value: pair.1,
        tree,
    }
}

/// Writes the tree of pairs at a layer: the keys of the layer are its entries,
/// and the keys below it are in the trees before, between and after them.
pub open spec fn tree_written(blocks: Map<Seq<u8>, Seq<u8>>, pairs: Seq<Pair>, layer: nat) -> TreeWritten
    decreases layer, 2 * pairs.len() + 1,
{
    let n = lead(pairs, layer);
    proof {
        lemma_lead(pairs, layer);
    }
    let (first, left) = maybe_tree(blocks, pairs.take(n as int), layer);
    let (second, entries) = leaves_written(first, pairs.skip(n as int), layer, Seq::empty());
    let node = node_bytes(left, entries);
    (second.insert(cid_of(node), node), cid_of(node))
}

/// Writes the tree of pairs below a layer, where there are any.
pub open spec fn maybe_tree(blocks: Map<Seq<u8>, Seq<u8>>, pairs: Seq<Pair>, layer: nat) -> (
    Map<Seq<u8>, Seq<u8>>,
    Option<Seq<u8>>,
)
    decreases layer, 0nat,
{
    if pairs.len() > 0 && layer > 0 {
        let (after, cid) = tree_written(blocks, pairs, (layer - 1) as nat);
        (after, Some(cid))
    } else {
        (blocks, None)
    }
}

/// Writes the trees behind the keys of a layer, and gives the keys' entries.
pub open spec fn leaves_written(
    blocks: Map<Seq<u8>, Seq<u8>>,
    pairs: Seq<Pair>,
    layer: nat,
    prev: Seq<u8>,
) -> (Map<Seq<u8>, Seq<u8>>, Seq<NodeEntry>)
    decreases layer, 2 * pairs.len(),
{
    if pairs.len() == 0 {
        (blocks, Seq::empty())
    } else if key_layer(pairs[0].0) == layer {
        let rest = pairs.skip(1);
        let n = lead(rest, layer);
        proof {
            lemma_lead(rest, layer);
        }
        let (first, tree) = maybe_tree(blocks, rest.take(n as int), layer);
        let (second, more) = leaves_written(
            first,
            rest.skip(n as int),
            layer,
            encode_utf8(pairs[0].0),
        );
        (second, seq![leaf_entry(pairs[0], prev, tree)] + more)
    } else {
        leaves_written(blocks, pairs.skip(1), layer, prev)
    }
}

/// The highest layer of any key.
pub open spec fn top_layer(pairs: Seq<Pair>) -> nat
    decreases pairs.len(),
{
    if pairs.len() == 0 {
        0
    } else {
        let before = top_layer(pairs.drop_last());
        let layer = key_layer(pairs.last().0);
        if layer > before {
            layer
        } else {
            before
        }
    }
}

/// Writes a whole tree.
pub open spec fn mst_written(blocks: Map<Seq<u8>, Seq<u8>>, pairs: Seq<Pair>) -> TreeWritten {
    if pairs.len() == 0 {
        let node = node_bytes(None, Seq::empty());
        (blocks.insert(cid_of(node), node), cid_of(node))
    } else {
        tree_written(blocks, pairs, top_layer(pairs))
    }
}

/// Number of bytes that two texts begin with in common.
pub fn count_prefix_len(a: &str, b: &str) -> (n: usize)
    ensures
        n == crate::git::delta::common_len(encode_utf8(a@), encode_utf8(b@)),
        n <= encode_utf8(b@).len(),
{
    let x = a.as_bytes();
    let y = b.as_bytes();
    let mut i: usize = 0;
    while i < x.len() && i < y.len() && x[i] == y[i]
        invariant
            x@ == encode_utf8(a@),
            y@ == encode_utf8(b@),
            i <= x@.len(),
            i <= y@.len(),
            forall|k: int| 0 <= k < i ==> x@[k] == y@[k],
        decreases x@.len() - i,
    {
        i += 1;
    }
    proof {
        lemma_common(x@, y@, i as nat);
    }
    i
}

proof fn lemma_common(a: Seq<u8>, b: Seq<u8>, n: nat)
    requires
        n <= a.len(),
        n <= b.len(),
        forall|k: int| 0 <= k < n ==> a[k] == b[k],
        n == a.len() || n == b.len() || a[n as int] != b[n as int],
    ensures
        crate::git::delta::common_len(a, b) == n,
    decreases n,
{
    if n > 0 {
        lemma_common(a.drop_first(), b.drop_first(), (n - 1) as nat);
    }
}

/// The part of a tree's pairs between two positions.
spec fn part(rows: Seq<MstRow>, start: int, end: int) -> Seq<Pair> {
    Seq::new((end - start) as nat, |i: int| rows[start + i].deep_view())
}

/// Whether layers are those of the keys.
spec fn layers_of(rows: Seq<MstRow>, layers: Seq<usize>) -> bool {
    &&& layers.len() == rows.len()
    &&& forall|i: int| 0 <= i < rows.len() ==> #[trigger] layers[i] == key_layer(rows[i].key@)
}

fn lead_end(rows: &Vec<MstRow>, layers: &Vec<usize>, start: usize, end: usize, layer: usize) -> (at: usize)
    requires
        start <= end <= rows@.len(),
        layers_of(rows@, layers@),
    ensures
        start <= at <= end,
        at - start == lead(part(rows@, start as int, end as int), layer as nat),
{
    let ghost whole = part(rows@, start as int, end as int);
    let mut i: usize = start;
    while i < end && layers[i] < layer
        invariant
            start <= i <= end <= rows@.len(),
            layers_of(rows@, layers@),
            whole == part(rows@, start as int, end as int),
            lead(whole, layer as nat) == (i - start) + lead(
                part(rows@, i as int, end as int),
                layer as nat,
            ),
        decreases end - i,
    {
        let ghost here = part(rows@, i as int, end as int);
        assert(here[0] == rows@[i as int].deep_view());
        assert(here.drop_first() =~= part(rows@, i + 1, end as int));
        i += 1;
    }
    proof {
        let here = part(rows@, i as int, end as int);
        if i < end {
            assert(here[0] == rows@[i as int].deep_view());
        }
    }
    i
}

/// Writes the tree of the rows between two positions.
fn build_subtree<S: BlockStore>(
    rows: &Vec<MstRow>,
    layers: &Vec<usize>,
    start: usize,
    end: usize,
    layer: usize,
    store: &mut S,
) -> (cid: [u8; 36])
    requires
        start <= end <= rows@.len(),
        layers_of(rows@, layers@),
        old(store).wf(),
    ensures
        final(store).wf(),
        (final(store).blocks(), cid@) == tree_written(
            old(store).blocks(),
            part(rows@, start as int, end as int),
            layer as nat,
        ),
    decreases layer, 2nat,
{
    let ghost whole = part(rows@, start as int, end as int);
    let ghost first = store.blocks();
    let at: usize = lead_end(rows, layers, start, end, layer);
    let ghost n = lead(whole, layer as nat);
    proof {
        assert(whole.take(n as int) =~= part(rows@, start as int, at as int));
        assert(whole.skip(n as int) =~= part(rows@, at as int, end as int));
    }
    let left = build_maybe(rows, layers, start, at, layer, store);
    let ghost second = store.blocks();
    let mut entries: Vec<MstEntry> = Vec::new();
    let mut prev = String::new();
    let mut i: usize = at;
    let ghost goal = leaves_written(
        second,
        part(rows@, at as int, end as int),
        layer as nat,
        Seq::empty(),
    );
    proof {
        assert(entries.deep_view() + goal.1 =~= goal.1);
        assert(encode_utf8(prev@) =~= Seq::<u8>::empty());
    }
    while i < end
        invariant
            at <= i <= end <= rows@.len(),
            layers_of(rows@, layers@),
            store.wf(),
            ({
                let (blocks, more) = leaves_written(
                    store.blocks(),
                    part(rows@, i as int, end as int),
                    layer as nat,
                    encode_utf8(prev@),
                );
                goal.0 == blocks && goal.1 == entries.deep_view() + more
            }),
        decreases end - i,
    {
        let ghost here = part(rows@, i as int, end as int);
        proof {
            assert(here[0] == rows@[i as int].deep_view());
            assert(here.skip(1) =~= part(rows@, i + 1, end as int));
        }
        if layers[i] == layer {
            let key = rows[i].key.as_str();
            let shared: usize = count_prefix_len(prev.as_str(), key);
            let bytes = key.as_bytes();
            let key_suffix = copy_range(bytes, shared, bytes.len());
            assert(key_suffix@ =~= bytes@.skip(shared as int));
            let next: usize = lead_end(rows, layers, i + 1, end, layer);
            let ghost rest = part(rows@, i + 1, end as int);
            let ghost k = lead(rest, layer as nat);
            proof {
                assert(rest.take(k as int) =~= part(rows@, i + 1, next as int));
                assert(rest.skip(k as int) =~= part(rows@, next as int, end as int));
            }
            let tree = build_maybe(rows, layers, i + 1, next, layer, store);
            let ghost had = entries.deep_view();
            let entry = MstEntry { prefix_len: shared, key_suffix, value: rows[i].value, tree };
            let ghost one = entry.deep_view();
            entries.push(entry);
            proof {
                assert(one == leaf_entry(here[0], encode_utf8(prev@), shown_cid(tree)));
                assert(entries.deep_view() =~= had.push(one));
                let more = leaves_written(
                    store.blocks(),
                    part(rows@, next as int, end as int),
                    layer as nat,
                    encode_utf8(key@),
                ).1;
                assert(had + (seq![one] + more) =~= had.push(one) + more);
            }
            prev = rows[i].key.clone();
            i = next;
        } else {
            i += 1;
        }
    }
    proof {
        assert(entries.deep_view() + Seq::<NodeEntry>::empty() =~= entries.deep_view());
    }
    let list = entries.as_slice();
    assert(list.deep_view() =~= entries.deep_view());
    let node = match &left {
        Some(cid) => encode_node(Some(cid.as_slice()), list),
        None => encode_node(None, list),
    };
    store.put(node.as_slice())
}

/// Writes the tree of the rows between two positions, where there are any and a
/// layer for them.
fn build_maybe<S: BlockStore>(
    rows: &Vec<MstRow>,
    layers: &Vec<usize>,
    start: usize,
    end: usize,
    layer: usize,
    store: &mut S,
) -> (cid: Option<[u8; 36]>)
    requires
        start <= end <= rows@.len(),
        layers_of(rows@, layers@),
        old(store).wf(),
    ensures
        final(store).wf(),
        (final(store).blocks(), shown_cid(cid)) == maybe_tree(
            old(store).blocks(),
            part(rows@, start as int, end as int),
            layer as nat,
        ),
    decreases layer, 1nat,
{
    if start < end && layer > 0 {
        Some(build_subtree(rows, layers, start, end, layer - 1, store))
    } else {
        None
    }
}

impl Mst {
    /// Writes the tree into a block store; its content identifier.
    pub fn write_to_store<S: BlockStore>(&self, store: &mut S) -> (cid: [u8; 36])
        requires
            self.wf(),
            old(store).wf(),
        ensures
            final(store).wf(),
            (final(store).blocks(), cid@) == mst_written(old(store).blocks(), self.pairs()),
    {
        if self.rows.len() == 0 {
            let none: Vec<MstEntry> = Vec::new();
            let list = none.as_slice();
            assert(list.deep_view() =~= Seq::<NodeEntry>::empty());
            let node = encode_node(None, list);
            return store.put(node.as_slice());
        }
        let ghost all = self.pairs();
        let mut layers: Vec<usize> = Vec::new();
        let mut top: usize = 0;
        let mut i: usize = 0;
        assert(all.take(0) =~= Seq::<Pair>::empty());
        while i < self.rows.len()
            invariant
                i <= self.rows@.len(),
                all == self.pairs(),
                all.len() == self.rows@.len(),
                layers@.len() == i,
                forall|k: int|
                    0 <= k < i ==> #[trigger] layers@[k] == key_layer(self.rows@[k].key@),
                top == top_layer(all.take(i as int)),
            decreases self.rows@.len() - i,
        {
            proof {
                assert(all.take(i + 1).drop_last() =~= all.take(i as int));
                assert(all.take(i + 1).last() == self.rows@[i as int].deep_view());
            }
            let layer: usize = leading_zeros(self.rows[i].key.as_str());
            layers.push(layer);
            if layer > top {
                top = layer;
            }
            i += 1;
        }
        proof {
            assert(all.take(i as int) =~= all);
            assert(part(self.rows@, 0, self.rows@.len() as int) =~= all);
        }
        build_subtree(&self.rows, &layers, 0, self.rows.len(), top, store)
    }
}

/// A tree is written where its content identifier says, as a block with that
/// identifier.
pub proof fn law_root_written(blocks: Map<Seq<u8>, Seq<u8>>, pairs: Seq<Pair>)
    ensures
        ({
            let (after, cid) = mst_written(blocks, pairs);
            after.dom().contains(cid) && cid_of(after[cid]) == cid
        }),
{
}

/// Two trees that hold the same are the same, and are written under the same
/// content identifier, in whatever order their keys were put in.
pub proof fn law_order_independent(a: Mst, b: Mst, blocks: Map<Seq<u8>, Seq<u8>>)
    requires
        a.wf(),
        b.wf(),
        a@ == b@,
    ensures
        a.pairs() == b.pairs(),
        mst_written(blocks, a.pairs()) == mst_written(blocks, b.pairs()),
{
    let x = pair_keys(a.pairs());
    let y = pair_keys(b.pairs());
    assert forall|k: Seq<char>| x.contains(k) == y.contains(k) by {
        lemma_contains(a, k);
        lemma_contains(b, k);
    }
    crate::sorted::lemma_ascending_unique(x, y);
    assert(x.len() == a.pairs().len() && y.len() == b.pairs().len());
    assert forall|i: int| 0 <= i < a.pairs().len() implies a.pairs()[i] == b.pairs()[i] by {
        assert(x[i] == y[i]);
        lemma_value(a.pairs(), i);
        lemma_value(b.pairs(), i);
        assert(a@[x[i]] == b@[x[i]]);
    }
    assert(a.pairs() =~= b.pairs());
}

proof fn lemma_contains(m: Mst, k: Seq<char>)
    ensures
        pair_keys(m.pairs()).contains(k) == m@.dom().contains(k),
{
    let keys = pair_keys(m.pairs());
    if keys.contains(k) {
        let i = choose|i: int| 0 <= i < keys.len() && keys[i] == k;
        assert(holds_at(m.pairs(), k, i));
    }
    if holds(m.pairs(), k) {
        let i = choose|i: int| holds_at(m.pairs(), k, i);
        assert(keys[i] == k);
    }
}

// -- Differences ------------------------------------------------------------------------------

/// What sets a tree apart from another.
#[derive(Debug)]
pub struct MstDiff {
    /// Keys that only the new tree has.
    pub created: Vec<(String, [u8; 36])>,
    /// Keys with another value: the old one, then the new one.
    pub updated: Vec<(String, [u8; 36], [u8; 36])>,
    /// Keys that only the old tree has.
    pub deleted: Vec<(String, [u8; 36])>,
}

/// The pairs whose keys another tree does not have, in order.
pub open spec fn only_in(pairs: Seq<Pair>, other: Map<Seq<char>, Seq<u8>>) -> Seq<Pair>
    decreases pairs.len(),
{
    if pairs.len() == 0 {
        Seq::empty()
    } else {
        let before = only_in(pairs.drop_last(), other);
        if other.dom().contains(pairs.last().0) {
            before
        } else {
            before.push(pairs.last())
        }
    }
}

/// The keys that another tree has with another value, in order: key, the other
/// value, this value.
pub open spec fn changed_in(pairs: Seq<Pair>, other: Map<Seq<char>, Seq<u8>>) -> Seq<
    (Seq<char>, Seq<u8>, Seq<u8>),
>
    decreases pairs.len(),
{
    if pairs.len() == 0 {
        Seq::empty()
    } else {
        let before = changed_in(pairs.drop_last(), other);
        let (key, value) = pairs.last();
        if other.dom().contains(key) && other[key] != value {
            before.push((key, other[key], value))
        } else {
            before
        }
    }
}

/// A pair is among those whose keys another tree does not have just where it is
/// one of the pairs and the other tree does not have its key.
pub proof fn law_only_in(pairs: Seq<Pair>, other: Map<Seq<char>, Seq<u8>>, p: Pair)
    ensures
        only_in(pairs, other).contains(p) <==> (pairs.contains(p) && !other.dom().contains(p.0)),
    decreases pairs.len(),
{
    if pairs.len() > 0 {
        let front = pairs.drop_last();
        let last = pairs.last();
        law_only_in(front, other, p);
        assert(pairs =~= front.push(last));
        lemma_pushed(front, last, p);
        lemma_pushed(only_in(front, other), last, p);
    }
}

/// A change is told just where a pair has its key and its value, and the other
/// tree has the key with the other value.
pub proof fn law_changed_in(
    pairs: Seq<Pair>,
    other: Map<Seq<char>, Seq<u8>>,
    c: (Seq<char>, Seq<u8>, Seq<u8>),
)
    ensures
        changed_in(pairs, other).contains(c) <==> (pairs.contains((c.0, c.2))
            && other.dom().contains(c.0) && other[c.0] == c.1 && c.1 != c.2),
    decreases pairs.len(),
{
    if pairs.len() > 0 {
        let front = pairs.drop_last();
        let last = pairs.last();
        law_changed_in(front, other, c);
        assert(pairs =~= front.push(last));
        lemma_pushed(front, last, (c.0, c.2));
        lemma_pushed(changed_in(front, other), (last.0, other[last.0], last.1), c);
    }
}

proof fn lemma_pushed<T>(list: Seq<T>, x: T, y: T)
    ensures
        list.push(x).contains(y) == (list.contains(y) || x == y),
{
    if list.contains(y) {
        let i = choose|i: int| 0 <= i < list.len() && list[i] == y;
        assert(list.push(x)[i] == y);
    }
    if list.push(x).contains(y) {
        let i = choose|i: int| 0 <= i < list.push(x).len() && list.push(x)[i] == y;
        if i < list.len() {
            assert(list[i] == y);
        }
    }
    assert(list.push(x)[list.len() as int] == x);
}

/// Keys and values as plain values.
pub open spec fn shown_pairs(list: Seq<(String, [u8; 36])>) -> Seq<Pair> {
    Seq::new(list.len(), |i: int| (list[i].0@, list[i].1@))
}

/// Keys and two values each as plain values.
pub open spec fn shown_changes(list: Seq<(String, [u8; 36], [u8; 36])>) -> Seq<
    (Seq<char>, Seq<u8>, Seq<u8>),
> {
    Seq::new(list.len(), |i: int| (list[i].0@, list[i].1@, list[i].2@))
}

impl Mst {
    fn missing_from(&self, other: &Mst) -> (out: Vec<(String, [u8; 36])>)
        requires
            self.wf(),
            other.wf(),
        ensures
            shown_pairs(out@) == only_in(self.pairs(), other@),
    {
        let ghost all = self.pairs();
        let mut out: Vec<(String, [u8; 36])> = Vec::new();
        let mut i: usize = 0;
        proof {
            assert(all.take(0) =~= Seq::<Pair>::empty());
            assert(shown_pairs(out@) =~= Seq::<Pair>::empty());
        }
        while i < self.rows.len()
            invariant
                other.wf(),
                all == self.pairs(),
                all.len() == self.rows@.len(),
                i <= self.rows@.len(),
                shown_pairs(out@) == only_in(all.take(i as int), other@),
            decreases self.rows@.len() - i,
        {
            let row = &self.rows[i];
            let ghost had = shown_pairs(out@);
            proof {
                assert(all.take(i + 1).drop_last() =~= all.take(i as int));
                assert(all.take(i + 1).last() == row.deep_view());
            }
            if other.get(row.key.as_str()).is_none() {
                out.push((row.key.clone(), row.value));
                assert(shown_pairs(out@) =~= had.push(row.deep_view()));
            }
            i += 1;
        }
        assert(all.take(i as int) =~= all);
        out
    }

    /// What sets this tree apart from an older one.
    pub fn diff(&self, other: &Mst) -> (out: MstDiff)
        requires
            self.wf(),
            other.wf(),
        ensures
            shown_pairs(out.created@) == only_in(self.pairs(), other@),
            shown_changes(out.updated@) == changed_in(self.pairs(), other@),
            shown_pairs(out.deleted@) == only_in(other.pairs(), self@),
    {
        let created = self.missing_from(other);
        let deleted = other.missing_from(self);
        let ghost all = self.pairs();
        let mut updated: Vec<(String, [u8; 36], [u8; 36])> = Vec::new();
        let mut i: usize = 0;
        proof {
            assert(all.take(0) =~= Seq::<Pair>::empty());
            assert(shown_changes(updated@) =~= Seq::<(Seq<char>, Seq<u8>, Seq<u8>)>::empty());
        }
        while i < self.rows.len()
            invariant
                other.wf(),
                all == self.pairs(),
                all.len() == self.rows@.len(),
                i <= self.rows@.len(),
                shown_changes(updated@) == changed_in(all.take(i as int), other@),
            decreases self.rows@.len() - i,
        {
            let row = &self.rows[i];
            let ghost had = shown_changes(updated@);
            proof {
                assert(all.take(i + 1).drop_last() =~= all.take(i as int));
                assert(all.take(i + 1).last() == row.deep_view());
            }
            if let Some(old_value) = other.get(row.key.as_str()) {
                if !same_bytes(old_value.as_slice(), row.value.as_slice()) {
                    updated.push((row.key.clone(), *old_value, row.value));
                    assert(shown_changes(updated@) =~= had.push(
                        (row.key@, old_value@, row.value@),
                    ));
                }
            }
            i += 1;
        }
        assert(all.take(i as int) =~= all);
        MstDiff { created, updated, deleted }
    }
}

/// A pair of bits of bytes, counted from the front.
pub open spec fn bit_pair(data: Seq<u8>, i: int) -> int {
    let byte = data[i / 4] as int;
    if i % 4 == 0 {
        byte / 64
    } else if i % 4 == 1 {
        (byte / 16) % 4
    } else if i % 4 == 2 {
        (byte / 4) % 4
    } else {
        byte % 4
    }
}

/// The layer of a key is the number of pairs of bits, all zero, before the first
/// pair of its digest that is not.
pub proof fn law_zero_pairs(data: Seq<u8>, i: int)
    ensures
        zero_pairs(data) <= 4 * data.len(),
        0 <= i < zero_pairs(data) ==> bit_pair(data, i) == 0,
        zero_pairs(data) < 4 * data.len() ==> bit_pair(data, zero_pairs(data) as int) != 0,
    decreases data.len(),
{
    if data.len() > 0 && data[0] == 0 {
        let rest = data.drop_first();
        law_zero_pairs(rest, i - 4);
        let n = zero_pairs(rest) as int;
        assert((n + 4) / 4 == n / 4 + 1 && (n + 4) % 4 == n % 4);
        if n < 4 * rest.len() {
            assert(data[n / 4 + 1] == rest[n / 4]);
        }
        if 4 <= i < zero_pairs(data) {
            assert(i / 4 == (i - 4) / 4 + 1 && i % 4 == (i - 4) % 4);
            assert(data[i / 4] == rest[(i - 4) / 4]);
        }
    }
}

/// The pairs whose keys are of a layer, in their order.
pub open spec fn of_layer(pairs: Seq<Pair>, layer: nat) -> Seq<Pair>
    decreases pairs.len(),
{
    if pairs.len() == 0 {
        Seq::empty()
    } else if key_layer(pairs[0].0) == layer {
        seq![pairs[0]] + of_layer(pairs.drop_first(), layer)
    } else {
        of_layer(pairs.drop_first(), layer)
    }
}

proof fn lemma_lead_lower(pairs: Seq<Pair>, layer: nat)
    ensures
        lead(pairs, layer) <= pairs.len(),
        of_layer(pairs, layer) == of_layer(pairs.skip(lead(pairs, layer) as int), layer),
    decreases pairs.len(),
{
    let n = lead(pairs, layer) as int;
    if n > 0 {
        let rest = pairs.drop_first();
        lemma_lead_lower(rest, layer);
        assert(rest.skip(n - 1) =~= pairs.skip(n));
    } else {
        assert(pairs.skip(0) =~= pairs);
    }
}

proof fn lemma_leaves_of_layer(
    blocks: Map<Seq<u8>, Seq<u8>>,
    pairs: Seq<Pair>,
    layer: nat,
    prev: Seq<u8>,
)
    ensures
        ({
            let entries = leaves_written(blocks, pairs, layer, prev).1;
            let own = of_layer(pairs, layer);
            &&& entries.len() == own.len()
            &&& forall|i: int| 0 <= i < own.len() ==> (#[trigger] entries[i]).value == own[i].1
        }),
    decreases pairs.len(),
{
    if pairs.len() > 0 {
        let entries = leaves_written(blocks, pairs, layer, prev).1;
        let own = of_layer(pairs, layer);
        assert(pairs.skip(1) =~= pairs.drop_first());
        if key_layer(pairs[0].0) == layer {
            let rest = pairs.skip(1);
            let n = lead(rest, layer) as int;
            lemma_lead_lower(rest, layer);
            let (first, tree) = maybe_tree(blocks, rest.take(n), layer);
            let last = encode_utf8(pairs[0].0);
            lemma_leaves_of_layer(first, rest.skip(n), layer, last);
            let more = leaves_written(first, rest.skip(n), layer, last).1;
            assert(entries == seq![leaf_entry(pairs[0], prev, tree)] + more);
            let later = of_layer(rest, layer);
            assert forall|i: int| 0 <= i < own.len() implies (#[trigger] entries[i]).value
                == own[i].1 by {
                if i > 0 {
                    assert(entries[i] == more[i - 1]);
                    assert(own[i] == later[i - 1]);
                }
            }
        } else {
            lemma_leaves_of_layer(blocks, pairs.skip(1), layer, prev);
        }
    }
}

proof fn lemma_top_layer(pairs: Seq<Pair>, i: int)
    requires
        0 <= i < pairs.len(),
    ensures
        key_layer(pairs[i].0) <= top_layer(pairs),
    decreases pairs.len(),
{
    let front = pairs.drop_last();
    if i < front.len() {
        assert(front[i] == pairs[i]);
        lemma_top_layer(front, i);
    }
}

/// The root of a tree is a node whose entries are the values of just those keys
/// that have the highest layer of any key, in the order of the keys.
pub proof fn law_root_entries(blocks: Map<Seq<u8>, Seq<u8>>, pairs: Seq<Pair>, i: int) -> (out: (
    Option<Seq<u8>>,
    Seq<NodeEntry>,
))
    requires
        0 <= i < pairs.len(),
    ensures
        ({
            let (after, root) = mst_written(blocks, pairs);
            let own = of_layer(pairs, top_layer(pairs));
            &&& after.dom().contains(root)
            &&& after[root] == node_bytes(out.0, out.1)
            &&& out.1.len() == own.len()
            &&& forall|j: int| 0 <= j < own.len() ==> (#[trigger] out.1[j]).value == own[j].1
        }),
        zero_pairs(sha256_of(encode_utf8(pairs[i].0))) <= top_layer(pairs),
{
    let layer = top_layer(pairs);
    let n = lead(pairs, layer) as int;
    lemma_lead_lower(pairs, layer);
    let (first, left) = maybe_tree(blocks, pairs.take(n), layer);
    lemma_leaves_of_layer(first, pairs.skip(n), layer, Seq::empty());
    lemma_top_layer(pairs, i);
    (left, leaves_written(first, pairs.skip(n), layer, Seq::empty()).1)
}

} // verus!
