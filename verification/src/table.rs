//! A finite map from keys to values, kept as rows with distinct keys that are
//! found by the bytes of their keys.

use dashmap::DashMap;
use vstd::prelude::*;
use vstd::utf8::encode_utf8;

use crate::bytes::{append_bytes, copy_bytes};
use crate::index::{index_drop, index_entries, index_get, index_new, index_put};
use crate::types::{be_bytes, big_endian};

verus! {

/// A key that can be looked up in a [`Table`].
pub trait TableKey: Sized {
    /// What the key stands for.
    type K;

    spec fn key(&self) -> Self::K;

    /// The bytes by which a key is found.
    spec fn key_bytes(k: Self::K) -> Seq<u8>;

    fn to_bytes(&self) -> (out: Vec<u8>)
        ensures
            out@ == Self::key_bytes(self.key()),
    ;

    /// Different keys have different bytes.
    proof fn lemma_key_bytes(&self, other: &Self)
        ensures
            Self::key_bytes(self.key()) == Self::key_bytes(other.key()) ==> self.key()
                == other.key(),
    ;
}

/// Rows with pairwise different keys.
pub struct Table<A: TableKey, V: DeepView> {
    pub rows: Vec<(A, V)>,
    pub index: DashMap<Vec<u8>, usize>,
}

impl<A: TableKey, V: DeepView> Table<A, V> {
    /// No two rows have the same key, and the index says where they stand.
    pub open spec fn wf(&self) -> bool {
        &&& forall|i: int, j: int|
            0 <= i < j < self.rows@.len()
                ==> #[trigger] self.rows@[i].0.key() != #[trigger] self.rows@[j].0.key()
        &&& self.indexed()
    }

    /// The bytes of the key of a row.
    pub open spec fn row_bytes(&self, i: int) -> Seq<u8> {
        A::key_bytes(self.rows@[i].0.key())
    }

    /// The index has the position of each row under the bytes of its key, and
    /// nothing else.
    pub closed spec fn indexed(&self) -> bool {
        let entries = index_entries(self.index);
        &&& forall|i: int|
            0 <= i < self.rows@.len() ==> entries.dom().contains(#[trigger] self.row_bytes(i))
                && entries[self.row_bytes(i)] == i
        &&& forall|b: Seq<u8>| #[trigger]
            entries.dom().contains(b) ==> entries[b] < self.rows@.len() && self.row_bytes(
                entries[b] as int,
            ) == b
    }

    /// Whether some row has the key `k`.
    pub open spec fn has(&self, k: A::K) -> bool {
        exists|i: int| 0 <= i < self.rows@.len() && #[trigger] self.rows@[i].0.key() == k
    }

    /// The row with the key `k`.
    pub open spec fn row_of(&self, k: A::K) -> int {
        choose|i: int| 0 <= i < self.rows@.len() && #[trigger] self.rows@[i].0.key() == k
    }

    /// What the table holds.
    pub open spec fn view(&self) -> Map<A::K, V::V> {
        Map::new(|k: A::K| self.has(k), |k: A::K| self.rows@[self.row_of(k)].1.deep_view())
    }

    /// A row is what the map says of its key.
    pub proof fn lemma_row(&self, i: int)
        requires
            self.wf(),
            0 <= i < self.rows@.len(),
        ensures
            self@.dom().contains(self.rows@[i].0.key()),
            self@[self.rows@[i].0.key()] == self.rows@[i].1.deep_view(),
    {
        let k = self.rows@[i].0.key();
        assert(self.has(k));
        let j = self.row_of(k);
        assert(self.rows@[j].0.key() == k);
    }

    /// The table has as many rows as the map has keys.
    pub proof fn lemma_len(&self)
        requires
            self.wf(),
        ensures
            self@.dom().finite(),
            self@.dom().len() == self.rows@.len(),
    {
        let keys = Seq::new(self.rows@.len(), |i: int| self.rows@[i].0.key());
        assert(keys.no_duplicates()) by {
            assert forall|i: int, j: int|
                0 <= i < keys.len() && 0 <= j < keys.len() && i != j implies keys[i] != keys[j] by {
                if i < j {
                    assert(self.rows@[i].0.key() != self.rows@[j].0.key());
                } else {
                    assert(self.rows@[j].0.key() != self.rows@[i].0.key());
                }
            }
        }
        keys.unique_seq_to_set();
        assert forall|k: A::K| self@.dom().contains(k) == keys.to_set().contains(k) by {
            if self.has(k) {
                assert(keys[self.row_of(k)] == k);
            }
            if keys.contains(k) {
                let i = choose|i: int| 0 <= i < keys.len() && keys[i] == k;
                assert(self.rows@[i].0.key() == k);
            }
        }
        assert(self@.dom() =~= keys.to_set());
    }

    /// A table without rows.
    pub fn new() -> (out: Self)
        ensures
            out.wf(),
            out@ == Map::<A::K, V::V>::empty(),
    {
        let out = Table { rows: Vec::new(), index: index_new() };
        assert(out@ =~= Map::<A::K, V::V>::empty());
        out
    }

    /// Position of the row with this key, if there is one.
    pub fn find(&self, k: &A) -> (out: Option<usize>)
        requires
            self.wf(),
        ensures
            match out {
                Some(i) => i < self.rows@.len() && self.rows@[i as int].0.key() == k.key()
                    && self@.dom().contains(k.key()) && self@[k.key()] == self.rows@[i as int].1.deep_view(),
                None => !self@.dom().contains(k.key()),
            },
    {
        let bytes = k.to_bytes();
        match index_get(&self.index, &bytes) {
            Some(i) => {
                proof {
                    assert(self.row_bytes(i as int) == bytes@);
                    self.rows@[i as int].0.lemma_key_bytes(k);
                    self.lemma_row(i as int);
                }
                Some(i)
            },
            None => {
                proof {
                    if self.has(k.key()) {
                        let j = self.row_of(k.key());
                        assert(self.rows@[j].0.key() == k.key());
                        assert(self.row_bytes(j) == bytes@);
                    }
                }
                None
            },
        }
    }

    /// The value stored under a key.
    pub fn get(&self, k: &A) -> (out: Option<&V>)
        requires
            self.wf(),
        ensures
            match out {
                Some(v) => self@.dom().contains(k.key()) && v.deep_view() == self@[k.key()],
                None => !self@.dom().contains(k.key()),
            },
    {
        match self.find(k) {
            Some(i) => Some(&self.rows[i].1),
            None => None,
        }
    }

    /// Whether a value is stored under a key.
    pub fn contains(&self, k: &A) -> (out: bool)
        requires
            self.wf(),
        ensures
            out == self@.dom().contains(k.key()),
    {
        self.find(k).is_some()
    }

    /// Stores a value under a key, in place of what was there.
    pub fn insert(&mut self, k: A, v: V)
        requires
            old(self).wf(),
        ensures
            final(self).wf(),
            final(self)@ == old(self)@.insert(k.key(), v.deep_view()),
            forall|i: int|
                0 <= i < final(self).rows@.len() ==> old(self).rows@.contains(
                    #[trigger] final(self).rows@[i],
                ) || final(self).rows@[i] == (k, v),
    {
        let ghost before = *self;
        match self.find(&k) {
            Some(i) => {
                let ghost kk = k.key();
                self.rows.set(i, (k, v));
                proof {
                    assert forall|j: int| 0 <= j < self.rows@.len() implies
                        #[trigger] self.row_bytes(j) == before.row_bytes(j) by {
                        if j == i {
                            assert(before.rows@[j].0.key() == kk);
                        }
                    }
                    assert(self.index == before.index);
                    assert(self.indexed());
                    assert forall|j: int|
                        0 <= j < self.rows@.len() implies before.rows@.contains(
                        #[trigger] self.rows@[j],
                    ) || self.rows@[j] == (k, v) by {
                        if j != i {
                            assert(self.rows@[j] == before.rows@[j]);
                        }
                    }
                    assert forall|q: A::K| self.has(q) == (before.has(q) || q == kk) by {
                        if before.has(q) {
                            let j = before.row_of(q);
                            assert(self.rows@[j].0.key() == q);
                        }
                        if self.has(q) {
                            let j = self.row_of(q);
                            assert(before.rows@[j].0.key() == q);
                        }
                    }
                    assert forall|q: A::K| self.has(q) implies self@[q] == before@.insert(kk, v.deep_view())[q] by {
                        let j = self.row_of(q);
                        assert(self.rows@[j].0.key() == q);
                        if q == kk {
                            assert(self.rows@[i as int].0.key() == q);
                            assert(j == i);
                        } else {
                            assert(before.rows@[j].0.key() == q);
                            before.lemma_row(j);
                        }
                    }
                    assert(self@ =~= before@.insert(kk, v.deep_view()));
                }
            },
            None => {
                let ghost kk = k.key();
                let at: usize = self.rows.len();
                let bytes = k.to_bytes();
                let ghost kb = bytes@;
                index_put(&mut self.index, bytes, at);
                self.rows.push((k, v));
                let ghost n = before.rows@.len() as int;
                proof {
                    let was = index_entries(before.index);
                    let now = index_entries(self.index);
                    assert(now == was.insert(kb, at));
                    assert forall|j: int| 0 <= j < n implies self.row_bytes(j)
                        == #[trigger] before.row_bytes(j) by {}
                    assert(self.row_bytes(n) == kb);
                    assert(!was.dom().contains(kb)) by {
                        if was.dom().contains(kb) {
                            let j = was[kb] as int;
                            assert(before.row_bytes(j) == kb);
                            before.rows@[j].0.lemma_key_bytes(&k);
                            assert(before.has(kk));
                        }
                    }
                    assert forall|j: int| 0 <= j < self.rows@.len() implies now.dom().contains(
                        #[trigger] self.row_bytes(j),
                    ) && now[self.row_bytes(j)] == j by {
                        if j < n {
                            assert(was.dom().contains(before.row_bytes(j)));
                        }
                    }
                    assert(self.indexed());
                    assert forall|j: int|
                        0 <= j < self.rows@.len() implies before.rows@.contains(
                        #[trigger] self.rows@[j],
                    ) || self.rows@[j] == (k, v) by {
                        if j < n {
                            assert(self.rows@[j] == before.rows@[j]);
                        }
                    }
                    assert(self.rows@[n].0.key() == kk);
                    assert forall|i: int, j: int| 0 <= i < j < self.rows@.len() implies
                        #[trigger] self.rows@[i].0.key() != #[trigger] self.rows@[j].0.key() by {
                        if j == n {
                            assert(before.rows@[i].0.key() != kk) by {
                                if before.rows@[i].0.key() == kk {
                                    assert(before.has(kk));
                                }
                            }
                        } else {
                            assert(before.rows@[i].0.key() != before.rows@[j].0.key());
                        }
                    }
                    assert forall|q: A::K| self.has(q) == (before.has(q) || q == kk) by {
                        if before.has(q) {
                            let j = before.row_of(q);
                            assert(self.rows@[j].0.key() == q);
                        }
                        if self.has(q) {
                            let j = self.row_of(q);
                            if j < n {
                                assert(before.rows@[j].0.key() == q);
                            }
                        }
                    }
                    assert forall|q: A::K| self.has(q) implies self@[q] == before@.insert(kk, v.deep_view())[q] by {
                        if q == kk {
                            self.lemma_row(n);
                        } else {
                            let j = before.row_of(q);
                            assert(before.rows@[j].0.key() == q);
                            assert(self.rows@[j].0.key() == q);
                            self.lemma_row(j);
                        }
                    }
                    assert(self@ =~= before@.insert(kk, v.deep_view()));
                }
            },
        }
    }

    /// Removes a row, and hands its value back.
    pub fn remove_at(&mut self, i: usize) -> (out: V)
        requires
            old(self).wf(),
            i < old(self).rows@.len(),
        ensures
            final(self).wf(),
            final(self).rows@ == old(self).rows@.remove(i as int),
            final(self)@ == old(self)@.remove(old(self).rows@[i as int].0.key()),
            out.deep_view() == old(self)@[old(self).rows@[i as int].0.key()],
            out == old(self).rows@[i as int].1,
    {
        let ghost before = *self;
        let ghost kk = self.rows@[i as int].0.key();
        proof {
            before.lemma_row(i as int);
        }
        let bytes = self.rows[i].0.to_bytes();
        index_drop(&mut self.index, &bytes);
        let row = self.rows.remove(i);
        proof {
            let was = index_entries(before.index);
            let now = index_entries(self.index);
            assert forall|x: int| 0 <= x < self.rows@.len() implies now.dom().contains(
                #[trigger] self.row_bytes(x),
            ) && now[self.row_bytes(x)] == (if x < i {
                x
            } else {
                x + 1
            }) by {
                let y = if x < i {
                    x
                } else {
                    x + 1
                };
                assert(self.row_bytes(x) == before.row_bytes(y));
                assert(was[before.row_bytes(y)] == y);
                assert(was[before.row_bytes(i as int)] == i);
            }
            assert forall|b: Seq<u8>| #[trigger] now.dom().contains(b) implies exists|x: int|
                0 <= x < self.rows@.len() && #[trigger] self.row_bytes(x) == b by {
                let y = was[b] as int;
                assert(before.row_bytes(y) == b);
                let x = if y < i {
                    y
                } else {
                    y - 1
                };
                assert(y != i);
                assert(self.row_bytes(x) == b);
            }
        }
        proof {
            assert forall|x: int, y: int|
                0 <= x < y < self.rows@.len() implies #[trigger] self.row_bytes(x)
                != #[trigger] self.row_bytes(y) by {
                let p = if x < i {
                    x
                } else {
                    x + 1
                };
                let q = if y < i {
                    y
                } else {
                    y + 1
                };
                assert(before.rows@[p].0.key() != before.rows@[q].0.key());
                self.rows@[x].0.lemma_key_bytes(&self.rows@[y].0);
            }
        }
        let ghost left = self.rows@;
        let mut j: usize = i;
        while j < self.rows.len()
            invariant
                i <= j <= self.rows@.len(),
                self.rows@ == left,
                forall|x: int, y: int|
                    0 <= x < y < self.rows@.len() ==> #[trigger] self.row_bytes(x)
                        != #[trigger] self.row_bytes(y),
                forall|x: int|
                    0 <= x < self.rows@.len() ==> index_entries(self.index).dom().contains(
                        #[trigger] self.row_bytes(x),
                    ) && index_entries(self.index)[self.row_bytes(x)] == (if x < j {
                        x
                    } else {
                        x + 1
                    }),
                forall|b: Seq<u8>| #[trigger]
                    index_entries(self.index).dom().contains(b) ==> exists|x: int|
                        0 <= x < self.rows@.len() && #[trigger] self.row_bytes(x) == b,
            decreases self.rows@.len() - j,
        {
            let ghost prior = *self;
            let moved = self.rows[j].0.to_bytes();
            let ghost mb = moved@;
            index_put(&mut self.index, moved, j);
            proof {
                assert(mb == prior.row_bytes(j as int));
                assert forall|x: int| 0 <= x < self.rows@.len() implies index_entries(
                    self.index,
                ).dom().contains(#[trigger] self.row_bytes(x)) && index_entries(
                    self.index,
                )[self.row_bytes(x)] == (if x < j + 1 {
                    x
                } else {
                    x + 1
                }) by {
                    assert(self.row_bytes(x) == prior.row_bytes(x));
                    if x < j {
                        assert(prior.row_bytes(x) != prior.row_bytes(j as int));
                    }
                    if x > j {
                        assert(prior.row_bytes(j as int) != prior.row_bytes(x));
                    }
                }
                assert forall|x: int, y: int|
                    0 <= x < y < self.rows@.len() implies #[trigger] self.row_bytes(x)
                    != #[trigger] self.row_bytes(y) by {
                    assert(prior.row_bytes(x) != prior.row_bytes(y));
                }
                assert forall|b: Seq<u8>| #[trigger]
                    index_entries(self.index).dom().contains(b) implies exists|x: int|
                    0 <= x < self.rows@.len() && #[trigger] self.row_bytes(x) == b by {
                    if b == mb {
                        assert(self.row_bytes(j as int) == b);
                    } else {
                        let x = choose|x: int|
                            0 <= x < prior.rows@.len() && #[trigger] prior.row_bytes(x) == b;
                        assert(self.row_bytes(x) == b);
                    }
                }
            }
            j += 1;
        }
        proof {
            assert forall|b: Seq<u8>| #[trigger]
                index_entries(self.index).dom().contains(b) implies index_entries(self.index)[b]
                < self.rows@.len() && self.row_bytes(index_entries(self.index)[b] as int) == b by {
                let x = choose|x: int|
                    0 <= x < self.rows@.len() && #[trigger] self.row_bytes(x) == b;
            }
            assert(self.indexed());
            assert forall|a: int, b: int| 0 <= a < b < self.rows@.len() implies
                #[trigger] self.rows@[a].0.key() != #[trigger] self.rows@[b].0.key() by {
                let x = if a < i { a } else { a + 1 };
                let y = if b < i { b } else { b + 1 };
                assert(before.rows@[x].0.key() != before.rows@[y].0.key());
            }
            assert forall|q: A::K| self.has(q) == (before.has(q) && q != kk) by {
                if before.has(q) && q != kk {
                    let j = before.row_of(q);
                    let x = if j < i { j } else { j - 1 };
                    assert(before.rows@[j].0.key() == q);
                    assert(self.rows@[x].0.key() == q);
                }
                if self.has(q) {
                    let j = self.row_of(q);
                    let x = if j < i { j } else { j + 1 };
                    assert(before.rows@[x].0.key() == q);
                }
            }
            assert forall|q: A::K| self.has(q) implies self@[q] == before@.remove(kk)[q] by {
                let j = self.row_of(q);
                assert(self.rows@[j].0.key() == q);
                let x = if j < i { j } else { j + 1 };
                assert(before.rows@[x].0.key() == q);
                before.lemma_row(x);
            }
            assert(self@ =~= before@.remove(kk));
        }
        row.1
    }

    /// Removes what is stored under a key, and hands it back.
    pub fn remove(&mut self, k: &A) -> (out: Option<V>)
        requires
            old(self).wf(),
        ensures
            final(self).wf(),
            final(self)@ == old(self)@.remove(k.key()),
            match out {
                Some(v) => old(self)@.dom().contains(k.key()) && v.deep_view() == old(self)@[k.key()],
                None => !old(self)@.dom().contains(k.key()),
            },
            match out {
                Some(v) => exists|i: int|
                    0 <= i < old(self).rows@.len() && v == (#[trigger] old(self).rows@[i]).1,
                None => true,
            },
            forall|i: int|
                0 <= i < final(self).rows@.len() ==> old(self).rows@.contains(
                    #[trigger] final(self).rows@[i],
                ),
    {
        let ghost before = *self;
        match self.find(k) {
            Some(i) => {
                let v = self.remove_at(i);
                proof {
                    assert forall|j: int|
                        0 <= j < self.rows@.len() implies before.rows@.contains(
                        #[trigger] self.rows@[j],
                    ) by {
                        let x = if j < i {
                            j
                        } else {
                            j + 1
                        };
                        assert(self.rows@[j] == before.rows@[x]);
                    }
                    assert(v == before.rows@[i as int].1);
                }
                Some(v)
            },
            None => {
                assert(self@ =~= before@.remove(k.key()));
                assert forall|j: int| 0 <= j < self.rows@.len() implies before.rows@.contains(
                    #[trigger] self.rows@[j],
                ) by {
                    assert(self.rows@[j] == before.rows@[j]);
                }
                None
            },
        }
    }

    /// Number of rows.
    pub fn len(&self) -> (n: usize)
        requires
            self.wf(),
        ensures
            n == self.rows@.len(),
            n == self@.dom().len(),
            self@.dom().finite(),
    {
        proof {
            self.lemma_len();
        }
        self.rows.len()
    }
}

/// Two parts whose first ones are as long tell what they are put together from.
proof fn lemma_split_bytes(a: Seq<u8>, b: Seq<u8>, c: Seq<u8>, d: Seq<u8>)
    requires
        a + b == c + d,
        a.len() == c.len(),
    ensures
        a == c,
        b == d,
{
    assert(a =~= (a + b).take(a.len() as int));
    assert(c =~= (c + d).take(c.len() as int));
    assert(b =~= (a + b).skip(a.len() as int));
    assert(d =~= (c + d).skip(c.len() as int));
}

proof fn lemma_be_len(v: int, n: nat)
    ensures
        be_bytes(v, n).len() == n,
    decreases n,
{
    if n > 0 {
        lemma_be_len(v / 256, (n - 1) as nat);
    }
}

/// Different numbers have different bytes.
proof fn lemma_be_injective(v: int, w: int, n: nat)
    requires
        0 <= v < pow256(n),
        0 <= w < pow256(n),
        be_bytes(v, n) == be_bytes(w, n),
    ensures
        v == w,
    decreases n,
{
    if n > 0 {
        let a = be_bytes(v / 256, (n - 1) as nat);
        let b = be_bytes(w / 256, (n - 1) as nat);
        assert(be_bytes(v, n).drop_last() =~= a);
        assert(be_bytes(w, n).drop_last() =~= b);
        assert(be_bytes(v, n).last() == be_bytes(w, n).last());
        assert(be_bytes(v, n).last() == (v % 256) as u8);
        assert(be_bytes(w, n).last() == (w % 256) as u8);
        assert(v % 256 == w % 256);
        lemma_be_injective(v / 256, w / 256, (n - 1) as nat);
        assert(v == 256 * (v / 256) + v % 256);
        assert(w == 256 * (w / 256) + w % 256);
    }
}

proof fn lemma_eight(v: u64, w: u64)
    requires
        be_bytes(v as int, 8) == be_bytes(w as int, 8),
    ensures
        v == w,
{
    reveal_with_fuel(pow256, 9);
    assert(pow256(8) == 0x1_0000_0000_0000_0000);
    lemma_be_injective(v as int, w as int, 8);
}

spec fn pow256(n: nat) -> int
    decreases n,
{
    if n == 0 {
        1
    } else {
        256 * pow256((n - 1) as nat)
    }
}

impl TableKey for String {
    type K = Seq<char>;

    open spec fn key(&self) -> Seq<char> {
        self@
    }

    open spec fn key_bytes(k: Seq<char>) -> Seq<u8> {
        encode_utf8(k)
    }

    fn to_bytes(&self) -> (out: Vec<u8>) {
        copy_bytes(self.as_str().as_bytes())
    }

    proof fn lemma_key_bytes(&self, other: &Self) {
        if encode_utf8(self@) == encode_utf8(other@) {
            crate::text::lemma_utf8_injective(self@, other@);
        }
    }
}

/// A namespace and the hash of a name in it.
pub struct ScopedKey {
    pub scope: [u8; 16],
    pub item: u64,
}

impl TableKey for ScopedKey {
    type K = (Seq<u8>, u64);

    open spec fn key(&self) -> (Seq<u8>, u64) {
        (self.scope@, self.item)
    }

    open spec fn key_bytes(k: (Seq<u8>, u64)) -> Seq<u8> {
        k.0 + be_bytes(k.1 as int, 8)
    }

    fn to_bytes(&self) -> (out: Vec<u8>) {
        let mut out = copy_bytes(self.scope.as_slice());
        append_bytes(&mut out, big_endian(self.item, 8).as_slice());
        out
    }

    proof fn lemma_key_bytes(&self, other: &Self) {
        let a = Self::key_bytes(self.key());
        let b = Self::key_bytes(other.key());
        if a == b {
            lemma_split_bytes(self.scope@, be_bytes(self.item as int, 8), other.scope@, be_bytes(other.item as int, 8));
            lemma_eight(self.item, other.item);
        }
    }
}

/// Two hashes.
pub struct PairKey(pub u64, pub u64);

impl TableKey for PairKey {
    type K = (u64, u64);

    open spec fn key(&self) -> (u64, u64) {
        (self.0, self.1)
    }

    open spec fn key_bytes(k: (u64, u64)) -> Seq<u8> {
        be_bytes(k.0 as int, 8) + be_bytes(k.1 as int, 8)
    }

    fn to_bytes(&self) -> (out: Vec<u8>) {
        let mut out = big_endian(self.0, 8);
        append_bytes(&mut out, big_endian(self.1, 8).as_slice());
        out
    }

    proof fn lemma_key_bytes(&self, other: &Self) {
        let a = Self::key_bytes(self.key());
        let b = Self::key_bytes(other.key());
        if a == b {
            lemma_be_len(self.0 as int, 8);
            lemma_be_len(other.0 as int, 8);
            lemma_split_bytes(
                be_bytes(self.0 as int, 8),
                be_bytes(self.1 as int, 8),
                be_bytes(other.0 as int, 8),
                be_bytes(other.1 as int, 8),
            );
            lemma_eight(self.0, other.0);
            lemma_eight(self.1, other.1);
        }
    }
}

/// A namespace and two hashes.
pub struct TripleKey(pub [u8; 16], pub u64, pub u64);

impl TableKey for TripleKey {
    type K = (Seq<u8>, u64, u64);

    open spec fn key(&self) -> (Seq<u8>, u64, u64) {
        (self.0@, self.1, self.2)
    }

    open spec fn key_bytes(k: (Seq<u8>, u64, u64)) -> Seq<u8> {
        k.0 + (be_bytes(k.1 as int, 8) + be_bytes(k.2 as int, 8))
    }

    fn to_bytes(&self) -> (out: Vec<u8>) {
        let mut tail = big_endian(self.1, 8);
        append_bytes(&mut tail, big_endian(self.2, 8).as_slice());
        let mut out = copy_bytes(self.0.as_slice());
        append_bytes(&mut out, tail.as_slice());
        out
    }

    proof fn lemma_key_bytes(&self, other: &Self) {
        let a = Self::key_bytes(self.key());
        let b = Self::key_bytes(other.key());
        if a == b {
            let x = be_bytes(self.1 as int, 8);
            let y = be_bytes(other.1 as int, 8);
            lemma_be_len(self.1 as int, 8);
            lemma_be_len(other.1 as int, 8);
            lemma_split_bytes(
                self.0@,
                x + be_bytes(self.2 as int, 8),
                other.0@,
                y + be_bytes(other.2 as int, 8),
            );
            lemma_split_bytes(x, be_bytes(self.2 as int, 8), y, be_bytes(other.2 as int, 8));
            lemma_eight(self.1, other.1);
            lemma_eight(self.2, other.2);
        }
    }
}

/// Bytes stand for themselves, however deep they are viewed.
pub broadcast proof fn lemma_deep_bytes(v: Vec<u8>)
    ensures
        #[trigger] v.deep_view() == v@,
{
    assert(v.deep_view() =~= v@);
}

/// Sixteen bytes stand for themselves, however deep they are viewed.
pub broadcast proof fn lemma_deep_sixteen(v: [u8; 16])
    ensures
        #[trigger] v.deep_view() == v@,
{
    assert(v.deep_view() =~= v@);
}

impl TableKey for [u8; 16] {
    type K = Seq<u8>;

    open spec fn key(&self) -> Seq<u8> {
        self@
    }

    open spec fn key_bytes(k: Seq<u8>) -> Seq<u8> {
        k
    }

    fn to_bytes(&self) -> (out: Vec<u8>) {
        copy_bytes(self.as_slice())
    }

    proof fn lemma_key_bytes(&self, other: &Self) {
    }
}

impl TableKey for [u8; 36] {
    type K = Seq<u8>;

    open spec fn key(&self) -> Seq<u8> {
        self@
    }

    open spec fn key_bytes(k: Seq<u8>) -> Seq<u8> {
        k
    }

    fn to_bytes(&self) -> (out: Vec<u8>) {
        copy_bytes(self.as_slice())
    }

    proof fn lemma_key_bytes(&self, other: &Self) {
    }
}

impl TableKey for u64 {
    type K = u64;

    open spec fn key(&self) -> u64 {
        *self
    }

    open spec fn key_bytes(k: u64) -> Seq<u8> {
        be_bytes(k as int, 8)
    }

    fn to_bytes(&self) -> (out: Vec<u8>) {
        big_endian(*self, 8)
    }

    proof fn lemma_key_bytes(&self, other: &Self) {
        if be_bytes(*self as int, 8) == be_bytes(*other as int, 8) {
            lemma_eight(*self, *other);
        }
    }
}

} // verus!
