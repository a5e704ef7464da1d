//! A pack that was generated is taken back.

use vstd::prelude::*;

use crate::git::delta::{delta_result, DeltaFault};
use crate::git::envelope::{
    envelope_of, envelope_parts, hash_axis, hash_name, law_envelope_roundtrip, object_kappa,
};
use crate::git::ingest::{
    delta_object, entries_taken, entry_taken, no_progress, pack_taken, streamable, HeaderView,
    IngestFault, Progress,
};
use crate::git::layout::{
    is_pack_of, item_at, item_plain, items_bytes, items_entries, law_envelope_head, lemma_item_at,
    PackItem,
};
use crate::git::object::{HashKind, Kind};
use crate::git::packgen::{
    delta_choice, envelope_head, kind_type, law_delta_choice, law_pack_order, object_written,
    objects_found, objects_written, pack_header, pack_order, pack_written, sorted_pack_written,
    sorted_written, window_after, ObjectView, PackGenFault, Recent, DELTA_WINDOW,
};
use crate::git::packheader::entry_header;
use crate::git::zlib::{deflated_of, inflated_of};
use crate::store::state::StoreState;

verus! {

/// What stands at addresses.
pub type Blobs = Map<Seq<char>, Seq<u8>>;

/// The object that is stored at an address.
pub open spec fn object_at(blobs: Blobs, kappa: Seq<char>) -> (Kind, Seq<u8>) {
    envelope_parts(blobs[kappa])->Ok_0
}

/// Whether an object is stored at its address, small enough to be taken in.
pub open spec fn holds_object(blobs: Blobs, hash: HashKind, kappa: Seq<char>) -> bool {
    let (kind, content) = object_at(blobs, kappa);
    &&& blobs.dom().contains(kappa)
    &&& blobs[kappa] == envelope_of(kind, content)
    &&& object_kappa(hash, kind, content) == Some(kappa)
    &&& content.len() <= u64::MAX
    &&& streamable(kind, content.len())
}

/// Whether every address holds its object.
pub open spec fn hold_objects(blobs: Blobs, hash: HashKind, kappas: Seq<Seq<char>>) -> bool {
    forall|i: int| 0 <= i < kappas.len() ==> holds_object(blobs, hash, #[trigger] kappas[i])
}

/// Whether what stands at the addresses here, if anything, stands there too.
pub open spec fn agrees(here: Blobs, there: Blobs, kappas: Seq<Seq<char>>) -> bool {
    forall|i: int|
        0 <= i < kappas.len() && here.dom().contains(#[trigger] kappas[i]) ==> here[kappas[i]]
            == there[kappas[i]]
}

/// Whether the addresses hold here what they hold there.
pub open spec fn restored(here: Blobs, there: Blobs, kappas: Seq<Seq<char>>) -> bool {
    forall|i: int|
        0 <= i < kappas.len() ==> here.dom().contains(#[trigger] kappas[i]) && here[kappas[i]]
            == there[kappas[i]]
}

/// Whether data is compressed to a stream that decompresses to it again.
pub open spec fn recoverable(data: Seq<u8>) -> bool {
    deflated_of(data) matches Some(stream) && inflated_of(stream) == Some(data)
}

/// Whether an entry stands for the object at its address: in full, or as a delta
/// to the object of an entry before it.
pub open spec fn item_stands(
    blobs: Blobs,
    items: Seq<PackItem>,
    kappas: Seq<Seq<char>>,
    i: int,
) -> bool {
    let (kind, content) = object_at(blobs, kappas[i]);
    &&& inflated_of(items[i].stream) == Some(items[i].data)
    &&& items[i].data.len() <= u64::MAX
    &&& match items[i].header {
        HeaderView::Object(k) => k == kind && items[i].data == content,
        HeaderView::OfsDelta(distance) => exists|j: int|
            0 <= j < i && item_at(items, j) == item_at(items, i) - distance && object_at(
                blobs,
                #[trigger] kappas[j],
            ).0 == kind && delta_result(object_at(blobs, kappas[j]).1, items[i].data) == Ok::<
                Seq<u8>,
                DeltaFault,
            >(content),
        HeaderView::RefDelta(_) => false,
    }
}

/// How far entries have been taken in: each of the first `n` objects is stored
/// and found by where its entry begins.
spec fn taken_so_far(
    p: Progress,
    blobs: Blobs,
    items: Seq<PackItem>,
    kappas: Seq<Seq<char>>,
    n: int,
) -> bool {
    &&& agrees(p.st.blobs, blobs, kappas)
    &&& restored(p.st.blobs, blobs, kappas.take(n))
    &&& forall|j: int| 0 <= j < n ==> #[trigger] found_at(p, items, kappas, j)
}

/// Whether an object is found by where its entry begins.
spec fn found_at(p: Progress, items: Seq<PackItem>, kappas: Seq<Seq<char>>, j: int) -> bool {
    &&& p.offsets.dom().contains(item_at(items, j) as u64)
    &&& p.offsets[item_at(items, j) as u64] == kappas[j]
}

/// An object's address is not the address of something by SHA-256, where objects
/// are named by SHA-1.
proof fn lemma_axes_apart(kind: Kind, content: Seq<u8>, other: Seq<u8>)
    ensures
        object_kappa(HashKind::Sha1, kind, content) != Some(crate::kappa::kappa_of(other)),
{
    reveal_strlit("sha1");
    reveal_strlit("sha256");
    if let Some(kappa) = object_kappa(HashKind::Sha1, kind, content) {
        assert(kappa[3] == hash_name(HashKind::Sha1)[3]);
        assert(crate::kappa::kappa_of(other)[3] == crate::kappa::axis_name(
            crate::kappa::Axis::Sha256,
        )[3]);
    }
}

/// Storing one more object keeps what was stored.
proof fn lemma_object_stored(
    st: StoreState,
    blobs: Blobs,
    hash: HashKind,
    kappas: Seq<Seq<char>>,
    n: int,
)
    requires
        0 <= n < kappas.len(),
        hold_objects(blobs, hash, kappas),
        agrees(st.blobs, blobs, kappas),
        restored(st.blobs, blobs, kappas.take(n)),
    ensures
        ({
            let after = st.ingested(hash_axis(hash), kappas[n], blobs[kappas[n]]);
            &&& agrees(after.blobs, blobs, kappas)
            &&& restored(after.blobs, blobs, kappas.take(n + 1))
        }),
{
    let content = blobs[kappas[n]];
    let after = st.ingested(hash_axis(hash), kappas[n], content);
    let first = st.put_blob(kappas[n], content);
    if hash == HashKind::Sha1 {
        assert forall|i: int| 0 <= i < kappas.len() implies #[trigger] kappas[i]
            != crate::kappa::kappa_of(content) by {
            let o = object_at(blobs, kappas[i]);
            assert(holds_object(blobs, hash, kappas[i]));
            lemma_axes_apart(o.0, o.1, content);
        }
    }
    assert forall|i: int| 0 <= i < kappas.len() implies after.blobs.dom().contains(
        #[trigger] kappas[i],
    ) == first.blobs.dom().contains(kappas[i]) && after.blobs[kappas[i]]
        == first.blobs[kappas[i]] by {}
    assert forall|i: int| 0 <= i < n + 1 implies after.blobs.dom().contains(
        #[trigger] kappas.take(n + 1)[i],
    ) && after.blobs[kappas.take(n + 1)[i]] == blobs[kappas.take(n + 1)[i]] by {
        assert(kappas.take(n + 1)[i] == kappas[i]);
        if i < n {
            assert(kappas.take(n)[i] == kappas[i]);
        }
    }
}

/// What an entry stands for is stored, and found by where the entry begins.
proof fn lemma_item_resolved(
    p: Progress,
    hash: HashKind,
    blobs: Blobs,
    items: Seq<PackItem>,
    kappas: Seq<Seq<char>>,
    n: int,
)
    requires
        0 <= n < items.len(),
        items.len() == kappas.len(),
        hold_objects(blobs, hash, kappas),
        item_stands(blobs, items, kappas, n),
        item_at(items, n) <= u64::MAX,
        taken_so_far(p, blobs, items, kappas, n),
    ensures
        entry_taken(p, hash, items_entries(items)[n]) matches Ok(q) && q.st == p.st.ingested(
            hash_axis(hash),
            kappas[n],
            blobs[kappas[n]],
        ) && q.offsets == p.offsets.insert(item_at(items, n) as u64, kappas[n]),
{
    let o = object_at(blobs, kappas[n]);
    assert(holds_object(blobs, hash, kappas[n]));
    match items[n].header {
        HeaderView::OfsDelta(distance) => {
            let j = choose|j: int|
                0 <= j < n && item_at(items, j) == item_at(items, n) - distance && object_at(
                    blobs,
                    #[trigger] kappas[j],
                ).0 == o.0 && delta_result(object_at(blobs, kappas[j]).1, items[n].data) == Ok::<
                    Seq<u8>,
                    DeltaFault,
                >(o.1);
            assert(holds_object(blobs, hash, kappas[j]));
            assert(kappas.take(n)[j] == kappas[j]);
            assert(found_at(p, items, kappas, j));
            let b = object_at(blobs, kappas[j]);
            law_envelope_roundtrip(b.0, b.1);
            assert(delta_object(p.st.blobs, kappas[j], items[n].stream, items[n].data.len() as u64)
                == Ok::<(Kind, Seq<u8>), IngestFault>(o));
        },
        _ => {},
    }
}

/// One more object is stored and found by where its entry begins.
proof fn lemma_place_added(
    p: Progress,
    q: Progress,
    hash: HashKind,
    blobs: Blobs,
    items: Seq<PackItem>,
    kappas: Seq<Seq<char>>,
    n: int,
)
    requires
        0 <= n < items.len(),
        items.len() == kappas.len(),
        hold_objects(blobs, hash, kappas),
        12 + items_bytes(items).len() <= u64::MAX,
        taken_so_far(p, blobs, items, kappas, n),
        q.st == p.st.ingested(hash_axis(hash), kappas[n], blobs[kappas[n]]),
        q.offsets == p.offsets.insert(item_at(items, n) as u64, kappas[n]),
    ensures
        taken_so_far(q, blobs, items, kappas, n + 1),
{
    lemma_item_at(items, n, items.len() as int);
    lemma_object_stored(p.st, blobs, hash, kappas, n);
    assert forall|j: int| 0 <= j < n + 1 implies #[trigger] found_at(q, items, kappas, j) by {
        if j < n {
            lemma_item_at(items, j, n);
            assert(found_at(p, items, kappas, j));
        }
    }
}

/// Entries that stand for objects are taken in, one after the other.
proof fn lemma_items_taken(
    st: StoreState,
    hash: HashKind,
    blobs: Blobs,
    items: Seq<PackItem>,
    kappas: Seq<Seq<char>>,
    n: int,
)
    requires
        0 <= n <= items.len(),
        items.len() == kappas.len(),
        hold_objects(blobs, hash, kappas),
        forall|i: int| 0 <= i < items.len() ==> #[trigger] item_stands(blobs, items, kappas, i),
        12 + items_bytes(items).len() <= u64::MAX,
        agrees(st.blobs, blobs, kappas),
    ensures
        ({
            let (p, fault) = entries_taken(no_progress(st), hash, items_entries(items).take(n));
            fault is None && taken_so_far(p, blobs, items, kappas, n)
        }),
    decreases n,
{
    let entries = items_entries(items);
    if n > 0 {
        lemma_items_taken(st, hash, blobs, items, kappas, n - 1);
        let p = entries_taken(no_progress(st), hash, entries.take(n - 1)).0;
        assert(entries.take(n).drop_last() =~= entries.take(n - 1));
        assert(item_stands(blobs, items, kappas, n - 1));
        lemma_item_at(items, n - 1, items.len() as int);
        lemma_item_resolved(p, hash, blobs, items, kappas, n - 1);
        let q = entries_taken(no_progress(st), hash, entries.take(n)).0;
        lemma_place_added(p, q, hash, blobs, items, kappas, n - 1);
    }
}

// -- Packs of objects in full -----------------------------------------------------

/// The entry that an object is written as in full.
pub open spec fn full_item(object: (Kind, Seq<u8>)) -> PackItem {
    PackItem {
        header: HeaderView::Object(object.0),
        data: object.1,
        stream: deflated_of(object.1)->0,
    }
}

/// The entries that objects are written as in full.
pub open spec fn full_items(blobs: Blobs, kappas: Seq<Seq<char>>) -> Seq<PackItem> {
    Seq::new(kappas.len(), |i: int| full_item(object_at(blobs, kappas[i])))
}

/// Whether a pack is what generating one out of objects writes, each in full.
pub open spec fn is_full_pack(
    hash: HashKind,
    pack: Seq<u8>,
    blobs: Blobs,
    kappas: Seq<Seq<char>>,
) -> bool {
    &&& kappas.len() <= u32::MAX
    &&& pack.len() <= u64::MAX
    &&& hold_objects(blobs, hash, kappas)
    &&& contents_recoverable(blobs, kappas)
    &&& pack_written(blobs, kappas, hash) == (pack, None::<PackGenFault>)
}

/// Whether the content behind the heads of stored objects can be decompressed
/// again.
pub open spec fn contents_recoverable(blobs: Blobs, kappas: Seq<Seq<char>>) -> bool {
    forall|i: int|
        0 <= i < kappas.len() ==> (envelope_head(blobs[#[trigger] kappas[i]]) matches Ok(head)
            ==> recoverable(blobs[kappas[i]].skip(head.2)))
}

/// Whether the data of all entries can be decompressed again.
pub open spec fn all_recoverable(items: Seq<PackItem>) -> bool {
    forall|i: int| 0 <= i < items.len() ==> recoverable((#[trigger] items[i]).data)
}

/// Objects that are written in full are written as their entries.
proof fn lemma_full_bytes(blobs: Blobs, hash: HashKind, kappas: Seq<Seq<char>>)
    requires
        hold_objects(blobs, hash, kappas),
        objects_written(blobs, kappas).1 is None,
    ensures
        objects_written(blobs, kappas).0 == items_bytes(full_items(blobs, kappas)),
    decreases kappas.len(),
{
    let items = full_items(blobs, kappas);
    if kappas.len() > 0 {
        let front = kappas.drop_last();
        let last = kappas.len() - 1;
        assert forall|i: int| 0 <= i < front.len() implies holds_object(
            blobs,
            hash,
            #[trigger] front[i],
        ) by {
            assert(holds_object(blobs, hash, kappas[i]));
        }
        lemma_full_bytes(blobs, hash, front);
        assert(holds_object(blobs, hash, kappas[last]));
        let (kind, content) = object_at(blobs, kappas[last]);
        law_envelope_head(kind, content);
        assert(items.drop_last() =~= full_items(blobs, front));
        let before = objects_written(blobs, front).0;
        let head = entry_header(kind_type(kind), content.len());
        let stream = deflated_of(content)->0;
        assert(items.last() == full_item((kind, content)));
        assert(before + head + stream =~= before + (head + Seq::<u8>::empty() + stream));
    }
}

/// Objects packed in full are taken back out of the pack: every one is stored
/// again at its address. What stands at one of the addresses before has to be
/// the same.
pub proof fn law_full_pack_restored(
    st: StoreState,
    hash: HashKind,
    pack: Seq<u8>,
    blobs: Blobs,
    kappas: Seq<Seq<char>>,
)
    requires
        is_full_pack(hash, pack, blobs, kappas),
        agrees(st.blobs, blobs, kappas),
    ensures
        is_pack_of(hash, pack, full_items(blobs, kappas)),
        ({
            let (p, fault) = pack_taken(st, hash, items_entries(full_items(blobs, kappas)), false);
            fault is None && restored(p.st.blobs, blobs, kappas)
        }),
{
    let items = full_items(blobs, kappas);
    let entries = items_entries(items);
    lemma_full_bytes(blobs, hash, kappas);
    lemma_header_len(kappas.len());
    assert forall|i: int| 0 <= i < items.len() implies item_plain(#[trigger] items[i])
        && recoverable(items[i].data) by {
        assert(holds_object(blobs, hash, kappas[i]));
        let (kind, content) = object_at(blobs, kappas[i]);
        law_envelope_head(kind, content);
    }
    assert forall|i: int| 0 <= i < items.len() implies #[trigger] item_stands(
        blobs,
        items,
        kappas,
        i,
    ) by {
        assert(item_plain(items[i]));
    }
    lemma_items_taken(st, hash, blobs, items, kappas, items.len() as int);
    assert(entries.take(items.len() as int) =~= entries);
    assert(kappas.take(items.len() as int) =~= kappas);
}

proof fn lemma_header_len(count: nat)
    ensures
        pack_header(count).len() == 12,
{
    reveal_with_fuel(crate::types::be_bytes, 5);
}

// -- Sorted packs -------------------------------------------------------------------

/// The entry that an object is written as behind `before` bytes.
pub open spec fn sorted_item(before: nat, window: Seq<Recent>, object: (Kind, Seq<u8>)) -> PackItem {
    match delta_choice(window, object.0, object.1) {
        Some((delta, base)) => PackItem {
            header: HeaderView::OfsDelta((before - base) as u64),
            data: delta,
            stream: deflated_of(delta)->0,
        },
        None => full_item(object),
    }
}

/// The entries that objects are written as in a sorted pack.
pub open spec fn sorted_items(blobs: Blobs, header: Seq<u8>, list: Seq<ObjectView>) -> Seq<PackItem>
    decreases list.len(),
{
    if list.len() == 0 {
        Seq::empty()
    } else {
        let (before, window) = sorted_written(blobs, header, list.drop_last());
        sorted_items(blobs, header, list.drop_last()).push(
            sorted_item(before.0.len(), window, object_at(blobs, list.last().kappa)),
        )
    }
}

/// Where an object of the window was written.
spec fn was_written(
    blobs: Blobs,
    items: Seq<PackItem>,
    kappas: Seq<Seq<char>>,
    recent: Recent,
    j: int,
) -> bool {
    &&& 0 <= j < items.len()
    &&& object_at(blobs, kappas[j]) == (recent.0, recent.1)
    &&& item_at(items, j) == recent.2
}

/// Whether the window holds objects that were written.
spec fn window_written(
    blobs: Blobs,
    items: Seq<PackItem>,
    kappas: Seq<Seq<char>>,
    window: Seq<Recent>,
) -> bool {
    forall|w: int|
        0 <= w < window.len() ==> recent_written(blobs, items, kappas, #[trigger] window[w])
}

/// Whether an object was written.
spec fn recent_written(
    blobs: Blobs,
    items: Seq<PackItem>,
    kappas: Seq<Seq<char>>,
    recent: Recent,
) -> bool {
    exists|j: int| was_written(blobs, items, kappas, recent, j)
}

/// Whether the objects of a list stand at the addresses, one by one.
spec fn listed(list: Seq<ObjectView>, kappas: Seq<Seq<char>>) -> bool {
    &&& list.len() == kappas.len()
    &&& forall|i: int| 0 <= i < list.len() ==> (#[trigger] list[i]).kappa == kappas[i]
}

/// Objects written into a sorted pack are written as their entries.
spec fn laid_out(blobs: Blobs, header: Seq<u8>, list: Seq<ObjectView>, kappas: Seq<Seq<char>>) -> bool {
    let (written, window) = sorted_written(blobs, header, list);
    let items = sorted_items(blobs, header, list);
    &&& written.0 == header + items_bytes(items)
    &&& items.len() == list.len()
    &&& window_written(blobs, items, kappas, window)
    &&& forall|i: int| 0 <= i < items.len() ==> #[trigger] item_stands(blobs, items, kappas, i)
    &&& forall|i: int| 0 <= i < items.len() ==> item_plain(#[trigger] items[i])
}

/// An entry stands for its object whatever follows.
proof fn lemma_stands_on(
    blobs: Blobs,
    items: Seq<PackItem>,
    next: PackItem,
    kappas: Seq<Seq<char>>,
    i: int,
)
    requires
        0 <= i < items.len(),
        items.len() < kappas.len(),
        item_stands(blobs, items, kappas.drop_last(), i),
        items.len() + 1 == kappas.len(),
    ensures
        item_stands(blobs, items.push(next), kappas, i),
{
    let more = items.push(next);
    let front = kappas.drop_last();
    assert(more.take(i) =~= items.take(i));
    assert(front[i] == kappas[i]);
    match items[i].header {
        HeaderView::OfsDelta(distance) => {
            let (kind, content) = object_at(blobs, kappas[i]);
            let j = choose|j: int|
                0 <= j < i && item_at(items, j) == item_at(items, i) - distance && object_at(
                    blobs,
                    #[trigger] front[j],
                ).0 == kind && delta_result(object_at(blobs, front[j]).1, items[i].data) == Ok::<
                    Seq<u8>,
                    DeltaFault,
                >(content);
            assert(more.take(j) =~= items.take(j));
            assert(front[j] == kappas[j]);
        },
        _ => {},
    }
}

/// The window still holds objects that were written after one more.
proof fn lemma_window_on(
    blobs: Blobs,
    items: Seq<PackItem>,
    next: PackItem,
    kappas: Seq<Seq<char>>,
    window: Seq<Recent>,
    recent: Recent,
)
    requires
        items.len() + 1 == kappas.len(),
        window_written(blobs, items, kappas.drop_last(), window),
        object_at(blobs, kappas.last()) == (recent.0, recent.1),
        item_at(items, items.len() as int) == recent.2,
    ensures
        window_written(blobs, items.push(next), kappas, window_after(window, recent)),
{
    let more = items.push(next);
    let front = kappas.drop_last();
    let all = window.push(recent);
    assert forall|w: int| 0 <= w < all.len() implies recent_written(
        blobs,
        more,
        kappas,
        #[trigger] all[w],
    ) by {
        if w < window.len() {
            assert(recent_written(blobs, items, front, window[w]));
            let j = choose|j: int| was_written(blobs, items, front, window[w], j);
            assert(more.take(j) =~= items.take(j));
            assert(front[j] == kappas[j]);
            assert(was_written(blobs, more, kappas, all[w], j));
        } else {
            let j = items.len() as int;
            assert(more.take(j) =~= items.take(j));
            assert(was_written(blobs, more, kappas, all[w], j));
        }
    }
    let after = window_after(window, recent);
    assert forall|w: int| 0 <= w < after.len() implies recent_written(
        blobs,
        more,
        kappas,
        #[trigger] after[w],
    ) by {
        if all.len() > DELTA_WINDOW {
            assert(after[w] == all[w + 1]);
        } else {
            assert(after[w] == all[w]);
        }
    }
}

/// An object that is written stands behind those before it as its entry.
proof fn lemma_item_stands(
    blobs: Blobs,
    items: Seq<PackItem>,
    kappas: Seq<Seq<char>>,
    before: nat,
    window: Seq<Recent>,
)
    requires
        items.len() + 1 == kappas.len(),
        item_at(items, items.len() as int) == before,
        before < 0x100_0000_0000_0000,
        window_written(blobs, items, kappas.drop_last(), window),
        forall|i: int|
            0 <= i < kappas.len() ==> object_at(blobs, #[trigger] kappas[i]).1.len() <= u64::MAX,
        recoverable(sorted_item(before, window, object_at(blobs, kappas.last())).data),
    ensures
        ({
            let next = sorted_item(before, window, object_at(blobs, kappas.last()));
            &&& item_stands(blobs, items.push(next), kappas, items.len() as int)
            &&& item_plain(next)
            &&& next.header matches HeaderView::OfsDelta(distance) ==> distance == before - (
            delta_choice(
                window,
                object_at(blobs, kappas.last()).0,
                object_at(blobs, kappas.last()).1,
            )->0).1
        }),
{
    let n = items.len() as int;
    let (kind, content) = object_at(blobs, kappas.last());
    let next = sorted_item(before, window, (kind, content));
    let more = items.push(next);
    let front = kappas.drop_last();
    assert(kappas[n] == kappas.last());
    assert(more.take(n) =~= items.take(n));
    if let Some((delta, base)) = delta_choice(window, kind, content) {
        law_delta_choice(window, kind, content);
        let w = choose|w: int|
            0 <= w < window.len() && (#[trigger] window[w]).0 == kind && window[w].2 == base
                && delta_result(window[w].1, delta) == Ok::<Seq<u8>, DeltaFault>(content);
        assert(recent_written(blobs, items, front, window[w]));
        let j = choose|j: int| was_written(blobs, items, front, window[w], j);
        assert(front[j] == kappas[j]);
        assert(more.take(j) =~= items.take(j));
        lemma_item_at(items, j, n);
        assert(object_at(blobs, kappas[j]).0 == kind);
    }
}

/// What holds of a list holds without its last object.
proof fn lemma_fewer(
    blobs: Blobs,
    hash: HashKind,
    header: Seq<u8>,
    list: Seq<ObjectView>,
    kappas: Seq<Seq<char>>,
)
    requires
        list.len() > 0,
        listed(list, kappas),
        hold_objects(blobs, hash, kappas),
        all_recoverable(sorted_items(blobs, header, list)),
    ensures
        listed(list.drop_last(), kappas.drop_last()),
        hold_objects(blobs, hash, kappas.drop_last()),
        all_recoverable(sorted_items(blobs, header, list.drop_last())),
{
    let front = kappas.drop_last();
    let items = sorted_items(blobs, header, list);
    let earlier = sorted_items(blobs, header, list.drop_last());
    assert forall|i: int| 0 <= i < front.len() implies holds_object(
        blobs,
        hash,
        #[trigger] front[i],
    ) by {
        assert(holds_object(blobs, hash, kappas[i]));
    }
    assert forall|i: int| 0 <= i < list.drop_last().len() implies (
    #[trigger] list.drop_last()[i]).kappa == front[i] by {
        assert(list[i].kappa == kappas[i]);
    }
    assert forall|i: int| 0 <= i < earlier.len() implies recoverable(
        (#[trigger] earlier[i]).data,
    ) by {
        assert(items[i] == earlier[i]);
    }
}

/// The bytes of an object are those of its entry.
proof fn lemma_next_bytes(
    header: Seq<u8>,
    earlier: Seq<PackItem>,
    window: Seq<Recent>,
    kind: Kind,
    content: Seq<u8>,
)
    requires
        object_written(header + items_bytes(earlier), window, kind, content).1 is None,
        ({
            let before = (header + items_bytes(earlier)).len();
            sorted_item(before, window, (kind, content)).header matches HeaderView::OfsDelta(d)
                ==> d == before - (delta_choice(window, kind, content)->0).1
        }),
    ensures
        ({
            let before = header + items_bytes(earlier);
            let next = sorted_item(before.len(), window, (kind, content));
            object_written(before, window, kind, content).0 == header + items_bytes(
                earlier.push(next),
            )
        }),
{
    let before = header + items_bytes(earlier);
    let next = sorted_item(before.len(), window, (kind, content));
    assert(earlier.push(next).drop_last() =~= earlier);
    assert(earlier.push(next).last() == next);
    let written = object_written(before, window, kind, content).0;
    let head = entry_header(crate::git::layout::item_type(next.header), next.data.len())
        + crate::git::layout::item_base(next.header);
    assert(written =~= before + head + next.stream);
    assert(before + head + next.stream =~= header + (items_bytes(earlier) + (head + next.stream)));
}

proof fn lemma_laid_out(
    blobs: Blobs,
    hash: HashKind,
    header: Seq<u8>,
    list: Seq<ObjectView>,
    kappas: Seq<Seq<char>>,
)
    requires
        header.len() == 12,
        listed(list, kappas),
        hold_objects(blobs, hash, kappas),
        all_recoverable(sorted_items(blobs, header, list)),
        (sorted_written(blobs, header, list).0).1 is None,
        (sorted_written(blobs, header, list).0).0.len() < 0x100_0000_0000_0000,
    ensures
        laid_out(blobs, header, list, kappas),
    decreases list.len(),
{
    let items = sorted_items(blobs, header, list);
    if list.len() == 0 {
        assert(header + items_bytes(items) =~= header);
    } else {
        let front = kappas.drop_last();
        let kappa = kappas.last();
        let (written, window) = sorted_written(blobs, header, list.drop_last());
        let before = written.0;
        let earlier = sorted_items(blobs, header, list.drop_last());
        let (kind, content) = object_at(blobs, kappa);
        let next = sorted_item(before.len(), window, (kind, content));
        assert(list.last().kappa == kappa);
        assert(items == earlier.push(next));
        assert(items.drop_last() =~= earlier);
        assert(holds_object(blobs, hash, kappas[kappas.len() - 1]));
        law_envelope_roundtrip(kind, content);
        lemma_fewer(blobs, hash, header, list, kappas);
        lemma_laid_out(blobs, hash, header, list.drop_last(), front);
        assert(earlier.take(earlier.len() as int) =~= earlier);
        assert forall|i: int| 0 <= i < kappas.len() implies object_at(
            blobs,
            #[trigger] kappas[i],
        ).1.len() <= u64::MAX by {
            assert(holds_object(blobs, hash, kappas[i]));
        }
        assert(items[earlier.len() as int] == next);
        lemma_item_stands(blobs, earlier, kappas, before.len(), window);
        let recent = (kind, content, before.len() as u64);
        lemma_window_on(blobs, earlier, next, kappas, window, recent);
        lemma_next_bytes(header, earlier, window, kind, content);
        assert forall|i: int| 0 <= i < items.len() implies #[trigger] item_stands(
            blobs,
            items,
            kappas,
            i,
        ) by {
            if i < earlier.len() {
                assert(item_stands(blobs, earlier, front, i));
                lemma_stands_on(blobs, earlier, next, kappas, i);
            }
        }
        assert forall|i: int| 0 <= i < items.len() implies item_plain(#[trigger] items[i]) by {
            if i < earlier.len() {
                assert(items[i] == earlier[i]);
            }
        }
    }
}

/// The entries of a sorted pack.
pub open spec fn sorted_pack_items(
    blobs: Blobs,
    kappas: Seq<Seq<char>>,
    hints: Map<Seq<char>, Seq<char>>,
) -> Seq<PackItem> {
    let list = pack_order(objects_found(blobs, kappas, hints));
    sorted_items(blobs, pack_header(list.len()), list)
}

/// Whether a pack is what generating a sorted one out of objects writes.
pub open spec fn is_sorted_pack(
    hash: HashKind,
    pack: Seq<u8>,
    blobs: Blobs,
    kappas: Seq<Seq<char>>,
    hints: Map<Seq<char>, Seq<char>>,
) -> bool {
    &&& kappas.len() <= u32::MAX
    &&& pack.len() < 0x100_0000_0000_0000
    &&& hold_objects(blobs, hash, kappas)
    &&& all_recoverable(sorted_pack_items(blobs, kappas, hints))
    &&& sorted_pack_written(blobs, kappas, hints, hash) == (pack, None::<PackGenFault>)
}

/// All objects are found where all are stored.
proof fn lemma_all_found(
    blobs: Blobs,
    hash: HashKind,
    kappas: Seq<Seq<char>>,
    hints: Map<Seq<char>, Seq<char>>,
)
    requires
        hold_objects(blobs, hash, kappas),
    ensures
        listed(objects_found(blobs, kappas, hints), kappas),
    decreases kappas.len(),
{
    if kappas.len() > 0 {
        let front = kappas.drop_last();
        assert forall|i: int| 0 <= i < front.len() implies holds_object(
            blobs,
            hash,
            #[trigger] front[i],
        ) by {
            assert(holds_object(blobs, hash, kappas[i]));
        }
        lemma_all_found(blobs, hash, front, hints);
        let found = objects_found(blobs, kappas, hints);
        let before = objects_found(blobs, front, hints);
        assert(holds_object(blobs, hash, kappas[kappas.len() - 1]));
        let (kind, content) = object_at(blobs, kappas.last());
        law_envelope_roundtrip(kind, content);
        assert forall|i: int| 0 <= i < found.len() implies (#[trigger] found[i]).kappa
            == kappas[i] by {
            if i < before.len() {
                assert(found[i] == before[i]);
                assert(front[i] == kappas[i]);
            }
        }
    }
}

/// The addresses of a list of objects.
spec fn addresses_of(list: Seq<ObjectView>) -> Seq<Seq<char>> {
    Seq::new(list.len(), |i: int| list[i].kappa)
}

/// Putting objects into the order of a pack keeps their addresses.
proof fn lemma_order_addresses(found: Seq<ObjectView>, kappas: Seq<Seq<char>>)
    requires
        listed(found, kappas),
    ensures
        pack_order(found).len() == kappas.len(),
        forall|i: int|
            0 <= i < kappas.len() ==> kappas.contains(#[trigger] addresses_of(pack_order(found))[i]),
        forall|i: int|
            0 <= i < kappas.len() ==> addresses_of(pack_order(found)).contains(#[trigger] kappas[i]),
{
    broadcast use vstd::seq_lib::group_to_multiset_ensures;

    law_pack_order(found);
    let list = pack_order(found);
    let order = addresses_of(list);
    assert forall|i: int| 0 <= i < kappas.len() implies kappas.contains(#[trigger] order[i]) by {
        assert(list.to_multiset().count(list[i]) > 0);
        assert(found.contains(list[i]));
        let k = choose|k: int| 0 <= k < found.len() && found[k] == list[i];
        assert(kappas[k] == order[i]);
    }
    assert forall|i: int| 0 <= i < kappas.len() implies order.contains(#[trigger] kappas[i]) by {
        assert(found.to_multiset().count(found[i]) > 0);
        assert(list.contains(found[i]));
        let k = choose|k: int| 0 <= k < list.len() && list[k] == found[i];
        assert(order[k] == kappas[i]);
    }
}

/// What holds of objects holds of them in another order.
proof fn lemma_reordered(
    st: Blobs,
    blobs: Blobs,
    hash: HashKind,
    kappas: Seq<Seq<char>>,
    order: Seq<Seq<char>>,
)
    requires
        hold_objects(blobs, hash, kappas),
        agrees(st, blobs, kappas),
        forall|i: int| 0 <= i < order.len() ==> kappas.contains(#[trigger] order[i]),
    ensures
        hold_objects(blobs, hash, order),
        agrees(st, blobs, order),
{
    assert forall|i: int| 0 <= i < order.len() implies holds_object(
        blobs,
        hash,
        #[trigger] order[i],
    ) by {
        let a = choose|a: int| 0 <= a < kappas.len() && kappas[a] == order[i];
        assert(holds_object(blobs, hash, kappas[a]));
    }
    assert forall|i: int|
        0 <= i < order.len() && st.dom().contains(#[trigger] order[i]) implies st[order[i]]
        == blobs[order[i]] by {
        let a = choose|a: int| 0 <= a < kappas.len() && kappas[a] == order[i];
        assert(st.dom().contains(kappas[a]));
    }
}

/// Objects packed in order, some as deltas to others, are taken back out of the
/// pack: every one is stored again at its address. What stands at one of the
/// addresses before has to be the same.
pub proof fn law_sorted_pack_restored(
    st: StoreState,
    hash: HashKind,
    pack: Seq<u8>,
    blobs: Blobs,
    kappas: Seq<Seq<char>>,
    hints: Map<Seq<char>, Seq<char>>,
)
    requires
        is_sorted_pack(hash, pack, blobs, kappas, hints),
        agrees(st.blobs, blobs, kappas),
    ensures
        is_pack_of(hash, pack, sorted_pack_items(blobs, kappas, hints)),
        ({
            let entries = items_entries(sorted_pack_items(blobs, kappas, hints));
            let (p, fault) = pack_taken(st, hash, entries, false);
            fault is None && restored(p.st.blobs, blobs, kappas)
        }),
{
    let found = objects_found(blobs, kappas, hints);
    let list = pack_order(found);
    let order = addresses_of(list);
    let header = pack_header(list.len());
    let items = sorted_items(blobs, header, list);
    let entries = items_entries(items);
    lemma_header_len(list.len());
    lemma_all_found(blobs, hash, kappas, hints);
    lemma_order_addresses(found, kappas);
    lemma_reordered(st.blobs, blobs, hash, kappas, order);
    lemma_laid_out(blobs, hash, header, list, order);
    lemma_items_taken(st, hash, blobs, items, order, items.len() as int);
    assert(entries.take(items.len() as int) =~= entries);
    assert(order.take(items.len() as int) =~= order);
    let p = pack_taken(st, hash, entries, false).0;
    assert forall|i: int| 0 <= i < kappas.len() implies p.st.blobs.dom().contains(
        #[trigger] kappas[i],
    ) && p.st.blobs[kappas[i]] == blobs[kappas[i]] by {
        let k = choose|k: int| 0 <= k < order.len() && order[k] == kappas[i];
        assert(p.st.blobs.dom().contains(order[k]));
    }
}

} // verus!
