//! Bundles: the content of several addresses taken out together, and put in
//! together.

use vstd::prelude::*;

use crate::store::memory::{addresses, InMemoryStore};
use crate::store::state::StoreState;

verus! {

/// Why a bundle was refused.
#[derive(Debug)]
pub enum BundleError {
    Empty,
    /// Nothing is stored at this address.
    Missing(String),
    /// This entry has content that its address does not name.
    Mismatch(usize),
}

/// An address and its content.
#[derive(Debug)]
pub struct BundleEntry {
    pub kappa: String,
    pub content: Vec<u8>,
}

impl DeepView for BundleEntry {
    type V = (Seq<char>, Seq<u8>);

    open spec fn deep_view(&self) -> (Seq<char>, Seq<u8>) {
        (self.kappa@, self.content@)
    }
}

/// Whether the content of every address was gathered.
pub open spec fn gathered(
    blobs: Map<Seq<char>, Seq<u8>>,
    all: Seq<Seq<char>>,
    out: Result<Vec<BundleEntry>, BundleError>,
) -> bool {
    match out {
        Ok(entries) => all.len() > 0 && entries.deep_view() == Seq::new(
            all.len(),
            |i: int| (all[i], blobs[all[i]]),
        ) && forall|i: int| 0 <= i < all.len() ==> blobs.dom().contains(#[trigger] all[i]),
        Err(BundleError::Empty) => all.len() == 0,
        Err(BundleError::Missing(k)) => exists|i: int|
            0 <= i < all.len() && k@ == #[trigger] all[i] && !blobs.dom().contains(all[i])
                && forall|j: int| 0 <= j < i ==> blobs.dom().contains(#[trigger] all[j]),
        Err(_) => false,
    }
}

/// The content of every address, in order. An empty list is refused, and so is
/// one with an address at which nothing is stored: the first is named.
pub fn gather(store: &InMemoryStore, kappas: &[String]) -> (out: Result<Vec<BundleEntry>, BundleError>)
    requires
        store.wf(),
    ensures
        gathered(store.state().blobs, kappas.deep_view(), out),
{
    let ghost blobs = store.state().blobs;
    let ghost all = kappas.deep_view();
    if kappas.len() == 0 {
        return Err(BundleError::Empty);
    }
    let ghost want = Seq::new(all.len(), |i: int| (all[i], blobs[all[i]]));
    let mut out: Vec<BundleEntry> = Vec::new();
    let mut i: usize = 0;
    assert(out.deep_view() =~= want.take(0));
    while i < kappas.len()
        invariant
            store.wf(),
            blobs == store.state().blobs,
            i <= kappas@.len(),
            all == kappas.deep_view(),
            all.len() == kappas@.len(),
            want == Seq::new(all.len(), |i: int| (all[i], blobs[all[i]])),
            out.deep_view() == want.take(i as int),
            forall|j: int| 0 <= j < i ==> blobs.dom().contains(#[trigger] all[j]),
        decreases kappas@.len() - i,
    {
        let ghost had = out.deep_view();
        assert(all[i as int] == kappas@[i as int]@);
        match store.blob_get(kappas[i].as_str()) {
            Ok(content) => {
                let entry = BundleEntry { kappa: kappas[i].clone(), content };
                let ghost pair = entry.deep_view();
                out.push(entry);
                proof {
                    assert(out.deep_view() =~= had.push(pair));
                    assert(want.take(i + 1) =~= want.take(i as int).push(want[i as int]));
                }
            },
            Err(_) => return Err(BundleError::Missing(kappas[i].clone())),
        }
        i += 1;
    }
    assert(want.take(want.len() as int) =~= want);
    Ok(out)
}

/// A store with the entries of a bundle put in, one after the other.
pub open spec fn unbundled(st: StoreState, entries: Seq<(Seq<char>, Seq<u8>)>) -> StoreState
    decreases entries.len(),
{
    if entries.len() == 0 {
        st
    } else {
        let (kappa, content) = entries.last();
        unbundled(st, entries.drop_last()).ingested(
            (crate::kappa::label_parts(kappa)->0).0,
            kappa,
            content,
        )
    }
}

/// Whether the entries of a bundle were put in.
pub open spec fn bundle_ingested(
    st: StoreState,
    after: StoreState,
    all: Seq<(Seq<char>, Seq<u8>)>,
    out: Result<Vec<String>, BundleError>,
) -> bool {
    match out {
        Ok(kappas) => after == unbundled(st, all) && kappas.deep_view() == Seq::new(
            all.len(),
            |i: int| all[i].0,
        ) && forall|i: int| 0 <= i < all.len() ==> addresses((#[trigger] all[i]).0, all[i].1),
        Err(BundleError::Mismatch(n)) => n < all.len() && !addresses(
            all[n as int].0,
            all[n as int].1,
        ) && after == unbundled(st, all.take(n as int)) && (forall|i: int|
            0 <= i < n ==> addresses((#[trigger] all[i]).0, all[i].1)),
        Err(_) => false,
    }
}

/// Puts the entries of a bundle in, one after the other, up to the first whose
/// address does not name its content; the addresses.
pub fn ingest_bundle(store: &mut InMemoryStore, entries: &[BundleEntry]) -> (out: Result<
    Vec<String>,
    BundleError,
>)
    requires
        old(store).wf(),
    ensures
        final(store).wf(),
        bundle_ingested(old(store).state(), final(store).state(), entries.deep_view(), out),
{
    let ghost st = store.state();
    let ghost all = entries.deep_view();
    let ghost want = Seq::new(all.len(), |i: int| all[i].0);
    let mut kappas: Vec<String> = Vec::new();
    let mut i: usize = 0;
    assert(kappas.deep_view() =~= want.take(0));
    assert(all.take(0) =~= Seq::<(Seq<char>, Seq<u8>)>::empty());
    while i < entries.len()
        invariant
            store.wf(),
            st == old(store).state(),
            i <= entries@.len(),
            all == entries.deep_view(),
            all.len() == entries@.len(),
            want == Seq::new(all.len(), |i: int| all[i].0),
            store.state() == unbundled(st, all.take(i as int)),
            kappas.deep_view() == want.take(i as int),
            forall|j: int| 0 <= j < i ==> addresses((#[trigger] all[j]).0, all[j].1),
        decreases entries@.len() - i,
    {
        let ghost had = kappas.deep_view();
        proof {
            assert(all[i as int] == entries@[i as int].deep_view());
            assert(all.take(i + 1).drop_last() =~= all.take(i as int));
            assert(all.take(i + 1).last() == all[i as int]);
        }
        match store.ingest_verified(entries[i].kappa.as_str(), entries[i].content.as_slice()) {
            Ok(_) => {
                kappas.push(entries[i].kappa.clone());
                proof {
                    assert(kappas.deep_view() =~= had.push(want[i as int]));
                    assert(want.take(i + 1) =~= want.take(i as int).push(want[i as int]));
                }
            },
            Err(_) => return Err(BundleError::Mismatch(i)),
        }
        i += 1;
    }
    proof {
        assert(want.take(want.len() as int) =~= want);
        assert(all.take(all.len() as int) =~= all);
    }
    Ok(kappas)
}

/// A store keeps what it had when the entries of a bundle are put in, and has
/// something at each of their addresses.
pub proof fn law_unbundled(st: StoreState, entries: Seq<(Seq<char>, Seq<u8>)>, i: int, kappa: Seq<char>)
    ensures
        0 <= i < entries.len() ==> unbundled(st, entries).blobs.dom().contains(entries[i].0),
        st.blobs.dom().contains(kappa) ==> unbundled(st, entries).blobs.dom().contains(kappa)
            && unbundled(st, entries).blobs[kappa] == st.blobs[kappa],
    decreases entries.len(),
{
    if entries.len() > 0 {
        law_unbundled(st, entries.drop_last(), i, kappa);
        if 0 <= i < entries.len() - 1 {
            assert(entries.drop_last()[i] == entries[i]);
        }
    }
}

/// A bundle stores nothing but the content of its entries: at the address that an
/// entry gives, or at the SHA-256 address of its content.
pub proof fn law_bundle_contents(st: StoreState, entries: Seq<(Seq<char>, Seq<u8>)>, kappa: Seq<char>)
    ensures
        unbundled(st, entries).blobs.dom().contains(kappa) && !st.blobs.dom().contains(kappa)
            ==> exists|i: int| comes_from(entries, i, kappa, unbundled(st, entries).blobs[kappa]),
        unbundled(st, entries).tags == st.tags,
    decreases entries.len(),
{
    if entries.len() > 0 {
        let front = entries.drop_last();
        law_bundle_contents(st, front, kappa);
        let before = unbundled(st, front);
        let after = unbundled(st, entries);
        if after.blobs.dom().contains(kappa) && !st.blobs.dom().contains(kappa) {
            if before.blobs.dom().contains(kappa) {
                let i = choose|i: int| comes_from(front, i, kappa, before.blobs[kappa]);
                assert(front[i] == entries[i]);
                assert(comes_from(entries, i, kappa, after.blobs[kappa]));
            } else {
                assert(comes_from(entries, entries.len() - 1, kappa, after.blobs[kappa]));
            }
        }
    }
}

/// Whether content at an address is that of an entry.
pub open spec fn comes_from(
    entries: Seq<(Seq<char>, Seq<u8>)>,
    i: int,
    kappa: Seq<char>,
    content: Seq<u8>,
) -> bool {
    &&& 0 <= i < entries.len()
    &&& content == entries[i].1
    &&& kappa == entries[i].0 || kappa == crate::kappa::kappa_of(entries[i].1)
}

} // verus!
