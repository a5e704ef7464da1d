//! Where the rows of a table stand, by the bytes of their keys.

use dashmap::DashMap;
use vstd::prelude::*;

verus! {

/// `dashmap::DashMap`.
#[verifier::external_type_specification]
#[verifier::external_body]
#[verifier::reject_recursive_types(Keys)]
#[verifier::reject_recursive_types(Values)]
#[verifier::reject_recursive_types(Hashes)]
pub struct ExDashMap<Keys, Values, Hashes>(DashMap<Keys, Values, Hashes>);

/// The entries of a map from bytes to positions.
pub uninterp spec fn index_entries(m: DashMap<Vec<u8>, usize>) -> Map<Seq<u8>, usize>;

/// `DashMap::new`: no entries.
#[verifier::external_body]
pub(crate) fn index_new() -> (out: DashMap<Vec<u8>, usize>)
    ensures
        index_entries(out).dom() == Set::<Seq<u8>>::empty(),
{
    DashMap::new()
}

/// `DashMap::get`: the value of the entry with the key, if there is one.
#[verifier::external_body]
pub(crate) fn index_get(m: &DashMap<Vec<u8>, usize>, key: &Vec<u8>) -> (out: Option<usize>)
    ensures
        match out {
            Some(at) => index_entries(*m).dom().contains(key@) && index_entries(*m)[key@] == at,
            None => !index_entries(*m).dom().contains(key@),
        },
{
    m.get(key).map(|at| *at)
}

/// `DashMap::insert`: an entry in place of the one with the same key, if there
/// is one.
#[verifier::external_body]
pub(crate) fn index_put(m: &mut DashMap<Vec<u8>, usize>, key: Vec<u8>, at: usize)
    ensures
        index_entries(*final(m)) == index_entries(*old(m)).insert(key@, at),
{
    m.insert(key, at);
}

/// `DashMap::remove`: no entry with the key.
#[verifier::external_body]
pub(crate) fn index_drop(m: &mut DashMap<Vec<u8>, usize>, key: &Vec<u8>)
    ensures
        index_entries(*final(m)) == index_entries(*old(m)).remove(key@),
{
    m.remove(key);
}

} // verus!
