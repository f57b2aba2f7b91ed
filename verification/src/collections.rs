//! The hash maps and sets of the outside crates, keyed by node id.
//!
//! Everything said here of a map or a set speaks of its contents alone: which
//! keys it holds and what they map to.
use vstd::prelude::*;
use ahash::AHashMap;
use rustc_hash::{FxHashMap, FxHashSet};

verus! {

/// The hash map of the `ahash` crate.
#[verifier::external_type_specification]
#[verifier::external_body]
#[verifier::reject_recursive_types(K)]
#[verifier::reject_recursive_types(V)]
#[verifier::reject_recursive_types(S)]
pub struct ExAHashMap<K, V, S>(ahash::AHashMap<K, V, S>);

/// The hasher state that `ahash` maps carry by default.
#[verifier::external_type_specification]
#[verifier::external_body]
pub struct ExAHashState(ahash::RandomState);

/// The hasher builder of the `rustc_hash` maps and sets.
#[verifier::external_type_specification]
#[verifier::external_body]
pub struct ExFxBuildHasher(rustc_hash::FxBuildHasher);

/// What an `ahash` map holds.
pub uninterp spec fn ahash_entries(m: ahash::AHashMap<u32, u32>) -> Map<u32, u32>;

/// The map that holds nothing.
pub open spec fn no_entries() -> Map<u32, u32> {
    Map::empty()
}

/// `AHashMap::new`: a map that holds nothing.
#[verifier::external_body]
pub(crate) fn ahash_new() -> (m: AHashMap<u32, u32>)
    ensures
        ahash_entries(m) == no_entries(),
{
    AHashMap::new()
}

/// `AHashMap::get`: what the map holds for `k`.
#[verifier::external_body]
pub(crate) fn ahash_get(m: &AHashMap<u32, u32>, k: u32) -> (v: Option<u32>)
    ensures
        v == (if ahash_entries(*m).contains_key(k) {
            Some(ahash_entries(*m)[k])
        } else {
            None::<u32>
        }),
{
    m.get(&k).copied()
}

/// `AHashMap::insert`: `k` maps to `v` from now on.
#[verifier::external_body]
pub(crate) fn ahash_insert(m: &mut AHashMap<u32, u32>, k: u32, v: u32)
    ensures
        ahash_entries(*final(m)) == ahash_entries(*old(m)).insert(k, v),
{
    m.insert(k, v);
}

/// `AHashMap::remove`: the map holds nothing for `k` from now on.
#[verifier::external_body]
pub(crate) fn ahash_remove(m: &mut AHashMap<u32, u32>, k: u32)
    ensures
        ahash_entries(*final(m)) == ahash_entries(*old(m)).remove(k),
{
    m.remove(&k);
}

/// `HashMap::len` of the map inside: how many keys the map holds.
#[verifier::external_body]
pub(crate) fn ahash_len(m: &AHashMap<u32, u32>) -> (n: usize)
    ensures
        n == ahash_entries(*m).len(),
{
    m.len()
}

/// `HashMap::insert` on a map with the `rustc_hash` hasher.
#[verifier::external_body]
pub(crate) fn fx_insert(m: &mut FxHashMap<u32, u32>, k: u32, v: u32)
    ensures
        final(m)@ == old(m)@.insert(k, v),
{
    m.insert(k, v);
}

/// `HashMap::get` on a map with the `rustc_hash` hasher.
#[verifier::external_body]
pub(crate) fn fx_get(m: &FxHashMap<u32, u32>, k: u32) -> (v: Option<u32>)
    ensures
        v == (if m@.contains_key(k) {
            Some(m@[k])
        } else {
            None::<u32>
        }),
{
    m.get(&k).copied()
}

/// `HashSet::insert` on a set with the `rustc_hash` hasher: says whether the
/// key is new.
#[verifier::external_body]
pub(crate) fn fx_set_insert(s: &mut FxHashSet<u32>, k: u32) -> (new: bool)
    ensures
        final(s)@ == old(s)@.insert(k),
        new == !old(s)@.contains(k),
{
    s.insert(k)
}

/// `HashSet::remove` on a set with the `rustc_hash` hasher: says whether the
/// key was there.
#[verifier::external_body]
pub(crate) fn fx_set_remove(s: &mut FxHashSet<u32>, k: u32) -> (was: bool)
    ensures
        final(s)@ == old(s)@.remove(k),
        was == old(s)@.contains(k),
{
    s.remove(&k)
}

/// `HashSet::contains` on a set with the `rustc_hash` hasher.
#[verifier::external_body]
pub(crate) fn fx_set_contains(s: &FxHashSet<u32>, k: u32) -> (b: bool)
    ensures
        b == s@.contains(k),
{
    s.contains(&k)
}

/// `HashMap::len` on a map with the `rustc_hash` hasher.
#[verifier::external_body]
pub(crate) fn fx_len(m: &FxHashMap<u32, u32>) -> (n: usize)
    ensures
        n == m@.len(),
{
    m.len()
}

/// Every entry of the map stands once in the list.
pub open spec fn lists_entries(pairs: Seq<(u32, u32)>, m: Map<u32, u32>) -> bool {
    &&& m.dom().finite()
    &&& pairs.len() == m.len()
    &&& forall|i: int|
        0 <= i < pairs.len() ==> m.contains_key((#[trigger] pairs[i]).0) && m[pairs[i].0]
            == pairs[i].1
    &&& forall|i: int, j: int|
        0 <= i < pairs.len() && 0 <= j < pairs.len() && i != j ==> (#[trigger] pairs[i]).0 != (
        #[trigger] pairs[j]).0
    &&& forall|k: u32| #[trigger]
        m.contains_key(k) ==> exists|i: int| 0 <= i < pairs.len() && (#[trigger] pairs[i]).0 == k
}

/// `AHashMap::iter`, collected: all entries, each once, in no particular order.
#[verifier::external_body]
pub(crate) fn ahash_pairs(m: &AHashMap<u32, u32>) -> (pairs: Vec<(u32, u32)>)
    ensures
        lists_entries(pairs@, ahash_entries(*m)),
{
    m.iter().map(|(k, v)| (*k, *v)).collect()
}

/// `Clone` of `AHashMap`: a map with the same entries.
#[verifier::external_body]
pub(crate) fn ahash_clone(m: &AHashMap<u32, u32>) -> (c: AHashMap<u32, u32>)
    ensures
        ahash_entries(c) == ahash_entries(*m),
{
    m.clone()
}

} // verus!
