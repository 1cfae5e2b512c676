//! The hash tables of the mesh algorithms.
//!
//! The tables are those of the `hashbrown` crate. Verus does not look inside
//! them: each operation is a small function whose contract states, over the
//! table's entries, what the crate's documentation says of it.

use vstd::prelude::*;
use super::simple_hasher::SimpleHasher;

verus! {

/// `std::hash::BuildHasherDefault`, which makes a hasher of type `H` by
/// `H::default()`. The type is carried through; nothing is said of it.
#[verifier::external_type_specification]
#[verifier::external_body]
#[verifier::reject_recursive_types(H)]
pub struct ExBuildHasherDefault<H>(std::hash::BuildHasherDefault<H>);

/// A table from 64-bit keys to 32-bit values: a `hashbrown::HashMap` that
/// hashes with [`SimpleHasher`].
#[verifier::external_body]
pub struct IndexMap {
    inner: hashbrown::HashMap<u64, u32, std::hash::BuildHasherDefault<SimpleHasher>>,
}

/// The entries of an [`IndexMap`].
pub uninterp spec fn map_entries(m: IndexMap) -> Map<u64, u32>;

/// `hashbrown::HashMap::with_hasher`: a table without entries.
#[verifier::external_body]
pub(crate) fn map_new() -> (m: IndexMap)
    ensures
        map_entries(m) =~= Map::empty(),
{
    IndexMap { inner: hashbrown::HashMap::with_hasher(std::hash::BuildHasherDefault::default()) }
}

/// `hashbrown::HashMap::insert`: the table then holds `value` under `key`,
/// its other entries are unchanged, and the value that `key` had before is
/// returned.
#[verifier::external_body]
pub(crate) fn map_insert(m: &mut IndexMap, key: u64, value: u32) -> (r: Option<u32>)
    ensures
        map_entries(*final(m)) == map_entries(*old(m)).insert(key, value),
        r == (if map_entries(*old(m)).contains_key(key) {
            Some(map_entries(*old(m))[key])
        } else {
            None
        }),
{
    m.inner.insert(key, value)
}

/// `hashbrown::HashMap::remove`: the table then has no entry under `key`, its
/// other entries are unchanged, and the value that `key` had is returned.
#[verifier::external_body]
pub(crate) fn map_remove(m: &mut IndexMap, key: u64) -> (r: Option<u32>)
    ensures
        map_entries(*final(m)) == map_entries(*old(m)).remove(key),
        r == (if map_entries(*old(m)).contains_key(key) {
            Some(map_entries(*old(m))[key])
        } else {
            None
        }),
{
    m.inner.remove(&key)
}

/// `hashbrown::HashMap::get`: the value under `key`, if there is one.
#[verifier::external_body]
pub(crate) fn map_get(m: &IndexMap, key: u64) -> (r: Option<u32>)
    ensures
        r == (if map_entries(*m).contains_key(key) {
            Some(map_entries(*m)[key])
        } else {
            None
        }),
{
    m.inner.get(&key).copied()
}

/// A set of 32-bit numbers: a `hashbrown::HashSet` that hashes with
/// [`SimpleHasher`].
#[verifier::external_body]
pub struct IndexSet {
    inner: hashbrown::HashSet<u32, std::hash::BuildHasherDefault<SimpleHasher>>,
}

/// The members of an [`IndexSet`].
pub uninterp spec fn set_members(s: IndexSet) -> Set<u32>;

/// `hashbrown::HashSet::with_hasher`: a set without members.
#[verifier::external_body]
pub(crate) fn set_new() -> (s: IndexSet)
    ensures
        set_members(s) =~= Set::empty(),
{
    IndexSet { inner: hashbrown::HashSet::with_hasher(std::hash::BuildHasherDefault::default()) }
}

/// `hashbrown::HashSet::insert`: `value` is then a member, the other
/// members are unchanged, and the result says whether `value` was new.
#[verifier::external_body]
pub(crate) fn set_insert(s: &mut IndexSet, value: u32) -> (r: bool)
    ensures
        set_members(*final(s)) == set_members(*old(s)).insert(value),
        r == !set_members(*old(s)).contains(value),
{
    s.inner.insert(value)
}

/// `hashbrown::HashSet::contains`: whether `value` is a member.
#[verifier::external_body]
pub(crate) fn set_contains(s: &IndexSet, value: u32) -> (r: bool)
    ensures
        r == set_members(*s).contains(value),
{
    s.inner.contains(&value)
}

} // verus!
