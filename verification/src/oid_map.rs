use crate::object_hash::ObjectHash;
use rustc_hash::{FxHashMap, FxHashSet, FxHasher};
use std::hash::BuildHasherDefault;
use vstd::prelude::*;

verus! {

/// `rustc_hash::FxHasher`, the hasher of the maps and sets below.
#[verifier::external_type_specification]
#[verifier::external_body]
pub struct ExFxHasher(FxHasher);

/// `std::hash::BuildHasherDefault`, which makes the hashers of a map.
#[verifier::external_type_specification]
#[verifier::external_body]
#[verifier::reject_recursive_types(H)]
pub struct ExBuildHasherDefault<H>(BuildHasherDefault<H>);

/// Two identifiers of the same bytes are the same identifier.
pub proof fn lemma_same_bytes_same_hash(a: ObjectHash, b: ObjectHash)
    requires
        a@ == b@,
    ensures
        a == b,
{
    assert(a.bytes@ =~= b.bytes@);
    assert(a.bytes == b.bytes);
}

/// `FxHashMap::default`: a map that holds nothing.
#[verifier::external_body]
pub(crate) fn oid_map_new<V>() -> (created: FxHashMap<ObjectHash, V>)
    ensures
        created@.dom() == Set::<ObjectHash>::empty(),
{
    FxHashMap::default()
}

/// `HashMap::get` on a map keyed by object identifiers: the value that the
/// map holds for `key`, if it holds one.
#[verifier::external_body]
pub(crate) fn oid_map_get<'a, V>(map: &'a FxHashMap<ObjectHash, V>, key: &ObjectHash) -> (found: Option<
    &'a V,
>)
    ensures
        found is Some == map@.contains_key(*key),
        found is Some ==> *found->Some_0 == map@[*key],
{
    map.get(key)
}

/// `HashMap::insert` on a map keyed by object identifiers: afterwards the
/// map holds `value` for `key`, and for every other key what it held.
#[verifier::external_body]
pub(crate) fn oid_map_insert<V>(map: &mut FxHashMap<ObjectHash, V>, key: ObjectHash, value: V)
    ensures
        final(map)@ == old(map)@.insert(key, value),
{
    map.insert(key, value);
}

/// `FxHashSet::default`: a set that holds nothing.
#[verifier::external_body]
pub(crate) fn oid_set_new() -> (created: FxHashSet<ObjectHash>)
    ensures
        created@ == Set::<ObjectHash>::empty(),
{
    FxHashSet::default()
}

/// `HashSet::contains` on a set of object identifiers.
#[verifier::external_body]
pub(crate) fn oid_set_contains(set: &FxHashSet<ObjectHash>, key: &ObjectHash) -> (found: bool)
    ensures
        found == set@.contains(*key),
{
    set.contains(key)
}

/// `HashSet::insert` on a set of object identifiers: afterwards the set
/// holds `key`; the result says whether it did not before.
#[verifier::external_body]
pub(crate) fn oid_set_insert(set: &mut FxHashSet<ObjectHash>, key: ObjectHash) -> (added: bool)
    ensures
        final(set)@ == old(set)@.insert(key),
        added == !old(set)@.contains(key),
{
    set.insert(key)
}

/// `HashSet::remove` on a set of object identifiers: afterwards the set does
/// not hold `key`; the result says whether it did before.
#[verifier::external_body]
pub(crate) fn oid_set_remove(set: &mut FxHashSet<ObjectHash>, key: &ObjectHash) -> (removed: bool)
    ensures
        final(set)@ == old(set)@.remove(*key),
        removed == old(set)@.contains(*key),
{
    set.remove(key)
}

} // verus!
