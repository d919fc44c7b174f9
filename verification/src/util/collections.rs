//! The hash tables of `bevy::platform::collections`: what is relied on of them.
//!
//! A table's contents are a mathematical map or set, and each operation is described by what it
//! does to them. Nothing is said of the order in which a table is walked.
use bevy::platform::collections::{HashMap, HashSet};
use vstd::prelude::*;

verus! {

/// `bevy::platform::collections::HashMap`, whose fields are not looked at.
#[verifier::external_type_specification]
#[verifier::external_body]
#[verifier::reject_recursive_types(K)]
#[verifier::reject_recursive_types(V)]
#[verifier::reject_recursive_types(S)]
pub struct ExHashMap<K, V, S>(bevy::platform::collections::HashMap<K, V, S>);

/// `bevy::platform::collections::HashSet`, whose fields are not looked at.
#[verifier::external_type_specification]
#[verifier::external_body]
#[verifier::reject_recursive_types(T)]
#[verifier::reject_recursive_types(S)]
pub struct ExHashSet<T, S>(bevy::platform::collections::HashSet<T, S>);

/// `bevy::platform::hash::FixedHasher`, the tables' way of hashing.
#[verifier::external_type_specification]
#[verifier::external_body]
pub struct ExFixedHasher(bevy::platform::hash::FixedHasher);

/// The pairs that a set holds.
pub uninterp spec fn pairs(items: HashSet<(u32, u32)>) -> Set<(u32, u32)>;

/// `HashSet::new`: a set without elements.
#[verifier::external_body]
pub(crate) fn pairs_new() -> (items: HashSet<(u32, u32)>)
    ensures
        pairs(items) == Set::<(u32, u32)>::empty(),
{
    HashSet::new()
}

/// `HashSet::insert`: the element is in the set afterwards, and whether it was not in it before
/// is told.
#[verifier::external_body]
pub(crate) fn pairs_insert(set: &mut HashSet<(u32, u32)>, item: (u32, u32)) -> (fresh: bool)
    ensures
        pairs(*final(set)) == pairs(*old(set)).insert(item),
        fresh == !pairs(*old(set)).contains(item),
{
    set.insert(item)
}

/// `HashSet::clear`: the set is without elements afterwards.
#[verifier::external_body]
pub(crate) fn pairs_clear(set: &mut HashSet<(u32, u32)>)
    ensures
        pairs(*final(set)) == Set::<(u32, u32)>::empty(),
{
    set.clear()
}

/// The entries of a map from numbers to numbers.
pub uninterp spec fn numbers(table: HashMap<u32, u32>) -> Map<u32, u32>;

/// `HashMap::new`: a map without entries.
#[verifier::external_body]
pub(crate) fn numbers_new() -> (table: HashMap<u32, u32>)
    ensures
        (numbers(table) == Map::<u32, u32>::empty()),
{
    HashMap::new()
}

/// `HashMap::get`: the value of the key's entry, if the key has one.
#[verifier::external_body]
pub(crate) fn numbers_get(table: &HashMap<u32, u32>, key: u32) -> (r: Option<&u32>)
    ensures
        match r {
            Some(value) => numbers(*table).contains_key(key) && *value == numbers(*table)[key],
            None => !numbers(*table).contains_key(key),
        },
{
    table.get(&key)
}

/// `HashMap::insert`: the key's entry has the value afterwards, and the value that it had before
/// is handed out.
#[verifier::external_body]
pub(crate) fn numbers_insert(table: &mut HashMap<u32, u32>, key: u32, value: u32) -> (r: Option<u32>)
    ensures
        numbers(*final(table)) == numbers(*old(table)).insert(key, value),
        match r {
            Some(was) => numbers(*old(table)).contains_key(key) && was == numbers(*old(table))[key],
            None => !numbers(*old(table)).contains_key(key),
        },
{
    table.insert(key, value)
}

/// `HashMap::remove`: the key has no entry afterwards, and the value that it had before is handed
/// out.
#[verifier::external_body]
pub(crate) fn numbers_remove(table: &mut HashMap<u32, u32>, key: u32) -> (r: Option<u32>)
    ensures
        numbers(*final(table)) == numbers(*old(table)).remove(key),
        match r {
            Some(was) => numbers(*old(table)).contains_key(key) && was == numbers(*old(table))[key],
            None => !numbers(*old(table)).contains_key(key),
        },
{
    table.remove(&key)
}

} // verus!
