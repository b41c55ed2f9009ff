//! A map from cells to numbers and a map from numbers to lists of cells,
//! held in hash maps with the `rustc-hash` hasher.
//!
//! Nothing here is proved: each function states what the standard hash map
//! documents of the method it calls, over a name for what the map holds.

use crate::graph::Node;
use rustc_hash::FxHashMap;
use rustc_hash::FxHasher;
use std::hash::BuildHasherDefault;
use vstd::prelude::*;

verus! {

/// The map type: node to number.
pub type CellMap = FxHashMap<Node, usize>;

/// The hasher, opaque to the verifier.
#[verifier::external_type_specification]
#[verifier::external_body]
pub struct ExFxHasher(FxHasher);

/// The standard builder of default hashers, opaque to the verifier.
#[verifier::external_type_specification]
#[verifier::external_body]
#[verifier::reject_recursive_types(H)]
pub struct ExBuildHasherDefault<H>(BuildHasherDefault<H>);

/// The map type: number to list of nodes.
pub type SetMap = FxHashMap<usize, Vec<Node>>;

/// What a map of lists holds.
pub uninterp spec fn set_entries(m: SetMap) -> Map<usize, Seq<Node>>;

/// Calls `FxHashMap::default`: an empty map.
#[verifier::external_body]
pub(crate) fn set_map_new() -> (fresh: SetMap)
    ensures
        set_entries(fresh) == (Map::<usize, Seq<Node>>::empty()),
{
    FxHashMap::default()
}

/// Calls `HashMap::insert`: the key stands for the list from now on.
#[verifier::external_body]
pub(crate) fn set_map_insert(m: &mut SetMap, key: usize, list: Vec<Node>)
    ensures
        set_entries(*final(m)) == set_entries(*old(m)).insert(key, list@),
{
    m.insert(key, list);
}

/// Calls `HashMap::get` and copies what it finds: the list that the key
/// stands for, if any.
#[verifier::external_body]
pub(crate) fn set_map_get(m: &SetMap, key: usize) -> (list: Option<Vec<Node>>)
    ensures
        list is Some <==> set_entries(*m).dom().contains(key),
        list is Some ==> list->Some_0@ == set_entries(*m)[key],
{
    m.get(&key).cloned()
}

/// Calls `HashMap::remove`: the key stands for nothing from now on, and the
/// list that it stood for, if any, is returned.
#[verifier::external_body]
pub(crate) fn set_map_remove(m: &mut SetMap, key: usize) -> (list: Option<Vec<Node>>)
    ensures
        set_entries(*final(m)) == set_entries(*old(m)).remove(key),
        list is Some <==> set_entries(*old(m)).dom().contains(key),
        list is Some ==> list->Some_0@ == set_entries(*old(m))[key],
{
    m.remove(&key)
}

/// What a map holds.
pub uninterp spec fn map_entries(m: CellMap) -> Map<Node, usize>;

/// Calls `FxHashMap::default`: an empty map.
#[verifier::external_body]
pub(crate) fn map_new() -> (fresh: CellMap)
    ensures
        map_entries(fresh) == (Map::<Node, usize>::empty()),
{
    FxHashMap::default()
}

/// Calls `HashMap::insert`: the key stands for the value from now on.
#[verifier::external_body]
pub(crate) fn map_insert(m: &mut CellMap, key: Node, value: usize)
    ensures
        map_entries(*final(m)) == map_entries(*old(m)).insert(key, value),
{
    m.insert(key, value);
}

/// Calls `HashMap::get`: the value that the key stands for, if any.
#[verifier::external_body]
pub(crate) fn map_get(m: &CellMap, key: Node) -> (value: Option<usize>)
    ensures
        value == if map_entries(*m).dom().contains(key) {
            Some(map_entries(*m)[key])
        } else {
            None
        },
{
    m.get(&key).copied()
}

/// Calls `HashMap::iter` and collects what it yields: every pair of the map
/// once. The order is the map's own and is left open here.
#[verifier::external_body]
pub(crate) fn map_pairs(m: &CellMap) -> (list: Vec<(Node, usize)>)
    ensures
        list@.no_duplicates(),
        forall|key: Node, value: usize| #[trigger]
            list@.contains((key, value)) <==> map_entries(*m).contains_pair(key, value),
{
    m.iter().map(|(key, value)| (*key, *value)).collect()
}

} // verus!
