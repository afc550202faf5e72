//! The insertion-ordered collections of ranks: the set of ranks to search for,
//! and the map from ranks to values that selection hands out.

use indexmap::IndexMap;
use indexmap::IndexSet;
use std::hash::RandomState;
use vstd::prelude::*;

verus! {

/// `indexmap::IndexMap`: a hash map that keeps its entries in insertion order.
#[verifier::external_type_specification]
#[verifier::external_body]
#[verifier::reject_recursive_types(K)]
#[verifier::reject_recursive_types(V)]
#[verifier::reject_recursive_types(S)]
pub struct ExIndexMap<K, V, S>(IndexMap<K, V, S>);

/// The entries of a rank map, in the order in which `iter` walks them.
pub uninterp spec fn rank_map_entries(m: IndexMap<usize, i64, RandomState>) -> Seq<(usize, i64)>;

/// Calls `IndexMap::new`: the new map has no entries.
#[verifier::external_body]
pub(crate) fn rank_map_new() -> (m: IndexMap<usize, i64, RandomState>)
    ensures
        rank_map_entries(m) == Seq::<(usize, i64)>::empty(),
{
    IndexMap::new()
}

/// Calls `IndexMap::insert`. Where an entry with the key exists, it keeps its
/// place, takes the new value and the old value is returned; where none does,
/// the pair becomes the last entry and `None` is returned.
#[verifier::external_body]
pub(crate) fn rank_map_insert(
    m: &mut IndexMap<usize, i64, RandomState>,
    key: usize,
    value: i64,
) -> (r: Option<i64>)
    ensures
        match r {
            Some(prev) => exists|i: int|
                0 <= i < rank_map_entries(*old(m)).len() && #[trigger] rank_map_entries(*old(m))[i]
                    == (key, prev) && rank_map_entries(*final(m)) == rank_map_entries(
                    *old(m),
                ).update(i, (key, value)),
            None => (forall|i: int|
                0 <= i < rank_map_entries(*old(m)).len() ==> (#[trigger] rank_map_entries(
                    *old(m),
                )[i]).0 != key) && rank_map_entries(*final(m)) == rank_map_entries(*old(m)).push(
                (key, value),
            ),
        },
{
    m.insert(key, value)
}

/// Calls `IndexMap::get`: the value of an entry with the key, or `None` where
/// no entry has the key.
#[verifier::external_body]
pub(crate) fn rank_map_get(m: &IndexMap<usize, i64, RandomState>, key: usize) -> (r: Option<i64>)
    ensures
        match r {
            Some(value) => exists|i: int|
                0 <= i < rank_map_entries(*m).len() && #[trigger] rank_map_entries(*m)[i] == (
                    key,
                    value,
                ),
            None => forall|i: int|
                0 <= i < rank_map_entries(*m).len() ==> (#[trigger] rank_map_entries(*m)[i]).0
                    != key,
        },
{
    m.get(&key).copied()
}

/// `indexmap::IndexSet`: a hash set that keeps its items in insertion order.
#[verifier::external_type_specification]
#[verifier::external_body]
#[verifier::reject_recursive_types(T)]
#[verifier::reject_recursive_types(S)]
pub struct ExIndexSet<T, S>(IndexSet<T, S>);

/// The items of a rank set, in the order in which `iter` walks them.
pub uninterp spec fn rank_set_items(s: IndexSet<usize, RandomState>) -> Seq<usize>;

/// Calls `IndexSet::new`: the new set has no items.
#[verifier::external_body]
pub(crate) fn rank_set_new() -> (s: IndexSet<usize, RandomState>)
    ensures
        rank_set_items(s) == Seq::<usize>::empty(),
{
    IndexSet::new()
}

/// Calls `IndexSet::insert`. Where the set holds the item already, it stays as
/// it is and `false` is returned; where it does not, the item becomes the last
/// one and `true` is returned.
#[verifier::external_body]
pub(crate) fn rank_set_insert(s: &mut IndexSet<usize, RandomState>, item: usize) -> (r: bool)
    ensures
        r == !rank_set_items(*old(s)).contains(item),
        rank_set_items(*final(s)) == if r {
            rank_set_items(*old(s)).push(item)
        } else {
            rank_set_items(*old(s))
        },
{
    s.insert(item)
}

/// Walks the set with `IndexSet::into_iter`: its items in their order.
#[verifier::external_body]
pub(crate) fn rank_set_into_vec(s: IndexSet<usize, RandomState>) -> (r: Vec<usize>)
    ensures
        r@ == rank_set_items(s),
{
    s.into_iter().collect()
}

} // verus!
