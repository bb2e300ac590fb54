//! Building a dictionary: the entries are gathered in an
//! [`indexmap::IndexMap`], which keeps one entry for each key, in the order
//! in which the keys first came.

use crate::value::{dict_insert, view_entries, Value, ValueView};
use indexmap::IndexMap;
use vstd::prelude::*;

verus! {

/// `indexmap::IndexMap`, a hash map that keeps its entries in the order in
/// which their keys were first inserted.
#[verifier::external_type_specification]
#[verifier::external_body]
#[verifier::reject_recursive_types(K)]
#[verifier::reject_recursive_types(V)]
#[verifier::reject_recursive_types(S)]
pub struct ExIndexMap<K, V, S>(IndexMap<K, V, S>);

/// The entries that a map holds, in its order.
pub uninterp spec fn index_map_entries(map: IndexMap<String, Value>) -> Seq<(Seq<char>, ValueView)>;

/// `IndexMap::new`: the map that it makes holds no entry.
#[verifier::external_body]
pub(crate) fn index_map_new() -> (map: IndexMap<String, Value>)
    ensures
        index_map_entries(map) == Seq::<(Seq<char>, ValueView)>::empty(),
{
    IndexMap::new()
}

/// `IndexMap::insert`: where the map holds the key, the entry keeps its key
/// and its place and takes the new value; a key that the map does not hold
/// makes a new entry, last in order.
#[verifier::external_body]
pub(crate) fn index_map_insert(map: &mut IndexMap<String, Value>, key: String, value: Value)
    ensures
        index_map_entries(*final(map)) == dict_insert(index_map_entries(*old(map)), key@, value@),
{
    map.insert(key, value);
}

/// `IndexMap::into_iter`: the entries leave the map in its order.
#[verifier::external_body]
pub(crate) fn index_map_into_entries(map: IndexMap<String, Value>) -> (entries: Vec<
    (String, Value),
>)
    ensures
        view_entries(entries@) == index_map_entries(map),
{
    map.into_iter().collect()
}

} // verus!
