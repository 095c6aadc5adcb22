//! The ordered map from file path to blocks, kept in an `IndexMap`.

use vstd::prelude::*;
use indexmap::IndexMap;
use crate::literalset::LiteralSet;

verus! {

/// `IndexMap` as an opaque type: what it holds is given by `path_entries`.
#[verifier::external_type_specification]
#[verifier::external_body]
#[verifier::reject_recursive_types(K)]
#[verifier::reject_recursive_types(V)]
#[verifier::reject_recursive_types(S)]
pub struct ExIndexMap<K, V, S>(IndexMap<K, V, S>);

/// The entries of a map from path to blocks, in the map's order.
pub uninterp spec fn path_entries(m: IndexMap<String, Vec<LiteralSet>>) -> Seq<(Seq<char>, Vec<LiteralSet>)>;

/// Relies on `IndexMap::with_capacity`: a new map holds no entry.
#[verifier::external_body]
pub(crate) fn map_new() -> (r: IndexMap<String, Vec<LiteralSet>>)
    ensures
        path_entries(r) == Seq::<(Seq<char>, Vec<LiteralSet>)>::empty(),
{
    IndexMap::with_capacity(64)
}

/// Relies on `IndexMap::len`: the number of entries.
#[verifier::external_body]
pub(crate) fn map_len(m: &IndexMap<String, Vec<LiteralSet>>) -> (r: usize)
    ensures
        r == path_entries(*m).len(),
{
    m.len()
}

/// Relies on `IndexMap::get_index_of`: the position of the entry whose key
/// equals `key`, if there is one.
#[verifier::external_body]
pub(crate) fn map_index_of(m: &IndexMap<String, Vec<LiteralSet>>, key: &String) -> (r: Option<usize>)
    ensures
        match r {
            Some(i) => i < path_entries(*m).len() && path_entries(*m)[i as int].0 == key@,
            None => forall|i: int| 0 <= i < path_entries(*m).len() ==> path_entries(*m)[i].0 != key@,
        },
{
    m.get_index_of(key)
}

/// Relies on `IndexMap::insert` of a key that the map does not hold: the
/// entry goes last in order.
#[verifier::external_body]
pub(crate) fn map_push(m: &mut IndexMap<String, Vec<LiteralSet>>, key: String, value: Vec<LiteralSet>)
    requires
        forall|i: int| 0 <= i < path_entries(*old(m)).len() ==> path_entries(*old(m))[i].0 != key@,
    ensures
        path_entries(*final(m)) == path_entries(*old(m)).push((key@, value)),
{
    m.insert(key, value);
}

/// Relies on `IndexMap::get_index_mut`: puts `value` in place of the value
/// at position `i`, and hands back the value that stood there.
#[verifier::external_body]
pub(crate) fn map_replace(m: &mut IndexMap<String, Vec<LiteralSet>>, i: usize, value: Vec<LiteralSet>) -> (r: Vec<LiteralSet>)
    requires
        i < path_entries(*old(m)).len(),
    ensures
        r == path_entries(*old(m))[i as int].1,
        path_entries(*final(m)) == path_entries(*old(m)).update(
            i as int,
            (path_entries(*old(m))[i as int].0, value),
        ),
{
    std::mem::replace(m.get_index_mut(i).unwrap().1, value)
}

/// Relies on `IndexMap::get_index`: the entry at position `i`.
#[verifier::external_body]
pub(crate) fn map_get_index(m: &IndexMap<String, Vec<LiteralSet>>, i: usize) -> (r: (&String, &Vec<LiteralSet>))
    requires
        i < path_entries(*m).len(),
    ensures
        r.0@ == path_entries(*m)[i as int].0,
        *r.1 == path_entries(*m)[i as int].1,
{
    m.get_index(i).unwrap()
}

/// Relies on `IndexMap::into_iter`: the entries, in the map's order.
#[verifier::external_body]
pub(crate) fn map_into_entries(m: IndexMap<String, Vec<LiteralSet>>) -> (r: Vec<(String, Vec<LiteralSet>)>)
    ensures
        r@.len() == path_entries(m).len(),
        forall|i: int| 0 <= i < r@.len() ==> (#[trigger] r@[i]).0@ == path_entries(m)[i].0 && r@[i].1 == path_entries(m)[i].1,
{
    m.into_iter().collect()
}

} // verus!
