//! Maps from string ids to node indices (`HashMap<String, usize>`), seen
//! through the map of the ids' character sequences that they hold.
use std::collections::HashMap;
use vstd::prelude::*;

verus! {

/// What a map from ids to indices holds, keyed by the ids' characters.
pub uninterp spec fn id_map_view(m: HashMap<String, usize>) -> Map<Seq<char>, usize>;

/// `HashMap::new`: an empty map.
#[verifier::external_body]
pub(crate) fn id_map_new() -> (m: HashMap<String, usize>)
    ensures
        id_map_view(m) =~= Map::empty(),
{
    HashMap::new()
}

/// `HashMap::contains_key`.
#[verifier::external_body]
pub(crate) fn id_map_contains(m: &HashMap<String, usize>, k: &String) -> (b: bool)
    ensures
        b == id_map_view(*m).contains_key(k@),
{
    m.contains_key(k)
}

/// `HashMap::get`, with the value copied out.
#[verifier::external_body]
pub(crate) fn id_map_get(m: &HashMap<String, usize>, k: &String) -> (r: Option<usize>)
    ensures
        id_map_view(*m).contains_key(k@) ==> r == Some(id_map_view(*m)[k@]),
        !id_map_view(*m).contains_key(k@) ==> r is None,
{
    m.get(k).copied()
}

/// `HashMap::insert`: `k` maps to `v` afterwards, the other keys keep their values.
#[verifier::external_body]
pub(crate) fn id_map_insert(m: &mut HashMap<String, usize>, k: String, v: usize)
    ensures
        id_map_view(*final(m)) == id_map_view(*old(m)).insert(k@, v),
{
    m.insert(k, v);
}

/// `vals` lists the value of each key of `m` exactly once, in some order of the keys.
pub open spec fn lists_values(m: Map<Seq<char>, usize>, vals: Seq<usize>) -> bool {
    exists|keys: Seq<Seq<char>>|
        {
            &&& keys.len() == vals.len()
            &&& keys.no_duplicates()
            &&& forall|k: int|
                0 <= k < keys.len() ==> m.contains_key(#[trigger] keys[k]) && vals[k] == m[keys[k]]
            &&& forall|s: Seq<char>| m.contains_key(s) ==> keys.contains(s)
        }
}

/// `HashMap::values`, copied into a vector: one value per key, in the map's
/// own iteration order, which is not stated.
#[verifier::external_body]
pub(crate) fn id_map_values(m: &HashMap<String, usize>) -> (r: Vec<usize>)
    ensures
        lists_values(id_map_view(*m), r@),
{
    m.values().copied().collect()
}

} // verus!
