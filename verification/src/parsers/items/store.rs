//! The state store of the automaton: a two-way map between state numbers
//! and item lists, kept in a `bimap::BiHashMap`.

use vstd::prelude::*;
use bimap::BiHashMap;

verus! {

/// `bimap::BiHashMap`, whose inside is not looked at: what a store holds is
/// named by `stored`.
#[verifier::external_type_specification]
#[verifier::external_body]
#[verifier::reject_recursive_types(L)]
#[verifier::reject_recursive_types(R)]
#[verifier::reject_recursive_types(LS)]
#[verifier::reject_recursive_types(RS)]
pub struct ExBiHashMap<L, R, LS, RS>(BiHashMap<L, R, LS, RS>);

/// The pairs that a store holds, as a map from the left value, the state
/// number, to the right value, the item list.
pub uninterp spec fn stored(m: BiHashMap<usize, Vec<(usize, usize)>>) -> Map<
    usize,
    Seq<(usize, usize)>,
>;

/// A store without pairs.
pub open spec fn nothing_stored() -> Map<usize, Seq<(usize, usize)>> {
    Map::empty()
}

/// `BiHashMap::new`: the new map holds no pair.
#[verifier::external_body]
pub(crate) fn store_new() -> (m: BiHashMap<usize, Vec<(usize, usize)>>)
    ensures
        stored(m) == nothing_stored(),
{
    BiHashMap::new()
}

/// `BiHashMap::get_by_right`: the left value paired with `key`, if a pair
/// holds `key` as its right value, and nothing if none does.
#[verifier::external_body]
pub(crate) fn store_find(m: &BiHashMap<usize, Vec<(usize, usize)>>, key: &Vec<(usize, usize)>) -> (found: Option<usize>)
    ensures
        found matches Some(i) ==> stored(*m).contains_key(i) && stored(*m)[i] == key@,
        found is None ==> forall|i: usize| stored(*m).contains_key(i) ==> stored(*m)[i] != key@,
{
    m.get_by_right(key).copied()
}

/// `BiHashMap::get_by_left`: the right value paired with `id`, if a pair
/// holds `id` as its left value, and nothing if none does.
#[verifier::external_body]
pub(crate) fn store_get<'a>(m: &'a BiHashMap<usize, Vec<(usize, usize)>>, id: usize) -> (found: Option<&'a Vec<(usize, usize)>>)
    ensures
        found matches Some(v) ==> stored(*m).contains_key(id) && stored(*m)[id] == v@,
        found is None ==> !stored(*m).contains_key(id),
{
    m.get_by_left(&id)
}

/// `BiHashMap::insert`, for a left value and a right value that no pair
/// holds yet: the map gains the pair and keeps all others.
#[verifier::external_body]
pub(crate) fn store_insert(m: &mut BiHashMap<usize, Vec<(usize, usize)>>, id: usize, key: Vec<(usize, usize)>)
    requires
        !stored(*old(m)).contains_key(id),
        forall|i: usize| stored(*old(m)).contains_key(i) ==> stored(*old(m))[i] != key@,
    ensures
        stored(*final(m)) == stored(*old(m)).insert(id, key@),
{
    m.insert(id, key);
}

} // verus!
