//! The persistent map from grid positions to tile states, held in an
//! `im::HashMap` and reached through the wrappers below.
use vstd::prelude::*;

use crate::board::TileStatus;

verus! {

#[verifier::external_type_specification]
#[verifier::external_body]
#[verifier::reject_recursive_types(K)]
#[verifier::reject_recursive_types(V)]
#[verifier::reject_recursive_types(S)]
pub struct ExImHashMap<K, V, S>(im::HashMap<K, V, S>);

/// The map from grid positions `(x, y)` to tile states.
pub type TileMap = im::HashMap<(u32, u32), TileStatus>;

/// What a tile map holds: each key with its value.
pub uninterp spec fn tile_entries(m: TileMap) -> Map<(u32, u32), TileStatus>;

/// Relies on `im::HashMap::new`: the new map holds no entries.
#[verifier::external_body]
pub(crate) fn tiles_empty() -> (m: TileMap)
    ensures
        tile_entries(m) =~= Map::empty(),
{
    im::HashMap::new()
}

/// Relies on `im::HashMap::get`: the value stored under the key, if any.
#[verifier::external_body]
pub(crate) fn tile_get<'a>(m: &'a TileMap, k: &(u32, u32)) -> (r: Option<&'a TileStatus>)
    ensures
        tile_entries(*m).dom().contains(*k) ==> r == Some(&tile_entries(*m)[*k]),
        !tile_entries(*m).dom().contains(*k) ==> r.is_none(),
{
    m.get(k)
}

/// Relies on `im::HashMap::insert`: the key now maps to the value, and every
/// other entry stays.
#[verifier::external_body]
pub(crate) fn tile_insert(m: &mut TileMap, k: (u32, u32), v: TileStatus)
    ensures
        tile_entries(*final(m)) == tile_entries(*old(m)).insert(k, v),
{
    m.insert(k, v);
}

/// Relies on `im::HashMap::clone`: the copy holds the same entries (and
/// shares structure with the original).
#[verifier::external_body]
pub(crate) fn tiles_share(m: &TileMap) -> (r: TileMap)
    ensures
        tile_entries(r) == tile_entries(*m),
{
    m.clone()
}

} // verus!
