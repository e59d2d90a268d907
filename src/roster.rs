//! The persistent map from player ids to players, held in an `im::HashMap`
//! and reached through the wrappers below.
use vstd::prelude::*;

use crate::player::{Player, PlayerId};

verus! {

/// The map from player ids to players.
pub type Roster = im::HashMap<PlayerId, Player>;

/// What a roster holds: each id with its player.
pub uninterp spec fn roster_entries(m: Roster) -> Map<PlayerId, Player>;

/// Relies on `im::HashMap::new`: the new map holds no entries.
#[verifier::external_body]
pub(crate) fn roster_empty() -> (m: Roster)
    ensures
        roster_entries(m) =~= Map::empty(),
{
    im::HashMap::new()
}

/// Relies on `im::HashMap::get`: the player stored under the id, if any.
#[verifier::external_body]
pub(crate) fn roster_get<'a>(m: &'a Roster, k: &PlayerId) -> (r: Option<&'a Player>)
    ensures
        roster_entries(*m).dom().contains(*k) ==> r == Some(&roster_entries(*m)[*k]),
        !roster_entries(*m).dom().contains(*k) ==> r.is_none(),
{
    m.get(k)
}

/// Relies on `im::HashMap::update`: a new map in which the id maps to the
/// player and every other entry stays; `m` itself is unchanged.
#[verifier::external_body]
pub(crate) fn roster_update(m: &Roster, k: PlayerId, v: Player) -> (r: Roster)
    ensures
        roster_entries(r) == roster_entries(*m).insert(k, v),
{
    m.update(k, v)
}

/// Relies on `im::HashMap::keys`: every id in the map, each once, in no
/// particular order.
#[verifier::external_body]
pub(crate) fn roster_ids(m: &Roster) -> (r: Vec<PlayerId>)
    ensures
        r@.no_duplicates(),
        forall|k: PlayerId| #[trigger] r@.contains(k) <==> roster_entries(*m).dom().contains(k),
{
    m.keys().copied().collect()
}

} // verus!
