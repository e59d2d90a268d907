//! Players, their identifiers and the moves they make.
use vstd::prelude::*;

use crate::board::Coordinate;

verus! {

/// Identifies a player; issued by a [`PlayerIds`] generator.
pub type PlayerId = u32;

/// The verb a player applies to a tile. `Flag` and `Unflag` are separate
/// moves: flagging never toggles.
#[derive(Debug, Clone, Copy, PartialEq, Eq, Structural)]
pub enum Action {
    /// Reveal a hidden tile (cascading from a tile with hint 0).
    Reveal,
    /// Mark a hidden tile.
    Flag,
    /// Take back one's own flag.
    Unflag,
}

/// One move: who acts, where, and how.
#[derive(Debug, Clone, Copy, PartialEq, Eq, Structural)]
pub struct PlayerAction {
    pub player_id: PlayerId,
    pub coordinate: Coordinate,
    pub action: Action,
}

/// A participant: a process-unique id, a name, and a score that may go
/// negative.
#[derive(Debug, Clone)]
pub struct Player {
    pub id: PlayerId,
    pub name: String,
    pub points: i32,
}

/// Issues player ids in increasing order, starting at 1, never reusing one.
pub struct PlayerIds {
    next: PlayerId,
}

impl PlayerIds {
    /// The id the next call of [`PlayerIds::issue`] returns.
    pub closed spec fn next_id(&self) -> PlayerId {
        self.next
    }

    pub fn new() -> (r: PlayerIds)
        ensures
            r.next_id() == 1,
    {
        PlayerIds { next: 1 }
    }

    /// Whether another id can be issued.
    pub fn has_next(&self) -> (r: bool)
        ensures
            r == (self.next_id() < PlayerId::MAX),
    {
        self.next < PlayerId::MAX
    }

    /// A fresh id, larger than every id issued before.
    pub fn issue(&mut self) -> (r: PlayerId)
        requires
            old(self).next_id() < PlayerId::MAX,
        ensures
            r == old(self).next_id(),
            final(self).next_id() == old(self).next_id() + 1,
    {
        let id = self.next;
        self.next = self.next + 1;
        id
    }
}

impl Player {
    /// A new player with no points and the next id from `ids`.
    pub fn new(name: String, ids: &mut PlayerIds) -> (r: Player)
        requires
            old(ids).next_id() < PlayerId::MAX,
        ensures
            r.id == old(ids).next_id(),
            final(ids).next_id() == old(ids).next_id() + 1,
            r.name@ == name@,
            r.points == 0,
    {
        Player { id: ids.issue(), name, points: 0 }
    }

    /// A new player with no points and the given id.
    pub fn new_with_id(id: PlayerId, name: &str) -> (r: Player)
        ensures
            r.id == id,
            r.name@ == name@,
            r.points == 0,
    {
        Player { id, name: name.to_string(), points: 0 }
    }

    /// This player with `points` added to the score.
    pub fn add_points(&self, points: i32) -> (r: Player)
        requires
            i32::MIN <= self.points + points <= i32::MAX,
        ensures
            r.id == self.id,
            r.name@ == self.name@,
            r.points == self.points + points,
    {
        Player { id: self.id, name: self.name.clone(), points: self.points + points }
    }

    /// This player with `points` taken from the score.
    pub fn subtract_points(&self, points: i32) -> (r: Player)
        requires
            i32::MIN <= self.points - points <= i32::MAX,
        ensures
            r.id == self.id,
            r.name@ == self.name@,
            r.points == self.points - points,
    {
        Player { id: self.id, name: self.name.clone(), points: self.points - points }
    }
}

/// Players made one after another from one generator have pairwise distinct
/// ids, whatever else happens between the calls: `issued[i]` is the id the
/// `i`-th call returned and `before[i]` the generator's next id just before
/// it, which only grows between calls.
pub proof fn lemma_issued_ids_distinct(issued: Seq<PlayerId>, before: Seq<PlayerId>)
    requires
        issued.len() == before.len(),
        forall|i: int| 0 <= i < issued.len() ==> #[trigger] issued[i] == before[i],
        forall|i: int| 0 <= i < before.len() - 1 ==> #[trigger] before[i] + 1 <= before[i + 1],
    ensures
        forall|i: int, j: int| 0 <= i < j < issued.len() ==> issued[i] < issued[j],
        issued.no_duplicates(),
    decreases issued.len(),
{
    if issued.len() > 1 {
        let n = issued.len() - 1;
        lemma_issued_ids_distinct(issued.drop_last(), before.drop_last());
        assert forall|i: int, j: int| 0 <= i < j < issued.len() implies issued[i] < issued[j] by {
            if j == n {
                assert(issued.drop_last()[i] == issued[i]);
                assert(before[n - 1] + 1 <= before[(n - 1) + 1]);
                if i < n - 1 {
                    assert(issued.drop_last()[i] < issued.drop_last()[n - 1]);
                }
            } else {
                assert(issued.drop_last()[i] < issued.drop_last()[j]);
            }
        }
    }
}

} // verus!
