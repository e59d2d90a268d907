//! Facts about the board that hold across its operations.
use vstd::prelude::*;

use crate::board::{
    lemma_count_in_len, lemma_neighbors_upto_len, adjacent, neighbors_upto, Board, Coordinate,
    Tile, TileStatus,
};
use crate::player::{Action, PlayerAction, PlayerId};

verus! {

/// Revealing a tile that is already revealed leaves every tile as it was.
pub proof fn lemma_reveal_revealed_is_noop(b: Board, c: Coordinate, player_id: PlayerId)
    requires
        b.wf(),
        b.in_bounds(c),
        b.status(c) is Revealed,
    ensures
        forall|d: Coordinate|
            b.in_bounds(d) ==> #[trigger] b.applied_status(
                PlayerAction { player_id, coordinate: c, action: Action::Reveal },
                d,
            ) == b.status(d),
{
    assert forall|d: Coordinate| b.in_bounds(d) implies !b.reaches(c, d) by {
        if b.reaches(c, d) {
            let p = choose|p: Seq<Coordinate>| #[trigger]
                b.is_cascade_path(p) && p[0] == c && p.last() == d;
            assert(b.in_bounds(p[0]));
        }
    }
}

/// After a reveal, every neighbor of a tile that the reveal turned into a
/// hint-0 tile is no longer hidden.
pub proof fn lemma_cascade_closed(b: Board, after: Board, c: Coordinate, player_id: PlayerId)
    requires
        b.wf(),
        b.in_bounds(c),
        after.h_size == b.h_size,
        after.v_size == b.v_size,
        forall|d: Coordinate|
            b.in_bounds(d) ==> #[trigger] after.status(d) == b.applied_status(
                PlayerAction { player_id, coordinate: c, action: Action::Reveal },
                d,
            ),
    ensures
        forall|d: Coordinate, n: Coordinate|
            #![trigger after.status(d), b.neighbor_seq(d).contains(n)]
            b.in_bounds(d) && b.status(d) == TileStatus::Hidden && after.status(d)
                == TileStatus::Revealed(Tile::Hint(0)) && b.neighbor_seq(d).contains(n)
                ==> after.status(n) != TileStatus::Hidden,
{
    let action = PlayerAction { player_id, coordinate: c, action: Action::Reveal };
    assert forall|d: Coordinate, n: Coordinate|
        #![trigger after.status(d), b.neighbor_seq(d).contains(n)]
        b.in_bounds(d) && b.status(d) == TileStatus::Hidden && after.status(d)
            == TileStatus::Revealed(Tile::Hint(0)) && b.neighbor_seq(d).contains(n) implies after.status(
        n,
    ) != TileStatus::Hidden by {
        assert(b.reaches(c, d));
        assert(!b.is_mine_at(d));
        lemma_hint_range(b, d);
        lemma_neighbors_in_bounds(b, d);
        assert(b.in_bounds(n));
        assert(after.status(n) == b.applied_status(action, n));
        if b.status(n) == TileStatus::Hidden {
            b.lemma_reaches_extend(c, d, n);
        }
    }
}

proof fn lemma_neighbors_in_bounds(b: Board, c: Coordinate)
    ensures
        forall|n: Coordinate| #[trigger] b.neighbor_seq(c).contains(n) ==> b.in_bounds(n),
{
    crate::board::lemma_neighbors_upto_in_bounds(b.h_size as int, b.v_size as int, c, 8);
}

/// A hint lies between 0 and 8.
pub proof fn lemma_hint_range(b: Board, c: Coordinate)
    ensures
        0 <= b.hint_of(c) <= 8,
{
    lemma_neighbors_upto_len(b.h_size as int, b.v_size as int, c, 8);
    lemma_count_in_len(b.neighbor_seq(c), b.mines());
}

/// The cells a hint counts over are exactly the in-bounds cells adjacent to
/// `c`, each listed once.
pub proof fn lemma_neighbors_are_adjacent(b: Board, c: Coordinate)
    ensures
        forall|d: Coordinate|
            #[trigger] b.neighbor_seq(c).contains(d) <==> b.in_bounds(d) && adjacent(c, d),
        b.neighbor_seq(c).no_duplicates(),
{
    let h = b.h_size as int;
    let v = b.v_size as int;
    reveal_with_fuel(neighbors_upto, 9);
    let s = neighbors_upto(h, v, c, 8);
    assert forall|d: Coordinate| b.in_bounds(d) && adjacent(c, d) implies #[trigger] s.contains(
        d,
    ) by {
        let dx = d.x - c.x;
        let dy = d.y - c.y;
        let k: int = if dx == -1 && dy == -1 {
            0
        } else if dx == 0 && dy == -1 {
            1
        } else if dx == 1 && dy == -1 {
            2
        } else if dx == -1 && dy == 0 {
            3
        } else if dx == 1 && dy == 0 {
            4
        } else if dx == -1 && dy == 1 {
            5
        } else if dx == 0 && dy == 1 {
            6
        } else {
            7
        };
        lemma_upto_contains(h, v, c, k, 8);
        assert(d == Coordinate { x: (c.x + crate::board::offset(k).0) as u32, y: (c.y + crate::board::offset(k).1) as u32 });
    }
    lemma_upto_adjacent(h, v, c, 8);
}

/// The cell at offset `k`, when on the grid, is among the first `m > k`
/// offsets' cells.
proof fn lemma_upto_contains(h: int, v: int, c: Coordinate, k: int, m: int)
    requires
        0 <= k < m,
        0 <= c.x + crate::board::offset(k).0 < h,
        0 <= c.y + crate::board::offset(k).1 < v,
    ensures
        neighbors_upto(h, v, c, m).contains(
            Coordinate {
                x: (c.x + crate::board::offset(k).0) as u32,
                y: (c.y + crate::board::offset(k).1) as u32,
            },
        ),
    decreases m,
{
    let d = Coordinate {
        x: (c.x + crate::board::offset(k).0) as u32,
        y: (c.y + crate::board::offset(k).1) as u32,
    };
    let s = neighbors_upto(h, v, c, m);
    if k == m - 1 {
        assert(s.last() == d);
        assert(s[s.len() - 1] == d);
    } else {
        lemma_upto_contains(h, v, c, k, m - 1);
        let prev = neighbors_upto(h, v, c, m - 1);
        let i = choose|i: int| 0 <= i < prev.len() && prev[i] == d;
        assert(s[i] == d);
    }
}

/// The cells among the first `m` offsets are adjacent to `c`, distinct,
/// and each comes from an offset below `m`.
proof fn lemma_upto_adjacent(h: int, v: int, c: Coordinate, m: int)
    requires
        0 <= m <= 8,
        h <= u32::MAX + 1,
        v <= u32::MAX + 1,
    ensures
        neighbors_upto(h, v, c, m).no_duplicates(),
        forall|i: int|
            0 <= i < neighbors_upto(h, v, c, m).len() ==> {
                let d = #[trigger] neighbors_upto(h, v, c, m)[i];
                &&& adjacent(c, d)
                &&& d.x < h && d.y < v
                &&& exists|k: int|
                    0 <= k < m && d.x == c.x + crate::board::offset(k).0 && d.y == c.y
                        + crate::board::offset(k).1
            },
    decreases m,
{
    if m > 0 {
        lemma_upto_adjacent(h, v, c, m - 1);
        let prev = neighbors_upto(h, v, c, m - 1);
        let s = neighbors_upto(h, v, c, m);
        assert forall|i: int| 0 <= i < s.len() implies {
            let d = #[trigger] s[i];
            &&& adjacent(c, d)
            &&& d.x < h && d.y < v
            &&& exists|k: int|
                0 <= k < m && d.x == c.x + crate::board::offset(k).0 && d.y == c.y
                    + crate::board::offset(k).1
        } by {
            if i < prev.len() {
                assert(s[i] == prev[i]);
                let d = prev[i];
                assert(exists|k: int|
                    0 <= k < m - 1 && d.x == c.x + crate::board::offset(k).0 && d.y == c.y
                        + crate::board::offset(k).1);
            } else {
                assert(s[i].x == c.x + crate::board::offset(m - 1).0);
            }
        }
        assert forall|i: int, j: int| 0 <= i < j < s.len() implies s[i] != s[j] by {
            if j < prev.len() {
                assert(s[i] == prev[i] && s[j] == prev[j]);
            } else {
                let d = prev[i];
                assert(s[i] == d);
                let k = choose|k: int|
                    0 <= k < m - 1 && d.x == c.x + crate::board::offset(k).0 && d.y == c.y
                        + crate::board::offset(k).1;
                assert(s[j].x == c.x + crate::board::offset(m - 1).0);
            }
        }
    }
}

} // verus!
