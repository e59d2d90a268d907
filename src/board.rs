//! The board: grid extents, the fixed mine layout, each tile's state, and the
//! reveal cascade.
use vstd::prelude::*;

use std::rc::Rc;

use crate::game::{density_percent, mine_count, Difficulty};
use crate::player::{Action, PlayerAction, PlayerId};
use crate::random::random_index;
use crate::tiles::{tile_entries, tile_get, tile_insert, tiles_empty, tiles_share, TileMap};

verus! {

/// A cell of the grid: `x` grows to the right, `y` grows down.
#[derive(Debug, Clone, Copy, PartialEq, Eq, Hash, Structural)]
pub struct Coordinate {
    pub x: u32,
    pub y: u32,
}

/// What a revealed tile shows.
#[derive(Debug, Clone, Copy, PartialEq, Eq, Structural)]
pub enum Tile {
    /// The number of mines among the tile's neighbors (0 to 8).
    Hint(i8),
    Mine,
}

/// The state of one tile.
#[derive(Debug, Clone, Copy, PartialEq, Eq, Structural)]
pub enum TileStatus {
    Hidden,
    /// Marked by the player with this id.
    Flagged(PlayerId),
    /// Terminal: a revealed tile never changes again.
    Revealed(Tile),
}

/// Relies on `Rc::clone`: the new handle points to the same list.
#[verifier::external_body]
fn share_mines(mines: &Rc<Vec<Coordinate>>) -> (r: Rc<Vec<Coordinate>>)
    ensures
        (*r)@ == (**mines)@,
{
    Rc::clone(mines)
}

/// The key under which a coordinate's tile is stored.
pub open spec fn key(c: Coordinate) -> (u32, u32) {
    (c.x, c.y)
}

/// The status of `c` in a tile map.
pub open spec fn at(m: Map<(u32, u32), TileStatus>, c: Coordinate) -> TileStatus {
    m[key(c)]
}

/// The offset of the `k`-th neighbor, in the order neighbors are listed:
/// the row above left to right, then left and right, then the row below.
pub open spec fn offset(k: int) -> (int, int) {
    if k == 0 {
        (-1, -1)
    } else if k == 1 {
        (0, -1)
    } else if k == 2 {
        (1, -1)
    } else if k == 3 {
        (-1, 0)
    } else if k == 4 {
        (1, 0)
    } else if k == 5 {
        (-1, 1)
    } else if k == 6 {
        (0, 1)
    } else {
        (1, 1)
    }
}

/// The in-bounds cells among the first `k` offsets around `c`, on an
/// `h` by `v` grid.
pub open spec fn neighbors_upto(h: int, v: int, c: Coordinate, k: int) -> Seq<Coordinate>
    decreases k,
{
    if k <= 0 {
        Seq::empty()
    } else {
        let prev = neighbors_upto(h, v, c, k - 1);
        let nx = c.x + offset(k - 1).0;
        let ny = c.y + offset(k - 1).1;
        if 0 <= nx < h && 0 <= ny < v {
            prev.push(Coordinate { x: nx as u32, y: ny as u32 })
        } else {
            prev
        }
    }
}

/// Two distinct cells that touch by a side or a corner.
pub open spec fn adjacent(c: Coordinate, d: Coordinate) -> bool {
    &&& c != d
    &&& -1 <= d.x - c.x <= 1
    &&& -1 <= d.y - c.y <= 1
}

/// At most `k` cells lie among the first `k` offsets.
pub proof fn lemma_neighbors_upto_len(h: int, v: int, c: Coordinate, k: int)
    requires
        0 <= k,
    ensures
        neighbors_upto(h, v, c, k).len() <= k,
    decreases k,
{
    if k > 0 {
        lemma_neighbors_upto_len(h, v, c, k - 1);
    }
}

/// A count never exceeds the length of the sequence counted.
pub proof fn lemma_count_in_len(s: Seq<Coordinate>, mines: Set<Coordinate>)
    ensures
        count_in(s, mines) <= s.len(),
    decreases s.len(),
{
    if s.len() > 0 {
        lemma_count_in_len(s.drop_last(), mines);
    }
}

/// How many cells of `s` lie in `mines`.
pub open spec fn count_in(s: Seq<Coordinate>, mines: Set<Coordinate>) -> nat
    decreases s.len(),
{
    if s.len() == 0 {
        0
    } else {
        count_in(s.drop_last(), mines) + if mines.contains(s.last()) {
            1nat
        } else {
            0nat
        }
    }
}

/// The board. Every in-bounds coordinate has a tile state; the mines are
/// fixed when the board is made and shared by every later snapshot.
pub struct Board {
    /// Horizontal extent (grows to the right).
    pub h_size: u32,
    /// Vertical extent (grows down).
    pub v_size: u32,
    pub board_map: TileMap,
    pub mine_coordinates: Rc<Vec<Coordinate>>,
}

impl Board {
    pub open spec fn in_bounds(&self, c: Coordinate) -> bool {
        c.x < self.h_size && c.y < self.v_size
    }

    /// Each tile's state, keyed by `(x, y)`.
    pub open spec fn tiles(&self) -> Map<(u32, u32), TileStatus> {
        tile_entries(self.board_map)
    }

    pub open spec fn status(&self, c: Coordinate) -> TileStatus {
        at(self.tiles(), c)
    }

    /// The mine layout, as listed (without repeats).
    pub open spec fn mine_list(&self) -> Seq<Coordinate> {
        (*self.mine_coordinates)@
    }

    pub open spec fn mines(&self) -> Set<Coordinate> {
        self.mine_list().to_set()
    }

    pub open spec fn is_mine_at(&self, c: Coordinate) -> bool {
        self.mines().contains(c)
    }

    /// The in-bounds neighbors of `c`, in offset order.
    pub open spec fn neighbor_seq(&self, c: Coordinate) -> Seq<Coordinate> {
        neighbors_upto(self.h_size as int, self.v_size as int, c, 8)
    }

    /// The number of mines among the in-bounds neighbors of `c`.
    pub open spec fn hint_of(&self, c: Coordinate) -> nat {
        count_in(self.neighbor_seq(c), self.mines())
    }

    /// What revealing `c` shows.
    pub open spec fn tile_of(&self, c: Coordinate) -> Tile {
        if self.is_mine_at(c) {
            Tile::Mine
        } else {
            Tile::Hint(self.hint_of(c) as i8)
        }
    }

    /// Every in-bounds coordinate, and nothing else, has a tile state, and
    /// the mine list has no repeats.
    pub closed spec fn wf(&self) -> bool {
        &&& forall|k: (u32, u32)| #[trigger]
            self.tiles().dom().contains(k) <==> (k.0 < self.h_size && k.1 < self.v_size)
        &&& self.tiles().dom().finite()
        &&& self.mine_list().no_duplicates()
    }

    /// Revealing `c` cascades on to `d`: `c` is a mine-free tile with hint
    /// 0 and `d` is one of its neighbors.
    pub open spec fn opens(&self, c: Coordinate, d: Coordinate) -> bool {
        &&& !self.is_mine_at(c)
        &&& self.hint_of(c) == 0
        &&& self.neighbor_seq(c).contains(d)
    }

    /// A chain of hidden in-bounds cells along which a reveal cascades.
    pub open spec fn is_cascade_path(&self, p: Seq<Coordinate>) -> bool {
        &&& p.len() > 0
        &&& forall|i: int|
            0 <= i < p.len() ==> self.in_bounds(#[trigger] p[i]) && self.status(p[i])
                == TileStatus::Hidden
        &&& forall|i: int| 0 <= i < p.len() - 1 ==> #[trigger] self.opens(p[i], p[i + 1])
    }

    /// The state of `d` after `action` is applied: a reveal cascades, a flag
    /// marks a hidden tile, an unflag hides a flagged tile; a tile in any
    /// other state is left as it was.
    pub open spec fn applied_status(&self, action: PlayerAction, d: Coordinate) -> TileStatus {
        let c = action.coordinate;
        match action.action {
            Action::Reveal => self.revealed_status(c, d),
            Action::Flag => if d == c && self.status(c) == TileStatus::Hidden {
                TileStatus::Flagged(action.player_id)
            } else {
                self.status(d)
            },
            Action::Unflag => if d == c && self.status(c) is Flagged {
                TileStatus::Hidden
            } else {
                self.status(d)
            },
        }
    }

    /// Revealing `start` reveals `d`.
    pub open spec fn reaches(&self, start: Coordinate, d: Coordinate) -> bool {
        exists|p: Seq<Coordinate>| #[trigger]
            self.is_cascade_path(p) && p[0] == start && p.last() == d
    }

    /// The state of `d` once `start` has been revealed: each cell the
    /// cascade reaches shows its content, every other keeps its state.
    pub open spec fn revealed_status(&self, start: Coordinate, d: Coordinate) -> TileStatus {
        if self.reaches(start, d) {
            TileStatus::Revealed(self.tile_of(d))
        } else {
            self.status(d)
        }
    }
}

/// The keys of the hidden tiles of `m`.
pub open spec fn hidden_keys(m: Map<(u32, u32), TileStatus>) -> Set<(u32, u32)> {
    m.dom().filter(|k: (u32, u32)| m[k] == TileStatus::Hidden)
}

/// The cells among the first `k` offsets around `c` lie on the grid.
pub proof fn lemma_neighbors_upto_in_bounds(h: int, v: int, c: Coordinate, k: int)
    requires
        h <= u32::MAX,
        v <= u32::MAX,
    ensures
        forall|i: int|
            0 <= i < neighbors_upto(h, v, c, k).len() ==> {
                let d = #[trigger] neighbors_upto(h, v, c, k)[i];
                d.x < h && d.y < v
            },
    decreases k,
{
    if k > 0 {
        lemma_neighbors_upto_in_bounds(h, v, c, k - 1);
        let prev = neighbors_upto(h, v, c, k - 1);
        let s = neighbors_upto(h, v, c, k);
        assert forall|i: int| 0 <= i < s.len() implies {
            let d = #[trigger] s[i];
            d.x < h && d.y < v
        } by {
            if i < prev.len() {
                assert(s[i] == prev[i]);
            }
        }
    }
}

/// The offset of the `k`-th neighbor, as machine integers.
fn offset_at(k: usize) -> (r: (i64, i64))
    requires
        k < 8,
    ensures
        r.0 == offset(k as int).0,
        r.1 == offset(k as int).1,
{
    if k == 0 {
        (-1, -1)
    } else if k == 1 {
        (0, -1)
    } else if k == 2 {
        (1, -1)
    } else if k == 3 {
        (-1, 0)
    } else if k == 4 {
        (1, 0)
    } else if k == 5 {
        (-1, 1)
    } else if k == 6 {
        (0, 1)
    } else {
        (1, 1)
    }
}

/// Whether `list` holds `c`.
fn list_contains(list: &Vec<Coordinate>, c: &Coordinate) -> (r: bool)
    ensures
        r == list@.contains(*c),
{
    let mut i: usize = 0;
    while i < list.len()
        invariant
            i <= list@.len(),
            forall|j: int| 0 <= j < i ==> list@[j] != *c,
        decreases list@.len() - i,
    {
        if list[i] == *c {
            return true;
        }
        i = i + 1;
    }
    false
}

/// A tile map with every cell of an `h_size` by `v_size` grid hidden.
fn initialize_board_map(h_size: u32, v_size: u32) -> (m: TileMap)
    ensures
        forall|k: (u32, u32)| #[trigger]
            tile_entries(m).dom().contains(k) <==> (k.0 < h_size && k.1 < v_size),
        tile_entries(m).dom().finite(),
        forall|k: (u32, u32)| #[trigger]
            tile_entries(m).dom().contains(k) ==> tile_entries(m)[k] == TileStatus::Hidden,
{
    let mut m = tiles_empty();
    let mut x: u32 = 0;
    while x < h_size
        invariant
            x <= h_size,
            forall|k: (u32, u32)| #[trigger]
                tile_entries(m).dom().contains(k) <==> (k.0 < x && k.1 < v_size),
            tile_entries(m).dom().finite(),
            forall|k: (u32, u32)| #[trigger]
                tile_entries(m).dom().contains(k) ==> tile_entries(m)[k] == TileStatus::Hidden,
        decreases h_size - x,
    {
        let mut y: u32 = 0;
        while y < v_size
            invariant
                x < h_size,
                y <= v_size,
                forall|k: (u32, u32)| #[trigger]
                    tile_entries(m).dom().contains(k) <==> ((k.0 < x && k.1 < v_size) || (k.0
                        == x && k.1 < y)),
                tile_entries(m).dom().finite(),
                forall|k: (u32, u32)| #[trigger]
                    tile_entries(m).dom().contains(k) ==> tile_entries(m)[k]
                        == TileStatus::Hidden,
            decreases v_size - y,
        {
            tile_insert(&mut m, (x, y), TileStatus::Hidden);
            y = y + 1;
        }
        x = x + 1;
    }
    m
}

/// The number of mines for a board of `total` tiles.
fn mine_count_of(total: usize, difficulty: Difficulty) -> (r: usize)
    requires
        total > 0,
    ensures
        r == mine_count(total as int, difficulty),
        r <= total,
{
    if total < 5 {
        1
    } else {
        let percent: u128 = match difficulty {
            Difficulty::Easy => 12,
            Difficulty::Medium => 15,
            Difficulty::Hard => 20,
        };
        assert(percent == density_percent(difficulty));
        let t: u128 = total as u128;
        assert(t * percent <= t * 20) by (nonlinear_arith)
            requires
                percent <= 20,
        ;
        assert(t * percent / 100 <= t) by (nonlinear_arith)
            requires
                percent <= 20,
                t * percent <= t * 20,
        ;
        (t * percent / 100) as usize
    }
}

/// Every coordinate of an `h_size` by `v_size` grid, each once.
fn all_coordinates(h_size: u32, v_size: u32) -> (r: Vec<Coordinate>)
    requires
        h_size as int * v_size as int <= usize::MAX,
    ensures
        r@.no_duplicates(),
        r@.len() == h_size as int * v_size as int,
        forall|i: int| 0 <= i < r@.len() ==> (#[trigger] r@[i]).x < h_size && r@[i].y < v_size,
{
    let mut cells: Vec<Coordinate> = Vec::new();
    let mut x: u32 = 0;
    while x < h_size
        invariant
            x <= h_size,
            h_size as int * v_size as int <= usize::MAX,
            cells@.no_duplicates(),
            cells@.len() == x as int * v_size as int,
            forall|i: int|
                0 <= i < cells@.len() ==> (#[trigger] cells@[i]).x < x && cells@[i].y < v_size,
        decreases h_size - x,
    {
        let mut y: u32 = 0;
        while y < v_size
            invariant
                x < h_size,
                y <= v_size,
                cells@.no_duplicates(),
                cells@.len() == x as int * v_size as int + y,
                forall|i: int|
                    0 <= i < cells@.len() ==> ((#[trigger] cells@[i]).x < x && cells@[i].y
                        < v_size) || (cells@[i].x == x && cells@[i].y < y),
            decreases v_size - y,
        {
            cells.push(Coordinate { x, y });
            y = y + 1;
        }
        assert((x + 1) as int * v_size as int == x as int * v_size as int + v_size) by (nonlinear_arith);
        x = x + 1;
    }
    cells
}

impl Board {
    /// Picks the mines of a new board: `mine_count` distinct coordinates
    /// drawn uniformly at random without replacement.
    pub fn random_mine_coordinates(h_size: u32, v_size: u32, difficulty: Difficulty) -> (r: Vec<
        Coordinate,
    >)
        requires
            h_size > 0,
            v_size > 0,
            h_size as int * v_size as int <= usize::MAX,
        ensures
            r@.no_duplicates(),
            r@.len() == mine_count(h_size as int * v_size as int, difficulty),
            forall|i: int| 0 <= i < r@.len() ==> (#[trigger] r@[i]).x < h_size && r@[i].y < v_size,
    {
        let mut cells = all_coordinates(h_size, v_size);
        let total = cells.len();
        assert(total > 0) by (nonlinear_arith)
            requires
                h_size > 0,
                v_size > 0,
                total == h_size as int * v_size as int,
        ;
        let count = mine_count_of(total, difficulty);
        let mut rng = rand::thread_rng();
        let mut k: usize = 0;
        while k < count
            invariant
                k <= count <= total,
                cells@.len() == total,
                cells@.no_duplicates(),
                forall|i: int|
                    0 <= i < cells@.len() ==> (#[trigger] cells@[i]).x < h_size && cells@[i].y
                        < v_size,
            decreases count - k,
        {
            let j = random_index(&mut rng, k, total);
            let a = cells[k];
            let b = cells[j];
            let ghost before = cells@;
            cells.set(k, b);
            cells.set(j, a);
            proof {
                assert forall|i: int| 0 <= i < total implies #[trigger] cells@[i] == before[if i
                    == k {
                    j as int
                } else if i == j {
                    k as int
                } else {
                    i
                }] by {}
                assert forall|p: int, q: int|
                    0 <= p < cells@.len() && 0 <= q < cells@.len() && p != q implies cells@[p]
                    != cells@[q] by {
                    assert(cells@[p] == before[if p == k {
                        j as int
                    } else if p == j {
                        k as int
                    } else {
                        p
                    }]);
                    assert(cells@[q] == before[if q == k {
                        j as int
                    } else if q == j {
                        k as int
                    } else {
                        q
                    }]);
                }
                assert forall|i: int| 0 <= i < cells@.len() implies (#[trigger] cells@[i]).x
                    < h_size && cells@[i].y < v_size by {
                    assert(cells@[i] == before[if i == k {
                        j as int
                    } else if i == j {
                        k as int
                    } else {
                        i
                    }]);
                }
            }
            k = k + 1;
        }
        cells.truncate(count);
        cells
    }

    /// Makes a board of `h_size` by `v_size` hidden tiles with randomly
    /// placed mines (see [`Board::random_mine_coordinates`]).
    pub fn new(h_size: u32, v_size: u32, difficulty: Difficulty) -> (r: Board)
        requires
            h_size > 0,
            v_size > 0,
            h_size as int * v_size as int <= usize::MAX,
        ensures
            r.wf(),
            r.h_size == h_size,
            r.v_size == v_size,
            r.mines().len() == mine_count(h_size as int * v_size as int, difficulty),
            forall|c: Coordinate| #[trigger] r.is_mine_at(c) ==> r.in_bounds(c),
            forall|c: Coordinate| r.in_bounds(c) ==> #[trigger] r.status(c) == TileStatus::Hidden,
    {
        let mines = Board::random_mine_coordinates(h_size, v_size, difficulty);
        proof {
            mines@.unique_seq_to_set();
        }
        let ghost list = mines@;
        let r = Board::new_test(h_size, v_size, mines);
        assert forall|c: Coordinate| #[trigger] r.is_mine_at(c) implies r.in_bounds(c) by {
            assert(list.to_set().contains(c));
            let i = choose|i: int| 0 <= i < list.len() && list[i] == c;
            assert(list[i].x < h_size);
        }
        r
    }

    /// The number of mines.
    pub fn num_mines(&self) -> (r: usize)
        requires
            self.wf(),
        ensures
            r == self.mines().len(),
    {
        proof {
            self.mine_list().unique_seq_to_set();
        }
        self.mine_coordinates.len()
    }

    /// Makes a board with every tile hidden and mines at the given
    /// coordinates (a repeated coordinate counts once).
    pub fn new_test(h_size: u32, v_size: u32, mine_coordinates: Vec<Coordinate>) -> (r: Board)
        ensures
            r.wf(),
            r.h_size == h_size,
            r.v_size == v_size,
            r.mines() == mine_coordinates@.to_set(),
            forall|c: Coordinate| r.in_bounds(c) ==> #[trigger] r.status(c) == TileStatus::Hidden,
    {
        let mut mines: Vec<Coordinate> = Vec::new();
        let mut i: usize = 0;
        while i < mine_coordinates.len()
            invariant
                i <= mine_coordinates@.len(),
                mines@.no_duplicates(),
                mines@.to_set() == mine_coordinates@.subrange(0, i as int).to_set(),
            decreases mine_coordinates@.len() - i,
        {
            let c = mine_coordinates[i];
            proof {
                assert(mine_coordinates@.subrange(0, i + 1) =~= mine_coordinates@.subrange(
                    0,
                    i as int,
                ).push(c));
                mine_coordinates@.subrange(0, i as int).lemma_push_to_set_commute(c);
            }
            if !list_contains(&mines, &c) {
                proof {
                    mines@.lemma_push_to_set_commute(c);
                }
                mines.push(c);
            } else {
                proof {
                    assert(mines@.to_set().contains(c));
                    assert(mines@.to_set().insert(c) =~= mines@.to_set());
                }
            }
            i = i + 1;
        }
        proof {
            assert(mine_coordinates@.subrange(0, mine_coordinates@.len() as int)
                =~= mine_coordinates@);
        }
        let board = Board {
            h_size,
            v_size,
            board_map: initialize_board_map(h_size, v_size),
            mine_coordinates: Rc::new(mines),
        };
        assert forall|c: Coordinate| board.in_bounds(c) implies #[trigger] board.status(c)
            == TileStatus::Hidden by {
            assert(board.tiles().dom().contains(key(c)));
        }
        board
    }

    /// Whether a signed position lies on the grid.
    pub fn within_bounds(&self, potential_coordinate: &(i32, i32)) -> (r: bool)
        ensures
            r == (0 <= potential_coordinate.0 < self.h_size && 0 <= potential_coordinate.1
                < self.v_size),
    {
        potential_coordinate.0 >= 0 && (potential_coordinate.0 as i64) < (self.h_size as i64)
            && potential_coordinate.1 >= 0 && (potential_coordinate.1 as i64) < (
        self.v_size as i64)
    }

    pub fn is_mine(&self, coordinate: &Coordinate) -> (r: bool)
        ensures
            r == self.is_mine_at(*coordinate),
    {
        list_contains(&*self.mine_coordinates, coordinate)
    }

    /// The in-bounds neighbors of `coordinate` (three at a corner, eight
    /// inside).
    pub fn neighboring_coordinates(&self, coordinate: &Coordinate) -> (r: Vec<Coordinate>)
        ensures
            r@ == self.neighbor_seq(*coordinate),
            r@.len() <= 8,
    {
        let mut neighbors: Vec<Coordinate> = Vec::new();
        let mut k: usize = 0;
        while k < 8
            invariant
                k <= 8,
                neighbors@ == neighbors_upto(
                    self.h_size as int,
                    self.v_size as int,
                    *coordinate,
                    k as int,
                ),
            decreases 8 - k,
        {
            let (dx, dy) = offset_at(k);
            let nx: i64 = coordinate.x as i64 + dx;
            let ny: i64 = coordinate.y as i64 + dy;
            if 0 <= nx && nx < self.h_size as i64 && 0 <= ny && ny < self.v_size as i64 {
                neighbors.push(Coordinate { x: nx as u32, y: ny as u32 });
            }
            k = k + 1;
        }
        proof {
            lemma_neighbors_upto_len(self.h_size as int, self.v_size as int, *coordinate, 8);
        }
        neighbors
    }

    /// The number of mines among the in-bounds neighbors of `coordinate`.
    pub fn get_hint(&self, coordinate: &Coordinate) -> (r: i8)
        ensures
            r == self.hint_of(*coordinate),
            0 <= r <= 8,
    {
        let neighbors = self.neighboring_coordinates(coordinate);
        let mut count: i8 = 0;
        let mut i: usize = 0;
        while i < neighbors.len()
            invariant
                i <= neighbors@.len(),
                neighbors@.len() <= 8,
                count == count_in(neighbors@.subrange(0, i as int), self.mines()),
            decreases neighbors@.len() - i,
        {
            proof {
                lemma_count_in_len(neighbors@.subrange(0, i as int), self.mines());
                assert(neighbors@.subrange(0, i + 1).drop_last() =~= neighbors@.subrange(
                    0,
                    i as int,
                ));
            }
            if self.is_mine(&neighbors[i]) {
                count = count + 1;
            }
            i = i + 1;
        }
        proof {
            assert(neighbors@.subrange(0, neighbors@.len() as int) =~= neighbors@);
            lemma_count_in_len(neighbors@, self.mines());
        }
        count
    }

    /// The state of an in-bounds tile.
    pub fn get_tile(&self, coordinate: &Coordinate) -> (r: &TileStatus)
        requires
            self.wf(),
            self.in_bounds(*coordinate),
        ensures
            *r == self.status(*coordinate),
    {
        let found = tile_get(&self.board_map, &(coordinate.x, coordinate.y));
        found.unwrap()
    }
}

impl Board {
    /// Every cell the cascade changed, it changed from hidden to its content,
    /// and only where revealing `start` reaches.
    spec fn changed_only_reached(&self, start: Coordinate, cur: Map<(u32, u32), TileStatus>) -> bool {
        forall|d: Coordinate|
            self.in_bounds(d) ==> {
                ||| #[trigger] at(cur, d) == self.status(d)
                ||| self.status(d) == TileStatus::Hidden && at(cur, d) == TileStatus::Revealed(
                    self.tile_of(d),
                ) && self.reaches(start, d)
            }
    }

    /// Each neighbor of a tile this cascade revealed with hint 0 is no
    /// longer hidden, or waits in `work`.
    spec fn zero_neighbors_handled(
        &self,
        cur: Map<(u32, u32), TileStatus>,
        work: Seq<Coordinate>,
    ) -> bool {
        forall|d: Coordinate, n: Coordinate|
            #![trigger self.neighbor_seq(d).contains(n), at(cur, d)]
            self.in_bounds(d) && self.status(d) == TileStatus::Hidden && at(cur, d)
                == TileStatus::Revealed(Tile::Hint(0)) && self.neighbor_seq(d).contains(n) ==> at(
                cur,
                n,
            ) != TileStatus::Hidden || work.contains(n)
    }

    /// Revealing a hidden in-bounds tile reveals that tile.
    pub proof fn lemma_reaches_start(&self, start: Coordinate)
        requires
            self.in_bounds(start),
            self.status(start) == TileStatus::Hidden,
        ensures
            self.reaches(start, start),
    {
        let p = seq![start];
        assert(self.is_cascade_path(p));
    }

    /// A cascade that reaches a mine-free hint-0 tile goes on to each of
    /// its hidden neighbors.
    pub proof fn lemma_reaches_extend(&self, start: Coordinate, c: Coordinate, d: Coordinate)
        requires
            self.reaches(start, c),
            self.opens(c, d),
            self.in_bounds(d),
            self.status(d) == TileStatus::Hidden,
        ensures
            self.reaches(start, d),
    {
        let p = choose|p: Seq<Coordinate>| #[trigger]
            self.is_cascade_path(p) && p[0] == start && p.last() == c;
        let q = p.push(d);
        assert forall|i: int| 0 <= i < q.len() - 1 implies #[trigger] self.opens(q[i], q[i + 1]) by {
            if i < p.len() - 1 {
                assert(self.opens(p[i], p[i + 1]));
            }
        }
        assert forall|i: int| 0 <= i < q.len() implies self.in_bounds(#[trigger] q[i])
            && self.status(q[i]) == TileStatus::Hidden by {
            if i < p.len() {
                assert(self.in_bounds(p[i]));
            }
        }
        assert(self.is_cascade_path(q));
        assert(q[0] == start && q.last() == d);
    }

    /// Once the work is done, every cell on a cascade path from `start` has
    /// been revealed.
    proof fn lemma_path_revealed(
        &self,
        start: Coordinate,
        cur: Map<(u32, u32), TileStatus>,
        p: Seq<Coordinate>,
        i: int,
    )
        requires
            self.changed_only_reached(start, cur),
            self.zero_neighbors_handled(cur, Seq::empty()),
            at(cur, start) != TileStatus::Hidden,
            self.is_cascade_path(p),
            p[0] == start,
            0 <= i < p.len(),
        ensures
            at(cur, p[i]) == TileStatus::Revealed(self.tile_of(p[i])),
        decreases i,
    {
        assert(self.in_bounds(p[i]));
        if i > 0 {
            self.lemma_path_revealed(start, cur, p, i - 1);
            assert(self.opens(p[i - 1], p[(i - 1) + 1]));
            assert(self.in_bounds(p[i - 1]));
            assert(self.neighbor_seq(p[i - 1]).contains(p[i]));
            assert(at(cur, p[i]) != TileStatus::Hidden);
        }
        assert(at(cur, p[i]) == self.status(p[i]) || at(cur, p[i]) == TileStatus::Revealed(
            self.tile_of(p[i]),
        ));
    }

    /// The board after `player_action`; this board is left as it is and
    /// shares its mines and, structurally, its tiles with the result.
    pub fn update(&self, player_action: &PlayerAction) -> (r: Board)
        requires
            self.wf(),
            self.in_bounds(player_action.coordinate),
        ensures
            r.wf(),
            r.h_size == self.h_size,
            r.v_size == self.v_size,
            r.mine_list() == self.mine_list(),
            forall|d: Coordinate|
                self.in_bounds(d) ==> #[trigger] r.status(d) == self.applied_status(
                    *player_action,
                    d,
                ),
    {
        let c = player_action.coordinate;
        let mut tiles = tiles_share(&self.board_map);
        let current = *self.get_tile(&c);
        proof {
            assert(self.tiles().dom().contains(key(c)));
        }
        match player_action.action {
            Action::Reveal => {
                tiles = self.reveal_from(&c, tiles);
            },
            Action::Flag => {
                match current {
                    TileStatus::Hidden => {
                        tile_insert(&mut tiles, (c.x, c.y), TileStatus::Flagged(player_action.player_id));
                    },
                    _ => {},
                }
            },
            Action::Unflag => {
                match current {
                    TileStatus::Flagged(_) => {
                        tile_insert(&mut tiles, (c.x, c.y), TileStatus::Hidden);
                    },
                    _ => {},
                }
            },
        }
        let r = Board {
            h_size: self.h_size,
            v_size: self.v_size,
            board_map: tiles,
            mine_coordinates: share_mines(&self.mine_coordinates),
        };
        proof {
            assert(r.tiles().dom() =~= self.tiles().dom());
            assert forall|d: Coordinate| self.in_bounds(d) implies #[trigger] r.status(d)
                == self.applied_status(*player_action, d) by {
                if d != c {
                    assert(key(d) != key(c));
                }
            }
        }
        r
    }

    /// Reveals `coordinate` in `board_map` (a copy of this board's tiles),
    /// cascading through hint-0 tiles; a tile that is not hidden is left
    /// alone.
    fn reveal_from(&self, coordinate: &Coordinate, board_map: TileMap) -> (r: TileMap)
        requires
            self.wf(),
            tile_entries(board_map) == self.tiles(),
            self.in_bounds(*coordinate),
        ensures
            tile_entries(r).dom() == self.tiles().dom(),
            forall|d: Coordinate|
                self.in_bounds(d) ==> #[trigger] at(tile_entries(r), d) == self.revealed_status(
                    *coordinate,
                    d,
                ),
    {
        let start = *coordinate;
        let mut tiles = board_map;
        let mut work: Vec<Coordinate> = Vec::new();
        work.push(start);
        proof {
            assert(work@[0] == start);
            assert(forall|k: (u32, u32)| #[trigger]
                tile_entries(tiles).dom().contains(k) ==> tile_entries(tiles)[k] == self.tiles()[k]);
            tile_entries(tiles).dom().lemma_len_filter(
                |k: (u32, u32)| tile_entries(tiles)[k] == TileStatus::Hidden,
            );
        }
        while work.len() > 0
            invariant
                self.wf(),
                self.in_bounds(start),
                tile_entries(tiles).dom() == self.tiles().dom(),
                hidden_keys(tile_entries(tiles)).finite(),
                self.changed_only_reached(start, tile_entries(tiles)),
                self.zero_neighbors_handled(tile_entries(tiles), work@),
                at(tile_entries(tiles), start) != TileStatus::Hidden || work@.contains(start),
                forall|i: int|
                    0 <= i < work@.len() ==> self.in_bounds(#[trigger] work@[i]) && (work@[i]
                        == start || self.reaches(start, work@[i])),
            decreases 9 * hidden_keys(tile_entries(tiles)).len() + work@.len(),
        {
            let ghost before = tile_entries(tiles);
            let ghost work_before = work@;
            let p = work.pop().unwrap();
            proof {
                assert(work_before[work_before.len() - 1] == p);
                assert(self.in_bounds(p));
                assert(forall|x: Coordinate| #[trigger]
                    work_before.contains(x) ==> x == p || work@.contains(x)) by {
                    assert forall|x: Coordinate| #[trigger] work_before.contains(x) implies x == p
                        || work@.contains(x) by {
                        let j = choose|j: int| 0 <= j < work_before.len() && work_before[j] == x;
                        if j < work_before.len() - 1 {
                            assert(work@[j] == x);
                        }
                    }
                }
            }
            let status = *tile_get(&tiles, &(p.x, p.y)).unwrap();
            proof {
                assert(tile_entries(tiles).dom().contains(key(p)));
                assert(status == at(before, p));
            }
            match status {
                TileStatus::Hidden => {
                    proof {
                        assert(at(before, p) == self.status(p));
                        if p == start {
                            self.lemma_reaches_start(start);
                        }
                        assert(self.reaches(start, p));
                    }
                    let tile = if self.is_mine(&p) {
                        Tile::Mine
                    } else {
                        Tile::Hint(self.get_hint(&p))
                    };
                    tile_insert(&mut tiles, (p.x, p.y), TileStatus::Revealed(tile));
                    let ghost revealed = tile_entries(tiles);
                    proof {
                        assert(hidden_keys(revealed) =~= hidden_keys(before).remove(key(p)));
                        assert(hidden_keys(before).contains(key(p)));
                        assert(revealed.dom() =~= before.dom());
                        assert forall|d: Coordinate| self.in_bounds(d) implies {
                            ||| #[trigger] at(revealed, d) == self.status(d)
                            ||| self.status(d) == TileStatus::Hidden && at(revealed, d)
                                == TileStatus::Revealed(self.tile_of(d)) && self.reaches(start, d)
                        } by {
                            if d != p {
                                assert(key(d) != key(p));
                                assert(at(revealed, d) == at(before, d));
                            }
                        }
                    }
                    match tile {
                        Tile::Hint(0) => {
                            let neighbors = self.neighboring_coordinates(&p);
                            let ghost work_mid = work@;
                            proof {
                                lemma_neighbors_upto_in_bounds(
                                    self.h_size as int,
                                    self.v_size as int,
                                    p,
                                    8,
                                );
                            }
                            let mut j: usize = 0;
                            while j < neighbors.len()
                                invariant
                                    self.wf(),
                                    self.in_bounds(start),
                                    self.in_bounds(p),
                                    self.status(p) == TileStatus::Hidden,
                                    self.reaches(start, p),
                                    !self.is_mine_at(p),
                                    self.hint_of(p) == 0,
                                    j <= neighbors@.len(),
                                    neighbors@ == self.neighbor_seq(p),
                                    neighbors@.len() <= 8,
                                    forall|i: int|
                                        0 <= i < neighbors@.len() ==> self.in_bounds(
                                            #[trigger] neighbors@[i],
                                        ),
                                    tile_entries(tiles) == revealed,
                                    revealed.dom() == self.tiles().dom(),
                                    self.changed_only_reached(start, revealed),
                                    work_mid.len() <= work@.len(),
                                    work@.len() <= work_mid.len() + j,
                                    work@.subrange(0, work_mid.len() as int) == work_mid,
                                    forall|i: int|
                                        0 <= i < j ==> at(revealed, #[trigger] neighbors@[i])
                                            != TileStatus::Hidden || work@.contains(neighbors@[i]),
                                    forall|i: int|
                                        0 <= i < work@.len() ==> self.in_bounds(
                                            #[trigger] work@[i],
                                        ) && (work@[i] == start || self.reaches(start, work@[i])),
                                decreases neighbors@.len() - j,
                            {
                                let n = neighbors[j];
                                let n_status = *tile_get(&tiles, &(n.x, n.y)).unwrap();
                                proof {
                                    assert(self.in_bounds(n));
                                    assert(self.tiles().dom().contains(key(n)));
                                }
                                match n_status {
                                    TileStatus::Hidden => {
                                        proof {
                                            assert(at(revealed, n) == TileStatus::Hidden);
                                            assert(at(revealed, n) == self.status(n));
                                            assert(neighbors@.contains(n)) by {
                                                assert(neighbors@[j as int] == n);
                                            }
                                            self.lemma_reaches_extend(start, p, n);
                                        }
                                        let ghost pre = work@;
                                        work.push(n);
                                        proof {
                                            assert(work@.subrange(0, work_mid.len() as int)
                                                =~= pre.subrange(0, work_mid.len() as int));
                                            assert forall|i: int|
                                                0 <= i < j + 1 implies at(
                                                revealed,
                                                #[trigger] neighbors@[i],
                                            ) != TileStatus::Hidden || work@.contains(
                                                neighbors@[i],
                                            ) by {
                                                if i < j && at(revealed, neighbors@[i])
                                                    == TileStatus::Hidden {
                                                    let t = choose|t: int|
                                                        0 <= t < pre.len() && pre[t]
                                                            == neighbors@[i];
                                                    assert(work@[t] == neighbors@[i]);
                                                }
                                                if i == j {
                                                    assert(work@[pre.len() as int] == n);
                                                }
                                            }
                                        }
                                    },
                                    _ => {},
                                }
                                j = j + 1;
                            }
                            proof {
                                assert forall|x: Coordinate| #[trigger]
                                    work_mid.contains(x) implies work@.contains(x) by {
                                    let t = choose|t: int| 0 <= t < work_mid.len() && work_mid[t] == x;
                                    assert(work@.subrange(0, work_mid.len() as int)[t] == x);
                                    assert(work@[t] == x);
                                }
                                assert forall|d: Coordinate, n: Coordinate|
                                    #![trigger self.neighbor_seq(d).contains(n), at(revealed, d)]
                                    self.in_bounds(d) && self.status(d) == TileStatus::Hidden
                                        && at(revealed, d) == TileStatus::Revealed(Tile::Hint(0))
                                        && self.neighbor_seq(d).contains(n) implies at(revealed, n)
                                    != TileStatus::Hidden || work@.contains(n) by {
                                    if d == p {
                                        let t = choose|t: int|
                                            0 <= t < neighbors@.len() && neighbors@[t] == n;
                                        assert(at(revealed, neighbors@[t]) != TileStatus::Hidden
                                            || work@.contains(neighbors@[t]));
                                    } else {
                                        assert(key(d) != key(p));
                                        assert(at(before, d) == at(revealed, d));
                                        if n != p {
                                            assert(key(n) != key(p));
                                            assert(at(before, n) == at(revealed, n));
                                        }
                                    }
                                }
                            }
                        },
                        _ => {
                            proof {
                                assert forall|d: Coordinate, n: Coordinate|
                                    #![trigger self.neighbor_seq(d).contains(n), at(revealed, d)]
                                    self.in_bounds(d) && self.status(d) == TileStatus::Hidden
                                        && at(revealed, d) == TileStatus::Revealed(Tile::Hint(0))
                                        && self.neighbor_seq(d).contains(n) implies at(revealed, n)
                                    != TileStatus::Hidden || work@.contains(n) by {
                                    assert(key(d) != key(p) || at(revealed, d) != TileStatus::Revealed(Tile::Hint(0)));
                                    if d != p {
                                        assert(at(before, d) == at(revealed, d));
                                        if n != p {
                                            assert(key(n) != key(p));
                                            assert(at(before, n) == at(revealed, n));
                                        }
                                    }
                                }
                            }
                        },
                    }
                },
                _ => {
                    proof {
                        assert forall|d: Coordinate, n: Coordinate|
                            #![trigger self.neighbor_seq(d).contains(n), at(before, d)]
                            self.in_bounds(d) && self.status(d) == TileStatus::Hidden && at(
                                before,
                                d,
                            ) == TileStatus::Revealed(Tile::Hint(0)) && self.neighbor_seq(
                                d,
                            ).contains(n) implies at(before, n) != TileStatus::Hidden
                            || work@.contains(n) by {
                            if at(before, n) == TileStatus::Hidden {
                                assert(work_before.contains(n));
                            }
                        }
                    }
                },
            }
        }
        proof {
            let cur = tile_entries(tiles);
            assert forall|d: Coordinate| self.in_bounds(d) implies #[trigger] at(cur, d)
                == self.revealed_status(start, d) by {
                if self.reaches(start, d) {
                    let p = choose|p: Seq<Coordinate>| #[trigger]
                        self.is_cascade_path(p) && p[0] == start && p.last() == d;
                    self.lemma_path_revealed(start, cur, p, p.len() - 1);
                } else {
                    assert(at(cur, d) == self.status(d));
                }
            }
        }
        tiles
    }
}

} // verus!
