//! The game: a board, its players in turn order, the status, and scoring.
use vstd::prelude::*;

use crate::board::{count_in, Board, Coordinate, Tile, TileStatus};
use crate::player::{Action, Player, PlayerAction, PlayerId, PlayerIds};
use crate::roster::{roster_empty, roster_entries, roster_get, roster_ids, roster_update, Roster};

verus! {

/// How densely a new board is mined.
#[derive(Debug, Clone, Copy, PartialEq, Eq, Structural)]
pub enum Difficulty {
    /// 12% of the tiles.
    Easy,
    /// 15% of the tiles.
    Medium,
    /// 20% of the tiles.
    Hard,
}

/// The share of mined tiles, in percent.
pub open spec fn density_percent(difficulty: Difficulty) -> int {
    match difficulty {
        Difficulty::Easy => 12,
        Difficulty::Medium => 15,
        Difficulty::Hard => 20,
    }
}

/// How many mines a board of `total` tiles gets: the density's share of the
/// tiles, rounded down, and exactly one on a board of fewer than 5 tiles.
pub open spec fn mine_count(total: int, difficulty: Difficulty) -> int {
    if total < 5 {
        1
    } else {
        total * density_percent(difficulty) / 100
    }
}

/// Where a game stands.
#[derive(Debug, Clone, Copy, PartialEq, Eq, Structural)]
pub enum GameStatus {
    Continue,
    /// A mine was revealed.
    Over,
    /// Every mine-free tile is revealed.
    Win,
}

/// Whether a tile state shows a hint.
pub open spec fn shows_hint(s: TileStatus) -> bool {
    match s {
        TileStatus::Revealed(Tile::Hint(_)) => true,
        _ => false,
    }
}

impl Board {
    /// Every mine-free tile is revealed; mines may stay hidden or flagged.
    pub open spec fn all_safe_revealed(&self) -> bool {
        forall|c: Coordinate|
            self.in_bounds(c) && !self.is_mine_at(c) ==> shows_hint(#[trigger] self.status(c))
    }
}

/// The status once a move at `c` has produced `board`: a revealed mine at
/// `c` ends the game, else revealing every mine-free tile wins it.
pub open spec fn status_after(board: Board, c: Coordinate) -> GameStatus {
    if board.status(c) == TileStatus::Revealed(Tile::Mine) {
        GameStatus::Over
    } else if board.all_safe_revealed() {
        GameStatus::Win
    } else {
        GameStatus::Continue
    }
}

/// The points a move earns, judged by the tile it acted on before (`before`)
/// and after (`after`): revealing a hint scores 1, a hint of 0 (which
/// cascades) 3, a mine -10; flagging a mine scores 2, any other tile -1. A
/// move that left its tile unchanged, and an unflag, score nothing.
pub open spec fn points_for(before: Board, after: Board, action: PlayerAction) -> int {
    let c = action.coordinate;
    if before.status(c) != TileStatus::Hidden {
        0
    } else {
        match action.action {
            Action::Reveal => match after.status(c) {
                TileStatus::Revealed(Tile::Mine) => -10,
                TileStatus::Revealed(Tile::Hint(n)) => if n == 0 {
                    3
                } else {
                    1
                },
                _ => 0,
            },
            Action::Flag => if after.is_mine_at(c) {
                2
            } else {
                -1
            },
            Action::Unflag => 0,
        }
    }
}

/// Flags are not needed to win: once every mine-free tile is revealed the
/// status is `Win`, even with every mine still hidden and nothing flagged.
pub proof fn lemma_win_without_flags(board: Board, c: Coordinate)
    requires
        board.in_bounds(c),
        !board.is_mine_at(c),
        forall|d: Coordinate|
            board.in_bounds(d) && board.is_mine_at(d) ==> #[trigger] board.status(d)
                == TileStatus::Hidden,
        forall|d: Coordinate|
            board.in_bounds(d) && !board.is_mine_at(d) ==> shows_hint(#[trigger] board.status(d)),
    ensures
        status_after(board, c) == GameStatus::Win,
{
}

/// A count is positive when the sequence holds a member of the set.
proof fn lemma_count_in_positive(s: Seq<Coordinate>, mines: Set<Coordinate>, d: Coordinate)
    requires
        s.contains(d),
        mines.contains(d),
    ensures
        count_in(s, mines) > 0,
    decreases s.len(),
{
    if s.last() != d {
        let i = choose|i: int| 0 <= i < s.len() && s[i] == d;
        assert(s.drop_last()[i] == d);
        lemma_count_in_positive(s.drop_last(), mines, d);
    }
}

/// A cascade started on a mine-free tile never reaches a mine.
proof fn lemma_cascade_avoids_mines(b: Board, c: Coordinate, d: Coordinate)
    requires
        b.reaches(c, d),
        !b.is_mine_at(c),
    ensures
        !b.is_mine_at(d),
{
    let p = choose|p: Seq<Coordinate>| #[trigger] b.is_cascade_path(p) && p[0] == c && p.last() == d;
    if p.len() > 1 && b.is_mine_at(d) {
        let n = p.len() - 2;
        assert(b.opens(p[n], p[n + 1]));
        lemma_count_in_positive(b.neighbor_seq(p[n]), b.mines(), d);
    }
}

/// Every tile is hidden or shows a hint, and every mine is hidden.
pub open spec fn unflagged_and_safe(b: Board) -> bool {
    forall|d: Coordinate|
        b.in_bounds(d) ==> (#[trigger] b.status(d) == TileStatus::Hidden || shows_hint(b.status(d)))
            && (b.is_mine_at(d) ==> b.status(d) == TileStatus::Hidden)
}

/// Revealing a mine-free tile on a board with no flags and no revealed mine
/// keeps it so, makes that tile show its hint, and keeps every hint shown.
proof fn lemma_safe_reveal_step(b: Board, after: Board, c: Coordinate, player_id: PlayerId)
    requires
        b.wf(),
        b.in_bounds(c),
        !b.is_mine_at(c),
        unflagged_and_safe(b),
        after.h_size == b.h_size,
        after.v_size == b.v_size,
        after.mine_list() == b.mine_list(),
        forall|d: Coordinate|
            b.in_bounds(d) ==> #[trigger] after.status(d) == b.applied_status(
                PlayerAction { player_id, coordinate: c, action: Action::Reveal },
                d,
            ),
    ensures
        unflagged_and_safe(after),
        shows_hint(after.status(c)),
        forall|d: Coordinate| b.in_bounds(d) && shows_hint(#[trigger] b.status(d)) ==> shows_hint(after.status(d)),
{
    let action = PlayerAction { player_id, coordinate: c, action: Action::Reveal };
    assert forall|d: Coordinate| after.in_bounds(d) implies (#[trigger] after.status(d)
        == TileStatus::Hidden || shows_hint(after.status(d))) && (after.is_mine_at(d)
        ==> after.status(d) == TileStatus::Hidden) by {
        assert(after.status(d) == b.applied_status(action, d));
        assert(b.status(d) == TileStatus::Hidden || shows_hint(b.status(d)));
        if b.reaches(c, d) {
            lemma_cascade_avoids_mines(b, c, d);
        }
    }
    assert(after.status(c) == b.applied_status(action, c));
    assert(b.status(c) == TileStatus::Hidden || shows_hint(b.status(c)));
    if b.status(c) == TileStatus::Hidden {
        b.lemma_reaches_start(c);
    }
    assert forall|d: Coordinate| b.in_bounds(d) && shows_hint(#[trigger] b.status(d)) implies shows_hint(
        after.status(d),
    ) by {
        assert(after.status(d) == b.applied_status(action, d));
        if b.reaches(c, d) {
            let p = choose|p: Seq<Coordinate>| #[trigger] b.is_cascade_path(p) && p[0] == c && p.last() == d;
            assert(b.status(p[p.len() - 1]) == TileStatus::Hidden);
        }
    }
}

/// The state after the first `k` reveals of [`lemma_win_by_reveals_alone`].
proof fn lemma_reveals_progress(boards: Seq<Board>, cells: Seq<Coordinate>, player_id: PlayerId, k: int)
    requires
        boards.len() == cells.len() + 1,
        0 <= k < boards.len(),
        boards[0].wf(),
        forall|d: Coordinate| boards[0].in_bounds(d) ==> #[trigger] boards[0].status(d) == TileStatus::Hidden,
        forall|i: int|
            0 <= i < cells.len() ==> boards[0].in_bounds(#[trigger] cells[i]) && !boards[0].is_mine_at(
                cells[i],
            ),
        forall|i: int|
            0 <= i < cells.len() ==> {
                &&& (#[trigger] boards[i + 1]).wf()
                &&& boards[i + 1].h_size == boards[i].h_size
                &&& boards[i + 1].v_size == boards[i].v_size
                &&& boards[i + 1].mine_list() == boards[i].mine_list()
                &&& forall|d: Coordinate|
                    boards[i].in_bounds(d) ==> #[trigger] boards[i + 1].status(d)
                        == boards[i].applied_status(
                        PlayerAction { player_id, coordinate: cells[i], action: Action::Reveal },
                        d,
                    )
            },
    ensures
        boards[k].wf(),
        boards[k].h_size == boards[0].h_size,
        boards[k].v_size == boards[0].v_size,
        boards[k].mine_list() == boards[0].mine_list(),
        unflagged_and_safe(boards[k]),
        forall|j: int| 0 <= j < k ==> shows_hint(boards[k].status(#[trigger] cells[j])),
    decreases k,
{
    if k > 0 {
        lemma_reveals_progress(boards, cells, player_id, k - 1);
        let b = boards[k - 1];
        let c = cells[k - 1];
        assert(boards[(k - 1) + 1].wf());
        lemma_safe_reveal_step(b, boards[k], c, player_id);
        assert forall|j: int| 0 <= j < k implies shows_hint(boards[k].status(#[trigger] cells[j])) by {
            assert(boards[0].in_bounds(cells[j]));
            if j < k - 1 {
                assert(shows_hint(b.status(cells[j])));
            }
        }
    } else {
        assert forall|d: Coordinate| boards[0].in_bounds(d) implies (#[trigger] boards[0].status(d)
            == TileStatus::Hidden || shows_hint(boards[0].status(d))) && (boards[0].is_mine_at(d)
            ==> boards[0].status(d) == TileStatus::Hidden) by {}
    }
}

/// Flags are not needed to win. On a board with every tile hidden, reveal
/// mine-free tiles one after another, every mine-free tile at least once:
/// `boards[i + 1]` is `boards[i]` after revealing `cells[i]`. No step reveals
/// a mine, and after the last one the game is won.
pub proof fn lemma_win_by_reveals_alone(boards: Seq<Board>, cells: Seq<Coordinate>, player_id: PlayerId)
    requires
        boards.len() == cells.len() + 1,
        cells.len() > 0,
        boards[0].wf(),
        forall|d: Coordinate| boards[0].in_bounds(d) ==> #[trigger] boards[0].status(d) == TileStatus::Hidden,
        forall|i: int|
            0 <= i < cells.len() ==> boards[0].in_bounds(#[trigger] cells[i]) && !boards[0].is_mine_at(
                cells[i],
            ),
        forall|d: Coordinate|
            boards[0].in_bounds(d) && !boards[0].is_mine_at(d) ==> exists|i: int|
                0 <= i < cells.len() && #[trigger] cells[i] == d,
        forall|i: int|
            0 <= i < cells.len() ==> {
                &&& (#[trigger] boards[i + 1]).wf()
                &&& boards[i + 1].h_size == boards[i].h_size
                &&& boards[i + 1].v_size == boards[i].v_size
                &&& boards[i + 1].mine_list() == boards[i].mine_list()
                &&& forall|d: Coordinate|
                    boards[i].in_bounds(d) ==> #[trigger] boards[i + 1].status(d)
                        == boards[i].applied_status(
                        PlayerAction { player_id, coordinate: cells[i], action: Action::Reveal },
                        d,
                    )
            },
    ensures
        forall|i: int|
            0 <= i < cells.len() ==> status_after(#[trigger] boards[i + 1], cells[i]) != GameStatus::Over,
        status_after(boards[cells.len() as int], cells[cells.len() - 1]) == GameStatus::Win,
{
    assert forall|i: int| 0 <= i < cells.len() implies status_after(#[trigger] boards[i + 1], cells[i])
        != GameStatus::Over by {
        lemma_reveals_progress(boards, cells, player_id, i + 1);
        assert(boards[0].in_bounds(cells[i]));
    }
    let n = cells.len() as int;
    lemma_reveals_progress(boards, cells, player_id, n);
    let last = boards[n];
    assert forall|d: Coordinate| last.in_bounds(d) && !last.is_mine_at(d) implies shows_hint(
        #[trigger] last.status(d),
    ) by {
        assert(boards[0].in_bounds(d));
        assert(last.mines() == boards[0].mines());
        assert(!boards[0].is_mine_at(d));
        let i = choose|i: int| 0 <= i < cells.len() && #[trigger] cells[i] == d;
        assert(shows_hint(last.status(cells[i])));
    }
    assert(boards[0].in_bounds(cells[n - 1]));
    assert(shows_hint(last.status(cells[n - 1])));
}

/// Revealing a hidden mine ends the game at once, however many tiles are
/// still hidden.
pub proof fn lemma_mine_ends_game(before: Board, after: Board, action: PlayerAction)
    requires
        before.wf(),
        before.in_bounds(action.coordinate),
        action.action == Action::Reveal,
        before.is_mine_at(action.coordinate),
        before.status(action.coordinate) == TileStatus::Hidden,
        after.status(action.coordinate) == before.applied_status(action, action.coordinate),
    ensures
        after.status(action.coordinate) == TileStatus::Revealed(Tile::Mine),
        status_after(after, action.coordinate) == GameStatus::Over,
        points_for(before, after, action) == -10,
{
    before.lemma_reaches_start(action.coordinate);
}

/// A game: the board, the players keyed by id, the status, and the order in
/// which players take turns.
pub struct Game {
    pub board: Board,
    pub players: Roster,
    pub status: GameStatus,
    /// Player ids in turn order.
    pub turn_order: Vec<PlayerId>,
    /// Index into `turn_order` of the player whose turn it is.
    pub current_turn: usize,
}

impl Game {
    /// The players, keyed by id.
    pub open spec fn roster(&self) -> Map<PlayerId, Player> {
        roster_entries(self.players)
    }

    /// The board is well formed, each player is filed under its own id and
    /// appears in the turn order, and the turn index is in range.
    pub open spec fn wf(&self) -> bool {
        &&& self.board.wf()
        &&& forall|k: PlayerId| #[trigger]
            self.roster().dom().contains(k) ==> self.roster()[k].id == k
                && self.turn_order@.contains(k)
        &&& forall|i: int|
            0 <= i < self.turn_order@.len() ==> self.roster().dom().contains(
                #[trigger] self.turn_order@[i],
            )
        &&& self.turn_order@.len() == 0 ==> self.current_turn == 0
        &&& self.turn_order@.len() > 0 ==> self.current_turn < self.turn_order@.len()
    }

    /// `id` is a player whose score no other player's exceeds.
    pub open spec fn is_winner(&self, id: PlayerId) -> bool {
        &&& self.roster().dom().contains(id)
        &&& forall|k: PlayerId| #[trigger]
            self.roster().dom().contains(k) ==> self.roster()[k].points <= self.roster()[id].points
    }

    fn from_board(board: Board) -> (r: Game)
        requires
            board.wf(),
        ensures
            r.wf(),
            r.board == board,
            r.roster() == Map::<PlayerId, Player>::empty(),
            r.status == GameStatus::Continue,
            r.turn_order@.len() == 0,
            r.current_turn == 0,
    {
        Game {
            board,
            players: roster_empty(),
            status: GameStatus::Continue,
            turn_order: Vec::new(),
            current_turn: 0,
        }
    }

    /// A game with no players on a new randomly mined board.
    pub fn new(h_size: u32, v_size: u32, difficulty: Difficulty) -> (r: Game)
        requires
            h_size > 0,
            v_size > 0,
            h_size as int * v_size as int <= usize::MAX,
        ensures
            r.wf(),
            r.board.h_size == h_size,
            r.board.v_size == v_size,
            r.board.mines().len() == mine_count(h_size as int * v_size as int, difficulty),
            forall|c: Coordinate| r.board.in_bounds(c) ==> #[trigger] r.board.status(c)
                == TileStatus::Hidden,
            r.roster() == Map::<PlayerId, Player>::empty(),
            r.status == GameStatus::Continue,
            r.turn_order@.len() == 0,
    {
        Game::from_board(Board::new(h_size, v_size, difficulty))
    }

    /// A game with no players on a board mined at the given coordinates.
    pub fn new_test(h_size: u32, v_size: u32, mine_coordinates: Vec<Coordinate>) -> (r: Game)
        ensures
            r.wf(),
            r.board.h_size == h_size,
            r.board.v_size == v_size,
            r.board.mines() == mine_coordinates@.to_set(),
            forall|c: Coordinate| r.board.in_bounds(c) ==> #[trigger] r.board.status(c)
                == TileStatus::Hidden,
            r.roster() == Map::<PlayerId, Player>::empty(),
            r.status == GameStatus::Continue,
            r.turn_order@.len() == 0,
    {
        Game::from_board(Board::new_test(h_size, v_size, mine_coordinates))
    }

    /// Adds `player` at the end of the turn order (a player already filed
    /// under the same id is replaced).
    pub fn add_player(self, player: Player) -> (r: Game)
        requires
            self.wf(),
        ensures
            r.wf(),
            r.board == self.board,
            r.roster() == self.roster().insert(player.id, player),
            r.turn_order@ == self.turn_order@.push(player.id),
            r.status == self.status,
            r.current_turn == self.current_turn,
    {
        let ghost old_order = self.turn_order@;
        let mut turn_order = self.turn_order;
        let id = player.id;
        turn_order.push(id);
        let r = Game {
            board: self.board,
            players: roster_update(&self.players, id, player),
            status: self.status,
            turn_order,
            current_turn: self.current_turn,
        };
        proof {
            assert(r.turn_order@[old_order.len() as int] == id);
            assert forall|k: PlayerId| #[trigger] r.roster().dom().contains(k) implies r.roster()[k].id
                == k && r.turn_order@.contains(k) by {
                if k != id {
                    assert(self.roster().dom().contains(k));
                    assert(old_order.contains(k));
                    let i = choose|i: int| 0 <= i < old_order.len() && old_order[i] == k;
                    assert(r.turn_order@[i] == k);
                }
            }
            assert forall|i: int| 0 <= i < r.turn_order@.len() implies r.roster().dom().contains(
                #[trigger] r.turn_order@[i],
            ) by {
                if i < old_order.len() {
                    assert(r.turn_order@[i] == old_order[i]);
                }
            }
        }
        r
    }

    /// Adds a new player named `player_name`, with the next id from `ids`.
    pub fn add_player_by_name(self, player_name: &str, ids: &mut PlayerIds) -> (r: Game)
        requires
            self.wf(),
            old(ids).next_id() < PlayerId::MAX,
        ensures
            r.wf(),
            r.board == self.board,
            final(ids).next_id() == old(ids).next_id() + 1,
            r.roster().dom() == self.roster().dom().insert(old(ids).next_id()),
            r.roster()[old(ids).next_id()].name@ == player_name@,
            r.roster()[old(ids).next_id()].points == 0,
            r.turn_order@ == self.turn_order@.push(old(ids).next_id()),
            r.status == self.status,
            r.current_turn == self.current_turn,
    {
        let player = Player::new(player_name.to_string(), ids);
        self.add_player(player)
    }

    /// The player filed under `player_id`.
    pub fn get_player(&self, player_id: &PlayerId) -> (r: &Player)
        requires
            self.roster().dom().contains(*player_id),
        ensures
            *r == self.roster()[*player_id],
    {
        roster_get(&self.players, player_id).unwrap()
    }

    /// The player whose turn it is.
    pub fn current_player(&self) -> (r: &Player)
        requires
            self.wf(),
            self.turn_order@.len() > 0,
        ensures
            *r == self.roster()[self.turn_order@[self.current_turn as int]],
    {
        let id = self.turn_order[self.current_turn];
        self.get_player(&id)
    }

    /// Whether every mine-free tile of `board` is revealed.
    pub fn check_win(board: &Board) -> (r: bool)
        requires
            board.wf(),
        ensures
            r == board.all_safe_revealed(),
    {
        let mut x: u32 = 0;
        while x < board.h_size
            invariant
                board.wf(),
                x <= board.h_size,
                forall|c: Coordinate|
                    board.in_bounds(c) && c.x < x && !board.is_mine_at(c) ==> shows_hint(
                        #[trigger] board.status(c),
                    ),
            decreases board.h_size - x,
        {
            let mut y: u32 = 0;
            while y < board.v_size
                invariant
                    board.wf(),
                    x < board.h_size,
                    y <= board.v_size,
                    forall|c: Coordinate|
                        board.in_bounds(c) && (c.x < x || (c.x == x && c.y < y))
                            && !board.is_mine_at(c) ==> shows_hint(#[trigger] board.status(c)),
                decreases board.v_size - y,
            {
                let c = Coordinate { x, y };
                if !board.is_mine(&c) {
                    match board.get_tile(&c) {
                        TileStatus::Revealed(Tile::Hint(_)) => {},
                        _ => {
                            return false;
                        },
                    }
                }
                y = y + 1;
            }
            x = x + 1;
        }
        true
    }

    /// The status and the points of the move `player_action`, which turned
    /// this game's board into `board`.
    pub fn update_status(&self, player_action: &PlayerAction, board: &Board) -> (r: (
        GameStatus,
        i32,
    ))
        requires
            self.board.wf(),
            board.wf(),
            self.board.in_bounds(player_action.coordinate),
            board.in_bounds(player_action.coordinate),
        ensures
            r.0 == status_after(*board, player_action.coordinate),
            r.1 == points_for(self.board, *board, *player_action),
    {
        let c = player_action.coordinate;
        let before = *self.board.get_tile(&c);
        let after = *board.get_tile(&c);
        let status = match after {
            TileStatus::Revealed(Tile::Mine) => GameStatus::Over,
            _ => if Game::check_win(board) {
                GameStatus::Win
            } else {
                GameStatus::Continue
            },
        };
        let points: i32 = match before {
            TileStatus::Hidden => match player_action.action {
                Action::Reveal => match after {
                    TileStatus::Revealed(Tile::Mine) => -10,
                    TileStatus::Revealed(Tile::Hint(n)) => if n == 0 {
                        3
                    } else {
                        1
                    },
                    _ => 0,
                },
                Action::Flag => if board.is_mine(&c) {
                    2
                } else {
                    -1
                },
                Action::Unflag => 0,
            },
            _ => 0,
        };
        (status, points)
    }

    /// Applies one move: updates the board, sets the status, scores the
    /// acting player and passes the turn on. The move is expected to have
    /// passed [`crate::validation::validate_coordinate`] and
    /// [`crate::validation::validate_action`].
    pub fn update(&self, player_action: &PlayerAction) -> (r: Game)
        requires
            self.wf(),
            self.board.in_bounds(player_action.coordinate),
            self.roster().dom().contains(player_action.player_id),
            self.turn_order@.len() > 0,
            i32::MIN + 10 <= self.roster()[player_action.player_id].points <= i32::MAX - 3,
        ensures
            r.wf(),
            r.board.h_size == self.board.h_size,
            r.board.v_size == self.board.v_size,
            r.board.mines() == self.board.mines(),
            forall|d: Coordinate|
                self.board.in_bounds(d) ==> #[trigger] r.board.status(d)
                    == self.board.applied_status(*player_action, d),
            r.status == status_after(r.board, player_action.coordinate),
            r.roster().dom() == self.roster().dom(),
            forall|k: PlayerId|
                #[trigger] r.roster().dom().contains(k) && k != player_action.player_id
                    ==> r.roster()[k] == self.roster()[k],
            r.roster()[player_action.player_id].name@ == self.roster()[player_action.player_id].name@,
            r.roster()[player_action.player_id].points == self.roster()[player_action.player_id].points
                + points_for(self.board, r.board, *player_action),
            r.turn_order@ == self.turn_order@,
            r.current_turn == (self.current_turn + 1) % (self.turn_order@.len() as int),
    {
        let board = self.board.update(player_action);
        let (status, points) = self.update_status(player_action, &board);
        let current = self.get_player(&player_action.player_id);
        let scored = current.add_points(points);
        let players = roster_update(&self.players, player_action.player_id, scored);
        let turn_order = self.turn_order.clone();
        proof {
            assert(turn_order@ =~= self.turn_order@);
        }
        let r = Game {
            board,
            players,
            status,
            turn_order,
            current_turn: (self.current_turn + 1) % self.turn_order.len(),
        };
        proof {
            assert(r.roster().dom() =~= self.roster().dom());
        }
        r
    }

    /// Every player whose score no other player's exceeds, each once; none
    /// when there are no players.
    pub fn get_winners(&self) -> (r: Vec<&Player>)
        requires
            self.wf(),
        ensures
            forall|i: int|
                0 <= i < r@.len() ==> self.is_winner((#[trigger] r@[i]).id) && *r@[i]
                    == self.roster()[r@[i].id],
            forall|id: PlayerId|
                #[trigger] self.is_winner(id) ==> exists|i: int| 0 <= i < r@.len() && r@[i].id == id,
            forall|i: int, j: int| 0 <= i < j < r@.len() ==> r@[i].id != r@[j].id,
    {
        let ids = roster_ids(&self.players);
        let mut winners: Vec<&Player> = Vec::new();
        if ids.len() == 0 {
            assert forall|id: PlayerId| #[trigger] self.is_winner(id) implies exists|j: int|
                0 <= j < winners@.len() && winners@[j].id == id by {
                assert(ids@.contains(id));
            }
            return winners;
        }
        assert(ids@.contains(ids@[0]));
        let mut best: i32 = self.get_player(&ids[0]).points;
        let mut i: usize = 1;
        while i < ids.len()
            invariant
                1 <= i <= ids@.len(),
                forall|k: PlayerId| #[trigger] ids@.contains(k) <==> self.roster().dom().contains(k),
                forall|j: int| 0 <= j < i ==> self.roster()[#[trigger] ids@[j]].points <= best,
                exists|j: int| 0 <= j < i && self.roster()[#[trigger] ids@[j]].points == best,
            decreases ids@.len() - i,
        {
            assert(ids@.contains(ids@[i as int]));
            let p = self.get_player(&ids[i]).points;
            if p > best {
                best = p;
                assert(self.roster()[ids@[i as int]].points == best);
            }
            i = i + 1;
        }
        assert forall|k: PlayerId| #[trigger] self.roster().dom().contains(k) implies self.roster()[k].points
            <= best by {
            assert(ids@.contains(k));
            let j = choose|j: int| 0 <= j < ids@.len() && ids@[j] == k;
            assert(self.roster()[ids@[j]].points <= best);
        }
        let ghost top = choose|j: int| 0 <= j < ids@.len() && self.roster()[#[trigger] ids@[j]].points == best;
        assert(ids@.contains(ids@[top]));
        assert(self.roster().dom().contains(ids@[top]));
        let mut i: usize = 0;
        while i < ids.len()
            invariant
                i <= ids@.len(),
                ids@.no_duplicates(),
                forall|k: PlayerId| #[trigger] ids@.contains(k) <==> self.roster().dom().contains(k),
                forall|k: PlayerId| #[trigger]
                    self.roster().dom().contains(k) ==> self.roster()[k].points <= best,
                exists|k: PlayerId| #[trigger]
                    self.roster().dom().contains(k) && self.roster()[k].points == best,
                self.wf(),
                forall|j: int|
                    0 <= j < winners@.len() ==> self.is_winner((#[trigger] winners@[j]).id)
                        && *winners@[j] == self.roster()[winners@[j].id] && exists|t: int|
                        0 <= t < i && ids@[t] == winners@[j].id,
                forall|t: int|
                    0 <= t < i && self.is_winner(#[trigger] ids@[t]) ==> exists|j: int|
                        0 <= j < winners@.len() && winners@[j].id == ids@[t],
                forall|a: int, b: int|
                    0 <= a < b < winners@.len() ==> winners@[a].id != winners@[b].id,
            decreases ids@.len() - i,
        {
            assert(ids@.contains(ids@[i as int]));
            let p = self.get_player(&ids[i]);
            proof {
                if self.is_winner(ids@[i as int]) {
                    let k = choose|k: PlayerId| #[trigger]
                        self.roster().dom().contains(k) && self.roster()[k].points == best;
                    assert(self.roster()[k].points <= self.roster()[ids@[i as int]].points);
                }
            }
            let ghost before = winners@;
            if p.points == best {
                winners.push(p);
                proof {
                    assert(winners@[before.len() as int] == p);
                    assert(self.is_winner(p.id));
                    assert forall|a: int, b: int|
                        0 <= a < b < winners@.len() implies winners@[a].id != winners@[b].id by {
                        if b == before.len() {
                            assert(winners@[a] == before[a]);
                            let t = choose|t: int| 0 <= t < i && ids@[t] == before[a].id;
                            assert(ids@[t] != ids@[i as int]);
                        } else {
                            assert(winners@[a] == before[a] && winners@[b] == before[b]);
                        }
                    }
                }
            }
            proof {
                assert forall|t: int|
                    0 <= t < i + 1 && self.is_winner(#[trigger] ids@[t]) implies exists|j: int|
                    0 <= j < winners@.len() && winners@[j].id == ids@[t] by {
                    if t < i {
                        let j = choose|j: int| 0 <= j < before.len() && before[j].id == ids@[t];
                        assert(winners@[j] == before[j]);
                    } else {
                        assert(winners@[before.len() as int].id == ids@[t]);
                    }
                }
                assert forall|j: int| 0 <= j < winners@.len() implies exists|t: int|
                    0 <= t < i + 1 && ids@[t] == (#[trigger] winners@[j]).id by {
                    if j < before.len() {
                        assert(winners@[j] == before[j]);
                        let t = choose|t: int| 0 <= t < i && ids@[t] == before[j].id;
                    } else {
                        assert(ids@[i as int] == winners@[j].id);
                    }
                }
            }
            i = i + 1;
        }
        assert forall|id: PlayerId| #[trigger] self.is_winner(id) implies exists|j: int|
            0 <= j < winners@.len() && winners@[j].id == id by {
            assert(ids@.contains(id));
            let t = choose|t: int| 0 <= t < ids@.len() && ids@[t] == id;
        }
        winners
    }
}

} // verus!
