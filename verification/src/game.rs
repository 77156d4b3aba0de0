//! Match state: players, score, status, and the turn orchestration.

use vstd::prelude::*;

use crate::capture::{captured, flood_capture, lemma_captured_base, lemma_captured_source};
use crate::grid::{
    cell, coord_of, grid_seq_wf, idx_of, in_range, lemma_cell_update, lemma_coord_of_idx,
    lemma_idx_of_injective, lemma_idx_of_range, spec_adjacent, Coordinates, Grid, Tile, TileColor,
    COLS, LAST_COL, LAST_ROW, ROWS,
};

verus! {

/// One of the two player identities.  Turns alternate strictly.
#[derive(Debug, Clone, Copy, PartialEq, Eq, Structural)]
pub enum Player {
    One,
    Two,
}

impl Player {
    /// The other player.
    pub open spec fn spec_alternate(self) -> Player {
        match self {
            Player::One => Player::Two,
            Player::Two => Player::One,
        }
    }

    /// Switches to the other player.
    pub fn alternate(self) -> (r: Player)
        ensures
            r == self.spec_alternate(),
    {
        match self {
            Player::One => Player::Two,
            Player::Two => Player::One,
        }
    }
}

/// How many of the first `n` tiles of `g` the player `p` owns.
pub open spec fn owned_count_to(g: Seq<Tile>, p: Player, n: int) -> int
    decreases n,
{
    if n <= 0 {
        0
    } else {
        owned_count_to(g, p, n - 1) + (if g[n - 1].owner == Some(p) {
            1int
        } else {
            0int
        })
    }
}

/// How many tiles of the board `g` the player `p` owns.
pub open spec fn spec_owned_count(g: Seq<Tile>, p: Player) -> int {
    owned_count_to(g, p, g.len() as int)
}

pub proof fn lemma_owned_count_bounds(g: Seq<Tile>, p: Player, n: int)
    requires
        0 <= n,
    ensures
        0 <= owned_count_to(g, p, n) <= n,
    decreases n,
{
    if n > 0 {
        lemma_owned_count_bounds(g, p, n - 1);
    }
}

/// Updating one tile changes a player's count only through that tile's
/// ownership indicator.
pub proof fn lemma_owned_count_update(g: Seq<Tile>, p: Player, n: int, j: int, t: Tile)
    requires
        0 <= j < g.len(),
        n <= g.len(),
    ensures
        n <= j ==> owned_count_to(g.update(j, t), p, n) == owned_count_to(g, p, n),
        j < n ==> owned_count_to(g.update(j, t), p, n) == owned_count_to(g, p, n) + (if t.owner
            == Some(p) {
            1int
        } else {
            0int
        }) - (if g[j].owner == Some(p) {
            1int
        } else {
            0int
        }),
    decreases n,
{
    if n > 0 {
        lemma_owned_count_update(g, p, n - 1, j, t);
    }
}

/// Two boards that agree on which tiles `p` owns give `p` the same count.
pub proof fn lemma_owned_count_agree(g1: Seq<Tile>, g2: Seq<Tile>, p: Player, n: int)
    requires
        forall|i: int| 0 <= i < n ==> ((#[trigger] g1[i]).owner == Some(p)) == ((
        #[trigger] g2[i]).owner == Some(p)),
    ensures
        owned_count_to(g1, p, n) == owned_count_to(g2, p, n),
    decreases n,
{
    if n > 0 {
        lemma_owned_count_agree(g1, g2, p, n - 1);
    }
}

/// A board that only ever adds tiles to `p`'s territory cannot lower `p`'s
/// count.
pub proof fn lemma_owned_count_grows(g1: Seq<Tile>, g2: Seq<Tile>, p: Player, n: int)
    requires
        forall|i: int| 0 <= i < n ==> (((#[trigger] g1[i]).owner == Some(p)) ==> ((
        #[trigger] g2[i]).owner == Some(p))),
    ensures
        owned_count_to(g1, p, n) <= owned_count_to(g2, p, n),
    decreases n,
{
    if n > 0 {
        lemma_owned_count_grows(g1, g2, p, n - 1);
    }
}

/// Each tile has at most one owner, so the two players' counts sum to at
/// most the number of tiles counted.
pub proof fn lemma_owned_count_disjoint(g: Seq<Tile>, n: int)
    requires
        0 <= n,
    ensures
        owned_count_to(g, Player::One, n) + owned_count_to(g, Player::Two, n) <= n,
    decreases n,
{
    if n > 0 {
        lemma_owned_count_disjoint(g, n - 1);
    }
}

/// When `p` owns exactly the tile at position `k`, its count is one.
pub proof fn lemma_owned_count_single(g: Seq<Tile>, p: Player, n: int, k: int)
    requires
        0 <= k,
        forall|i: int| 0 <= i < n ==> (((#[trigger] g[i]).owner == Some(p)) <==> i == k),
    ensures
        owned_count_to(g, p, n) == (if k < n {
            1int
        } else {
            0int
        }),
    decreases n,
{
    if n > 0 {
        lemma_owned_count_single(g, p, n - 1, k);
    }
}

/// Counts the tiles of `grid` that `p` owns.
pub(crate) fn count_owned(grid: &Grid, p: Player) -> (r: u8)
    requires
        grid.wf(),
    ensures
        r as int == spec_owned_count(grid@, p),
        r <= ROWS * COLS,
{
    let mut count: u8 = 0;
    let mut i: usize = 0;
    while i < ROWS * COLS
        invariant
            i <= ROWS * COLS,
            grid.wf(),
            count as int == owned_count_to(grid@, p, i as int),
            count <= i,
        decreases ROWS * COLS - i,
    {
        let a = Coordinates { row: i / COLS, col: i % COLS };
        proof {
            lemma_coord_of_idx(i as int);
            assert(a == coord_of(i as int));
        }
        let t = grid.get(a);
        let owned = match t.owner {
            Some(q) => q == p,
            None => false,
        };
        if owned {
            count = count + 1;
        }
        proof {
            assert(grid@[i as int] == cell(grid@, a));
        }
        i = i + 1;
    }
    count
}

/// How far a match has progressed.
#[derive(Debug, Clone, Copy, PartialEq, Eq, Structural)]
pub enum GameStatus {
    Incomplete,
    Won(Player),
    Draw,
}

/// One input from the surrounding application: start over, or play a color.
#[derive(Debug, Clone, Copy, PartialEq, Eq, Structural)]
pub enum GameMessage {
    PlayAgain,
    Move(TileColor),
}

impl GameMessage {
    /// The label the application shows for this message.
    pub open spec fn spec_label(self) -> Seq<char> {
        match self {
            GameMessage::PlayAgain => "Play Again"@,
            GameMessage::Move(color) => color.spec_name(),
        }
    }

    /// Renders the message as its label.
    pub fn to_string(&self) -> (r: String)
        ensures
            r@ == self.spec_label(),
    {
        match self {
            GameMessage::PlayAgain => "Play Again".to_owned(),
            GameMessage::Move(color) => color.name(),
        }
    }
}

/// Why a move was rejected.
#[derive(Debug, Clone, Copy, PartialEq, Eq, Structural)]
pub enum MoveError {
    /// The chosen color matches a player's current color.
    ColorUnavailable,
}

/// The starting corner pre-assigned to `p`: bottom left for player one, top
/// right for player two.
pub open spec fn corner_of(p: Player) -> Coordinates {
    match p {
        Player::One => (Coordinates { row: LAST_ROW, col: 0 }),
        Player::Two => (Coordinates { row: 0, col: LAST_COL }),
    }
}

/// A player's current color: the color of its starting corner, which the
/// match invariant spreads over all of that player's cells.
pub open spec fn spec_player_color(g: Seq<Tile>, p: Player) -> TileColor {
    cell(g, corner_of(p)).color
}

/// The tile at `a` carries its owner's current color.
pub open spec fn uniform_color_at(g: Seq<Tile>, a: Coordinates) -> bool {
    &&& cell(g, a).owner == Some(Player::One) ==> cell(g, a).color == spec_player_color(
        g,
        Player::One,
    )
    &&& cell(g, a).owner == Some(Player::Two) ==> cell(g, a).color == spec_player_color(
        g,
        Player::Two,
    )
}

/// Who owns `a` on a freshly generated board.
pub open spec fn start_owner(a: Coordinates) -> Option<Player> {
    if a == corner_of(Player::One) {
        Some(Player::One)
    } else if a == corner_of(Player::Two) {
        Some(Player::Two)
    } else {
        None
    }
}

/// During generation, every placed tile records its position and its
/// starting owner.
spec fn gen_cell_ok(s: Seq<Tile>, b: Coordinates) -> bool {
    &&& s[idx_of(b)].coordinates == b
    &&& s[idx_of(b)].owner == start_owner(b)
}

/// During generation, no two placed orthogonal neighbors share a color.
spec fn gen_colors_ok(s: Seq<Tile>, n: int) -> bool {
    forall|x: Coordinates, y: Coordinates|
        #[trigger] spec_adjacent(x, y) && idx_of(x) < n && idx_of(y) < n ==> s[idx_of(x)].color
            != s[idx_of(y)].color
}

/// In any reachable match state the two scores together never exceed the
/// board: each counts its own player's cells, and no cell has two owners.
pub proof fn lemma_scores_fit(g: Game)
    requires
        g.inv(),
    ensures
        g.spec_score().0 + g.spec_score().1 <= ROWS * COLS,
{
    lemma_owned_count_disjoint(g.spec_grid(), (ROWS * COLS) as int);
}

/// A board on which a match can stand: well formed, each starting corner
/// with its player, every owned cell wearing its owner's current color, and
/// the two current colors distinct.
pub open spec fn spec_board_valid(g: Seq<Tile>) -> bool {
    &&& grid_seq_wf(g)
    &&& cell(g, corner_of(Player::One)).owner == Some(Player::One)
    &&& cell(g, corner_of(Player::Two)).owner == Some(Player::Two)
    &&& forall|a: Coordinates| in_range(a) ==> #[trigger] uniform_color_at(g, a)
    &&& spec_player_color(g, Player::One) != spec_player_color(g, Player::Two)
}

/// A complete match: whose turn it is, both scores, and the board.
#[derive(Debug)]
pub struct Game {
    current_player: Player,
    score: (u8, u8),
    grid: Grid,
}

impl Game {
    /// The flattened board.
    pub closed spec fn spec_grid(self) -> Seq<Tile> {
        self.grid@
    }

    /// The score pair: player one's cell count, then player two's.
    pub closed spec fn spec_score(self) -> (u8, u8) {
        self.score
    }

    /// The player whose turn it is.
    pub closed spec fn spec_current_player(self) -> Player {
        self.current_player
    }

    /// What holds of every reachable match state: a well-formed board whose
    /// corners stay with their players, each player's cells uniformly
    /// painted that player's color, the two current colors distinct, and the
    /// score equal to the owned-cell counts.
    pub open spec fn inv(self) -> bool {
        &&& grid_seq_wf(self.spec_grid())
        &&& cell(self.spec_grid(), corner_of(Player::One)).owner == Some(Player::One)
        &&& cell(self.spec_grid(), corner_of(Player::Two)).owner == Some(Player::Two)
        &&& forall|a: Coordinates| in_range(a) ==> #[trigger] uniform_color_at(
            self.spec_grid(),
            a,
        )
        &&& spec_player_color(self.spec_grid(), Player::One) != spec_player_color(
            self.spec_grid(),
            Player::Two,
        )
        &&& self.spec_score().0 as int == spec_owned_count(self.spec_grid(), Player::One)
        &&& self.spec_score().1 as int == spec_owned_count(self.spec_grid(), Player::Two)
    }

    /// Read-only view of the board.
    pub fn grid(&self) -> (g: &Grid)
        ensures
            g@ == self.spec_grid(),
    {
        &self.grid
    }

    /// The score pair.
    pub fn score(&self) -> (s: (u8, u8))
        ensures
            s == self.spec_score(),
    {
        self.score
    }

    /// The player whose turn it is.
    pub fn current_player(&self) -> (p: Player)
        ensures
            p == self.spec_current_player(),
    {
        self.current_player
    }

    /// The starting corner tile of `player`.
    pub fn player_start_tile(&self, player: Player) -> (t: Tile)
        requires
            self.inv(),
        ensures
            t == cell(self.spec_grid(), corner_of(player)),
    {
        match player {
            Player::One => self.grid.get(Coordinates { row: LAST_ROW, col: 0 }),
            Player::Two => self.grid.get(Coordinates { row: 0, col: LAST_COL }),
        }
    }

    /// The color currently painted on all of `player`'s cells.
    pub fn player_color(&self, player: Player) -> (c: TileColor)
        requires
            self.inv(),
        ensures
            c == spec_player_color(self.spec_grid(), player),
    {
        self.player_start_tile(player).color
    }

    /// The status that the score pair determines: the match runs until every
    /// cell is owned, then the higher count wins and a tie draws.
    pub open spec fn spec_status(self) -> GameStatus {
        if self.spec_score().0 + self.spec_score().1 < ROWS * COLS {
            GameStatus::Incomplete
        } else if self.spec_score().0 > self.spec_score().1 {
            GameStatus::Won(Player::One)
        } else if self.spec_score().0 < self.spec_score().1 {
            GameStatus::Won(Player::Two)
        } else {
            GameStatus::Draw
        }
    }

    /// Recomputes the status from the score.
    pub fn status(&self) -> (r: GameStatus)
        ensures
            r == self.spec_status(),
    {
        if (self.score.0 as usize) + (self.score.1 as usize) < ROWS * COLS {
            GameStatus::Incomplete
        } else if self.score.0 > self.score.1 {
            GameStatus::Won(Player::One)
        } else if self.score.0 < self.score.1 {
            GameStatus::Won(Player::Two)
        } else {
            GameStatus::Draw
        }
    }

    /// The coordinates of every cell `player` owns, in row-major order.
    pub fn player_tile_coordinates(&self, player: Player) -> (r: Vec<Coordinates>)
        requires
            self.inv(),
        ensures
            r@.len() == spec_owned_count(self.spec_grid(), player),
            forall|k: int| 0 <= k < r@.len() ==> in_range(#[trigger] r@[k]) && cell(
                self.spec_grid(),
                r@[k],
            ).owner == Some(player),
            forall|a: Coordinates| in_range(a) && cell(self.spec_grid(), a).owner == Some(player)
                ==> #[trigger] r@.contains(a),
            forall|k1: int, k2: int| 0 <= k1 < k2 < r@.len() ==> idx_of(r@[k1]) < idx_of(r@[k2]),
    {
        let ghost g = self.spec_grid();
        let mut r: Vec<Coordinates> = Vec::new();
        let mut i: usize = 0;
        while i < ROWS * COLS
            invariant
                i <= ROWS * COLS,
                self.inv(),
                g == self.spec_grid(),
                r@.len() == owned_count_to(g, player, i as int),
                forall|k: int| 0 <= k < r@.len() ==> in_range(#[trigger] r@[k]) && cell(
                    g,
                    r@[k],
                ).owner == Some(player),
                forall|k: int| 0 <= k < r@.len() ==> idx_of(#[trigger] r@[k]) < i,
                forall|a: Coordinates| in_range(a) && idx_of(a) < i && cell(g, a).owner == Some(
                    player,
                ) ==> #[trigger] r@.contains(a),
                forall|k1: int, k2: int| 0 <= k1 < k2 < r@.len() ==> idx_of(r@[k1]) < idx_of(
                    r@[k2],
                ),
            decreases ROWS * COLS - i,
        {
            let a = Coordinates { row: i / COLS, col: i % COLS };
            proof {
                lemma_coord_of_idx(i as int);
                assert(a == coord_of(i as int));
            }
            let t = self.grid.get(a);
            let owned = match t.owner {
                Some(q) => q == player,
                None => false,
            };
            let ghost r0 = r@;
            if owned {
                r.push(a);
            }
            proof {
                assert(g[i as int] == cell(g, a));
                assert forall|b: Coordinates| in_range(b) && idx_of(b) < i + 1 && cell(
                    g,
                    b,
                ).owner == Some(player) implies #[trigger] r@.contains(b) by {
                    if idx_of(b) == i as int {
                        crate::grid::lemma_idx_of_injective(a, b);
                        assert(r@[r@.len() - 1] == b);
                    } else {
                        assert(r0.contains(b));
                        let k = choose|k: int| 0 <= k < r0.len() && r0[k] == b;
                        assert(r@[k] == b);
                    }
                }
            }
            i = i + 1;
        }
        proof {
            assert forall|a: Coordinates| in_range(a) && cell(g, a).owner == Some(
                player,
            ) implies #[trigger] r@.contains(a) by {
                lemma_idx_of_range(a);
            }
        }
        r
    }

    /// Restores a match from an explicit board and player to move,
    /// computing the score from the board.  Rejects any board on which a
    /// match cannot stand.
    pub fn from_grid(grid: Grid, current_player: Player) -> (r: Option<Game>)
        ensures
            r is Some <==> spec_board_valid(grid@),
            r is Some ==> r->Some_0.inv(),
            r is Some ==> r->Some_0.spec_grid() == grid@,
            r is Some ==> r->Some_0.spec_current_player() == current_player,
    {
        if !grid.is_wf() {
            return None;
        }
        let t1 = grid.get(Coordinates { row: LAST_ROW, col: 0 });
        let one_ok = match t1.owner {
            Some(Player::One) => true,
            _ => false,
        };
        let t2 = grid.get(Coordinates { row: 0, col: LAST_COL });
        let two_ok = match t2.owner {
            Some(Player::Two) => true,
            _ => false,
        };
        if !one_ok || !two_ok {
            return None;
        }
        let color_one = t1.color;
        let color_two = t2.color;
        if color_one == color_two {
            return None;
        }
        let mut i: usize = 0;
        while i < ROWS * COLS
            invariant
                i <= ROWS * COLS,
                grid.wf(),
                color_one == spec_player_color(grid@, Player::One),
                color_two == spec_player_color(grid@, Player::Two),
                forall|a: Coordinates| in_range(a) && idx_of(a) < i ==> #[trigger] uniform_color_at(
                    grid@,
                    a,
                ),
            decreases ROWS * COLS - i,
        {
            let a = Coordinates { row: i / COLS, col: i % COLS };
            proof {
                lemma_coord_of_idx(i as int);
                assert(a == coord_of(i as int));
            }
            let t = grid.get(a);
            let fits = match t.owner {
                Some(Player::One) => t.color == color_one,
                Some(Player::Two) => t.color == color_two,
                None => true,
            };
            if !fits {
                proof {
                    assert(!uniform_color_at(grid@, a));
                }
                return None;
            }
            i = i + 1;
        }
        proof {
            assert forall|a: Coordinates| in_range(a) implies #[trigger] uniform_color_at(
                grid@,
                a,
            ) by {
                lemma_idx_of_range(a);
            }
        }
        let score_one = count_owned(&grid, Player::One);
        let score_two = count_owned(&grid, Player::Two);
        Some(Game { current_player, score: (score_one, score_two), grid })
    }

    /// Generates a fresh match: every cell gets a color drawn uniformly
    /// from the palette colors that differ from the cells already placed
    /// above and to the left, so no two orthogonal neighbors ever match;
    /// the bottom-left corner goes to player one and the top-right corner
    /// to player two, and the first corner is redrawn so that the two
    /// starting colors differ from each other and from the corners'
    /// remaining neighbors.  Both players start with one cell.
    pub fn new() -> (g: Game)
        ensures
            g.inv(),
            g.spec_current_player() == Player::One,
            g.spec_score() == (1u8, 1u8),
            forall|x: Coordinates, y: Coordinates| #[trigger] spec_adjacent(x, y) ==> cell(
                g.spec_grid(),
                x,
            ).color != cell(g.spec_grid(), y).color,
            forall|a: Coordinates| in_range(a) ==> (#[trigger] cell(g.spec_grid(), a)).owner
                == start_owner(a),
            spec_player_color(g.spec_grid(), Player::One) != spec_player_color(
                g.spec_grid(),
                Player::Two,
            ),
    {
        broadcast use vstd::seq_lib::lemma_seq_contains_after_push;

        let mut tiles: Vec<Tile> = Vec::new();
        let mut row: usize = 0;
        while row < ROWS
            invariant
                row <= ROWS,
                tiles@.len() == row * COLS,
                forall|b: Coordinates| in_range(b) && idx_of(b) < tiles@.len()
                    ==> #[trigger] gen_cell_ok(tiles@, b),
                gen_colors_ok(tiles@, tiles@.len() as int),
            decreases ROWS - row,
        {
            let mut col: usize = 0;
            while col < COLS
                invariant
                    row < ROWS,
                    col <= COLS,
                    tiles@.len() == row * COLS + col,
                    forall|b: Coordinates| in_range(b) && idx_of(b) < tiles@.len()
                        ==> #[trigger] gen_cell_ok(tiles@, b),
                    gen_colors_ok(tiles@, tiles@.len() as int),
                decreases COLS - col,
            {
                let a = Coordinates { row, col };
                let ghost n = tiles@.len() as int;
                proof {
                    lemma_idx_of_range(a);
                    assert(idx_of(a) == n);
                }
                let mut excluded: Vec<TileColor> = Vec::new();
                if row > 0 {
                    let above = tiles[(row - 1) * COLS + col];
                    excluded.push(above.color);
                }
                if col > 0 {
                    let left_tile = tiles[row * COLS + col - 1];
                    excluded.push(left_tile.color);
                }
                let avail = crate::grid::colors_excluding(&excluded);
                proof {
                    crate::grid::lemma_palette_not_exhausted(excluded@);
                    let w = choose|c: TileColor| !excluded@.contains(c);
                    assert(avail@.contains(w));
                }
                let color = crate::rng::pick_color(&avail);
                proof {
                    let k = choose|k: int| 0 <= k < avail@.len() && avail@[k] == color;
                    assert(!excluded@.contains(avail@[k]));
                }
                let owner = if row == LAST_ROW && col == 0 {
                    Some(Player::One)
                } else if row == 0 && col == LAST_COL {
                    Some(Player::Two)
                } else {
                    None
                };
                let ghost t0 = tiles@;
                tiles.push(Tile { owner, color, coordinates: a });
                proof {
                    assert(tiles@[n] == Tile { owner, color, coordinates: a });
                    assert forall|b: Coordinates| in_range(b) && idx_of(b) < n + 1 implies
                        #[trigger] gen_cell_ok(tiles@, b) by {
                        if idx_of(b) == n {
                            lemma_idx_of_injective(a, b);
                            assert(b == a);
                            assert(a == corner_of(Player::One) <==> (row == LAST_ROW && col == 0));
                            assert(a == corner_of(Player::Two) <==> (row == 0 && col == LAST_COL));
                        } else {
                            assert(gen_cell_ok(t0, b));
                            assert(tiles@[idx_of(b)] == t0[idx_of(b)]);
                        }
                    }
                    assert forall|x: Coordinates, y: Coordinates|
                        #[trigger] spec_adjacent(x, y) && idx_of(x) < n + 1 && idx_of(y) < n
                            + 1 implies tiles@[idx_of(x)].color != tiles@[idx_of(y)].color by {
                        lemma_idx_of_range(x);
                        lemma_idx_of_range(y);
                        if idx_of(x) < n && idx_of(y) < n {
                            assert(gen_colors_ok(t0, n));
                            assert(tiles@[idx_of(x)] == t0[idx_of(x)]);
                            assert(tiles@[idx_of(y)] == t0[idx_of(y)]);
                        } else {
                            // One endpoint is the tile just placed; the other
                            // sits above it or to its left, and its color was
                            // excluded from the draw.
                            let z = if idx_of(y) == n {
                                x
                            } else {
                                y
                            };
                            let zn = if idx_of(y) == n {
                                y
                            } else {
                                x
                            };
                            assert(idx_of(zn) == n && idx_of(z) < n);
                            lemma_idx_of_injective(a, zn);
                            assert(spec_adjacent(z, a) || spec_adjacent(a, z));
                            if z.row == row && z.col + 1 == col {
                                assert(idx_of(z) == n - 1);
                                assert(excluded@[excluded@.len() - 1] == t0[n - 1].color);
                                if color == t0[idx_of(z)].color {
                                    assert(excluded@.contains(color));
                                }
                            } else {
                                assert(z.col == col && z.row + 1 == row);
                                assert(idx_of(z) == n - COLS);
                                assert(excluded@[0] == t0[n - COLS].color);
                                if color == t0[idx_of(z)].color {
                                    assert(excluded@.contains(color));
                                }
                            }
                            assert(tiles@[idx_of(z)] == t0[idx_of(z)]);
                        }
                    }
                }
                col = col + 1;
            }
            row = row + 1;
        }
        proof {
            assert(tiles@.len() == ROWS * COLS);
            assert forall|b: Coordinates| in_range(b) implies (#[trigger] cell(
                tiles@,
                b,
            )).coordinates == b by {
                lemma_idx_of_range(b);
                assert(gen_cell_ok(tiles@, b));
            }
        }
        let mut grid = Grid::from_tiles_wf(tiles);
        let ghost g1 = grid@;
        // Disambiguate the starting corners: redraw the first player's
        // corner so it differs from the second corner and from its own two
        // neighbors.
        let corner1 = Coordinates { row: LAST_ROW, col: 0 };
        let corner2 = Coordinates { row: 0, col: LAST_COL };
        let beside1 = Coordinates { row: LAST_ROW, col: 1 };
        let above1 = Coordinates { row: LAST_ROW - 1, col: 0 };
        let mut excluded: Vec<TileColor> = Vec::new();
        excluded.push(grid.get(corner2).color);
        excluded.push(grid.get(beside1).color);
        excluded.push(grid.get(above1).color);
        let avail = crate::grid::colors_excluding(&excluded);
        proof {
            crate::grid::lemma_palette_not_exhausted(excluded@);
            let w = choose|c: TileColor| !excluded@.contains(c);
            assert(avail@.contains(w));
        }
        let fresh = crate::rng::pick_color(&avail);
        proof {
            let k = choose|k: int| 0 <= k < avail@.len() && avail@[k] == fresh;
            assert(!excluded@.contains(avail@[k]));
            assert(excluded@[0] == cell(g1, corner2).color);
            assert(excluded@[1] == cell(g1, beside1).color);
            assert(excluded@[2] == cell(g1, above1).color);
        }
        let t1 = grid.get(corner1);
        let t1new = Tile { owner: t1.owner, color: fresh, coordinates: t1.coordinates };
        grid.set_tile(corner1, t1new);
        let ghost g2 = grid@;
        proof {
            assert forall|b: Coordinates| in_range(b) implies #[trigger] cell(g2, b) == (if b
                == corner1 {
                t1new
            } else {
                cell(g1, b)
            }) by {
                lemma_cell_update(g1, corner1, t1new, b);
            }
            // Owners are exactly the two starting corners.
            assert forall|b: Coordinates| in_range(b) implies (#[trigger] cell(g2, b)).owner
                == start_owner(b) by {
                lemma_idx_of_range(b);
                assert(gen_cell_ok(g1, b));
            }
            // No two orthogonal neighbors share a color, the redraw
            // included: the redrawn corner avoided both its neighbors.
            assert forall|x: Coordinates, y: Coordinates| #[trigger] spec_adjacent(
                x,
                y,
            ) implies cell(g2, x).color != cell(g2, y).color by {
                lemma_idx_of_range(x);
                lemma_idx_of_range(y);
                if x == corner1 || y == corner1 {
                    let z = if x == corner1 {
                        y
                    } else {
                        x
                    };
                    assert(spec_adjacent(corner1, z) || spec_adjacent(z, corner1));
                    assert(z == beside1 || z == above1);
                    if fresh == cell(g2, z).color {
                        assert(excluded@.contains(fresh));
                    }
                } else {
                    assert(gen_colors_ok(g1, (ROWS * COLS) as int));
                }
            }
            // Each player's score is the one corner it owns.
            assert forall|idx: int| 0 <= idx < ROWS * COLS implies (((#[trigger] g2[idx]).owner
                == Some(Player::One)) <==> idx == idx_of(corner1)) by {
                lemma_coord_of_idx(idx);
                assert(cell(g2, coord_of(idx)) == g2[idx]);
                assert(cell(g2, coord_of(idx)).owner == start_owner(coord_of(idx)));
                if idx == idx_of(corner1) {
                    lemma_idx_of_injective(coord_of(idx), corner1);
                }
                if coord_of(idx) == corner1 {
                    assert(idx == idx_of(corner1));
                }
            }
            assert forall|idx: int| 0 <= idx < ROWS * COLS implies (((#[trigger] g2[idx]).owner
                == Some(Player::Two)) <==> idx == idx_of(corner2)) by {
                lemma_coord_of_idx(idx);
                assert(cell(g2, coord_of(idx)) == g2[idx]);
                assert(cell(g2, coord_of(idx)).owner == start_owner(coord_of(idx)));
                if idx == idx_of(corner2) {
                    lemma_idx_of_injective(coord_of(idx), corner2);
                }
                if coord_of(idx) == corner2 {
                    assert(idx == idx_of(corner2));
                }
            }
            lemma_owned_count_single(g2, Player::One, (ROWS * COLS) as int, idx_of(corner1));
            lemma_owned_count_single(g2, Player::Two, (ROWS * COLS) as int, idx_of(corner2));
        }
        let game = Game { current_player: Player::One, score: (1, 1), grid };
        proof {
            assert forall|a: Coordinates| in_range(a) implies #[trigger] uniform_color_at(
                g2,
                a,
            ) by {}
        }
        game
    }

    /// Plays one turn for the current player: validates the chosen color,
    /// expands the territory by flood fill, recounts the mover's score, and
    /// hands the turn to the other player.  A color either player currently
    /// holds is rejected with no change at all.
    pub fn make_move(&mut self, color: TileColor) -> (r: Result<(), MoveError>)
        requires
            old(self).inv(),
        ensures
            final(self).inv(),
            r is Ok <==> (color != spec_player_color(old(self).spec_grid(), Player::One) && color
                != spec_player_color(old(self).spec_grid(), Player::Two)),
            r is Err ==> r == Err::<(), MoveError>(MoveError::ColorUnavailable),
            r is Err ==> final(self).spec_grid() == old(self).spec_grid(),
            r is Err ==> final(self).spec_score() == old(self).spec_score(),
            r is Err ==> final(self).spec_current_player() == old(self).spec_current_player(),
            r is Ok ==> final(self).spec_current_player()
                == old(self).spec_current_player().spec_alternate(),
            r is Ok ==> forall|a: Coordinates|
                in_range(a) && #[trigger] captured(
                    old(self).spec_grid(),
                    old(self).spec_current_player(),
                    color,
                    a,
                ) ==> cell(final(self).spec_grid(), a).owner == Some(
                    old(self).spec_current_player(),
                ) && cell(final(self).spec_grid(), a).color == color,
            r is Ok ==> forall|a: Coordinates|
                in_range(a) && !captured(
                    old(self).spec_grid(),
                    old(self).spec_current_player(),
                    color,
                    a,
                ) ==> #[trigger] cell(final(self).spec_grid(), a) == cell(old(self).spec_grid(), a),
            forall|a: Coordinates| in_range(a) && (#[trigger] cell(old(self).spec_grid(), a)).owner
                is Some ==> cell(final(self).spec_grid(), a).owner == cell(
                old(self).spec_grid(),
                a,
            ).owner,
            final(self).spec_score().0 >= old(self).spec_score().0,
            final(self).spec_score().1 >= old(self).spec_score().1,
    {
        let p1 = self.player_color(Player::One);
        let p2 = self.player_color(Player::Two);
        if color == p1 || color == p2 {
            return Err(MoveError::ColorUnavailable);
        }
        let mover = self.current_player;
        let ghost other = mover.spec_alternate();
        let ghost g0 = self.grid@;
        flood_capture(&mut self.grid, mover, color);
        let ghost g1 = self.grid@;
        proof {
            assert(cell(g0, corner_of(mover)).owner == Some(mover));
            lemma_captured_base(g0, mover, color, corner_of(mover));
            assert(cell(g1, corner_of(mover)).owner == Some(mover));
            assert(cell(g1, corner_of(mover)).color == color);
            assert(!captured(g0, mover, color, corner_of(other))) by {
                if captured(g0, mover, color, corner_of(other)) {
                    lemma_captured_source(g0, mover, color, corner_of(other));
                }
            }
            assert(cell(g1, corner_of(other)) == cell(g0, corner_of(other)));
            // Ownership seen by the idle player is untouched, so its count
            // stands.
            assert forall|idx: int| 0 <= idx < ROWS * COLS implies ((#[trigger] g0[idx]).owner
                == Some(other)) == ((#[trigger] g1[idx]).owner == Some(other)) by {
                lemma_coord_of_idx(idx);
                let a = coord_of(idx);
                assert(cell(g0, a) == g0[idx]);
                assert(cell(g1, a) == g1[idx]);
                if captured(g0, mover, color, a) {
                    lemma_captured_source(g0, mover, color, a);
                }
            }
            lemma_owned_count_agree(g0, g1, other, (ROWS * COLS) as int);
            // A cell some player owned keeps its owner.
            assert forall|a: Coordinates| in_range(a) && (#[trigger] cell(g0, a)).owner
                is Some implies cell(g1, a).owner == cell(g0, a).owner by {
                if captured(g0, mover, color, a) {
                    lemma_captured_source(g0, mover, color, a);
                }
            }
            // Every cell the mover now owns was captured, hence repainted.
            assert forall|a: Coordinates| in_range(a) && (#[trigger] cell(g1, a)).owner == Some(
                mover,
            ) implies cell(g1, a).color == color by {
                if !captured(g0, mover, color, a) {
                    assert(cell(g1, a) == cell(g0, a));
                    lemma_captured_base(g0, mover, color, a);
                }
            }
            // The idle player's cells are untouched and keep its color.
            assert forall|a: Coordinates| in_range(a) && (#[trigger] cell(g1, a)).owner == Some(
                other,
            ) implies cell(g1, a).color == spec_player_color(g1, other) by {
                if captured(g0, mover, color, a) {
                    lemma_captured_source(g0, mover, color, a);
                }
                assert(cell(g1, a) == cell(g0, a));
                assert(uniform_color_at(g0, a));
            }
        }
        let my_count = count_owned(&self.grid, mover);
        proof {
            lemma_owned_count_bounds(g0, mover, (ROWS * COLS) as int);
            // The mover's territory only grew.
            assert forall|idx: int| 0 <= idx < ROWS * COLS implies ((#[trigger] g0[idx]).owner
                == Some(mover)) ==> ((#[trigger] g1[idx]).owner == Some(mover)) by {
                lemma_coord_of_idx(idx);
                let a = coord_of(idx);
                assert(cell(g0, a) == g0[idx]);
                assert(cell(g1, a) == g1[idx]);
                if cell(g0, a).owner == Some(mover) {
                    lemma_captured_base(g0, mover, color, a);
                }
            }
            lemma_owned_count_grows(g0, g1, mover, (ROWS * COLS) as int);
        }
        match mover {
            Player::One => {
                self.score = (my_count, self.score.1);
            },
            Player::Two => {
                self.score = (self.score.0, my_count);
            },
        }
        self.current_player = mover.alternate();
        proof {
            assert forall|a: Coordinates| in_range(a) implies #[trigger] uniform_color_at(
                g1,
                a,
            ) by {}
        }
        Ok(())
    }

    /// The two colors no move may pick: each player's current color.
    pub fn disabled_colors(&self) -> (r: [TileColor; 2])
        requires
            self.inv(),
        ensures
            r@ == seq![
                spec_player_color(self.spec_grid(), Player::One),
                spec_player_color(self.spec_grid(), Player::Two),
            ],
    {
        let r = [self.player_color(Player::One), self.player_color(Player::Two)];
        proof {
            assert(r@ =~= seq![
                spec_player_color(self.spec_grid(), Player::One),
                spec_player_color(self.spec_grid(), Player::Two),
            ]);
        }
        r
    }
}

} // verus!
