//! The board: colors, coordinates, tiles, and the fixed-size grid.

use vstd::prelude::*;

use crate::game::Player;

verus! {

/// Number of rows on the board.
pub const ROWS: usize = 7;

/// Number of columns on the board.
pub const COLS: usize = 8;

/// Index of the last row.
pub const LAST_ROW: usize = 6;

/// Index of the last column.
pub const LAST_COL: usize = 7;

/// The palette: six symbolic colors with no meaning beyond distinctness.
#[derive(Debug, Clone, Copy, PartialEq, Eq, Structural)]
pub enum TileColor {
    Red,
    Yellow,
    Green,
    Blue,
    Purple,
    Black,
}

/// The color that `v` selects when reduced modulo the palette size.
pub open spec fn spec_color_from_u8(v: u8) -> TileColor {
    if v % 6 == 0 {
        TileColor::Red
    } else if v % 6 == 1 {
        TileColor::Yellow
    } else if v % 6 == 2 {
        TileColor::Green
    } else if v % 6 == 3 {
        TileColor::Blue
    } else if v % 6 == 4 {
        TileColor::Purple
    } else {
        TileColor::Black
    }
}

/// The whole palette, in its fixed order.
pub open spec fn spec_all_colors() -> Seq<TileColor> {
    seq![
        TileColor::Red,
        TileColor::Yellow,
        TileColor::Green,
        TileColor::Blue,
        TileColor::Purple,
        TileColor::Black,
    ]
}

impl TileColor {
    /// The color's name, as text.
    pub open spec fn spec_name(self) -> Seq<char> {
        match self {
            TileColor::Red => "Red"@,
            TileColor::Yellow => "Yellow"@,
            TileColor::Green => "Green"@,
            TileColor::Blue => "Blue"@,
            TileColor::Purple => "Purple"@,
            TileColor::Black => "Black"@,
        }
    }

    /// The color's name, for labels.
    pub fn name(&self) -> (r: String)
        ensures
            r@ == self.spec_name(),
    {
        match self {
            TileColor::Red => "Red".to_owned(),
            TileColor::Yellow => "Yellow".to_owned(),
            TileColor::Green => "Green".to_owned(),
            TileColor::Blue => "Blue".to_owned(),
            TileColor::Purple => "Purple".to_owned(),
            TileColor::Black => "Black".to_owned(),
        }
    }

    /// All six palette colors, in a fixed order.
    pub fn all_colors() -> (r: Vec<TileColor>)
        ensures
            r@ == spec_all_colors(),
    {
        let mut v: Vec<TileColor> = Vec::new();
        v.push(TileColor::Red);
        v.push(TileColor::Yellow);
        v.push(TileColor::Green);
        v.push(TileColor::Blue);
        v.push(TileColor::Purple);
        v.push(TileColor::Black);
        proof {
            assert(v@ =~= spec_all_colors());
        }
        v
    }
}

/// Whether `c` occurs in `v`.
pub(crate) fn color_in(v: &Vec<TileColor>, c: TileColor) -> (r: bool)
    ensures
        r == v@.contains(c),
{
    let mut i: usize = 0;
    while i < v.len()
        invariant
            i <= v@.len(),
            forall|k: int| 0 <= k < i ==> v@[k] != c,
        decreases v@.len() - i,
    {
        if v[i] == c {
            return true;
        }
        i = i + 1;
    }
    false
}

/// The palette colors that avoid everything in `excluded`, in palette
/// order; no color is listed twice.
pub(crate) fn colors_excluding(excluded: &Vec<TileColor>) -> (r: Vec<TileColor>)
    ensures
        forall|k: int| 0 <= k < r@.len() ==> !excluded@.contains(#[trigger] r@[k]),
        forall|c: TileColor| !excluded@.contains(c) ==> #[trigger] r@.contains(c),
        forall|k1: int, k2: int| 0 <= k1 < k2 < r@.len() ==> r@[k1] != r@[k2],
{
    broadcast use vstd::seq_lib::lemma_seq_contains_after_push;

    let all = TileColor::all_colors();
    let mut r: Vec<TileColor> = Vec::new();
    let mut i: usize = 0;
    while i < all.len()
        invariant
            all@ == spec_all_colors(),
            i <= all@.len(),
            forall|k: int| 0 <= k < r@.len() ==> !excluded@.contains(#[trigger] r@[k]),
            forall|j: int| 0 <= j < i ==> (!excluded@.contains(#[trigger] spec_all_colors()[j])
                ==> r@.contains(spec_all_colors()[j])),
            forall|k: int| 0 <= k < r@.len() ==> spec_all_colors().subrange(0, i as int).contains(
                #[trigger] r@[k],
            ),
            forall|k1: int, k2: int| 0 <= k1 < k2 < r@.len() ==> r@[k1] != r@[k2],
        decreases all@.len() - i,
    {
        let c = all[i];
        let ghost r0 = r@;
        let keep = !color_in(excluded, c);
        if keep {
            proof {
                // A color never repeats in the palette, so `c` is new to `r`.
                assert forall|k: int| 0 <= k < r@.len() implies r@[k] != c by {
                    let j = choose|j: int|
                        0 <= j < i && spec_all_colors().subrange(0, i as int)[j] == r@[k];
                    assert(spec_all_colors()[j] == r@[k]);
                }
            }
            r.push(c);
        }
        proof {
            assert forall|j: int| 0 <= j < i + 1 implies (!excluded@.contains(
                #[trigger] spec_all_colors()[j],
            ) ==> r@.contains(spec_all_colors()[j])) by {
                if j == i && keep {
                    assert(r@[r@.len() - 1] == c);
                } else if j < i && !excluded@.contains(spec_all_colors()[j]) {
                    assert(r0.contains(spec_all_colors()[j]));
                    let k = choose|k: int| 0 <= k < r0.len() && r0[k] == spec_all_colors()[j];
                    assert(r@[k] == spec_all_colors()[j]);
                }
            }
        }
        proof {
            assert forall|k: int| 0 <= k < r@.len() implies spec_all_colors().subrange(
                0,
                i + 1,
            ).contains(#[trigger] r@[k]) by {
                if k < r@.len() - 1 || r@[k] != spec_all_colors()[i as int] {
                    if spec_all_colors().subrange(0, i as int).contains(r@[k]) {
                        let j = choose|j: int|
                            0 <= j < i && spec_all_colors().subrange(0, i as int)[j] == r@[k];
                        assert(spec_all_colors().subrange(0, i + 1)[j] == r@[k]);
                    }
                } else {
                    assert(spec_all_colors().subrange(0, i + 1)[i as int] == r@[k]);
                }
            }
        }
        i = i + 1;
    }
    proof {
        assert forall|c: TileColor| !excluded@.contains(c) implies #[trigger] r@.contains(c) by {
            match c {
                TileColor::Red => assert(spec_all_colors()[0] == c),
                TileColor::Yellow => assert(spec_all_colors()[1] == c),
                TileColor::Green => assert(spec_all_colors()[2] == c),
                TileColor::Blue => assert(spec_all_colors()[3] == c),
                TileColor::Purple => assert(spec_all_colors()[4] == c),
                TileColor::Black => assert(spec_all_colors()[5] == c),
            }
        }
    }
    r
}

/// A list of at most three forbidden colors can never use up the
/// six-color palette.
pub proof fn lemma_palette_not_exhausted(ex: Seq<TileColor>)
    requires
        ex.len() <= 3,
    ensures
        exists|c: TileColor| !ex.contains(c),
{
    if ex.contains(TileColor::Red) && ex.contains(TileColor::Yellow) && ex.contains(
        TileColor::Green,
    ) && ex.contains(TileColor::Blue) {
        let i1 = choose|i: int| 0 <= i < ex.len() && ex[i] == TileColor::Red;
        let i2 = choose|i: int| 0 <= i < ex.len() && ex[i] == TileColor::Yellow;
        let i3 = choose|i: int| 0 <= i < ex.len() && ex[i] == TileColor::Green;
        let i4 = choose|i: int| 0 <= i < ex.len() && ex[i] == TileColor::Blue;
        assert(false);
    } else {
        assert(!ex.contains(TileColor::Red) || !ex.contains(TileColor::Yellow) || !ex.contains(
            TileColor::Green,
        ) || !ex.contains(TileColor::Blue));
    }
}

impl Default for TileColor {
    /// The color an unset tile carries.
    fn default() -> (r: TileColor)
        ensures
            r == TileColor::Black,
    {
        TileColor::Black
    }
}

impl From<u8> for TileColor {
    /// Maps a byte onto the palette by reducing it modulo the palette size.
    fn from(value: u8) -> (r: TileColor) {
        match value % 6 {
            0 => TileColor::Red,
            1 => TileColor::Yellow,
            2 => TileColor::Green,
            3 => TileColor::Blue,
            4 => TileColor::Purple,
            _ => TileColor::Black,
        }
    }
}

impl vstd::std_specs::convert::FromSpecImpl<u8> for TileColor {
    open spec fn obeys_from_spec() -> bool {
        true
    }

    open spec fn from_spec(v: u8) -> TileColor {
        spec_color_from_u8(v)
    }
}

/// A board position: row then column, both zero-based.
#[derive(Debug, Clone, Copy, PartialEq, Eq, Structural)]
pub struct Coordinates {
    pub row: usize,
    pub col: usize,
}

/// The in-bounds orthogonal neighbors of `a`, in up, left, down, right
/// order.
pub open spec fn neighbors_spec(a: Coordinates) -> Seq<Coordinates> {
    let up = if a.row > 0 {
        seq![Coordinates { row: (a.row - 1) as usize, col: a.col }]
    } else {
        Seq::<Coordinates>::empty()
    };
    let left = if a.col > 0 {
        seq![Coordinates { row: a.row, col: (a.col - 1) as usize }]
    } else {
        Seq::<Coordinates>::empty()
    };
    let down = if a.row + 1 < ROWS {
        seq![Coordinates { row: (a.row + 1) as usize, col: a.col }]
    } else {
        Seq::<Coordinates>::empty()
    };
    let right = if a.col + 1 < COLS {
        seq![Coordinates { row: a.row, col: (a.col + 1) as usize }]
    } else {
        Seq::<Coordinates>::empty()
    };
    up + left + down + right
}

impl Coordinates {
    pub fn new(row: usize, col: usize) -> (c: Coordinates)
        ensures
            c.row == row,
            c.col == col,
    {
        Coordinates { row, col }
    }

    /// The set of in-bounds orthogonal neighbors: two at a corner, three on
    /// an edge, four in the interior, with no wraparound.
    pub fn neighbors(&self) -> (r: Vec<Coordinates>)
        requires
            in_range(*self),
        ensures
            r@ == neighbors_spec(*self),
            forall|k: int| 0 <= k < r@.len() ==> spec_adjacent(*self, #[trigger] r@[k]),
            forall|b: Coordinates| #[trigger] spec_adjacent(*self, b) ==> r@.contains(b),
            forall|k1: int, k2: int| 0 <= k1 < k2 < r@.len() ==> r@[k1] != r@[k2],
    {
        let mut v: Vec<Coordinates> = Vec::new();
        if self.row > 0 {
            v.push(Coordinates { row: self.row - 1, col: self.col });
        }
        if self.col > 0 {
            v.push(Coordinates { row: self.row, col: self.col - 1 });
        }
        if self.row + 1 < ROWS {
            v.push(Coordinates { row: self.row + 1, col: self.col });
        }
        if self.col + 1 < COLS {
            v.push(Coordinates { row: self.row, col: self.col + 1 });
        }
        proof {
            assert(v@ =~= neighbors_spec(*self));
            lemma_neighbors_spec(*self);
        }
        v
    }
}

/// `neighbors_spec` lists exactly the adjacent positions, each once.
pub proof fn lemma_neighbors_spec(a: Coordinates)
    requires
        in_range(a),
    ensures
        forall|k: int| 0 <= k < neighbors_spec(a).len() ==> spec_adjacent(
            a,
            #[trigger] neighbors_spec(a)[k],
        ),
        forall|b: Coordinates| #[trigger] spec_adjacent(a, b) ==> neighbors_spec(a).contains(b),
        forall|k1: int, k2: int| 0 <= k1 < k2 < neighbors_spec(a).len() ==> neighbors_spec(a)[k1]
            != neighbors_spec(a)[k2],
{
    let s = neighbors_spec(a);
    assert forall|b: Coordinates| #[trigger] spec_adjacent(a, b) implies s.contains(b) by {
        if a.row == b.row + 1 {
            assert(s[0] == b);
        } else if a.col == b.col + 1 {
            let k: int = if a.row > 0 { 1 } else { 0 };
            assert(s[k] == b);
        } else if b.row == a.row + 1 {
            let k: int = (if a.row > 0 { 1int } else { 0 }) + (if a.col > 0 { 1int } else { 0 });
            assert(s[k] == b);
        } else {
            let k: int = (if a.row > 0 { 1int } else { 0 }) + (if a.col > 0 { 1int } else { 0 })
                + (if a.row + 1 < ROWS { 1int } else { 0 });
            assert(s[k] == b);
        }
    }
}

/// Whether `a` lies on the board.
pub open spec fn in_range(a: Coordinates) -> bool {
    a.row < ROWS && a.col < COLS
}

/// The row-major position of `a` in the flattened board.
pub open spec fn idx_of(a: Coordinates) -> int {
    a.row * COLS + a.col
}

/// The coordinate that sits at row-major position `i`.
pub open spec fn coord_of(i: int) -> Coordinates {
    Coordinates { row: (i / COLS as int) as usize, col: (i % COLS as int) as usize }
}

/// Whether `a` and `b` are orthogonally adjacent board positions.
pub open spec fn spec_adjacent(a: Coordinates, b: Coordinates) -> bool {
    &&& in_range(a)
    &&& in_range(b)
    &&& {
        ||| (a.row == b.row && (a.col + 1 == b.col || b.col + 1 == a.col))
        ||| (a.col == b.col && (a.row + 1 == b.row || b.row + 1 == a.row))
    }
}

pub proof fn lemma_idx_of_range(a: Coordinates)
    requires
        in_range(a),
    ensures
        0 <= idx_of(a) < ROWS * COLS,
{
}

pub proof fn lemma_idx_of_injective(a: Coordinates, b: Coordinates)
    requires
        in_range(a),
        in_range(b),
        idx_of(a) == idx_of(b),
    ensures
        a == b,
{
}

pub proof fn lemma_coord_of_idx(i: int)
    requires
        0 <= i < ROWS * COLS,
    ensures
        in_range(coord_of(i)),
        idx_of(coord_of(i)) == i,
{
}

/// One board cell: who owns it, its color, and where it sits.
#[derive(Debug, Clone, Copy, PartialEq)]
pub struct Tile {
    pub owner: Option<Player>,
    pub color: TileColor,
    pub coordinates: Coordinates,
}

/// The tile of `g` at position `a`.
pub open spec fn cell(g: Seq<Tile>, a: Coordinates) -> Tile {
    g[idx_of(a)]
}

/// A flattened board is well formed when it has one tile per position and
/// every tile records the position it sits at.
pub open spec fn grid_seq_wf(g: Seq<Tile>) -> bool {
    &&& g.len() == ROWS * COLS
    &&& forall|a: Coordinates| in_range(a) ==> (#[trigger] cell(g, a)).coordinates == a
}

/// How one board update shows up at every position: the written position
/// holds the new tile, every other position is unchanged.
pub proof fn lemma_cell_update(g: Seq<Tile>, a: Coordinates, t: Tile, b: Coordinates)
    requires
        g.len() == ROWS * COLS,
        in_range(a),
        in_range(b),
    ensures
        a == b ==> cell(g.update(idx_of(a), t), b) == t,
        a != b ==> cell(g.update(idx_of(a), t), b) == cell(g, b),
{
    lemma_idx_of_range(a);
    lemma_idx_of_range(b);
    if idx_of(a) == idx_of(b) {
        lemma_idx_of_injective(a, b);
    }
}

/// The board: a rectangular, fixed-size arrangement of tiles, stored in
/// row-major order and never resized.
#[derive(Debug, Clone)]
pub struct Grid {
    tiles: Vec<Tile>,
}

impl View for Grid {
    type V = Seq<Tile>;

    closed spec fn view(&self) -> Seq<Tile> {
        self.tiles@
    }
}

impl Grid {
    /// A grid is well formed when its flattened tiles are.
    pub open spec fn wf(self) -> bool {
        grid_seq_wf(self@)
    }

    /// Wraps an already well-formed flattened board.
    pub(crate) fn from_tiles_wf(tiles: Vec<Tile>) -> (g: Grid)
        requires
            grid_seq_wf(tiles@),
        ensures
            g@ == tiles@,
            g.wf(),
    {
        Grid { tiles }
    }

    /// Wraps a flattened row-major board, provided every tile records the
    /// position it sits at; rejects anything else.
    pub fn from_tiles(tiles: Vec<Tile>) -> (r: Option<Grid>)
        ensures
            r is Some <==> grid_seq_wf(tiles@),
            r is Some ==> r->Some_0@ == tiles@ && r->Some_0.wf(),
    {
        let g = Grid { tiles };
        if g.is_wf() {
            Some(g)
        } else {
            None
        }
    }

    /// Checks well-formedness at run time, for boards of unknown origin.
    pub fn is_wf(&self) -> (r: bool)
        ensures
            r == self.wf(),
    {
        if self.tiles.len() != ROWS * COLS {
            return false;
        }
        let mut row: usize = 0;
        while row < ROWS
            invariant
                row <= ROWS,
                self@.len() == ROWS * COLS,
                forall|b: Coordinates| in_range(b) && idx_of(b) < row * COLS ==> (#[trigger] cell(
                    self@,
                    b,
                )).coordinates == b,
            decreases ROWS - row,
        {
            let mut col: usize = 0;
            while col < COLS
                invariant
                    row < ROWS,
                    col <= COLS,
                    self@.len() == ROWS * COLS,
                    forall|b: Coordinates| in_range(b) && idx_of(b) < row * COLS + col ==> (
                    #[trigger] cell(self@, b)).coordinates == b,
                decreases COLS - col,
            {
                let a = Coordinates { row, col };
                proof {
                    lemma_idx_of_range(a);
                }
                let t = self.tiles[row * COLS + col];
                if t.coordinates.row != row || t.coordinates.col != col {
                    proof {
                        assert(cell(self@, a) == t);
                        assert(cell(self@, a).coordinates != a);
                    }
                    return false;
                }
                proof {
                    assert forall|b: Coordinates| in_range(b) && idx_of(b) < row * COLS + col
                        + 1 implies (#[trigger] cell(self@, b)).coordinates == b by {
                        if idx_of(b) == row * COLS + col {
                            lemma_idx_of_injective(a, b);
                        }
                    }
                }
                col = col + 1;
            }
            row = row + 1;
        }
        proof {
            assert forall|b: Coordinates| in_range(b) implies (#[trigger] cell(
                self@,
                b,
            )).coordinates == b by {
                lemma_idx_of_range(b);
            }
        }
        true
    }

    /// Reads the tile at `a`.
    pub fn get(&self, a: Coordinates) -> (t: Tile)
        requires
            self.wf(),
            in_range(a),
        ensures
            t == cell(self@, a),
    {
        proof {
            lemma_idx_of_range(a);
        }
        self.tiles[a.row * COLS + a.col]
    }

    /// Replaces the tile at `a`; the new tile must keep recording `a`.
    pub(crate) fn set_tile(&mut self, a: Coordinates, t: Tile)
        requires
            old(self).wf(),
            in_range(a),
            t.coordinates == a,
        ensures
            final(self).wf(),
            final(self)@ == old(self)@.update(idx_of(a), t),
    {
        proof {
            lemma_idx_of_range(a);
        }
        self.tiles[a.row * COLS + a.col] = t;
        proof {
            assert forall|b: Coordinates| in_range(b) implies (#[trigger] cell(
                self@,
                b,
            )).coordinates == b by {
                lemma_cell_update(old(self)@, a, t, b);
            }
        }
    }
}

} // verus!
