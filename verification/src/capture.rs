//! The capture engine: breadth-first territory expansion.

use vstd::prelude::*;

use crate::game::{
    lemma_owned_count_agree, lemma_owned_count_bounds, lemma_owned_count_update, owned_count_to,
    spec_owned_count, Player,
};
use crate::grid::{
    cell, coord_of, grid_seq_wf, idx_of, in_range, lemma_cell_update, lemma_coord_of_idx,
    lemma_idx_of_injective, lemma_idx_of_range, spec_adjacent, Coordinates, Grid, Tile, TileColor,
    COLS, ROWS,
};

verus! {

/// A capture path starts on a cell the moving player owns and steps through
/// orthogonally adjacent cells that are unowned and already carry the chosen
/// color.
pub open spec fn is_capture_path(
    g: Seq<Tile>,
    p: Player,
    col: TileColor,
    path: Seq<Coordinates>,
) -> bool {
    &&& path.len() >= 1
    &&& in_range(path[0])
    &&& cell(g, path[0]).owner == Some(p)
    &&& forall|k: int| 0 < k < path.len() ==> spec_adjacent(path[k - 1], #[trigger] path[k])
    &&& forall|k: int|
        0 < k < path.len() ==> (#[trigger] cell(g, path[k])).owner is None && cell(
            g,
            path[k],
        ).color == col
}

/// A position is captured by `p` moving `col` on board `g` when some capture
/// path reaches it.  The player's own cells are captured through the
/// one-step path.
pub open spec fn captured(g: Seq<Tile>, p: Player, col: TileColor, a: Coordinates) -> bool {
    exists|path: Seq<Coordinates>|
        #[trigger] is_capture_path(g, p, col, path) && path.last() == a
}

pub proof fn lemma_captured_base(g: Seq<Tile>, p: Player, col: TileColor, a: Coordinates)
    requires
        in_range(a),
        cell(g, a).owner == Some(p),
    ensures
        captured(g, p, col, a),
{
    let path: Seq<Coordinates> = seq![a];
    assert(is_capture_path(g, p, col, path));
    assert(path.last() == a);
}

pub proof fn lemma_captured_step(
    g: Seq<Tile>,
    p: Player,
    col: TileColor,
    a: Coordinates,
    b: Coordinates,
)
    requires
        captured(g, p, col, a),
        spec_adjacent(a, b),
        cell(g, b).owner is None,
        cell(g, b).color == col,
    ensures
        captured(g, p, col, b),
{
    let path = choose|path: Seq<Coordinates>|
        #[trigger] is_capture_path(g, p, col, path) && path.last() == a;
    let path2 = path.push(b);
    assert(path2.last() == b);
    assert forall|k: int| 0 < k < path2.len() implies spec_adjacent(
        path2[k - 1],
        #[trigger] path2[k],
    ) by {
        if k < path.len() {
            assert(path2[k] == path[k]);
            assert(path2[k - 1] == path[k - 1]);
        } else {
            assert(path2[k] == b);
            assert(path2[k - 1] == path.last());
        }
    }
    assert forall|k: int| 0 < k < path2.len() implies (#[trigger] cell(g, path2[k])).owner is None
        && cell(g, path2[k]).color == col by {
        if k < path.len() {
            assert(path2[k] == path[k]);
        } else {
            assert(path2[k] == b);
        }
    }
    assert(is_capture_path(g, p, col, path2));
}

/// What a captured cell looked like before the move: it was the mover's, or
/// it was unowned and already painted the chosen color.
pub proof fn lemma_captured_source(g: Seq<Tile>, p: Player, col: TileColor, a: Coordinates)
    requires
        captured(g, p, col, a),
    ensures
        in_range(a),
        cell(g, a).owner == Some(p) || (cell(g, a).owner is None && cell(g, a).color == col),
{
    let path = choose|path: Seq<Coordinates>|
        #[trigger] is_capture_path(g, p, col, path) && path.last() == a;
    if path.len() == 1 {
        assert(path[0] == a);
    } else {
        let k = path.len() - 1;
        assert(spec_adjacent(path[k - 1], path[k]));
        assert(path[k] == a);
    }
}

/// Along a capture path, every position the board `g` shows as owned by
/// the moving player stays owned in the board `g1`.
proof fn lemma_path_end_owned(
    g0: Seq<Tile>,
    g: Seq<Tile>,
    q: Seq<Coordinates>,
    p: Player,
    col: TileColor,
    path: Seq<Coordinates>,
)
    requires
        is_capture_path(g0, p, col, path),
        forall|a: Coordinates| in_range(a) && (#[trigger] cell(g0, a)).owner == Some(p) ==> cell(
            g,
            a,
        ).owner == Some(p),
        forall|a: Coordinates| in_range(a) && (#[trigger] cell(g, a)).owner == Some(p)
            ==> q.contains(a),
        forall|k: int, b: Coordinates|
            0 <= k < q.len() && #[trigger] spec_adjacent(q[k], b) && cell(g0, b).owner is None
                && cell(g0, b).color == col ==> cell(g, b).owner == Some(p),
    ensures
        cell(g, path.last()).owner == Some(p),
    decreases path.len(),
{
    if path.len() == 1 {
        assert(path.last() == path[0]);
    } else {
        let prefix = path.drop_last();
        assert forall|k: int| 0 < k < prefix.len() implies spec_adjacent(
            prefix[k - 1],
            #[trigger] prefix[k],
        ) by {
            assert(prefix[k] == path[k]);
            assert(prefix[k - 1] == path[k - 1]);
        }
        assert forall|k: int| 0 < k < prefix.len() implies (#[trigger] cell(
            g0,
            prefix[k],
        )).owner is None && cell(g0, prefix[k]).color == col by {
            assert(prefix[k] == path[k]);
        }
        assert(prefix[0] == path[0]);
        assert(is_capture_path(g0, p, col, prefix));
        lemma_path_end_owned(g0, g, q, p, col, prefix);
        let c = prefix.last();
        let b = path.last();
        assert(c == path[path.len() - 2]);
        assert(b == path[path.len() - 1]);
        assert(spec_adjacent(c, b));
        assert(in_range(c));
        assert(q.contains(c));
        let k = choose|k: int| 0 <= k < q.len() && q[k] == c;
        assert(spec_adjacent(q[k], b));
    }
}

/// The per-cell relation the flood fill maintains between the pre-move
/// board `g0` and the working board `g`: cells the mover owns are captured
/// and wear the chosen color, everything else is untouched, and ownership
/// only ever flows from unowned to the mover.
pub open spec fn flood_cell_ok(
    g0: Seq<Tile>,
    g: Seq<Tile>,
    p: Player,
    col: TileColor,
    a: Coordinates,
) -> bool {
    &&& cell(g, a).owner == Some(p) ==> captured(g0, p, col, a) && cell(g, a).color == col
    &&& !captured(g0, p, col, a) ==> cell(g, a) == cell(g0, a)
    &&& cell(g, a).owner is None ==> cell(g, a) == cell(g0, a)
    &&& cell(g, a).owner == cell(g0, a).owner || (cell(g0, a).owner is None && cell(g, a).owner
        == Some(p))
    &&& cell(g, a).coordinates == cell(g0, a).coordinates
}

/// `flood_cell_ok` at every position, over well-formed boards.
pub open spec fn flood_frame(g0: Seq<Tile>, g: Seq<Tile>, p: Player, col: TileColor) -> bool {
    &&& g0.len() == ROWS * COLS
    &&& g.len() == ROWS * COLS
    &&& grid_seq_wf(g0)
    &&& grid_seq_wf(g)
    &&& forall|a: Coordinates| in_range(a) ==> #[trigger] flood_cell_ok(g0, g, p, col, a)
}

/// The work queue holds exactly the cells the mover currently owns, each
/// once.
pub open spec fn flood_queue_ok(
    g: Seq<Tile>,
    q: Seq<Coordinates>,
    p: Player,
    col: TileColor,
) -> bool {
    &&& forall|k: int|
        0 <= k < q.len() ==> in_range(#[trigger] q[k]) && cell(g, q[k]).owner == Some(p)
    &&& forall|a: Coordinates| in_range(a) && (#[trigger] cell(g, a)).owner == Some(p)
        ==> q.contains(a)
    &&& q.len() == spec_owned_count(g, p)
}

/// Annexes the cell `b`, a neighbor of the captured cell `src`, when it is
/// unowned and wears the chosen color; otherwise changes nothing.
fn annex_step(
    grid: &mut Grid,
    queue: &mut Vec<Coordinates>,
    p: Player,
    col: TileColor,
    b: Coordinates,
    Ghost(g0): Ghost<Seq<Tile>>,
    Ghost(src): Ghost<Coordinates>,
)
    requires
        old(grid).wf(),
        in_range(b),
        flood_frame(g0, old(grid)@, p, col),
        flood_queue_ok(old(grid)@, old(queue)@, p, col),
        captured(g0, p, col, src),
        spec_adjacent(src, b),
    ensures
        final(grid).wf(),
        flood_frame(g0, final(grid)@, p, col),
        flood_queue_ok(final(grid)@, final(queue)@, p, col),
        final(queue)@.len() >= old(queue)@.len(),
        forall|k: int| 0 <= k < old(queue)@.len() ==> final(queue)@[k] == old(queue)@[k],
        cell(g0, b).owner is None && cell(g0, b).color == col ==> cell(final(grid)@, b).owner
            == Some(p),
        forall|a: Coordinates| in_range(a) && (#[trigger] cell(old(grid)@, a)).owner == Some(p)
            ==> cell(final(grid)@, a).owner == Some(p),
{
    let t = grid.get(b);
    let unowned = match t.owner {
        Some(_) => false,
        None => true,
    };
    if unowned && t.color == col {
        proof {
            assert(flood_cell_ok(g0, grid@, p, col, b));
            assert(cell(g0, b) == cell(grid@, b));
            lemma_captured_step(g0, p, col, src, b);
        }
        let ghost gpre = grid@;
        let ghost qpre = queue@;
        let t2 = Tile { owner: Some(p), color: t.color, coordinates: t.coordinates };
        grid.set_tile(b, t2);
        queue.push(b);
        proof {
            lemma_idx_of_range(b);
            lemma_owned_count_update(gpre, p, (ROWS * COLS) as int, idx_of(b), t2);
            assert forall|a: Coordinates| in_range(a) implies #[trigger] flood_cell_ok(
                g0,
                grid@,
                p,
                col,
                a,
            ) by {
                lemma_cell_update(gpre, b, t2, a);
                assert(flood_cell_ok(g0, gpre, p, col, a));
            }
            assert forall|a: Coordinates| in_range(a) implies ((#[trigger] cell(grid@, a)).owner
                == Some(p) ==> queue@.contains(a)) by {
                lemma_cell_update(gpre, b, t2, a);
                if cell(grid@, a).owner == Some(p) {
                    if a == b {
                        assert(queue@[queue@.len() - 1] == b);
                    } else {
                        assert(cell(gpre, a).owner == Some(p));
                        assert(qpre.contains(a));
                        let k = choose|k: int| 0 <= k < qpre.len() && qpre[k] == a;
                        assert(queue@[k] == a);
                    }
                }
            }
            assert forall|k: int| 0 <= k < queue@.len() implies in_range(#[trigger] queue@[k])
                && cell(grid@, queue@[k]).owner == Some(p) by {
                if k < qpre.len() {
                    assert(queue@[k] == qpre[k]);
                    lemma_cell_update(gpre, b, t2, qpre[k]);
                } else {
                    assert(queue@[k] == b);
                    lemma_cell_update(gpre, b, t2, b);
                }
            }
            assert forall|a: Coordinates| in_range(a) && (#[trigger] cell(gpre, a)).owner == Some(
                p,
            ) implies cell(grid@, a).owner == Some(p) by {
                lemma_cell_update(gpre, b, t2, a);
            }
        }
    } else {
        proof {
            assert(flood_cell_ok(g0, grid@, p, col, b));
            if cell(g0, b).owner is None && cell(g0, b).color == col {
                assert(cell(grid@, b).owner is Some);
                assert(cell(grid@, b).owner == Some(p));
            }
        }
    }
}

/// One move's territory expansion: repaints every cell the mover owns with
/// the chosen color and annexes every unowned cell reachable from that
/// territory through same-colored neighbors, by an explicit first-in
/// first-out queue.  Exactly the captured positions change.
pub fn flood_capture(grid: &mut Grid, p: Player, col: TileColor)
    requires
        old(grid).wf(),
    ensures
        final(grid).wf(),
        forall|a: Coordinates| in_range(a) && captured(old(grid)@, p, col, a) ==> (#[trigger] cell(
            final(grid)@,
            a,
        )).owner == Some(p) && cell(final(grid)@, a).color == col,
        forall|a: Coordinates| in_range(a) && !captured(old(grid)@, p, col, a) ==> #[trigger] cell(
            final(grid)@,
            a,
        ) == cell(old(grid)@, a),
{
    let ghost g0 = grid@;
    let mut queue: Vec<Coordinates> = Vec::new();
    let mut i: usize = 0;
    while i < ROWS * COLS
        invariant
            i <= ROWS * COLS,
            grid.wf(),
            grid_seq_wf(g0),
            g0.len() == ROWS * COLS,
            grid@.len() == ROWS * COLS,
            forall|a: Coordinates| in_range(a) ==> (#[trigger] cell(grid@, a)).owner == cell(
                g0,
                a,
            ).owner && cell(grid@, a).coordinates == cell(g0, a).coordinates,
            forall|a: Coordinates| in_range(a) && idx_of(a) < i ==> (#[trigger] cell(
                grid@,
                a,
            )).color == (if cell(g0, a).owner == Some(p) {
                col
            } else {
                cell(g0, a).color
            }),
            forall|a: Coordinates| in_range(a) && idx_of(a) >= i ==> (#[trigger] cell(grid@, a))
                == cell(g0, a),
            queue@.len() == owned_count_to(g0, p, i as int),
            forall|k: int|
                0 <= k < queue@.len() ==> in_range(#[trigger] queue@[k]) && cell(
                    grid@,
                    queue@[k],
                ).owner == Some(p),
            forall|a: Coordinates| in_range(a) && idx_of(a) < i && cell(g0, a).owner == Some(p)
                ==> #[trigger] queue@.contains(a),
        decreases ROWS * COLS - i,
    {
        let a = Coordinates { row: i / COLS, col: i % COLS };
        proof {
            lemma_coord_of_idx(i as int);
            assert(a == coord_of(i as int));
            assert(cell(g0, a) == g0[i as int]);
        }
        let t = grid.get(a);
        let mine = match t.owner {
            Some(q) => q == p,
            None => false,
        };
        let ghost gpre = grid@;
        let ghost qpre = queue@;
        if mine {
            grid.set_tile(a, Tile { owner: t.owner, color: col, coordinates: t.coordinates });
            queue.push(a);
        }
        proof {
            assert forall|b: Coordinates| in_range(b) implies (#[trigger] cell(grid@, b)).owner
                == cell(g0, b).owner && cell(grid@, b).coordinates == cell(g0, b).coordinates && (
            idx_of(b) >= i + 1 ==> cell(grid@, b) == cell(g0, b)) && (idx_of(b) < i + 1 ==> cell(
                grid@,
                b,
            ).color == (if cell(g0, b).owner == Some(p) {
                col
            } else {
                cell(g0, b).color
            })) by {
                if mine {
                    lemma_cell_update(
                        gpre,
                        a,
                        Tile { owner: cell(g0, a).owner, color: col, coordinates: a },
                        b,
                    );
                }
                if idx_of(b) == i as int {
                    lemma_idx_of_injective(a, b);
                }
            }
            assert forall|b: Coordinates| in_range(b) && idx_of(b) < i + 1 && cell(
                g0,
                b,
            ).owner == Some(p) implies #[trigger] queue@.contains(b) by {
                if idx_of(b) == i as int {
                    lemma_idx_of_injective(a, b);
                    assert(queue@[queue@.len() - 1] == b);
                } else {
                    assert(qpre.contains(b));
                    let k = choose|k: int| 0 <= k < qpre.len() && qpre[k] == b;
                    assert(queue@[k] == b);
                }
            }
            assert forall|k: int| 0 <= k < queue@.len() implies in_range(#[trigger] queue@[k])
                && cell(grid@, queue@[k]).owner == Some(p) by {
                if k < qpre.len() {
                    assert(queue@[k] == qpre[k]);
                    assert(cell(gpre, qpre[k]).owner == Some(p));
                } else {
                    assert(queue@[k] == a);
                }
            }
        }
        i = i + 1;
    }
    proof {
        lemma_owned_count_bounds(g0, p, (ROWS * COLS) as int);
        assert forall|a: Coordinates| in_range(a) implies #[trigger] flood_cell_ok(
            g0,
            grid@,
            p,
            col,
            a,
        ) by {
            lemma_idx_of_range(a);
            if cell(grid@, a).owner == Some(p) {
                lemma_captured_base(g0, p, col, a);
            }
            if !captured(g0, p, col, a) {
                if cell(g0, a).owner == Some(p) {
                    lemma_captured_base(g0, p, col, a);
                }
            }
        }
        assert forall|idx: int| 0 <= idx < ROWS * COLS implies ((#[trigger] g0[idx]).owner == Some(
            p,
        )) == ((#[trigger] grid@[idx]).owner == Some(p)) by {
            lemma_coord_of_idx(idx);
            assert(cell(g0, coord_of(idx)) == g0[idx]);
            assert(cell(grid@, coord_of(idx)) == grid@[idx]);
        }
        lemma_owned_count_agree(g0, grid@, p, (ROWS * COLS) as int);
        assert forall|a: Coordinates| in_range(a) && (#[trigger] cell(grid@, a)).owner == Some(
            p,
        ) implies queue@.contains(a) by {
            lemma_idx_of_range(a);
        }
        assert(flood_queue_ok(grid@, queue@, p, col));
    }
    let mut head: usize = 0;
    while head < queue.len()
        invariant
            grid.wf(),
            grid_seq_wf(g0),
            g0.len() == ROWS * COLS,
            head <= queue@.len(),
            queue@.len() <= ROWS * COLS,
            flood_frame(g0, grid@, p, col),
            flood_queue_ok(grid@, queue@, p, col),
            forall|k: int, b: Coordinates|
                0 <= k < head && #[trigger] spec_adjacent(queue@[k], b) && cell(
                    g0,
                    b,
                ).owner is None && cell(g0, b).color == col ==> cell(grid@, b).owner == Some(p),
        decreases ROWS * COLS - head,
    {
        let src = queue[head];
        proof {
            assert(cell(grid@, src).owner == Some(p));
            assert(flood_cell_ok(g0, grid@, p, col, src));
        }
        let ghost q_at_entry = queue@;
        if src.row > 0 {
            annex_step(
                grid,
                &mut queue,
                p,
                col,
                Coordinates { row: src.row - 1, col: src.col },
                Ghost(g0),
                Ghost(src),
            );
        }
        if src.col > 0 {
            annex_step(
                grid,
                &mut queue,
                p,
                col,
                Coordinates { row: src.row, col: src.col - 1 },
                Ghost(g0),
                Ghost(src),
            );
        }
        if src.row + 1 < ROWS {
            annex_step(
                grid,
                &mut queue,
                p,
                col,
                Coordinates { row: src.row + 1, col: src.col },
                Ghost(g0),
                Ghost(src),
            );
        }
        if src.col + 1 < COLS {
            annex_step(
                grid,
                &mut queue,
                p,
                col,
                Coordinates { row: src.row, col: src.col + 1 },
                Ghost(g0),
                Ghost(src),
            );
        }
        proof {
            lemma_owned_count_bounds(grid@, p, (ROWS * COLS) as int);
            assert forall|k: int, b: Coordinates|
                0 <= k < head + 1 && #[trigger] spec_adjacent(queue@[k], b) && cell(
                    g0,
                    b,
                ).owner is None && cell(g0, b).color == col implies cell(grid@, b).owner == Some(
                p,
            ) by {
                assert(queue@[k] == q_at_entry[k]);
                if k == head {
                    assert(queue@[k] == src);
                    assert(b.row < ROWS && b.col < COLS);
                    if src.row == b.row + 1 {
                        assert(b == Coordinates { row: (src.row - 1) as usize, col: src.col });
                    } else if src.col == b.col + 1 {
                        assert(b == Coordinates { row: src.row, col: (src.col - 1) as usize });
                    } else if b.row == src.row + 1 {
                        assert(b == Coordinates { row: (src.row + 1) as usize, col: src.col });
                    } else {
                        assert(b == Coordinates { row: src.row, col: (src.col + 1) as usize });
                    }
                }
            }
        }
        head = head + 1;
    }
    proof {
        assert forall|a: Coordinates| in_range(a) && captured(g0, p, col, a) implies (
        #[trigger] cell(grid@, a)).owner == Some(p) && cell(grid@, a).color == col by {
            let path = choose|path: Seq<Coordinates>|
                #[trigger] is_capture_path(g0, p, col, path) && path.last() == a;
            assert forall|c: Coordinates| in_range(c) && (#[trigger] cell(g0, c)).owner == Some(
                p,
            ) implies cell(grid@, c).owner == Some(p) by {
                assert(flood_cell_ok(g0, grid@, p, col, c));
            }
            lemma_path_end_owned(g0, grid@, queue@, p, col, path);
            assert(flood_cell_ok(g0, grid@, p, col, a));
        }
        assert forall|a: Coordinates| in_range(a) && !captured(g0, p, col, a) implies #[trigger] cell(
            grid@,
            a,
        ) == cell(g0, a) by {
            assert(flood_cell_ok(g0, grid@, p, col, a));
        }
    }
}

} // verus!
