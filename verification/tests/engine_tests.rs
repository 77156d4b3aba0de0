use filler::game::{Game, GameMessage, GameStatus, MoveError, Player};
use filler::grid::{Coordinates, Grid, Tile, TileColor, COLS, ROWS};
use rand::seq::SliceRandom;
use rand::thread_rng;

/// Builds a board by asking `pick` for the owner and color of each cell.
fn build_grid(pick: impl Fn(usize, usize) -> (Option<Player>, TileColor)) -> Grid {
    let mut tiles: Vec<Tile> = Vec::new();
    for row in 0..ROWS {
        for col in 0..COLS {
            let (owner, color) = pick(row, col);
            tiles.push(Tile {
                owner,
                color,
                coordinates: Coordinates::new(row, col),
            });
        }
    }
    Grid::from_tiles(tiles).unwrap()
}

#[test]
fn move_annexes_connected_same_color_region() {
    // Player one owns only the bottom-left corner, colored red; the cells
    // right of it and above it are blue, the next cell over is red again.
    let grid = build_grid(|row, col| match (row, col) {
        (6, 0) => (Some(Player::One), TileColor::Red),
        (6, 1) | (5, 0) => (None, TileColor::Blue),
        (6, 2) => (None, TileColor::Red),
        (0, 7) => (Some(Player::Two), TileColor::Green),
        _ => (None, TileColor::Yellow),
    });
    let mut game = Game::from_grid(grid, Player::One).unwrap();
    assert_eq!(game.score(), (1, 1));

    game.make_move(TileColor::Blue).unwrap();

    let g = game.grid();
    assert_eq!(g.get(Coordinates::new(6, 0)).color, TileColor::Blue);
    assert_eq!(g.get(Coordinates::new(6, 0)).owner, Some(Player::One));
    assert_eq!(g.get(Coordinates::new(6, 1)).owner, Some(Player::One));
    assert_eq!(g.get(Coordinates::new(6, 1)).color, TileColor::Blue);
    assert_eq!(g.get(Coordinates::new(5, 0)).owner, Some(Player::One));
    assert_eq!(g.get(Coordinates::new(5, 0)).color, TileColor::Blue);
    assert_eq!(g.get(Coordinates::new(6, 2)).owner, None);
    assert_eq!(g.get(Coordinates::new(6, 2)).color, TileColor::Red);
    assert_eq!(game.score().0, 3);
    assert_eq!(game.current_player(), Player::Two);
}

#[test]
fn rejected_move_changes_nothing() {
    let mut game = Game::new();
    let held = game.player_color(Player::Two);
    let before: Vec<Tile> = game
        .player_tile_coordinates(Player::One)
        .into_iter()
        .map(|c| game.grid().get(c))
        .collect();
    let mut snapshot: Vec<Tile> = Vec::new();
    for row in 0..ROWS {
        for col in 0..COLS {
            snapshot.push(game.grid().get(Coordinates::new(row, col)));
        }
    }
    let score = game.score();
    let player = game.current_player();

    assert_eq!(game.make_move(held), Err(MoveError::ColorUnavailable));

    let mut k = 0;
    for row in 0..ROWS {
        for col in 0..COLS {
            assert_eq!(game.grid().get(Coordinates::new(row, col)), snapshot[k]);
            k += 1;
        }
    }
    assert_eq!(game.score(), score);
    assert_eq!(game.current_player(), player);
    assert_eq!(
        before.len(),
        game.player_tile_coordinates(Player::One).len()
    );
}

#[test]
fn own_color_is_rejected_too() {
    let mut game = Game::new();
    let held = game.player_color(Player::One);
    assert_eq!(game.make_move(held), Err(MoveError::ColorUnavailable));
}

#[test]
fn full_games_end_in_won_or_draw() {
    let mut rng = thread_rng();
    for _ in 0..5 {
        let mut game = Game::new();
        let mut moves = 0usize;
        while matches!(game.status(), GameStatus::Incomplete) {
            let disabled = game.disabled_colors();
            let available: Vec<TileColor> = TileColor::all_colors()
                .into_iter()
                .filter(|color| !disabled.contains(color))
                .collect();
            game.make_move(*available.choose(&mut rng).unwrap())
                .unwrap();
            moves += 1;
            assert!(moves < 100_000);
        }
        let (one, two) = game.score();
        assert_eq!(one as usize + two as usize, ROWS * COLS);
        assert!(matches!(
            game.status(),
            GameStatus::Won(_) | GameStatus::Draw
        ));
    }
}

#[test]
fn one_move_swallows_a_single_colored_board() {
    // Every unowned cell is blue, so one blue move must annex all of them,
    // and the explicit queue has to cope with the full board.
    let grid = build_grid(|row, col| match (row, col) {
        (6, 0) => (Some(Player::One), TileColor::Red),
        (0, 7) => (Some(Player::Two), TileColor::Green),
        _ => (None, TileColor::Blue),
    });
    let mut game = Game::from_grid(grid, Player::One).unwrap();
    game.make_move(TileColor::Blue).unwrap();
    assert_eq!(game.score(), (55, 1));
    assert_eq!(game.status(), GameStatus::Won(Player::One));
}

#[test]
fn drawn_board_reports_draw() {
    let grid = build_grid(|_, col| {
        if col < 4 {
            (Some(Player::One), TileColor::Red)
        } else {
            (Some(Player::Two), TileColor::Green)
        }
    });
    let game = Game::from_grid(grid, Player::One).unwrap();
    assert_eq!(game.score(), (28, 28));
    assert_eq!(game.status(), GameStatus::Draw);
}

#[test]
fn uneven_full_board_reports_winner() {
    let grid = build_grid(|_, col| {
        if col < 3 {
            (Some(Player::One), TileColor::Red)
        } else {
            (Some(Player::Two), TileColor::Green)
        }
    });
    let game = Game::from_grid(grid, Player::One).unwrap();
    assert_eq!(game.score(), (21, 35));
    assert_eq!(game.status(), GameStatus::Won(Player::Two));
}

#[test]
fn boards_that_no_match_stands_on_are_rejected() {
    // Both corners share a color.
    let grid = build_grid(|row, col| match (row, col) {
        (6, 0) => (Some(Player::One), TileColor::Red),
        (0, 7) => (Some(Player::Two), TileColor::Red),
        _ => (None, TileColor::Yellow),
    });
    assert!(Game::from_grid(grid, Player::One).is_none());

    // An owned cell that does not wear its owner's color.
    let grid = build_grid(|row, col| match (row, col) {
        (6, 0) => (Some(Player::One), TileColor::Red),
        (3, 3) => (Some(Player::One), TileColor::Purple),
        (0, 7) => (Some(Player::Two), TileColor::Green),
        _ => (None, TileColor::Yellow),
    });
    assert!(Game::from_grid(grid, Player::One).is_none());

    // A corner that its player does not own.
    let grid = build_grid(|row, col| match (row, col) {
        (0, 7) => (Some(Player::Two), TileColor::Green),
        _ => (None, TileColor::Yellow),
    });
    assert!(Game::from_grid(grid, Player::One).is_none());
}

#[test]
fn misplaced_coordinates_are_rejected() {
    let mut tiles: Vec<Tile> = Vec::new();
    for row in 0..ROWS {
        for col in 0..COLS {
            tiles.push(Tile {
                owner: None,
                color: TileColor::Yellow,
                // Every tile claims to sit at the origin.
                coordinates: Coordinates::new(0, 0),
            });
            let _ = (row, col);
        }
    }
    assert!(Grid::from_tiles(tiles).is_none());
}

#[test]
fn neighbors_follow_the_board_edges() {
    assert_eq!(
        Coordinates::new(0, 0).neighbors(),
        vec![Coordinates::new(1, 0), Coordinates::new(0, 1)]
    );
    assert_eq!(
        Coordinates::new(0, 3).neighbors(),
        vec![
            Coordinates::new(0, 2),
            Coordinates::new(1, 3),
            Coordinates::new(0, 4),
        ]
    );
    assert_eq!(
        Coordinates::new(3, 3).neighbors(),
        vec![
            Coordinates::new(2, 3),
            Coordinates::new(3, 2),
            Coordinates::new(4, 3),
            Coordinates::new(3, 4),
        ]
    );
    assert_eq!(
        Coordinates::new(6, 7).neighbors(),
        vec![Coordinates::new(5, 7), Coordinates::new(6, 6)]
    );
}

#[test]
fn palette_reduces_bytes_modulo_six() {
    assert_eq!(TileColor::from(0u8), TileColor::Red);
    assert_eq!(TileColor::from(1u8), TileColor::Yellow);
    assert_eq!(TileColor::from(2u8), TileColor::Green);
    assert_eq!(TileColor::from(3u8), TileColor::Blue);
    assert_eq!(TileColor::from(4u8), TileColor::Purple);
    assert_eq!(TileColor::from(5u8), TileColor::Black);
    assert_eq!(TileColor::from(9u8), TileColor::Blue);
    assert_eq!(TileColor::from(255u8), TileColor::Blue);
}

#[test]
fn default_color_is_black() {
    assert_eq!(TileColor::default(), TileColor::Black);
}

#[test]
fn all_colors_lists_the_palette_once() {
    let all = TileColor::all_colors();
    assert_eq!(all.len(), 6);
    for i in 0..all.len() {
        for j in 0..i {
            assert_ne!(all[i], all[j]);
        }
    }
}

#[test]
fn messages_render_their_labels() {
    assert_eq!(GameMessage::PlayAgain.to_string(), "Play Again");
    assert_eq!(
        GameMessage::Move(TileColor::Purple).to_string(),
        "Purple"
    );
    assert_eq!(GameMessage::Move(TileColor::Red).to_string(), "Red");
}
