use filler::game::{Game, GameStatus, Player};
use filler::grid::{Coordinates, TileColor, COLS, ROWS};
use rand::seq::SliceRandom;
use rand::thread_rng;

#[test]
fn test_players_start_different_colors() {
    for _ in 0..100 {
        let game = Game::new();
        assert_ne!(
            game.player_color(Player::One),
            game.player_color(Player::Two)
        );
    }
}

#[test]
fn test_adjacent_tiles_start_different_colors() {
    for _ in 0..100 {
        let game = Game::new();
        for i in 0..ROWS {
            for j in 0..COLS {
                let coordinates = Coordinates::new(i, j);
                let color = game.grid().get(coordinates).color;
                for neighbor_coordinates in coordinates.neighbors() {
                    let neighbor_color = game.grid().get(neighbor_coordinates).color;
                    assert_ne!(color, neighbor_color);
                }
            }
        }
    }
}

#[test]
fn test_score_update() {
    let expensive_get_score = |game: &Game, player: Player| {
        u8::try_from(game.player_tile_coordinates(player).len()).unwrap()
    };

    let mut rng = thread_rng();

    for _ in 0..25 {
        let mut game = Game::new();
        while let GameStatus::Incomplete = game.status() {
            let disabled_colors = game.disabled_colors();
            let available_colors: Vec<TileColor> = TileColor::all_colors()
                .into_iter()
                .filter(|color| !disabled_colors.contains(color))
                .collect();
            game.make_move(*available_colors.choose(&mut rng).unwrap())
                .unwrap();

            let expected_score = (
                expensive_get_score(&game, Player::One),
                expensive_get_score(&game, Player::Two),
            );
            assert_eq!(expected_score, game.score());
        }
    }
}
