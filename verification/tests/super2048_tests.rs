use std::collections::HashMap;

use rand::rngs::StdRng;
use rand::SeedableRng;
use tile_games::super2048::Super2048;
use tile_games::utils::Color;
use tile_games::{Game, Move};

fn game_with(rows: [[u32; 4]; 4]) -> Super2048 {
    let rows: Vec<Vec<u32>> = rows.iter().map(|row| row.to_vec()).collect();
    Super2048::from_rows(rows, StdRng::seed_from_u64(2048)).expect("a board of tiles")
}

fn new_blank_game() -> Super2048 {
    game_with([[0; 4]; 4])
}

fn tiles_on(game: &Super2048) -> Vec<u32> {
    game.desk().into_iter().flatten().filter(|&v| v != 0).collect()
}

fn sum_of(game: &Super2048) -> u32 {
    game.desk().into_iter().flatten().sum()
}

#[test]
fn test_collapse_left() {
    let res = Super2048::collapse_left(&[2, 2]);
    assert_eq!(res, (vec![4, 0, 0, 0], 4));

    let res = Super2048::collapse_left(&[2, 2, 4]);
    assert_eq!(res, (vec![4, 4, 0, 0], 4));

    let res = Super2048::collapse_left(&[2, 2, 4, 4, 16, 16]);
    assert_eq!(res, (vec![4, 8, 32, 0], 44));

    let res = Super2048::collapse_left(&[2, 0, 2, 16]);
    assert_eq!(res, (vec![4, 16, 0, 0], 4));
}

#[test]
fn test_collapse_desk_left() {
    let mut game = game_with([[2, 2, 0, 0], [2, 2, 16, 16], [8, 0, 8, 16], [0, 0, 1024, 1024]]);
    game.collapse_cols(false);

    let desk = game.desk();
    assert_eq!(desk[0], vec![4, 0, 0, 0]);
    assert_eq!(desk[1], vec![4, 32, 0, 0]);
    assert_eq!(desk[2], vec![16, 16, 0, 0]);
    assert_eq!(desk[3], vec![2048, 0, 0, 0]);
}

#[test]
fn test_collapse_desk_right() {
    let mut game = game_with([[2, 2, 0, 0], [2, 2, 16, 16], [8, 0, 8, 16], [0, 0, 1024, 1024]]);
    game.collapse_cols(true);

    let desk = game.desk();
    assert_eq!(desk[0], vec![0, 0, 0, 4]);
    assert_eq!(desk[1], vec![0, 0, 4, 32]);
    assert_eq!(desk[2], vec![0, 0, 16, 16]);
    assert_eq!(desk[3], vec![0, 0, 0, 2048]);

    let mut game = game_with([[4, 4, 32, 32], [0, 0, 4, 16], [0, 0, 0, 8], [0, 2, 0, 2]]);
    game.collapse_cols(true);

    let desk = game.desk();
    assert_eq!(desk[0], vec![0, 0, 8, 64]);
    assert_eq!(desk[1], vec![0, 0, 4, 16]);
    assert_eq!(desk[2], vec![0, 0, 0, 8]);
    assert_eq!(desk[3], vec![0, 0, 0, 4]);
}

#[test]
fn test_collapse_desk_up() {
    let mut game = game_with([[2, 2, 8, 0], [2, 2, 0, 0], [0, 16, 8, 32], [0, 16, 16, 32]]);
    game.collapse_rows(false);

    let desk = game.desk();
    assert_eq!(desk[0], vec![4, 4, 16, 64]);
    assert_eq!(desk[1], vec![0, 32, 16, 0]);
    assert_eq!(desk[2], vec![0, 0, 0, 0]);
    assert_eq!(desk[3], vec![0, 0, 0, 0]);
}

#[test]
fn test_collapse_desk_down() {
    let mut game = game_with([[2, 2, 8, 0], [2, 2, 0, 0], [0, 16, 8, 32], [0, 16, 16, 32]]);
    game.collapse_rows(true);

    let desk = game.desk();
    assert_eq!(desk[0], vec![0, 0, 0, 0]);
    assert_eq!(desk[1], vec![0, 0, 0, 0]);
    assert_eq!(desk[2], vec![0, 4, 16, 0]);
    assert_eq!(desk[3], vec![4, 32, 16, 64]);
}

#[test]
fn test_get_color() {
    let game = Super2048::new(StdRng::seed_from_u64(1));
    let colors = game.colors();
    let mut number_colors = HashMap::new();
    number_colors.insert(2u32, colors[0]);
    number_colors.insert(4u32, colors[1]);
    number_colors.insert(8u32, colors[2]);
    number_colors.insert(16u32, colors[3]);
    number_colors.insert(32u32, colors[4]);
    number_colors.insert(64u32, colors[0]);
    number_colors.insert(128u32, colors[1]);

    for (number, color) in number_colors.iter() {
        assert_eq!(game.get_color(*number), *color);
    }
}

#[test]
fn has_moves() {
    let game = game_with([[8, 4, 2, 512], [32, 64, 256, 16], [4, 16, 8, 4], [8, 4, 4, 2]]);

    assert!(game.has_moves());
}

#[test]
fn palette_is_white_cyan_green_magenta_red() {
    let game = new_blank_game();
    assert_eq!(
        game.colors(),
        vec![Color::WHITE, Color::CYAN, Color::GREEN, Color::MAGENTA, Color::RED]
    );
    assert_eq!(game.get_color(2), Color::WHITE);
    assert_eq!(game.get_color(1024), Color::RED);
    assert_eq!(game.get_color(2048), Color::WHITE);
    assert_eq!(game.get_color(1 << 31), Color::WHITE);
}

#[test]
fn collapse_left_does_not_cascade() {
    assert_eq!(Super2048::collapse_left(&[2, 2, 4, 0]), (vec![4, 4, 0, 0], 4));
    assert_eq!(Super2048::collapse_left(&[4, 4, 4, 4]), (vec![8, 8, 0, 0], 16));
    assert_eq!(Super2048::collapse_left(&[2, 2, 2, 0]), (vec![4, 2, 0, 0], 4));
}

#[test]
fn collapse_left_of_nothing_is_four_zeros() {
    assert_eq!(Super2048::collapse_left(&[]), (vec![0, 0, 0, 0], 0));
    assert_eq!(Super2048::collapse_left(&[0, 0, 0, 0]), (vec![0, 0, 0, 0], 0));
}

#[test]
fn collapse_left_keeps_a_long_line_long() {
    assert_eq!(Super2048::collapse_left(&[2, 4, 8, 16, 32]), (vec![2, 4, 8, 16, 32], 0));
}

#[test]
fn collapse_left_without_merge_scores_nothing() {
    assert_eq!(Super2048::collapse_left(&[0, 2, 0, 4]), (vec![2, 4, 0, 0], 0));
}

#[test]
fn left_collapse_of_one_row_merges_and_scores() {
    let mut game = game_with([[2, 2, 0, 0], [0; 4], [0; 4], [0; 4]]);
    let before = game.score();
    let changed = game.collapse_cols(false);

    assert!(changed);
    assert_eq!(game.desk()[0], vec![4, 0, 0, 0]);
    assert_eq!(game.score() - before, 4);
}

#[test]
fn left_then_right_keeps_the_sum_but_not_the_row() {
    let start = [[2, 2, 4, 0], [0; 4], [0; 4], [0; 4]];
    let mut game = game_with(start);
    game.collapse_cols(false);
    assert_eq!(game.desk()[0], vec![4, 4, 0, 0]);
    assert_eq!(sum_of(&game), 8);

    game.collapse_cols(true);
    assert_eq!(game.desk()[0], vec![0, 0, 0, 8]);
    assert_eq!(sum_of(&game), 8);
    assert_ne!(game.desk()[0], start[0].to_vec());
    assert_eq!(game.score(), 12);
}

#[test]
fn collapse_says_when_nothing_changed() {
    let mut game = game_with([[2, 4, 0, 0], [8, 0, 0, 0], [0; 4], [0; 4]]);
    assert!(!game.collapse_cols(false));
    assert!(game.collapse_cols(true));
    assert!(!game.collapse_cols(true));
    assert!(!game.collapse_rows(false));
    assert!(game.collapse_rows(true));
}

#[test]
fn move_without_change_brings_no_tile() {
    let rows = [[2, 4, 0, 0], [8, 0, 0, 0], [0; 4], [0; 4]];
    let mut game = game_with(rows);

    assert!(game.apply_move(Move::LEFT));
    assert_eq!(game.desk(), rows.iter().map(|r| r.to_vec()).collect::<Vec<_>>());
    assert_eq!(game.score(), 0);
}

#[test]
fn none_is_taken_and_changes_nothing() {
    let rows = [[2, 2, 0, 0], [0; 4], [0; 4], [0; 4]];
    let mut game = game_with(rows);

    assert!(game.apply_move(Move::NONE));
    assert_eq!(game.desk(), rows.iter().map(|r| r.to_vec()).collect::<Vec<_>>());
    assert_eq!(game.score(), 0);
}

#[test]
fn move_with_change_brings_one_tile() {
    let mut game = game_with([[2, 2, 0, 0], [0; 4], [0; 4], [0; 4]]);

    assert!(game.apply_move(Move::LEFT));
    assert_eq!(game.score(), 4);
    let desk = game.desk();
    assert_eq!(desk[0][0], 4);
    let mut tiles = tiles_on(&game);
    assert_eq!(tiles.len(), 2);
    tiles.retain(|&v| v != 4);
    assert!(tiles.is_empty() || tiles == vec![2]);
}

#[test]
fn finished_board_takes_no_move() {
    let rows = [[2, 4, 2, 4], [4, 2, 4, 2], [2, 4, 2, 4], [4, 2, 4, 2]];
    let mut game = game_with(rows);

    assert!(game.is_finished());
    assert!(!game.has_moves());
    for m in [Move::LEFT, Move::RIGHT, Move::UP, Move::DOWN, Move::NONE] {
        assert!(!game.apply_move(m));
        assert_eq!(game.desk(), rows.iter().map(|r| r.to_vec()).collect::<Vec<_>>());
    }
}

#[test]
fn full_board_with_a_pair_is_not_finished() {
    let side_by_side = game_with([[2, 4, 2, 4], [4, 2, 4, 2], [2, 4, 2, 4], [4, 2, 8, 8]]);
    assert!(!side_by_side.is_finished());

    let one_above_the_other = game_with([[2, 4, 2, 4], [4, 2, 4, 2], [2, 4, 2, 16], [4, 2, 4, 16]]);
    assert!(!one_above_the_other.is_finished());
}

#[test]
fn board_with_a_free_cell_is_not_finished() {
    let game = game_with([[2, 4, 2, 4], [4, 2, 4, 2], [2, 4, 2, 4], [4, 2, 4, 0]]);
    assert!(!game.is_finished());
    assert_eq!(game.free_positions(), vec![(3, 3)]);
}

#[test]
fn free_positions_come_in_row_major_order() {
    let game = game_with([[0, 2, 0, 4], [4, 2, 4, 2], [2, 0, 2, 4], [0, 2, 4, 0]]);
    assert_eq!(game.free_positions(), vec![(0, 0), (0, 2), (2, 1), (3, 0), (3, 3)]);
    assert_eq!(new_blank_game().free_positions().len(), 16);
}

#[test]
fn new_game_has_two_tiles_and_no_score() {
    for seed in 0..50u64 {
        let game = Super2048::new(StdRng::seed_from_u64(seed));
        let tiles = tiles_on(&game);
        assert_eq!(tiles.len(), 2);
        assert!(tiles.iter().all(|&v| v == 2 || v == 4));
        assert_eq!(game.score(), 0);
        assert!(!game.is_finished());
        for m in [Move::LEFT, Move::RIGHT, Move::UP, Move::DOWN, Move::NONE] {
            assert!(game.has_room(m));
        }
        assert_eq!(game.window_size(), (4, 16));
    }
}

#[test]
fn games_are_valid_and_stay_valid() {
    let mut game = Super2048::new(StdRng::seed_from_u64(11));
    assert!(game.is_valid());
    for m in [Move::LEFT, Move::DOWN, Move::RIGHT, Move::UP, Move::NONE, Move::LEFT] {
        if game.has_room(m) {
            game.apply_move(m);
        }
        assert!(game.is_valid());
    }
    assert!(new_blank_game().is_valid());
}

#[test]
fn same_seed_gives_same_game() {
    let a = Super2048::new(StdRng::seed_from_u64(99));
    let b = Super2048::new(StdRng::seed_from_u64(99));
    assert_eq!(a.desk(), b.desk());
}

#[test]
fn put_number_fills_one_free_cell() {
    let mut game = game_with([[2, 4, 2, 4], [4, 2, 4, 2], [2, 4, 2, 4], [4, 2, 4, 0]]);
    game.put_number();
    let cell = game.cell(3, 3);
    assert!(cell == 2 || cell == 4);
    assert_eq!(game.free_positions(), vec![]);
    assert_eq!(game.score(), 0);
}

#[test]
fn spawned_tiles_come_in_both_values_and_many_cells() {
    let mut values = std::collections::HashSet::new();
    let mut cells = std::collections::HashSet::new();
    for seed in 0..200u64 {
        let rows: Vec<Vec<u32>> = vec![vec![0; 4]; 4];
        let mut game = Super2048::from_rows(rows, StdRng::seed_from_u64(seed)).unwrap();
        game.put_number();
        let free = game.free_positions();
        assert_eq!(free.len(), 15);
        for r in 0..4 {
            for c in 0..4 {
                let v = game.cell(r, c);
                if v != 0 {
                    values.insert(v);
                    cells.insert((r, c));
                }
            }
        }
    }
    assert_eq!(values.len(), 2);
    assert!(cells.len() > 8);
}

#[test]
fn place_tile_takes_a_new_tile_for_a_free_cell_only() {
    let mut game = game_with([[2, 0, 0, 0], [0; 4], [0; 4], [0; 4]]);
    assert!(!game.place_tile(0, 0, 2));
    assert!(!game.place_tile(4, 0, 2));
    assert!(!game.place_tile(0, 4, 2));
    assert!(!game.place_tile(1, 1, 8));
    assert!(!game.place_tile(1, 1, 0));
    assert_eq!(tiles_on(&game), vec![2]);

    assert!(game.place_tile(1, 2, 4));
    assert_eq!(game.cell(1, 2), 4);
    assert!(game.place_tile(3, 3, 2));
    assert_eq!(game.desk()[3], vec![0, 0, 0, 2]);
}

#[test]
fn from_rows_wants_four_rows_of_four_tiles() {
    let rng = || StdRng::seed_from_u64(5);
    assert!(Super2048::from_rows(vec![vec![0; 4]; 3], rng()).is_none());
    assert!(Super2048::from_rows(vec![vec![0; 4]; 5], rng()).is_none());
    assert!(Super2048::from_rows(vec![vec![0; 4], vec![0; 4], vec![0; 3], vec![0; 4]], rng())
        .is_none());
    assert!(Super2048::from_rows(vec![vec![0; 4], vec![0, 3, 0, 0], vec![0; 4], vec![0; 4]], rng())
        .is_none());
    assert!(Super2048::from_rows(vec![vec![0; 4], vec![0, 1, 0, 0], vec![0; 4], vec![0; 4]], rng())
        .is_none());
    assert!(Super2048::from_rows(vec![vec![0; 4], vec![0, 6, 0, 0], vec![0; 4], vec![0; 4]], rng())
        .is_none());
    let top = 1u32 << 31;
    let game =
        Super2048::from_rows(vec![vec![2, 4, 8, top], vec![0; 4], vec![0; 4], vec![0; 4]], rng())
            .expect("tiles");
    assert_eq!(game.desk()[0], vec![2, 4, 8, top]);
    assert_eq!(game.score(), 0);
}

#[test]
fn room_is_gone_where_the_score_would_pass_the_limit() {
    let top = 1u32 << 31;
    let alone = game_with([[top, 0, 0, 0], [0; 4], [0; 4], [0; 4]]);
    for m in [Move::LEFT, Move::RIGHT, Move::UP, Move::DOWN, Move::NONE] {
        assert!(alone.has_room(m));
    }

    let pair = game_with([[top, top, 0, 0], [0; 4], [0; 4], [0; 4]]);
    assert!(!pair.has_room(Move::LEFT));
    assert!(!pair.has_room(Move::RIGHT));
    assert!(pair.has_room(Move::UP));
    assert!(pair.has_room(Move::DOWN));
    assert!(pair.has_room(Move::NONE));

    let half = 1u32 << 30;
    let two_pairs = game_with([[half, 0, 0, 0], [half, 0, 0, 0], [half, 0, 0, 0], [half, 0, 0, 0]]);
    assert!(!two_pairs.has_room(Move::UP));
    assert!(!two_pairs.has_room(Move::DOWN));
    assert!(two_pairs.has_room(Move::LEFT));

    let one_pair = game_with([[half, 0, 0, 0], [half, 0, 0, 0], [0; 4], [0; 4]]);
    assert!(one_pair.has_room(Move::UP));
}

#[test]
fn room_counts_the_score_that_is_there() {
    let half = 1u32 << 30;
    let mut game = game_with([[half, half, 0, 0], [0; 4], [half, 0, 0, 0], [half, 0, 0, 0]]);
    assert!(game.has_room(Move::LEFT));
    assert!(game.has_room(Move::UP));

    assert!(game.collapse_cols(false));
    assert_eq!(game.score(), 1 << 31);
    assert_eq!(game.desk()[0], vec![1 << 31, 0, 0, 0]);

    assert!(!game.has_room(Move::UP));
    assert!(!game.has_room(Move::DOWN));
    assert!(game.has_room(Move::RIGHT));
    assert!(game.has_room(Move::NONE));
}

#[test]
fn finished_game_has_room_for_every_move() {
    let game = game_with([[2, 4, 2, 4], [4, 2, 4, 2], [2, 4, 2, 4], [4, 2, 4, 2]]);
    for m in [Move::LEFT, Move::RIGHT, Move::UP, Move::DOWN, Move::NONE] {
        assert!(game.has_room(m));
    }
}

#[test]
fn numbers_from_1024_on_are_shown_as_1k() {
    assert_eq!(Super2048::fmt_number(0), "0");
    assert_eq!(Super2048::fmt_number(2), "2");
    assert_eq!(Super2048::fmt_number(512), "512");
    assert_eq!(Super2048::fmt_number(1023), "1023");
    assert_eq!(Super2048::fmt_number(1024), "1K");
    assert_eq!(Super2048::fmt_number(2048), "1K");
    assert_eq!(Super2048::fmt_number(u32::MAX), "1K");
}

#[test]
fn cells_show_a_dot_or_the_tile_in_its_colour() {
    let game = game_with([[0, 2, 64, 1024], [0; 4], [0; 4], [0; 4]]);
    assert_eq!(game.cell_face(0, 0), (".".to_string(), Color::YELLOW));
    assert_eq!(game.cell_face(0, 1), ("2".to_string(), Color::WHITE));
    assert_eq!(game.cell_face(0, 2), ("64".to_string(), Color::WHITE));
    assert_eq!(game.cell_face(0, 3), ("1K".to_string(), Color::RED));
}

#[test]
fn a_played_game_keeps_its_rules() {
    let mut game = Super2048::new(StdRng::seed_from_u64(7));
    let moves = [Move::LEFT, Move::UP, Move::RIGHT, Move::DOWN];
    let mut last_score = 0;
    for step in 0..400 {
        if game.is_finished() || !game.has_room(moves[step % 4]) {
            break;
        }
        let before = game.desk();
        let sum_before = sum_of(&game);
        assert!(game.apply_move(moves[step % 4]));
        let after = game.desk();
        let sum_after = sum_of(&game);
        if sum_after == sum_before {
            assert_eq!(before, after);
        } else {
            assert!(sum_after - sum_before == 2 || sum_after - sum_before == 4);
        }
        assert!(game.score() >= last_score);
        last_score = game.score();
        for row in after {
            for v in row {
                assert!(v == 0 || (v >= 2 && v.is_power_of_two()));
            }
        }
    }
    assert!(last_score > 0);
}
