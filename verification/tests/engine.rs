use super_ttt::{Game, Grid, MatchStatus, Player, SubGrid};

fn sub(x_bits: u16, o_bits: u16) -> SubGrid {
    SubGrid { x_bits, o_bits }
}

fn grids_equal(a: &Grid, b: &Grid) -> bool {
    if a.only_allowed() != b.only_allowed() {
        return false;
    }
    for i in 0..9u8 {
        for j in 0..9u8 {
            if a.subgrids()[i as usize].at(j) != b.subgrids()[i as usize].at(j) {
                return false;
            }
        }
    }
    true
}

#[test]
fn player_other_toggles() {
    assert_eq!(Player::X.other(), Player::O);
    assert_eq!(Player::O.other(), Player::X);
    assert_eq!(Player::X.other().other(), Player::X);
}

#[test]
fn subgrid_starts_empty() {
    let sg = SubGrid::default();
    for i in 0..9u8 {
        assert!(sg.empty(i));
        assert_eq!(sg.at(i), None);
    }
    assert!(!sg.is_filled());
    assert!(!sg.is_done());
    assert_eq!(sg.winner(), None);
}

#[test]
fn subgrid_play_rejects_occupied() {
    let mut sg = SubGrid::default();
    assert!(sg.play(3, Player::X));
    assert!(!sg.play(3, Player::O));
    assert_eq!(sg.at(3), Some(Player::X));
    assert!(!sg.empty(3));
    assert!(sg.empty(2));
}

#[test]
fn subgrid_unplay_clears() {
    let mut sg = SubGrid::default();
    assert!(sg.play(7, Player::O));
    sg.unplay(7);
    assert!(sg.empty(7));
    assert_eq!(sg.at(7), None);
}

#[test]
fn subgrid_diagonal_win() {
    // X at {0, 4}, O at {1}: no winner yet; X at 8 completes the main
    // diagonal.
    let mut sg = SubGrid::default();
    assert!(sg.play(0, Player::X));
    assert!(sg.play(1, Player::O));
    assert!(sg.play(4, Player::X));
    assert_eq!(sg.winner(), None);
    assert!(sg.play(8, Player::X));
    assert_eq!(sg.winner(), Some(Player::X));
    assert!(sg.is_done());
    assert!(!sg.is_filled());
}

#[test]
fn subgrid_mixed_triple_is_no_win() {
    // A triple shared by both players never produces a winner.
    let mut sg = SubGrid::default();
    assert!(sg.play(0, Player::X));
    assert!(sg.play(1, Player::X));
    assert!(sg.play(2, Player::O));
    assert_eq!(sg.winner(), None);
}

#[test]
fn subgrid_row_and_column_wins() {
    assert_eq!(sub(0b000111000, 0).winner(), Some(Player::X));
    assert_eq!(sub(0, 0b001001001).winner(), Some(Player::O));
    assert_eq!(sub(0b100010001, 0).winner(), Some(Player::X));
    assert_eq!(sub(0b001010100, 0).winner(), Some(Player::X));
}

#[test]
fn subgrid_full_draw() {
    // X at {0,1,5,6,7}, O at {2,3,4,8}: full board, no triple owned.
    let sg = sub(0b011100011, 0b100011100);
    assert!(sg.is_filled());
    assert_eq!(sg.winner(), None);
    assert!(sg.is_done());
}

#[test]
fn grid_first_move_is_free_then_forced() {
    let mut grid = Grid::default();
    assert_eq!(grid.only_allowed(), None);
    assert!(grid.play(Player::X, 0, 5));
    assert_eq!(grid.only_allowed(), Some(5));
    // Wrong subgrid under the forced rule.
    assert!(!grid.play(Player::O, 3, 1));
    assert_eq!(grid.subgrids()[3].at(1), None);
    // The forced subgrid is fine.
    assert!(grid.play(Player::O, 5, 1));
    assert_eq!(grid.only_allowed(), Some(1));
}

#[test]
fn grid_rejects_occupied_cell_and_decided_subgrid() {
    let mut grid = Grid::default();
    grid.subgrids[3] = sub(0b111, 0);
    assert_eq!(grid.subgrids()[3].winner(), Some(Player::X));
    // A decided subgrid cannot be played into.
    assert!(!grid.play(Player::O, 3, 8));
    // An occupied cell is rejected and nothing changes.
    assert!(grid.play(Player::O, 2, 2));
    assert!(!grid.play(Player::X, 2, 2));
    assert_eq!(grid.subgrids()[2].at(2), Some(Player::O));
}

#[test]
fn grid_is_valid_matches_play() {
    let mut grid = Grid::default();
    assert!(grid.is_valid(4, 4));
    assert!(grid.play(Player::X, 4, 4));
    // Forced into subgrid 4 now.
    assert!(grid.is_valid(4, 0));
    assert!(!grid.is_valid(3, 0));
    assert!(!grid.is_valid(4, 4));
}

#[test]
fn forced_subgrid_cleared_when_target_decided() {
    // Subgrid 3 is already won by O; any move whose local position is 3
    // leaves the opponent free.
    let mut grid = Grid::default();
    grid.subgrids[3] = sub(0, 0b111);
    assert!(grid.play(Player::X, 4, 3));
    assert_eq!(grid.only_allowed(), None);
}

#[test]
fn forced_subgrid_points_at_undecided_target() {
    let mut grid = Grid::default();
    assert!(grid.play(Player::X, 2, 7));
    assert_eq!(grid.only_allowed(), Some(7));
}

#[test]
fn grid_meta_winner_by_top_row() {
    let mut grid = Grid::default();
    grid.subgrids[0] = sub(0b111, 0);
    grid.subgrids[1] = sub(0b111000, 0);
    assert_eq!(grid.winner(), None);
    grid.subgrids[2] = sub(0b100010001, 0);
    assert_eq!(grid.winner(), Some(Player::X));
}

#[test]
fn grid_meta_winner_for_o_by_column() {
    let mut grid = Grid::default();
    grid.subgrids[2] = sub(0, 0b111);
    grid.subgrids[5] = sub(0, 0b111000);
    grid.subgrids[8] = sub(0, 0b001010100);
    assert_eq!(grid.winner(), Some(Player::O));
}

#[test]
fn grid_is_filled_means_every_subgrid_decided() {
    let mut grid = Grid::default();
    for i in 0..9 {
        grid.subgrids[i] = sub(0b011100011, 0b100011100);
    }
    assert!(grid.is_filled());
    assert_eq!(grid.winner(), None);
    grid.subgrids[6] = SubGrid::default();
    assert!(!grid.is_filled());
}

#[test]
fn grid_unplay_restores_cell_and_forced_value() {
    let mut grid = Grid::default();
    let before = grid;
    let prior = grid.only_allowed();
    assert!(grid.play(Player::X, 6, 2));
    grid.unplay(6, 2, prior);
    assert!(grids_equal(&grid, &before));
}

#[test]
fn game_play_flips_turn_and_tracks_state() {
    let mut game = Game::new();
    assert_eq!(game.turn(), Player::X);
    assert!(game.play(4, 4));
    assert_eq!(game.turn(), Player::O);
    assert_eq!(game.clone_grid().only_allowed(), Some(4));
    assert!(!game.finished());
    assert_eq!(game.match_status(), MatchStatus::InProgress);
}

#[test]
fn game_rejects_illegal_move_without_change() {
    let mut game = Game::new();
    assert!(game.play(4, 2));
    let snapshot = game.clone_grid();
    let turn = game.turn();
    // Forced into subgrid 2: subgrid 7 is out.
    assert!(!game.play(7, 0));
    assert!(grids_equal(&game.clone_grid(), &snapshot));
    assert_eq!(game.turn(), turn);
}

#[test]
fn game_undo_is_a_true_inverse() {
    let mut game = Game::new();
    assert!(game.play(4, 4));
    assert!(game.play(4, 0));
    let snapshot = game.clone_grid();
    let turn = game.turn();
    assert!(game.play(0, 8));
    game.undo();
    assert!(grids_equal(&game.clone_grid(), &snapshot));
    assert_eq!(game.turn(), turn);
}

#[test]
fn game_undo_twice_returns_to_start() {
    let mut game = Game::new();
    let start = game.clone_grid();
    assert!(game.play(4, 4));
    assert!(game.play(4, 1));
    game.undo();
    game.undo();
    assert!(grids_equal(&game.clone_grid(), &start));
    assert_eq!(game.turn(), Player::X);
}

#[test]
fn game_undo_on_fresh_game_is_a_noop() {
    let mut game = Game::new();
    let start = game.clone_grid();
    game.undo();
    assert!(grids_equal(&game.clone_grid(), &start));
    assert_eq!(game.turn(), Player::X);
}

#[test]
fn game_played_to_a_win_reports_it() {
    let moves: [(u8, u8); 39] = [
        (7, 3),
        (3, 6),
        (6, 7),
        (7, 8),
        (8, 0),
        (0, 5),
        (5, 0),
        (0, 1),
        (1, 0),
        (0, 2),
        (2, 0),
        (0, 3),
        (3, 0),
        (0, 0),
        (1, 1),
        (1, 4),
        (4, 0),
        (6, 0),
        (1, 2),
        (2, 4),
        (4, 1),
        (4, 8),
        (8, 1),
        (8, 8),
        (8, 2),
        (2, 6),
        (6, 1),
        (3, 2),
        (2, 1),
        (7, 5),
        (5, 1),
        (7, 4),
        (4, 2),
        (2, 5),
        (5, 2),
        (2, 7),
        (7, 0),
        (3, 4),
        (2, 2),
    ];
    let mut game = Game::new();
    for &(outer, inner) in moves.iter() {
        assert!(!game.finished());
        assert!(game.play(outer, inner));
    }
    assert!(game.finished());
    assert_eq!(game.match_status(), MatchStatus::Won(Player::X));
    assert_eq!(game.clone_grid().winner(), Some(Player::X));
    // Undoing the winning move reopens the match.
    game.undo();
    assert!(!game.finished());
    assert_eq!(game.match_status(), MatchStatus::InProgress);
}

#[test]
fn game_played_to_a_draw_reports_it() {
    let moves: [(u8, u8); 76] = [
        (5, 4),
        (4, 6),
        (6, 0),
        (0, 4),
        (4, 8),
        (8, 6),
        (6, 5),
        (5, 8),
        (8, 5),
        (5, 5),
        (5, 1),
        (1, 8),
        (8, 1),
        (1, 4),
        (4, 1),
        (1, 1),
        (1, 6),
        (6, 8),
        (8, 3),
        (3, 8),
        (8, 2),
        (2, 4),
        (4, 0),
        (0, 1),
        (1, 3),
        (3, 7),
        (7, 8),
        (8, 0),
        (0, 3),
        (3, 3),
        (3, 2),
        (2, 3),
        (3, 6),
        (6, 4),
        (4, 5),
        (5, 6),
        (6, 1),
        (1, 2),
        (2, 0),
        (0, 6),
        (6, 7),
        (7, 0),
        (0, 8),
        (8, 7),
        (7, 7),
        (7, 3),
        (3, 0),
        (0, 5),
        (5, 3),
        (3, 1),
        (1, 5),
        (5, 0),
        (0, 0),
        (0, 2),
        (2, 7),
        (7, 5),
        (5, 2),
        (2, 1),
        (1, 7),
        (7, 2),
        (2, 2),
        (2, 8),
        (8, 8),
        (3, 5),
        (5, 7),
        (7, 6),
        (6, 3),
        (3, 4),
        (4, 7),
        (2, 6),
        (6, 6),
        (4, 3),
        (2, 5),
        (4, 4),
        (4, 2),
        (1, 0),
    ];
    let mut game = Game::new();
    for &(outer, inner) in moves.iter() {
        assert!(game.play(outer, inner));
    }
    assert!(game.finished());
    assert_eq!(game.match_status(), MatchStatus::Drawn);
    assert_eq!(game.clone_grid().winner(), None);
    assert!(game.clone_grid().is_filled());
}
