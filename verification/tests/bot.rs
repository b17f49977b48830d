use super_ttt::{
    best_indices, generate_indices, search, Evaluate, Grid, Player, SubGrid, EVAL_HEURISTIC_MAX,
    EVAL_WIN_WEIGHT, WEIGHTS_SUM,
};

fn sub(x_bits: u16, o_bits: u16) -> SubGrid {
    SubGrid { x_bits, o_bits }
}

const DRAWN_SUB_X: u16 = 0b011100011;
const DRAWN_SUB_O: u16 = 0b100011100;

#[test]
fn player_eval_is_signed_unit() {
    assert_eq!(Player::X.eval(Player::X), 1);
    assert_eq!(Player::X.eval(Player::O), -1);
    assert_eq!(Player::O.eval(Player::O), 1);
}

#[test]
fn subgrid_eval_of_won_board_is_full_weight() {
    let sg = sub(0b111, 0);
    assert_eq!(sg.eval(Player::X), WEIGHTS_SUM);
    assert_eq!(sg.eval(Player::O), -WEIGHTS_SUM);
}

#[test]
fn subgrid_eval_of_drawn_board_is_neutral() {
    let sg = sub(DRAWN_SUB_X, DRAWN_SUB_O);
    assert_eq!(sg.eval(Player::X), 0);
    assert_eq!(sg.eval(Player::O), 0);
}

#[test]
fn subgrid_eval_weights_cells() {
    // X holds the center (weight 4) and a corner (weight 3); O holds an
    // edge (weight 2).
    let mut sg = SubGrid::default();
    assert!(sg.play(4, Player::X));
    assert!(sg.play(0, Player::X));
    assert!(sg.play(1, Player::O));
    assert_eq!(sg.eval(Player::X), 4 + 3 - 2);
    assert_eq!(sg.eval(Player::O), -(4 + 3 - 2));
}

#[test]
fn grid_eval_weights_subgrids() {
    let empty = Grid::default();
    assert_eq!(empty.eval(Player::X), 0);
    assert_eq!(empty.eval(Player::O), 0);

    // A single X stone on the center cell of the center subgrid: cell
    // weight 4, subgrid weight 4.
    let mut grid = Grid::default();
    assert!(grid.play(Player::X, 4, 4));
    assert_eq!(grid.eval(Player::X), 16);
    assert_eq!(grid.eval(Player::O), -16);

    // A whole subgrid won by X in the top-left corner: 24 * 3.
    let mut grid = Grid::default();
    grid.subgrids[0] = sub(0b111, 0);
    assert_eq!(grid.eval(Player::X), 72);
    assert_eq!(grid.eval(Player::O), -72);
}

#[test]
fn grid_eval_stays_below_win_weight() {
    // Even a wildly one-sided arrangement stays under the win weight.
    let mut grid = Grid::default();
    for i in 0..9 {
        grid.subgrids[i] = sub(0b111, 0);
    }
    let e = grid.eval(Player::X);
    assert_eq!(e, 576);
    assert_eq!(e, EVAL_HEURISTIC_MAX);
    assert!(e < EVAL_WIN_WEIGHT);
}

#[test]
fn generate_indices_visits_center_first() {
    let grid = Grid::default();
    let moves = generate_indices(&grid);
    assert_eq!(moves.len(), 81);
    let first: Vec<(u8, u8)> = moves.iter().take(9).copied().collect();
    assert_eq!(
        first,
        vec![(4, 4), (4, 0), (4, 2), (4, 6), (4, 8), (4, 1), (4, 3), (4, 5), (4, 7)]
    );
    assert_eq!(moves[9], (0, 4));
}

#[test]
fn generate_indices_respects_forced_subgrid() {
    let mut grid = Grid::default();
    assert!(grid.play(Player::X, 0, 5));
    let moves = generate_indices(&grid);
    assert_eq!(moves.len(), 9);
    assert!(moves.iter().all(|&(outer, _)| outer == 5));
}

#[test]
fn generate_indices_skips_decided_and_occupied() {
    let mut grid = Grid::default();
    grid.subgrids[4] = sub(0b111, 0);
    grid.subgrids[7] = sub(0b1, 0);
    let moves = generate_indices(&grid);
    // Subgrid 4 is gone entirely; cell (7, 0) is occupied.
    assert_eq!(moves.len(), 81 - 9 - 1);
    assert!(moves.iter().all(|&(outer, _)| outer != 4));
    assert!(!moves.contains(&(7, 0)));
}

#[test]
fn search_scores_a_won_match_with_the_win_weight() {
    let mut grid = Grid::default();
    grid.subgrids[0] = sub(0b111, 0);
    grid.subgrids[1] = sub(0b111, 0);
    grid.subgrids[2] = sub(0b111, 0);
    assert_eq!(grid.winner(), Some(Player::X));
    assert_eq!(
        search(grid, Player::X, -EVAL_WIN_WEIGHT, EVAL_WIN_WEIGHT, 3),
        EVAL_WIN_WEIGHT
    );
    assert_eq!(
        search(grid, Player::O, -EVAL_WIN_WEIGHT, EVAL_WIN_WEIGHT, 3),
        -EVAL_WIN_WEIGHT
    );
}

#[test]
fn search_on_a_drawn_match_is_neutral() {
    let mut grid = Grid::default();
    for i in 0..9 {
        grid.subgrids[i] = sub(DRAWN_SUB_X, DRAWN_SUB_O);
    }
    assert_eq!(search(grid, Player::X, -EVAL_WIN_WEIGHT, EVAL_WIN_WEIGHT, 5), 0);
    assert_eq!(search(grid, Player::O, -EVAL_WIN_WEIGHT, EVAL_WIN_WEIGHT, 5), 0);
}

#[test]
fn search_at_depth_zero_is_the_static_evaluation() {
    let mut grid = Grid::default();
    assert!(grid.play(Player::X, 4, 4));
    assert_eq!(search(grid, Player::X, -EVAL_WIN_WEIGHT, EVAL_WIN_WEIGHT, 0), 16);
    // Negamax symmetry where no move is tried: the opponent sees the
    // negated score.
    assert_eq!(search(grid, Player::O, -EVAL_WIN_WEIGHT, EVAL_WIN_WEIGHT, 0), -16);
}

#[test]
fn search_clamps_into_the_window() {
    // From the empty board the mover is worth 16 after one ply, so a
    // (-5, 5) window returns the beta bound.
    let grid = Grid::default();
    assert_eq!(search(grid, Player::X, -5, 5, 1), 5);
    assert_eq!(search(grid, Player::X, -EVAL_WIN_WEIGHT, EVAL_WIN_WEIGHT, 1), 16);
}

#[test]
fn best_indices_prefers_the_center_opening() {
    // At depth 0 the root scores are exactly the static evaluations, and
    // the lone best opening is the center cell of the center subgrid.
    let grid = Grid::default();
    let best = best_indices(grid, Player::X, 0);
    assert_eq!(best, vec![((4, 4), 16)]);
}

#[test]
fn best_indices_keeps_center_at_depth_two() {
    let grid = Grid::default();
    let best = best_indices(grid, Player::X, 2);
    assert!(!best.is_empty());
    let top = best[0].1;
    assert!(best.iter().all(|&(_, e)| e == top));
    assert!(best.iter().any(|&(mv, _)| mv == (4, 4)));
}

#[test]
fn best_indices_finds_the_winning_move() {
    // X has won the first two subgrids of the top row and holds two
    // cells of the third: completing it wins the match, and no other
    // move comes close.
    let mut grid = Grid::default();
    grid.subgrids[0] = sub(0b111, 0);
    grid.subgrids[1] = sub(0b111, 0);
    grid.subgrids[2] = sub(0b011, 0);
    let best = best_indices(grid, Player::X, 1);
    assert_eq!(best, vec![((2, 2), EVAL_WIN_WEIGHT)]);
}

#[test]
fn best_indices_scores_match_search() {
    let mut grid = Grid::default();
    assert!(grid.play(Player::X, 4, 0));
    let best = best_indices(grid, Player::O, 1);
    for &(mv, e) in best.iter() {
        let mut child = grid;
        assert!(child.play(Player::O, mv.0, mv.1));
        let expect = -search(child, Player::X, -EVAL_WIN_WEIGHT, EVAL_WIN_WEIGHT, 1);
        assert_eq!(e, expect);
    }
}

#[test]
fn search_answers_neutral_when_no_move_exists() {
    // A forced subgrid that is already decided cannot arise in a played
    // game, but the engine still answers such a state defensively: no
    // legal move, neutral score.
    let mut grid = Grid::default();
    grid.subgrids[3] = sub(0b111, 0);
    grid.only_allowed = Some(3);
    assert!(generate_indices(&grid).is_empty());
    assert_eq!(search(grid, Player::X, -EVAL_WIN_WEIGHT, EVAL_WIN_WEIGHT, 4), 0);
}
