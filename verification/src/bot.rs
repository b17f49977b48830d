use itertools::Itertools;
use vstd::prelude::*;

use crate::grid::{Grid, GridModel, SubGrid};
use crate::player::Player;

verus! {

/// The score type of the evaluator and the search.
pub type Eval = i32;

/// Score of a won match; exceeds every heuristic score, so a decided
/// outcome always dominates positional judgement.
pub const EVAL_WIN_WEIGHT: Eval = 0x7fff;

/// Score of a drawn or neutral position.
pub const EVAL_NEUTRAL: Eval = 0;

/// Sum of the nine positional weights.
pub const WEIGHTS_SUM: i32 = 24;

/// Largest magnitude a heuristic grid score can take: a fully owned
/// subgrid counts [`WEIGHTS_SUM`], weighted again by position.
pub const EVAL_HEURISTIC_MAX: i32 = 576;

/// Default search depth of the bot.
pub const BOT_DEPTH: usize = 7;

/// The positional weight of cell or subgrid `i`: the center is worth
/// most, corners next, edges least.
pub open spec fn spec_weight(i: int) -> int {
    if i == 4 {
        4
    } else if i % 2 == 0 {
        3
    } else {
        2
    }
}

/// Sum of the first `n` positional weights.
pub open spec fn spec_weight_sum(n: int) -> int
    decreases n,
{
    if n <= 0 {
        0
    } else {
        spec_weight_sum(n - 1) + spec_weight(n - 1)
    }
}

fn weight_of(i: usize) -> (r: i32)
    requires
        i < 9,
    ensures
        r == spec_weight(i as int),
        2 <= r <= 4,
{
    if i == 4 {
        4
    } else if i % 2 == 0 {
        3
    } else {
        2
    }
}

/// The player-relative sign: +1 for the perspective player, -1 for the
/// opponent.
pub open spec fn spec_sign(w: Player, player: Player) -> int {
    if w == player {
        1
    } else {
        -1
    }
}

/// What one cell of a subgrid contributes to the heuristic: its weight,
/// signed by its occupant.
pub open spec fn cell_score(sg: SubGrid, player: Player, i: int) -> int {
    match sg.cell(i as u16) {
        Some(p) => spec_sign(p, player) * spec_weight(i),
        None => 0,
    }
}

/// Sum of the first `n` cell contributions.
pub open spec fn cell_sum(sg: SubGrid, player: Player, n: int) -> int
    decreases n,
{
    if n <= 0 {
        0
    } else {
        cell_sum(sg, player, n - 1) + cell_score(sg, player, n - 1)
    }
}

/// The heuristic value of one subgrid from `player`'s perspective:
/// the full weight sum for a won board, neutral for a drawn one, and
/// the weighted cell sum otherwise.
pub open spec fn sub_eval(sg: SubGrid, player: Player) -> int {
    match sg.spec_winner() {
        Some(w) => spec_sign(w, player) * (WEIGHTS_SUM as int),
        None => if sg.spec_filled() {
            0
        } else {
            cell_sum(sg, player, 9)
        },
    }
}

/// Weighted sum of the first `n` subgrid values.
pub open spec fn subs_weighted(m: GridModel, player: Player, n: int) -> int
    decreases n,
{
    if n <= 0 {
        0
    } else {
        subs_weighted(m, player, n - 1) + sub_eval(m.subs[n - 1], player) * spec_weight(n - 1)
    }
}

/// The static heuristic value of a whole position from `player`'s
/// perspective.
pub open spec fn grid_eval(m: GridModel, player: Player) -> int {
    subs_weighted(m, player, 9)
}

/// Static scoring from a given player's perspective.
pub trait Evaluate {
    /// The score this value stands for.
    spec fn eval_spec(&self, player: Player) -> int;

    /// Computes the score.
    fn eval(&self, player: Player) -> (r: Eval)
        ensures
            r == self.eval_spec(player),
    ;
}

impl Evaluate for Player {
    open spec fn eval_spec(&self, player: Player) -> int {
        spec_sign(*self, player)
    }

    fn eval(&self, player: Player) -> (r: Eval) {
        if *self == player {
            1
        } else {
            -1
        }
    }
}

impl Evaluate for SubGrid {
    open spec fn eval_spec(&self, player: Player) -> int {
        sub_eval(*self, player)
    }

    fn eval(&self, player: Player) -> (r: Eval) {
        if let Some(winner) = self.winner() {
            let e = winner.eval(player);
            proof {
                if e == 1 {
                    assert(e * WEIGHTS_SUM == 1 * WEIGHTS_SUM);
                } else {
                    assert(e * WEIGHTS_SUM == (-1) * WEIGHTS_SUM);
                }
            }
            return e * WEIGHTS_SUM;
        }

        if self.is_filled() {
            return EVAL_NEUTRAL;
        }

        let mut sum: i32 = 0;
        let mut i: usize = 0;
        while i < 9
            invariant
                i <= 9,
                sum == cell_sum(*self, player, i as int),
                -4 * i <= sum <= 4 * i,
            decreases 9 - i,
        {
            if let Some(p) = self.at(i as u8) {
                let e = p.eval(player);
                let w = weight_of(i);
                proof {
                    if e == 1 {
                        assert(e * w == 1 * w);
                    } else {
                        assert(e * w == (-1) * w);
                    }
                }
                sum = sum + e * w;
            }
            i = i + 1;
        }
        sum
    }
}

impl Evaluate for Grid {
    open spec fn eval_spec(&self, player: Player) -> int {
        grid_eval(self@, player)
    }

    fn eval(&self, player: Player) -> (r: Eval) {
        let mut sum: i32 = 0;
        let mut i: usize = 0;
        while i < 9
            invariant
                i <= 9,
                sum == subs_weighted(self@, player, i as int),
                -96 * i <= sum <= 96 * i,
            decreases 9 - i,
        {
            let e = self.subgrids[i].eval(player);
            let w = weight_of(i);
            proof {
                lemma_sub_eval_bounds(self@.subs[i as int], player);
                if w == 2 {
                    assert(e * w == e * 2);
                } else if w == 3 {
                    assert(e * w == e * 3);
                } else {
                    assert(e * w == e * 4);
                }
            }
            sum = sum + e * w;
            i = i + 1;
        }
        sum
    }
}

proof fn lemma_cell_sum_bounds(sg: SubGrid, player: Player, n: int)
    requires
        0 <= n <= 9,
    ensures
        -spec_weight_sum(n) <= cell_sum(sg, player, n) <= spec_weight_sum(n),
    decreases n,
{
    if n > 0 {
        lemma_cell_sum_bounds(sg, player, n - 1);
        match sg.cell((n - 1) as u16) {
            Some(p) => {
                if spec_sign(p, player) == 1 {
                    assert(cell_score(sg, player, n - 1) == 1 * spec_weight(n - 1));
                } else {
                    assert(cell_score(sg, player, n - 1) == (-1) * spec_weight(n - 1));
                }
            },
            None => {},
        }
    }
}

/// A single subgrid's heuristic value never exceeds the weight sum in
/// magnitude.
pub proof fn lemma_sub_eval_bounds(sg: SubGrid, player: Player)
    ensures
        -(WEIGHTS_SUM as int) <= sub_eval(sg, player) <= (WEIGHTS_SUM as int),
{
    match sg.spec_winner() {
        Some(w) => {
            if spec_sign(w, player) == 1 {
                assert(sub_eval(sg, player) == 1 * (WEIGHTS_SUM as int));
            } else {
                assert(sub_eval(sg, player) == (-1) * (WEIGHTS_SUM as int));
            }
        },
        None => {
            if !sg.spec_filled() {
                lemma_cell_sum_bounds(sg, player, 9);
                assert(spec_weight_sum(9) == 24) by {
                    reveal_with_fuel(spec_weight_sum, 10);
                }
            }
        },
    }
}

proof fn lemma_subs_weighted_bounds(m: GridModel, player: Player, n: int)
    requires
        0 <= n <= 9,
    ensures
        -24 * spec_weight_sum(n) <= subs_weighted(m, player, n) <= 24 * spec_weight_sum(n),
    decreases n,
{
    if n > 0 {
        lemma_subs_weighted_bounds(m, player, n - 1);
        lemma_sub_eval_bounds(m.subs[n - 1], player);
        let e = sub_eval(m.subs[n - 1], player);
        if spec_weight(n - 1) == 2 {
            assert(e * spec_weight(n - 1) == e * 2);
        } else if spec_weight(n - 1) == 3 {
            assert(e * spec_weight(n - 1) == e * 3);
        } else {
            assert(e * spec_weight(n - 1) == e * 4);
        }
    }
}

/// The heuristic score of a whole position is bounded well below the
/// win weight: a decided outcome always outranks positional judgement.
pub proof fn lemma_grid_eval_bounds(m: GridModel, player: Player)
    ensures
        -(EVAL_HEURISTIC_MAX as int) <= grid_eval(m, player) <= (EVAL_HEURISTIC_MAX as int),
        EVAL_HEURISTIC_MAX < EVAL_WIN_WEIGHT,
{
    lemma_subs_weighted_bounds(m, player, 9);
    assert(spec_weight_sum(9) == 24) by {
        reveal_with_fuel(spec_weight_sum, 10);
    }
}

proof fn lemma_cell_sum_antisym(sg: SubGrid, player: Player, n: int)
    requires
        0 <= n <= 9,
    ensures
        cell_sum(sg, player, n) == -cell_sum(sg, player.spec_other(), n),
    decreases n,
{
    if n > 0 {
        lemma_cell_sum_antisym(sg, player, n - 1);
        match sg.cell((n - 1) as u16) {
            Some(p) => {
                if spec_sign(p, player) == 1 {
                    assert(cell_score(sg, player, n - 1) == 1 * spec_weight(n - 1));
                    assert(cell_score(sg, player.spec_other(), n - 1) == (-1) * spec_weight(n - 1));
                } else {
                    assert(cell_score(sg, player, n - 1) == (-1) * spec_weight(n - 1));
                    assert(cell_score(sg, player.spec_other(), n - 1) == 1 * spec_weight(n - 1));
                }
            },
            None => {},
        }
    }
}

/// One subgrid's heuristic is antisymmetric in the perspective player.
pub proof fn lemma_sub_eval_antisym(sg: SubGrid, player: Player)
    ensures
        sub_eval(sg, player) == -sub_eval(sg, player.spec_other()),
{
    match sg.spec_winner() {
        Some(w) => {
            if spec_sign(w, player) == 1 {
                assert(sub_eval(sg, player) == 1 * (WEIGHTS_SUM as int));
                assert(sub_eval(sg, player.spec_other()) == (-1) * (WEIGHTS_SUM as int));
            } else {
                assert(sub_eval(sg, player) == (-1) * (WEIGHTS_SUM as int));
                assert(sub_eval(sg, player.spec_other()) == 1 * (WEIGHTS_SUM as int));
            }
        },
        None => {
            if !sg.spec_filled() {
                lemma_cell_sum_antisym(sg, player, 9);
            }
        },
    }
}

proof fn lemma_subs_weighted_antisym(m: GridModel, player: Player, n: int)
    requires
        0 <= n <= 9,
    ensures
        subs_weighted(m, player, n) == -subs_weighted(m, player.spec_other(), n),
    decreases n,
{
    if n > 0 {
        lemma_subs_weighted_antisym(m, player, n - 1);
        lemma_sub_eval_antisym(m.subs[n - 1], player);
        let e = sub_eval(m.subs[n - 1], player);
        let w = spec_weight(n - 1);
        if w == 2 {
            assert(e * w == e * 2 && (-e) * w == (-e) * 2);
        } else if w == 3 {
            assert(e * w == e * 3 && (-e) * w == (-e) * 3);
        } else {
            assert(e * w == e * 4 && (-e) * w == (-e) * 4);
        }
    }
}

/// The static evaluator is antisymmetric: a position is exactly as
/// good for one player as it is bad for the other.
pub proof fn lemma_grid_eval_antisym(m: GridModel, player: Player)
    ensures
        grid_eval(m, player) == -grid_eval(m, player.spec_other()),
{
    lemma_subs_weighted_antisym(m, player, 9);
}

/// The fixed visiting order for both subgrids and cells: center first,
/// then corners, then edges, since strong cells first improve pruning.
pub open spec fn spec_order() -> Seq<u8> {
    seq![4u8, 0u8, 2u8, 6u8, 8u8, 1u8, 3u8, 5u8, 7u8]
}

fn order_at(k: usize) -> (r: u8)
    requires
        k < 9,
    ensures
        r == spec_order()[k as int],
        r < 9,
{
    if k == 0 {
        4
    } else if k == 1 {
        0
    } else if k == 2 {
        2
    } else if k == 3 {
        6
    } else if k == 4 {
        8
    } else if k == 5 {
        1
    } else if k == 6 {
        3
    } else if k == 7 {
        5
    } else {
        7
    }
}

/// The moves into subgrid `outer` among the first `k` positions of the
/// visiting order.
pub open spec fn inner_moves(m: GridModel, outer: u8, k: int) -> Seq<(u8, u8)>
    decreases k,
{
    if k <= 0 {
        Seq::empty()
    } else {
        inner_moves(m, outer, k - 1) + (if m.subs[outer as int].cell(
            spec_order()[k - 1] as u16,
        ) is None {
            seq![(outer, spec_order()[k - 1])]
        } else {
            Seq::empty()
        })
    }
}

/// The moves that subgrid `outer` contributes: its empty cells in
/// visiting order, or nothing when the subgrid is barred or decided.
pub open spec fn outer_block(m: GridModel, outer: u8) -> Seq<(u8, u8)> {
    if m.allowed_outer(outer) && !m.subs[outer as int].spec_done() {
        inner_moves(m, outer, 9)
    } else {
        Seq::empty()
    }
}

/// The legal moves contributed by the first `k` subgrids of the
/// visiting order.
pub open spec fn moves_upto(m: GridModel, k: int) -> Seq<(u8, u8)>
    decreases k,
{
    if k <= 0 {
        Seq::empty()
    } else {
        moves_upto(m, k - 1) + outer_block(m, spec_order()[k - 1])
    }
}

/// Every legal move of the position, in priority order.
pub open spec fn spec_moves(m: GridModel) -> Seq<(u8, u8)> {
    moves_upto(m, 9)
}

/// Enumerates the legal `(outer, inner)` moves in priority order:
/// subgrids respecting the forced-subgrid rule and not yet decided,
/// and within them the empty cells, both visited center-corners-edges.
pub fn generate_indices(grid: &Grid) -> (r: Vec<(u8, u8)>)
    ensures
        r@ == spec_moves(grid@),
{
    let mut result: Vec<(u8, u8)> = Vec::new();
    let mut k: usize = 0;
    while k < 9
        invariant
            k <= 9,
            result@ == moves_upto(grid@, k as int),
        decreases 9 - k,
    {
        let i = order_at(k);
        let allowed = match grid.only_allowed() {
            Some(x) => i == x,
            None => true,
        };
        let subgrid = grid.subgrids()[i as usize];
        if allowed && !subgrid.is_done() {
            let ghost base = result@;
            let mut j: usize = 0;
            while j < 9
                invariant
                    j <= 9,
                    i < 9,
                    i == spec_order()[k as int],
                    k < 9,
                    subgrid == grid@.subs[i as int],
                    grid@.allowed_outer(i),
                    !grid@.subs[i as int].spec_done(),
                    base == moves_upto(grid@, k as int),
                    result@ == base + inner_moves(grid@, i, j as int),
                decreases 9 - j,
            {
                let c = order_at(j);
                if subgrid.empty(c) {
                    result.push((i, c));
                    proof {
                        assert(result@ =~= base + inner_moves(grid@, i, j + 1));
                    }
                } else {
                    proof {
                        assert(result@ =~= base + inner_moves(grid@, i, j + 1));
                    }
                }
                j = j + 1;
            }
            proof {
                assert(result@ =~= moves_upto(grid@, k + 1));
            }
        } else {
            proof {
                assert(result@ =~= moves_upto(grid@, k + 1));
            }
        }
        k = k + 1;
    }
    result
}

proof fn lemma_order_bounds()
    ensures
        spec_order().len() == 9,
        forall|j: int| 0 <= j < 9 ==> #[trigger] spec_order()[j] < 9,
{
    assert forall|j: int| 0 <= j < 9 implies #[trigger] spec_order()[j] < 9 by {
        if j == 0 {
            assert(spec_order()[0] == 4);
        } else if j == 1 {
            assert(spec_order()[1] == 0);
        } else if j == 2 {
            assert(spec_order()[2] == 2);
        } else if j == 3 {
            assert(spec_order()[3] == 6);
        } else if j == 4 {
            assert(spec_order()[4] == 8);
        } else if j == 5 {
            assert(spec_order()[5] == 1);
        } else if j == 6 {
            assert(spec_order()[6] == 3);
        } else if j == 7 {
            assert(spec_order()[7] == 5);
        } else {
            assert(spec_order()[8] == 7);
        }
    }
}

proof fn lemma_inner_moves_legal(m: GridModel, outer: u8, k: int)
    requires
        outer < 9,
        m.allowed_outer(outer),
        !m.subs[outer as int].spec_done(),
        0 <= k <= 9,
    ensures
        forall|j: int|
            0 <= j < inner_moves(m, outer, k).len() ==> m.legal(
                (#[trigger] inner_moves(m, outer, k)[j]).0,
                inner_moves(m, outer, k)[j].1,
            ),
    decreases k,
{
    lemma_order_bounds();
    if k > 0 {
        lemma_inner_moves_legal(m, outer, k - 1);
        let pre = inner_moves(m, outer, k - 1);
        let whole = inner_moves(m, outer, k);
        assert forall|j: int| 0 <= j < whole.len() implies m.legal(
            (#[trigger] whole[j]).0,
            whole[j].1,
        ) by {
            if j < pre.len() {
                assert(whole[j] == pre[j]);
            } else {
                assert(whole[j] == (outer, spec_order()[k - 1]));
            }
        }
    }
}

proof fn lemma_moves_upto_legal(m: GridModel, k: int)
    requires
        0 <= k <= 9,
    ensures
        forall|j: int|
            0 <= j < moves_upto(m, k).len() ==> m.legal(
                (#[trigger] moves_upto(m, k)[j]).0,
                moves_upto(m, k)[j].1,
            ),
    decreases k,
{
    lemma_order_bounds();
    if k > 0 {
        lemma_moves_upto_legal(m, k - 1);
        let outer = spec_order()[k - 1];
        if m.allowed_outer(outer) && !m.subs[outer as int].spec_done() {
            lemma_inner_moves_legal(m, outer, 9);
        }
        let pre = moves_upto(m, k - 1);
        let blk = outer_block(m, outer);
        let whole = moves_upto(m, k);
        assert forall|j: int| 0 <= j < whole.len() implies m.legal(
            (#[trigger] whole[j]).0,
            whole[j].1,
        ) by {
            if j < pre.len() {
                assert(whole[j] == pre[j]);
            } else {
                assert(whole[j] == blk[j - pre.len()]);
            }
        }
    }
}

/// Every move the generator yields is legal.
pub proof fn lemma_moves_legal(m: GridModel)
    ensures
        forall|j: int|
            0 <= j < spec_moves(m).len() ==> m.legal(
                (#[trigger] spec_moves(m)[j]).0,
                spec_moves(m)[j].1,
            ),
{
    lemma_moves_upto_legal(m, 9);
}

/// The larger of two values.
pub open spec fn max_int(a: int, b: int) -> int {
    if a >= b {
        a
    } else {
        b
    }
}

/// `v` clamped into the window `[a, b]` (for `a <= b`).
pub open spec fn med(a: int, v: int, b: int) -> int {
    if v <= a {
        a
    } else if v <= b {
        v
    } else {
        b
    }
}

/// The true negamax value of the position for the player about to
/// move, explored to `depth` further moves: a decided match scores the
/// full win weight (signed for the mover), a concluded board is
/// neutral, an exhausted depth falls back to the static heuristic, and
/// otherwise the best move counts, each reply valued recursively for
/// the opponent and negated.
pub open spec fn spec_value(m: GridModel, player: Player, depth: nat) -> int
    decreases depth, 2nat, 0nat,
{
    match m.spec_winner() {
        Some(w) => spec_sign(w, player) * (EVAL_WIN_WEIGHT as int),
        None => if m.spec_filled() {
            0
        } else if depth == 0 {
            grid_eval(m, player)
        } else if spec_moves(m).len() == 0 {
            0
        } else {
            best_value(m, player, depth, spec_moves(m).len() as int)
        },
    }
}

/// What move `j` is worth to the mover: the value of the resulting
/// position for the opponent, negated.
pub open spec fn move_value(m: GridModel, player: Player, depth: nat, j: int) -> int
    recommends
        depth >= 1,
        0 <= j < spec_moves(m).len(),
    decreases depth, 0nat, 0nat,
{
    if depth == 0 {
        0
    } else {
        let mv = spec_moves(m)[j];
        -spec_value(m.play(player, mv.0, mv.1), player.spec_other(), (depth - 1) as nat)
    }
}

/// The best value among the first `n` legal moves.
pub open spec fn best_value(m: GridModel, player: Player, depth: nat, n: int) -> int
    recommends
        depth >= 1,
        1 <= n <= spec_moves(m).len(),
    decreases depth, 1nat, n,
{
    if n <= 0 {
        0
    } else if n == 1 {
        move_value(m, player, depth, 0)
    } else {
        max_int(best_value(m, player, depth, n - 1), move_value(m, player, depth, n - 1))
    }
}

/// A position where the search returns without trying moves: a decided
/// or concluded match, an exhausted depth, or no legal move at all.
pub open spec fn is_leaf(m: GridModel, depth: nat) -> bool {
    ||| m.spec_winner() is Some
    ||| m.spec_filled()
    ||| depth == 0
    ||| spec_moves(m).len() == 0
}

/// What [`search`] returns: the exact value at a leaf, and the value
/// clamped into the alpha-beta window anywhere else.
pub open spec fn spec_search(m: GridModel, player: Player, a: int, b: int, depth: nat) -> int {
    if is_leaf(m, depth) {
        spec_value(m, player, depth)
    } else {
        med(a, spec_value(m, player, depth), b)
    }
}

proof fn lemma_best_value_ge(m: GridModel, player: Player, depth: nat, n: int, j: int)
    requires
        1 <= n,
        0 <= j < n,
    ensures
        best_value(m, player, depth, n) >= move_value(m, player, depth, j),
    decreases n,
{
    if n > 1 && j < n - 1 {
        lemma_best_value_ge(m, player, depth, n - 1, j);
    }
}

/// Depth-bounded negamax with alpha-beta pruning: returns the value of
/// the position for `player`, the mover, clamped into `[alpha, beta]`
/// (and exact at leaf positions).
pub fn search(grid: Grid, player: Player, alpha: Eval, beta: Eval, depth: usize) -> (r: Eval)
    requires
        grid@.wf(),
        -EVAL_WIN_WEIGHT <= alpha,
        alpha <= beta,
        beta <= EVAL_WIN_WEIGHT,
    ensures
        r == spec_search(grid@, player, alpha as int, beta as int, depth as nat),
        -EVAL_WIN_WEIGHT <= r <= EVAL_WIN_WEIGHT,
    decreases depth,
{
    if let Some(winner) = grid.winner() {
        let e = winner.eval(player);
        proof {
            if e == 1 {
                assert(e * EVAL_WIN_WEIGHT == 1 * EVAL_WIN_WEIGHT);
            } else {
                assert(e * EVAL_WIN_WEIGHT == (-1) * EVAL_WIN_WEIGHT);
            }
        }
        return e * EVAL_WIN_WEIGHT;
    }

    if grid.is_filled() {
        return EVAL_NEUTRAL;
    }

    if depth == 0 {
        proof {
            lemma_grid_eval_bounds(grid@, player);
        }
        return grid.eval(player);
    }

    let all_indices = generate_indices(&grid);
    let n = all_indices.len();
    if n == 0 {
        return EVAL_NEUTRAL;
    }

    proof {
        lemma_moves_legal(grid@);
    }

    let ghost m = grid@;
    let ghost a0 = alpha as int;
    let ghost b = beta as int;
    let ghost d = depth as nat;
    let mut cur = alpha;
    let mut idx: usize = 0;
    while idx < n
        invariant
            grid@ == m,
            m.wf(),
            (m.spec_winner() is None),
            !m.spec_filled(),
            depth >= 1,
            all_indices@ == spec_moves(m),
            n == spec_moves(m).len(),
            0 < n,
            a0 == alpha as int,
            b == beta as int,
            d == depth as nat,
            -EVAL_WIN_WEIGHT <= alpha,
            alpha <= beta,
            beta <= EVAL_WIN_WEIGHT,
            alpha <= cur <= beta,
            idx <= n,
            idx == 0 ==> cur == alpha,
            idx > 0 ==> cur as int == max_int(a0, best_value(m, player, d, idx as int)),
            idx > 0 ==> best_value(m, player, d, idx as int) < b,
            forall|j: int|
                0 <= j < spec_moves(m).len() ==> m.legal(
                    (#[trigger] spec_moves(m)[j]).0,
                    spec_moves(m)[j].1,
                ),
        decreases n - idx,
    {
        let mv = all_indices[idx];
        let mut child = grid;
        let played = child.play(player, mv.0, mv.1);
        proof {
            assert(m.legal(mv.0, mv.1));
        }
        let ghost v = move_value(m, player, d, idx as int);
        let e = search(child, player.other(), 0 - beta, 0 - cur, depth - 1);
        let e = 0 - e;
        proof {
            assert(child@ == m.play(player, mv.0, mv.1));
            assert(spec_value(child@, player.spec_other(), (d - 1) as nat) == -v);
            if is_leaf(child@, (d - 1) as nat) {
                assert(e as int == v);
            } else {
                assert(e as int == -med(-b, -v, 0 - (cur as int)));
                assert(e as int == med(cur as int, v, b));
            }
        }
        if e >= beta {
            proof {
                let bv = best_value(m, player, d, n as int);
                lemma_best_value_ge(m, player, d, n as int, idx as int);
                if e as int == v {
                    assert(bv >= v >= b);
                } else {
                    // e == med(cur, v, b) >= b, so either v reaches beta
                    // or the window was empty to begin with.
                    if v <= cur as int {
                        assert(cur as int == b);
                        assert(a0 == b);
                    } else {
                        assert(bv >= v >= b);
                    }
                }
                assert(med(a0, spec_value(m, player, d), b) == b);
            }
            return beta;
        }
        proof {
            let ghost prev = cur as int;
            let bv1 = best_value(m, player, d, idx + 1);
            if idx == 0 {
                assert(bv1 == v);
            } else {
                assert(bv1 == max_int(best_value(m, player, d, idx as int), v));
            }
            if e as int == v {
                assert(v < b);
            } else {
                assert(e as int == med(prev, v, b));
                assert((e as int) < b);
                assert(v < b);
            }
            assert(max_int(prev, e as int) == max_int(a0, bv1));
        }
        if e > cur {
            cur = e;
        }
        idx = idx + 1;
    }

    proof {
        assert(best_value(m, player, d, n as int) == spec_value(m, player, d));
        assert(cur as int == med(a0, spec_value(m, player, d), b));
    }
    cur
}


proof fn lemma_best_value_bounded(m: GridModel, player: Player, depth: nat, n: int)
    requires
        depth >= 1,
        1 <= n <= spec_moves(m).len(),
    ensures
        -(EVAL_WIN_WEIGHT as int) <= best_value(m, player, depth, n) <= (EVAL_WIN_WEIGHT as int),
    decreases depth, 1nat, n,
{
    let mv = spec_moves(m)[n - 1];
    lemma_value_bounded(m.play(player, mv.0, mv.1), player.spec_other(), (depth - 1) as nat);
    assert(-(EVAL_WIN_WEIGHT as int) <= move_value(m, player, depth, n - 1) <= (
    EVAL_WIN_WEIGHT as int));
    if n > 1 {
        lemma_best_value_bounded(m, player, depth, n - 1);
    }
}

/// No search value exceeds the win weight in magnitude: a decided
/// outcome is the strongest judgement the search can return.
pub proof fn lemma_value_bounded(m: GridModel, player: Player, depth: nat)
    ensures
        -(EVAL_WIN_WEIGHT as int) <= spec_value(m, player, depth) <= (EVAL_WIN_WEIGHT as int),
    decreases depth, 2nat, 0nat,
{
    match m.spec_winner() {
        Some(w) => {
            if spec_sign(w, player) == 1 {
                assert(spec_value(m, player, depth) == 1 * (EVAL_WIN_WEIGHT as int));
            } else {
                assert(spec_value(m, player, depth) == (-1) * (EVAL_WIN_WEIGHT as int));
            }
        },
        None => {
            if !m.spec_filled() {
                if depth == 0 {
                    lemma_grid_eval_bounds(m, player);
                } else if spec_moves(m).len() != 0 {
                    lemma_best_value_bounded(m, player, depth, spec_moves(m).len() as int);
                }
            }
        },
    }
}

/// Terminal scoring dominance: the static heuristic never reaches the
/// win weight in magnitude, so a won or lost terminal outranks every
/// non-terminal heuristic score, and search values stay within the win
/// weight.
pub proof fn lemma_win_weight_dominates(m: GridModel, player: Player, depth: nat)
    ensures
        -(EVAL_HEURISTIC_MAX as int) <= grid_eval(m, player) <= (EVAL_HEURISTIC_MAX as int),
        EVAL_HEURISTIC_MAX < EVAL_WIN_WEIGHT,
        -(EVAL_WIN_WEIGHT as int) <= spec_value(m, player, depth) <= (EVAL_WIN_WEIGHT as int),
{
    lemma_grid_eval_bounds(m, player);
    lemma_value_bounded(m, player, depth);
}

/// With the full window the search is exact: clamping into
/// `[-EVAL_WIN_WEIGHT, EVAL_WIN_WEIGHT]` never cuts anything off,
/// since no value exceeds the win weight.
pub proof fn lemma_full_window_search_is_value(m: GridModel, player: Player, depth: nat)
    ensures
        spec_search(m, player, -(EVAL_WIN_WEIGHT as int), EVAL_WIN_WEIGHT as int, depth)
            == spec_value(m, player, depth),
{
    lemma_value_bounded(m, player, depth);
}

/// The algebraic half of negamax symmetry: clamping a negated value
/// into the negated, swapped window is the negation of clamping the
/// value itself.  The search relies on this shape at every recursive
/// call.
pub proof fn lemma_med_negation(a: int, v: int, b: int)
    requires
        a <= b,
    ensures
        med(a, v, b) == -med(-b, -v, -a),
{
}

/// Negamax symmetry where no move is tried: at a leaf (a decided or
/// concluded match, an exhausted depth, or no legal move) the search
/// value for one mover is the negation of the value for the other
/// mover under the negated, swapped window.
pub proof fn lemma_search_antisym_at_leaf(
    m: GridModel,
    player: Player,
    a: int,
    b: int,
    depth: nat,
)
    requires
        is_leaf(m, depth),
    ensures
        spec_search(m, player, a, b, depth) == -spec_search(m, player.spec_other(), -b, -a, depth),
{
    match m.spec_winner() {
        Some(w) => {
            if spec_sign(w, player) == 1 {
                assert(spec_value(m, player, depth) == 1 * (EVAL_WIN_WEIGHT as int));
                assert(spec_value(m, player.spec_other(), depth) == (-1) * (
                EVAL_WIN_WEIGHT as int));
            } else {
                assert(spec_value(m, player, depth) == (-1) * (EVAL_WIN_WEIGHT as int));
                assert(spec_value(m, player.spec_other(), depth) == 1 * (EVAL_WIN_WEIGHT as int));
            }
        },
        None => {
            if !m.spec_filled() && depth == 0 {
                lemma_grid_eval_antisym(m, player);
            }
        },
    }
}

/// True if `e` is no worse than every score in `s`.
pub open spec fn is_best(s: Seq<((u8, u8), Eval)>, e: Eval) -> bool {
    forall|k: int| 0 <= k < s.len() ==> (#[trigger] s[k]).1 <= e
}

/// What move `j` of the position is worth at the root: the value of
/// the position it leads to, searched to `depth` for the opponent and
/// negated.
pub open spec fn root_score(m: GridModel, turn: Player, depth: nat, j: int) -> int {
    let mv = spec_moves(m)[j];
    -spec_value(m.play(turn, mv.0, mv.1), turn.spec_other(), depth)
}

/// Every legal move of the position paired with its root score, in
/// priority order.
pub open spec fn scored_moves(m: GridModel, turn: Player, depth: nat) -> Seq<((u8, u8), Eval)> {
    Seq::new(
        spec_moves(m).len(),
        |j: int| (spec_moves(m)[j], root_score(m, turn, depth, j) as Eval),
    )
}

/// Relies on itertools' `max_set_by_key`: it returns exactly the
/// elements whose key ties the maximum, in their original order, and
/// nothing for an empty input.
#[verifier::external_body]
fn max_set_by_eval(v: Vec<((u8, u8), Eval)>) -> (r: Vec<((u8, u8), Eval)>)
    ensures
        r@ == v@.filter(|q: ((u8, u8), Eval)| is_best(v@, q.1)),
{
    v.into_iter().max_set_by_key(|&(_, e)| e)
}

/// The bot's move choice: every legal move tying the best root score,
/// searched to `depth` further plies, with that score attached.
pub fn best_indices(grid: Grid, turn: Player, depth: usize) -> (r: Vec<((u8, u8), Eval)>)
    requires
        grid@.wf(),
    ensures
        r@ == scored_moves(grid@, turn, depth as nat).filter(
            |q: ((u8, u8), Eval)| is_best(scored_moves(grid@, turn, depth as nat), q.1),
        ),
{
    let ghost m = grid@;
    let ghost d = depth as nat;
    let indices = generate_indices(&grid);
    proof {
        lemma_moves_legal(m);
    }

    let mut scored: Vec<((u8, u8), Eval)> = Vec::new();
    let mut idx: usize = 0;
    while idx < indices.len()
        invariant
            grid@ == m,
            m.wf(),
            d == depth as nat,
            indices@ == spec_moves(m),
            idx <= indices@.len(),
            scored@.len() == idx,
            forall|j: int| 0 <= j < idx ==> #[trigger] scored@[j] == scored_moves(m, turn, d)[j],
            forall|j: int|
                0 <= j < spec_moves(m).len() ==> m.legal(
                    (#[trigger] spec_moves(m)[j]).0,
                    spec_moves(m)[j].1,
                ),
        decreases indices@.len() - idx,
    {
        let mv = indices[idx];
        let mut child = grid;
        let played = child.play(turn, mv.0, mv.1);
        proof {
            assert(m.legal(mv.0, mv.1));
        }
        let e = search(child, turn.other(), 0 - EVAL_WIN_WEIGHT, EVAL_WIN_WEIGHT, depth);
        proof {
            lemma_value_bounded(child@, turn.spec_other(), d);
            assert(e as int == spec_value(child@, turn.spec_other(), d));
        }
        let e = 0 - e;
        proof {
            assert(e as int == root_score(m, turn, d, idx as int));
        }
        scored.push((mv, e));
        idx = idx + 1;
    }

    proof {
        assert(scored@ =~= scored_moves(m, turn, d));
    }
    max_set_by_eval(scored)
}


proof fn lemma_order_covers(v: u8)
    requires
        v < 9,
    ensures
        exists|k: int| 0 <= k < 9 && spec_order()[k] == v,
{
    if v == 4 {
        assert(spec_order()[0] == v);
    } else if v == 0 {
        assert(spec_order()[1] == v);
    } else if v == 2 {
        assert(spec_order()[2] == v);
    } else if v == 6 {
        assert(spec_order()[3] == v);
    } else if v == 8 {
        assert(spec_order()[4] == v);
    } else if v == 1 {
        assert(spec_order()[5] == v);
    } else if v == 3 {
        assert(spec_order()[6] == v);
    } else if v == 5 {
        assert(spec_order()[7] == v);
    } else {
        assert(spec_order()[8] == v);
    }
}

proof fn lemma_inner_moves_upto(m: GridModel, outer: u8, j: int, k: int)
    requires
        0 <= j < k <= 9,
        m.subs[outer as int].cell(spec_order()[j] as u16) is None,
    ensures
        inner_moves(m, outer, k).contains((outer, spec_order()[j])),
    decreases k,
{
    let x = (outer, spec_order()[j]);
    if k == j + 1 {
        let pre = inner_moves(m, outer, j);
        assert(inner_moves(m, outer, k)[pre.len() as int] == x);
        assert(inner_moves(m, outer, k).contains(x));
    } else {
        lemma_inner_moves_upto(m, outer, j, k - 1);
        let pre = inner_moves(m, outer, k - 1);
        let i = choose|i: int| 0 <= i < pre.len() && pre[i] == x;
        assert(inner_moves(m, outer, k)[i] == x);
        assert(inner_moves(m, outer, k).contains(x));
    }
}

proof fn lemma_moves_upto_contains(m: GridModel, ko: int, k: int, x: (u8, u8))
    requires
        0 <= ko < k <= 9,
        outer_block(m, spec_order()[ko]).contains(x),
    ensures
        moves_upto(m, k).contains(x),
    decreases k,
{
    if k == ko + 1 {
        let pre = moves_upto(m, ko);
        let blk = outer_block(m, spec_order()[ko]);
        let i = choose|i: int| 0 <= i < blk.len() && blk[i] == x;
        assert(moves_upto(m, k)[pre.len() + i] == x);
        assert(moves_upto(m, k).contains(x));
    } else {
        lemma_moves_upto_contains(m, ko, k - 1, x);
        let pre = moves_upto(m, k - 1);
        let i = choose|i: int| 0 <= i < pre.len() && pre[i] == x;
        assert(moves_upto(m, k)[i] == x);
        assert(moves_upto(m, k).contains(x));
    }
}

/// The move generator is exact: a pair occurs among the generated
/// moves precisely when it is a legal move of the position.
pub proof fn lemma_moves_exact(m: GridModel)
    ensures
        forall|mv: (u8, u8)|
            #![trigger spec_moves(m).contains(mv)]
            #![trigger m.legal(mv.0, mv.1)]
            spec_moves(m).contains(mv) <==> m.legal(mv.0, mv.1),
{
    lemma_moves_legal(m);
    lemma_order_bounds();
    assert forall|mv: (u8, u8)|
        #![trigger spec_moves(m).contains(mv)]
        #![trigger m.legal(mv.0, mv.1)]
        spec_moves(m).contains(mv) <==> m.legal(mv.0, mv.1) by {
        if spec_moves(m).contains(mv) {
            let i = choose|i: int| 0 <= i < spec_moves(m).len() && spec_moves(m)[i] == mv;
            assert(m.legal(spec_moves(m)[i].0, spec_moves(m)[i].1));
        }
        if m.legal(mv.0, mv.1) {
            lemma_order_covers(mv.1);
            let j = choose|j: int| 0 <= j < 9 && spec_order()[j] == mv.1;
            lemma_inner_moves_upto(m, mv.0, j, 9);
            assert(outer_block(m, mv.0).contains(mv));
            lemma_order_covers(mv.0);
            let ko = choose|k: int| 0 <= k < 9 && spec_order()[k] == mv.0;
            lemma_moves_upto_contains(m, ko, 9, mv);
        }
    }
}

/// In a well-formed position whose match is not yet concluded there is
/// always at least one legal move: the "no legal moves" answer of the
/// search is a defensive guard, not a reachable game state.
pub proof fn lemma_unfinished_has_moves(m: GridModel)
    requires
        m.wf(),
        m.forced_ok(),
        !m.spec_filled(),
    ensures
        spec_moves(m).len() > 0,
{
    let outer: u8 = match m.forced {
        Some(k) => k,
        None => {
            let j = choose|j: int| 0 <= j < 9 && !(#[trigger] m.subs[j]).spec_done();
            j as u8
        },
    };
    assert(!m.subs[outer as int].spec_done());
    crate::grid::lemma_unfilled_has_empty(m.subs[outer as int]);
    let i = choose|i: u16| i < 9 && m.subs[outer as int].cell(i) is None;
    assert(m.legal(outer, i as u8));
    lemma_moves_exact(m);
    assert(spec_moves(m).contains((outer, i as u8)));
    let t = choose|t: int| 0 <= t < spec_moves(m).len() && spec_moves(m)[t] == (outer, i as u8);
    assert(spec_moves(m).len() > 0);
}

} // verus!
