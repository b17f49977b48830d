use vstd::prelude::*;

use crate::grid::{Grid, GridModel};
use crate::player::Player;

verus! {

/// One reversible move record: the coordinates played and the forced
/// subgrid as it was before the move.
struct History {
    only_allowed: Option<u8>,
    indices: (u8, u8),
}

/// The overall standing of a match.
#[derive(Debug, Clone, Copy, PartialEq, Eq, Structural)]
pub enum MatchStatus {
    InProgress,
    Won(Player),
    Drawn,
}

/// The standing that a grid model describes.
pub open spec fn spec_status(m: GridModel) -> MatchStatus {
    match m.spec_winner() {
        Some(w) => MatchStatus::Won(w),
        None => if m.spec_filled() {
            MatchStatus::Drawn
        } else {
            MatchStatus::InProgress
        },
    }
}

/// What a [`Game`] looks like from outside: the current board, the
/// player to move, and the trace of the earlier positions, oldest
/// first, that undo steps back through.
#[verifier::ext_equal]
pub struct GameView {
    pub board: GridModel,
    pub turn: Player,
    pub past: Seq<(GridModel, Player)>,
}

/// A match in progress: the grid, the player to move, and a history
/// stack that makes every successful move reversible.
pub struct Game {
    grid: Grid,
    turn: Player,
    history: Vec<History>,
    snaps: Ghost<Seq<(GridModel, Player)>>,
}

impl View for Game {
    type V = GameView;

    closed spec fn view(&self) -> GameView {
        GameView { board: self.grid@, turn: self.turn, past: self.snaps@ }
    }
}

/// One history record correctly links the position before a move to
/// the position after it.
spec fn step_ok(pre: (GridModel, Player), h: History, post: (GridModel, Player)) -> bool {
    &&& pre.0.legal(h.indices.0, h.indices.1)
    &&& h.only_allowed == pre.0.forced
    &&& post.0 == pre.0.play(pre.1, h.indices.0, h.indices.1)
    &&& post.1 == pre.1.spec_other()
}

impl Game {
    /// The position after step `i` of the trace (the current position
    /// once `i` runs past the trace).
    spec fn state_at(self, i: int) -> (GridModel, Player) {
        if i < self.snaps@.len() {
            self.snaps@[i]
        } else {
            (self.grid@, self.turn)
        }
    }

    /// Every position of the trace is well formed and consecutive
    /// positions are linked by the recorded moves, so that each record
    /// can be undone.
    pub closed spec fn wf(self) -> bool {
        &&& self.grid@.wf()
        &&& self.grid@.forced_ok()
        &&& self.snaps@.len() == self.history@.len()
        &&& forall|i: int|
            0 <= i < self.snaps@.len() ==> (#[trigger] self.snaps@[i]).0.wf()
                && self.snaps@[i].0.forced_ok()
        &&& forall|i: int|
            0 <= i < self.snaps@.len() ==> step_ok(
                self.state_at(i),
                #[trigger] self.history@[i],
                self.state_at(i + 1),
            )
    }

    /// A fresh match: empty boards, no forced subgrid, X to move.
    pub fn new() -> (r: Self)
        ensures
            r.wf(),
            r@.turn == Player::X,
            r@.past.len() == 0,
            (r@.board.forced is None),
            forall|i: int|
                0 <= i < 9 ==> #[trigger] r@.board.subs[i] == (crate::grid::SubGrid {
                    x_bits: 0u16,
                    o_bits: 0u16,
                }),
            forall|i: int| 0 <= i < 9 ==> !(#[trigger] r@.board.subs[i]).spec_done(),
            forall|i: int, j: u16|
                0 <= i < 9 && j < 9 ==> (#[trigger] r@.board.subs[i].cell(j)) is None,
    {
        Game { grid: Grid::default(), turn: Player::X, history: Vec::new(), snaps: Ghost(Seq::empty()) }
    }

    /// A copy of the current grid, for read-only exploration.
    pub fn clone_grid(&self) -> (r: Grid)
        ensures
            r@ == self@.board,
    {
        self.grid
    }

    /// The player to move.
    pub fn turn(&self) -> (r: Player)
        ensures
            r == self@.turn,
    {
        self.turn
    }

    /// Attempts a move for the current player.  Succeeds exactly on
    /// legal moves; on success the turn flips and the previous position
    /// is pushed onto the trace; on failure nothing changes.
    pub fn play(&mut self, outer_index: u8, inner_index: u8) -> (r: bool)
        requires
            old(self).wf(),
            outer_index < 9,
            inner_index < 9,
        ensures
            final(self).wf(),
            r == old(self)@.board.legal(outer_index, inner_index),
            r ==> final(self)@ == (GameView {
                board: old(self)@.board.play(old(self)@.turn, outer_index, inner_index),
                turn: old(self)@.turn.spec_other(),
                past: old(self)@.past.push((old(self)@.board, old(self)@.turn)),
            }),
            !r ==> final(self)@ == old(self)@,
    {
        let only_allowed = self.grid.only_allowed();
        let played = self.grid.play(self.turn, outer_index, inner_index);
        if played {
            proof {
                self.snaps@ = self.snaps@.push((old(self).grid@, old(self).turn));
            }
            self.history.push(History { only_allowed, indices: (outer_index, inner_index) });
            self.turn = self.turn.other();
            proof {
                assert(self@ =~= (GameView {
                    board: old(self)@.board.play(old(self)@.turn, outer_index, inner_index),
                    turn: old(self)@.turn.spec_other(),
                    past: old(self)@.past.push((old(self)@.board, old(self)@.turn)),
                }));
                assert forall|i: int| 0 <= i < self.snaps@.len() implies step_ok(
                    self.state_at(i),
                    #[trigger] self.history@[i],
                    self.state_at(i + 1),
                ) by {
                    if i < old(self).snaps@.len() {
                        assert(step_ok(
                            old(self).state_at(i),
                            old(self).history@[i],
                            old(self).state_at(i + 1),
                        ));
                    }
                }
            }
        }
        played
    }

    /// Reverses the most recent successful move, restoring the board,
    /// the forced subgrid and the turn exactly; does nothing when no
    /// move has been made.
    pub fn undo(&mut self)
        requires
            old(self).wf(),
        ensures
            final(self).wf(),
            old(self)@.past.len() == 0 ==> final(self)@ == old(self)@,
            old(self)@.past.len() > 0 ==> final(self)@ == (GameView {
                board: old(self)@.past.last().0,
                turn: old(self)@.past.last().1,
                past: old(self)@.past.drop_last(),
            }),
    {
        if self.history.len() == 0 {
            return ;
        }

        let h = match self.history.pop() {
            Some(h) => h,
            None => {
                return ;
            },
        };

        let ghost n = old(self).snaps@.len() - 1;
        proof {
            assert(step_ok(old(self).state_at(n), old(self).history@[n], old(self).state_at(n + 1)));
            let pre = old(self).snaps@[n];
            crate::grid::lemma_grid_unplay_inverts_play(pre.0, pre.1, h.indices.0, h.indices.1);
        }

        self.grid.unplay(h.indices.0, h.indices.1, h.only_allowed);
        self.turn = self.turn.other();
        proof {
            self.snaps@ = self.snaps@.drop_last();
            assert(self@ =~= (GameView {
                board: old(self)@.past.last().0,
                turn: old(self)@.past.last().1,
                past: old(self)@.past.drop_last(),
            }));
            assert forall|i: int| 0 <= i < self.snaps@.len() implies step_ok(
                self.state_at(i),
                #[trigger] self.history@[i],
                self.state_at(i + 1),
            ) by {
                assert(step_ok(
                    old(self).state_at(i),
                    old(self).history@[i],
                    old(self).state_at(i + 1),
                ));
            }
        }
    }

    /// True once the match is over, by a win or a filled board.
    pub fn finished(&self) -> (r: bool)
        ensures
            r == self@.board.spec_finished(),
    {
        self.grid.winner().is_some() || self.grid.is_filled()
    }

    /// The standing of the match: in progress, won, or drawn.
    pub fn match_status(&self) -> (r: MatchStatus)
        ensures
            r == spec_status(self@.board),
    {
        match self.grid.winner() {
            Some(w) => MatchStatus::Won(w),
            None => if self.grid.is_filled() {
                MatchStatus::Drawn
            } else {
                MatchStatus::InProgress
            },
        }
    }
}

} // verus!
