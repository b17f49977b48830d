use vstd::prelude::*;

use crate::player::Player;

verus! {

/// Mask with the nine board bits set.
pub const FULL_MASK: u16 = 0x1ff;

/// True if bit `i` of `m` is set.
pub open spec fn bit_at(m: u16, i: u16) -> bool
    recommends
        i < 9,
{
    m & (1u16 << i) != 0
}

/// True if `m` covers one of the eight winning triples
/// (three rows, three columns, two diagonals).
pub open spec fn wins(m: u16) -> bool {
    ||| m & 0x007 == 0x007
    ||| m & 0x038 == 0x038
    ||| m & 0x1c0 == 0x1c0
    ||| m & 0x049 == 0x049
    ||| m & 0x092 == 0x092
    ||| m & 0x124 == 0x124
    ||| m & 0x111 == 0x111
    ||| m & 0x054 == 0x054
}

/// A single 3x3 board: one occupancy bit per cell and player,
/// local positions 0-8 in row-major order.
#[derive(Debug, Clone, Copy)]
pub struct SubGrid {
    pub x_bits: u16,
    pub o_bits: u16,
}

impl SubGrid {
    /// The two masks use only the nine board bits and never share a cell.
    pub open spec fn wf(self) -> bool {
        &&& self.x_bits & self.o_bits == 0
        &&& self.x_bits < 0x200
        &&& self.o_bits < 0x200
    }

    /// The occupant of local position `i`, if any.
    pub open spec fn cell(self, i: u16) -> Option<Player>
        recommends
            i < 9,
    {
        if bit_at(self.x_bits, i) {
            Some(Player::X)
        } else if bit_at(self.o_bits, i) {
            Some(Player::O)
        } else {
            None
        }
    }

    pub open spec fn spec_filled(self) -> bool {
        self.x_bits | self.o_bits == FULL_MASK
    }

    pub open spec fn spec_winner(self) -> Option<Player> {
        if wins(self.x_bits) {
            Some(Player::X)
        } else if wins(self.o_bits) {
            Some(Player::O)
        } else {
            None
        }
    }

    pub open spec fn spec_done(self) -> bool {
        self.spec_filled() || self.spec_winner() is Some
    }

    /// The board after `p` occupies position `i`.
    pub open spec fn spec_play(self, i: u16, p: Player) -> SubGrid
        recommends
            i < 9,
    {
        match p {
            Player::X => SubGrid { x_bits: self.x_bits | (1u16 << i), o_bits: self.o_bits },
            Player::O => SubGrid { x_bits: self.x_bits, o_bits: self.o_bits | (1u16 << i) },
        }
    }

    /// The board after position `i` is cleared for both players.
    pub open spec fn spec_unplay(self, i: u16) -> SubGrid
        recommends
            i < 9,
    {
        SubGrid { x_bits: self.x_bits & !(1u16 << i), o_bits: self.o_bits & !(1u16 << i) }
    }

    /// The occupant of local position `index`, if any.
    pub fn at(&self, index: u8) -> (r: Option<Player>)
        requires
            index < 9,
        ensures
            r == self.cell(index as u16),
    {
        let mask: u16 = 1u16 << (index as u16);
        if self.x_bits & mask != 0 {
            Some(Player::X)
        } else if self.o_bits & mask != 0 {
            Some(Player::O)
        } else {
            None
        }
    }

    /// True if every one of the nine positions is occupied.
    pub fn is_filled(&self) -> (r: bool)
        ensures
            r == self.spec_filled(),
    {
        (self.x_bits | self.o_bits) == FULL_MASK
    }

    /// True if the board is full or has a winner.
    pub fn is_done(&self) -> (r: bool)
        ensures
            r == self.spec_done(),
    {
        self.is_filled() || self.winner().is_some()
    }

    /// The player covering a winning triple, if any.
    pub fn winner(&self) -> (r: Option<Player>)
        ensures
            r == self.spec_winner(),
    {
        if mask_wins(self.x_bits) {
            Some(Player::X)
        } else if mask_wins(self.o_bits) {
            Some(Player::O)
        } else {
            None
        }
    }

    /// Occupies position `index` for `player`; fails without mutation
    /// if the position is already occupied.
    pub fn play(&mut self, index: u8, player: Player) -> (r: bool)
        requires
            index < 9,
        ensures
            r == (old(self).cell(index as u16) is None),
            r ==> *final(self) == old(self).spec_play(index as u16, player),
            !r ==> *final(self) == *old(self),
            old(self).wf() ==> final(self).wf(),
    {
        if !self.empty(index) {
            return false;
        }

        let mask: u16 = 1u16 << (index as u16);
        match player {
            Player::X => {
                self.x_bits = self.x_bits | mask;
            },
            Player::O => {
                self.o_bits = self.o_bits | mask;
            },
        }

        proof {
            if old(self).wf() {
                lemma_play_preserves_wf(*old(self), index as u16, player);
            }
        }
        true
    }

    /// Clears position `index` for both players; used only to reverse
    /// a play that is known to have succeeded.
    pub fn unplay(&mut self, index: u8)
        requires
            index < 9,
        ensures
            *final(self) == old(self).spec_unplay(index as u16),
            old(self).wf() ==> final(self).wf(),
    {
        let mask: u16 = 1u16 << (index as u16);
        self.x_bits = self.x_bits & !mask;
        self.o_bits = self.o_bits & !mask;
        proof {
            if old(self).wf() {
                lemma_unplay_preserves_wf(*old(self), index as u16);
            }
        }
    }

    /// True if neither player occupies position `index`.
    pub fn empty(&self, index: u8) -> (r: bool)
        requires
            index < 9,
        ensures
            r == (self.cell(index as u16) is None),
    {
        let mask: u16 = 1u16 << (index as u16);
        let cells = self.x_bits | self.o_bits;
        proof {
            lemma_or_mask_zero(self.x_bits, self.o_bits, mask);
        }
        (cells & mask) == 0
    }
}

impl Default for SubGrid {
    /// An empty board.
    fn default() -> (r: Self)
        ensures
            r == (SubGrid { x_bits: 0u16, o_bits: 0u16 }),
            r.wf(),
            forall|i: u16| i < 9 ==> r.cell(i) is None,
    {
        proof {
            assert(0u16 & 0u16 == 0 && 0u16 < 0x200) by (bit_vector);
            assert forall|i: u16| i < 9 implies (SubGrid { x_bits: 0u16, o_bits: 0u16 }).cell(i)
                is None by {
                assert(0u16 & (1u16 << i) == 0) by (bit_vector);
            }
        }
        SubGrid { x_bits: 0, o_bits: 0 }
    }
}

/// True exactly when `m` covers one of the eight triples.
fn mask_wins(m: u16) -> (r: bool)
    ensures
        r == wins(m),
{
    m & 0x007 == 0x007 || m & 0x038 == 0x038 || m & 0x1c0 == 0x1c0 || m & 0x049 == 0x049 || m
        & 0x092 == 0x092 || m & 0x124 == 0x124 || m & 0x111 == 0x111 || m & 0x054 == 0x054
}

proof fn lemma_or_mask_zero(x: u16, o: u16, mask: u16)
    by (bit_vector)
    ensures
        ((x | o) & mask == 0) == (x & mask == 0 && o & mask == 0),
{
}

proof fn lemma_set_bit_wf(m: u16, other: u16, i: u16)
    by (bit_vector)
    requires
        i < 9,
        m < 0x200,
        m & other == 0,
        other & (1u16 << i) == 0,
    ensures
        (m | (1u16 << i)) < 0x200,
        (m | (1u16 << i)) & other == 0,
{
}

proof fn lemma_play_preserves_wf(sg: SubGrid, i: u16, p: Player)
    requires
        i < 9,
        sg.wf(),
        sg.cell(i) is None,
    ensures
        sg.spec_play(i, p).wf(),
{
    let x = sg.x_bits;
    let o = sg.o_bits;
    match p {
        Player::X => {
            lemma_set_bit_wf(x, o, i);
        },
        Player::O => {
            assert(x & o == 0 ==> o & x == 0) by (bit_vector);
            lemma_set_bit_wf(o, x, i);
            assert((o | (1u16 << i)) & x == 0 ==> x & (o | (1u16 << i)) == 0) by (bit_vector);
        },
    }
}

proof fn lemma_unplay_preserves_wf(sg: SubGrid, i: u16)
    requires
        sg.wf(),
    ensures
        sg.spec_unplay(i).wf(),
{
    let x = sg.x_bits;
    let o = sg.o_bits;
    assert((x & o == 0 && x < 0x200 && o < 0x200) ==> ((x & !(1u16 << i)) & (o & !(1u16 << i)) == 0
        && (x & !(1u16 << i)) < 0x200 && (o & !(1u16 << i)) < 0x200)) by (bit_vector);
}

/// Occupying an empty position and then clearing it gives the original
/// board back: the core of the undo mechanism.
pub proof fn lemma_unplay_inverts_play(sg: SubGrid, i: u16, p: Player)
    requires
        i < 9,
        sg.cell(i) is None,
    ensures
        sg.spec_play(i, p).spec_unplay(i) == sg,
{
    let x = sg.x_bits;
    let o = sg.o_bits;
    assert(x & (1u16 << i) == 0 ==> ((x | (1u16 << i)) & !(1u16 << i)) == x) by (bit_vector);
    assert(o & (1u16 << i) == 0 ==> (o & !(1u16 << i)) == o) by (bit_vector);
    assert(x & (1u16 << i) == 0 ==> (x & !(1u16 << i)) == x) by (bit_vector);
    assert(o & (1u16 << i) == 0 ==> ((o | (1u16 << i)) & !(1u16 << i)) == o) by (bit_vector);
}

/// True if `p` occupies all three of the positions `a`, `b`, `c`.
pub open spec fn owns_triple(sg: SubGrid, p: Player, a: u16, b: u16, c: u16) -> bool {
    sg.cell(a) == Some(p) && sg.cell(b) == Some(p) && sg.cell(c) == Some(p)
}

/// True if `p` occupies one of the eight winning triples, stated over
/// cells rather than masks.
pub open spec fn occupies_triple(sg: SubGrid, p: Player) -> bool {
    ||| owns_triple(sg, p, 0, 1, 2)
    ||| owns_triple(sg, p, 3, 4, 5)
    ||| owns_triple(sg, p, 6, 7, 8)
    ||| owns_triple(sg, p, 0, 3, 6)
    ||| owns_triple(sg, p, 1, 4, 7)
    ||| owns_triple(sg, p, 2, 5, 8)
    ||| owns_triple(sg, p, 0, 4, 8)
    ||| owns_triple(sg, p, 2, 4, 6)
}

proof fn lemma_wins_bits(m: u16)
    by (bit_vector)
    ensures
        (m & 0x007 == 0x007) == (m & (1u16 << 0u16) != 0 && m & (1u16 << 1u16) != 0 && m & (1u16
            << 2u16) != 0),
        (m & 0x038 == 0x038) == (m & (1u16 << 3u16) != 0 && m & (1u16 << 4u16) != 0 && m & (1u16
            << 5u16) != 0),
        (m & 0x1c0 == 0x1c0) == (m & (1u16 << 6u16) != 0 && m & (1u16 << 7u16) != 0 && m & (1u16
            << 8u16) != 0),
        (m & 0x049 == 0x049) == (m & (1u16 << 0u16) != 0 && m & (1u16 << 3u16) != 0 && m & (1u16
            << 6u16) != 0),
        (m & 0x092 == 0x092) == (m & (1u16 << 1u16) != 0 && m & (1u16 << 4u16) != 0 && m & (1u16
            << 7u16) != 0),
        (m & 0x124 == 0x124) == (m & (1u16 << 2u16) != 0 && m & (1u16 << 5u16) != 0 && m & (1u16
            << 8u16) != 0),
        (m & 0x111 == 0x111) == (m & (1u16 << 0u16) != 0 && m & (1u16 << 4u16) != 0 && m & (1u16
            << 8u16) != 0),
        (m & 0x054 == 0x054) == (m & (1u16 << 2u16) != 0 && m & (1u16 << 4u16) != 0 && m & (1u16
            << 6u16) != 0),
{
}

proof fn lemma_disjoint_bits(x: u16, o: u16)
    by (bit_vector)
    requires
        x & o == 0,
    ensures
        forall|i: u16| i < 9 ==> !(x & (1u16 << i) != 0 && o & (1u16 << i) != 0),
{
}

/// A board reports a winner for a player exactly when that player
/// occupies a full triple of cells; a partially mixed triple never
/// produces a winner.  When both players hold a triple (a state no
/// legal game reaches) the X triple is reported.
pub proof fn lemma_winner_iff_triple(sg: SubGrid)
    requires
        sg.wf(),
    ensures
        (sg.spec_winner() == Some(Player::X)) == occupies_triple(sg, Player::X),
        (sg.spec_winner() == Some(Player::O)) == (occupies_triple(sg, Player::O)
            && !occupies_triple(sg, Player::X)),
        (sg.spec_winner() is None) == (!occupies_triple(sg, Player::X) && !occupies_triple(
            sg,
            Player::O,
        )),
{
    let x = sg.x_bits;
    let o = sg.o_bits;
    lemma_wins_bits(x);
    lemma_wins_bits(o);
    lemma_disjoint_bits(x, o);
    assert(wins(x) == occupies_triple(sg, Player::X));
    assert(wins(o) == occupies_triple(sg, Player::O));
}

/// How a play changes the cells: the played position now holds the
/// player's stone and every other position is untouched.
pub proof fn lemma_play_cells(sg: SubGrid, i: u16, p: Player)
    requires
        i < 9,
        sg.cell(i) is None,
    ensures
        sg.spec_play(i, p).cell(i) == Some(p),
        forall|j: u16| j < 9 && j != i ==> #[trigger] sg.spec_play(i, p).cell(j) == sg.cell(j),
{
    let x = sg.x_bits;
    let o = sg.o_bits;
    assert((x | (1u16 << i)) & (1u16 << i) != 0) by (bit_vector)
        requires
            i < 9,
    ;
    assert((o | (1u16 << i)) & (1u16 << i) != 0) by (bit_vector)
        requires
            i < 9,
    ;
    assert forall|j: u16| j < 9 && j != i implies #[trigger] sg.spec_play(i, p).cell(j) == sg.cell(
        j,
    ) by {
        assert(i < 9 && j < 9 && i != j ==> (((x | (1u16 << i)) & (1u16 << j) != 0) == (x & (1u16
            << j) != 0) && ((o | (1u16 << i)) & (1u16 << j) != 0) == (o & (1u16 << j) != 0)))
            by (bit_vector);
    }
}

/// The mathematical model of a [`Grid`]: the nine boards and the
/// forced-subgrid constraint.
#[verifier::ext_equal]
pub struct GridModel {
    pub subs: Seq<SubGrid>,
    pub forced: Option<u8>,
}

impl GridModel {
    pub open spec fn wf(self) -> bool {
        &&& self.subs.len() == 9
        &&& forall|i: int| 0 <= i < 9 ==> (#[trigger] self.subs[i]).wf()
        &&& match self.forced {
            Some(k) => k < 9,
            None => true,
        }
    }

    /// The forced subgrid, when set, is never an already-decided board.
    pub open spec fn forced_ok(self) -> bool {
        match self.forced {
            Some(k) => k < 9 && !self.subs[k as int].spec_done(),
            None => true,
        }
    }

    pub open spec fn allowed_outer(self, outer: u8) -> bool {
        match self.forced {
            Some(k) => k == outer,
            None => true,
        }
    }

    /// Move legality: the forced subgrid is respected, the target board
    /// is undecided, and the target cell is empty.
    pub open spec fn legal(self, outer: u8, inner: u8) -> bool {
        &&& outer < 9
        &&& inner < 9
        &&& self.allowed_outer(outer)
        &&& !self.subs[outer as int].spec_done()
        &&& self.subs[outer as int].cell(inner as u16) is None
    }

    /// The model after `p` plays at `(outer, inner)`.  The next forced
    /// subgrid is the one matching the local position just played,
    /// cleared when that board is already decided.
    pub open spec fn play(self, p: Player, outer: u8, inner: u8) -> GridModel
        recommends
            self.legal(outer, inner),
    {
        let subs2 = self.subs.update(
            outer as int,
            self.subs[outer as int].spec_play(inner as u16, p),
        );
        GridModel {
            subs: subs2,
            forced: if subs2[inner as int].spec_done() {
                None
            } else {
                Some(inner)
            },
        }
    }

    /// The model after the stone at `(outer, inner)` is removed and the
    /// forced subgrid restored to its remembered prior value.
    pub open spec fn unplay(self, outer: u8, inner: u8, prior: Option<u8>) -> GridModel {
        GridModel {
            subs: self.subs.update(outer as int, self.subs[outer as int].spec_unplay(inner as u16)),
            forced: prior,
        }
    }

    /// The meta-level cell `i`: the winner of subgrid `i`, if any.
    pub open spec fn meta_cell(self, i: int) -> Option<Player> {
        self.subs[i].spec_winner()
    }

    pub open spec fn meta_owns(self, p: Player, a: int, b: int, c: int) -> bool {
        self.meta_cell(a) == Some(p) && self.meta_cell(b) == Some(p) && self.meta_cell(c) == Some(
            p,
        )
    }

    /// True if `p` has won three subgrids forming a triple of the meta board.
    pub open spec fn meta_wins(self, p: Player) -> bool {
        ||| self.meta_owns(p, 0, 1, 2)
        ||| self.meta_owns(p, 3, 4, 5)
        ||| self.meta_owns(p, 6, 7, 8)
        ||| self.meta_owns(p, 0, 3, 6)
        ||| self.meta_owns(p, 1, 4, 7)
        ||| self.meta_owns(p, 2, 5, 8)
        ||| self.meta_owns(p, 0, 4, 8)
        ||| self.meta_owns(p, 2, 4, 6)
    }

    /// The winner of the whole match.
    pub open spec fn spec_winner(self) -> Option<Player> {
        if self.meta_wins(Player::X) {
            Some(Player::X)
        } else if self.meta_wins(Player::O) {
            Some(Player::O)
        } else {
            None
        }
    }

    /// A concluded (won or drawn) arrangement: every subgrid is decided.
    pub open spec fn spec_filled(self) -> bool {
        forall|i: int| 0 <= i < 9 ==> (#[trigger] self.subs[i]).spec_done()
    }

    pub open spec fn spec_finished(self) -> bool {
        self.spec_winner() is Some || self.spec_filled()
    }
}

/// The 3x3 arrangement of nine [`SubGrid`]s, indexed 0-8 row-major,
/// together with the forced-subgrid constraint: `None` lets the acting
/// player choose any undecided subgrid, `Some(i)` restricts them to
/// subgrid `i`.
#[derive(Debug, Clone, Copy)]
pub struct Grid {
    pub subgrids: [SubGrid; 9],
    pub only_allowed: Option<u8>,
}

impl View for Grid {
    type V = GridModel;

    open spec fn view(&self) -> GridModel {
        GridModel { subs: self.subgrids@, forced: self.only_allowed }
    }
}

impl Grid {
    /// Attempts a move by `player` at cell `inner_index` of subgrid
    /// `outer_index`.  Succeeds exactly on legal moves; on failure the
    /// grid is unchanged.
    pub fn play(&mut self, player: Player, outer_index: u8, inner_index: u8) -> (r: bool)
        requires
            old(self)@.wf(),
            outer_index < 9,
            inner_index < 9,
        ensures
            final(self)@.wf(),
            r == old(self)@.legal(outer_index, inner_index),
            r ==> final(self)@ == old(self)@.play(player, outer_index, inner_index),
            !r ==> *final(self) == *old(self),
            r ==> final(self)@.forced_ok(),
            r ==> final(self)@.forced == (if final(self)@.subs[inner_index as int].spec_done() {
                None::<u8>
            } else {
                Some(inner_index)
            }),
    {
        let can_interact = match self.only_allowed {
            Some(i) => outer_index == i,
            None => true,
        };
        if !can_interact || self.subgrids[outer_index as usize].is_done() {
            return false;
        }

        let mut sub = self.subgrids[outer_index as usize];
        let valid = sub.play(inner_index, player);
        if valid {
            self.subgrids[outer_index as usize] = sub;
            if self.subgrids[inner_index as usize].is_done() {
                self.only_allowed = None;
            } else {
                self.only_allowed = Some(inner_index);
            }
            proof {
                assert(final(self)@ =~= old(self)@.play(player, outer_index, inner_index));
            }
        }

        valid
    }

    /// Removes the stone at `(outer_index, inner_index)` and restores the
    /// forced subgrid to `only_allowed`, the value remembered from before
    /// the move being reversed.
    pub fn unplay(&mut self, outer_index: u8, inner_index: u8, only_allowed: Option<u8>)
        requires
            old(self)@.wf(),
            outer_index < 9,
            inner_index < 9,
            match only_allowed {
                Some(k) => k < 9,
                None => true,
            },
        ensures
            final(self)@ == old(self)@.unplay(outer_index, inner_index, only_allowed),
            final(self)@.wf(),
    {
        let mut sub = self.subgrids[outer_index as usize];
        sub.unplay(inner_index);
        self.subgrids[outer_index as usize] = sub;
        self.only_allowed = only_allowed;
        proof {
            assert(final(self)@ =~= old(self)@.unplay(outer_index, inner_index, only_allowed));
        }
    }

    /// Collapses the meta level into a single virtual board whose cell
    /// `i` holds the winner of subgrid `i`.
    pub fn to_subgrid(&self) -> (r: SubGrid)
        ensures
            r.wf(),
            forall|i: u16| i < 9 ==> #[trigger] r.cell(i) == self@.meta_cell(i as int),
    {
        let mut subgrid = SubGrid::default();

        let mut i: usize = 0;
        while i < 9
            invariant
                i <= 9,
                subgrid.wf(),
                forall|j: u16| j < i ==> #[trigger] subgrid.cell(j) == self@.meta_cell(j as int),
                forall|j: u16| i <= j < 9 ==> #[trigger] subgrid.cell(j) is None,
            decreases 9 - i,
        {
            if let Some(player) = self.subgrids[i].winner() {
                let ghost before = subgrid;
                let played = subgrid.play(i as u8, player);
                proof {
                    lemma_play_cells(before, i as u16, player);
                }
            }
            i = i + 1;
        }

        subgrid
    }

    pub fn subgrids(&self) -> (r: &[SubGrid; 9])
        ensures
            r@ == self@.subs,
    {
        &self.subgrids
    }

    /// The winner of the match: the player holding three won subgrids
    /// in a row, column or diagonal of the meta board.
    pub fn winner(&self) -> (r: Option<Player>)
        ensures
            r == self@.spec_winner(),
    {
        let virt = self.to_subgrid();
        proof {
            lemma_winner_iff_triple(virt);
            assert(occupies_triple(virt, Player::X) == self@.meta_wins(Player::X));
            assert(occupies_triple(virt, Player::O) == self@.meta_wins(Player::O));
        }
        virt.winner()
    }

    /// The forced subgrid, exposed for history snapshotting.
    pub fn only_allowed(&self) -> (r: Option<u8>)
        ensures
            r == self@.forced,
    {
        self.only_allowed
    }

    /// True once every subgrid is decided: the match is over, won or drawn.
    pub fn is_filled(&self) -> (r: bool)
        ensures
            r == self@.spec_filled(),
    {
        let mut i: usize = 0;
        while i < 9
            invariant
                i <= 9,
                forall|j: int| 0 <= j < i ==> (#[trigger] self@.subs[j]).spec_done(),
            decreases 9 - i,
        {
            if !self.subgrids[i].is_done() {
                proof {
                    assert(!self@.subs[i as int].spec_done());
                }
                return false;
            }
            i = i + 1;
        }
        true
    }

    /// True if the current move `(outer_index, inner_index)` would be legal.
    pub fn is_valid(&self, outer_index: u8, inner_index: u8) -> (r: bool)
        requires
            outer_index < 9,
            inner_index < 9,
        ensures
            r == self@.legal(outer_index, inner_index),
    {
        let can_interact = match self.only_allowed {
            Some(i) => outer_index == i,
            None => true,
        };
        can_interact && !self.subgrids[outer_index as usize].is_done()
            && self.subgrids[outer_index as usize].empty(inner_index)
    }
}

impl Default for Grid {
    /// The empty starting arrangement: nine empty boards, no forced subgrid.
    fn default() -> (r: Self)
        ensures
            r@.wf(),
            r@.forced_ok(),
            (r@.forced is None),
            forall|i: int|
                0 <= i < 9 ==> #[trigger] r@.subs[i] == (SubGrid { x_bits: 0u16, o_bits: 0u16 }),
            forall|i: int| 0 <= i < 9 ==> !(#[trigger] r@.subs[i]).spec_done(),
            forall|i: int, j: u16|
                0 <= i < 9 && j < 9 ==> (#[trigger] r@.subs[i].cell(j)) is None,
    {
        let empty = SubGrid::default();
        proof {
            assert(0u16 | 0u16 != 0x1ff && !wins(0u16)) by (bit_vector);
        }
        Grid { subgrids: [empty;9], only_allowed: None }
    }
}

/// An undecided board always has an empty position: not being full
/// means some of the nine cells is unoccupied.
pub proof fn lemma_unfilled_has_empty(sg: SubGrid)
    requires
        sg.wf(),
        !sg.spec_filled(),
    ensures
        exists|i: u16| i < 9 && sg.cell(i) is None,
{
    let x = sg.x_bits;
    let o = sg.o_bits;
    let u = x | o;
    assert(u & 0x001 == 0 || u & 0x002 == 0 || u & 0x004 == 0 || u & 0x008 == 0 || u & 0x010 == 0
        || u & 0x020 == 0 || u & 0x040 == 0 || u & 0x080 == 0 || u & 0x100 == 0) by (bit_vector)
        requires
            u == x | o,
            x < 0x200,
            o < 0x200,
            u != 0x1ff,
    ;
    assert((1u16 << 0u16) == 0x001 && (1u16 << 1u16) == 0x002 && (1u16 << 2u16) == 0x004 && (1u16
        << 3u16) == 0x008 && (1u16 << 4u16) == 0x010 && (1u16 << 5u16) == 0x020 && (1u16 << 6u16)
        == 0x040 && (1u16 << 7u16) == 0x080 && (1u16 << 8u16) == 0x100) by (bit_vector);
    if u & 0x001 == 0 {
        lemma_or_mask_zero(x, o, 0x001);
        assert(sg.cell(0) is None);
    } else if u & 0x002 == 0 {
        lemma_or_mask_zero(x, o, 0x002);
        assert(sg.cell(1) is None);
    } else if u & 0x004 == 0 {
        lemma_or_mask_zero(x, o, 0x004);
        assert(sg.cell(2) is None);
    } else if u & 0x008 == 0 {
        lemma_or_mask_zero(x, o, 0x008);
        assert(sg.cell(3) is None);
    } else if u & 0x010 == 0 {
        lemma_or_mask_zero(x, o, 0x010);
        assert(sg.cell(4) is None);
    } else if u & 0x020 == 0 {
        lemma_or_mask_zero(x, o, 0x020);
        assert(sg.cell(5) is None);
    } else if u & 0x040 == 0 {
        lemma_or_mask_zero(x, o, 0x040);
        assert(sg.cell(6) is None);
    } else if u & 0x080 == 0 {
        lemma_or_mask_zero(x, o, 0x080);
        assert(sg.cell(7) is None);
    } else {
        lemma_or_mask_zero(x, o, 0x100);
        assert(sg.cell(8) is None);
    }
}

/// Undo is a true inverse at the grid level: applying a legal move and
/// then removing it, restoring the remembered forced subgrid, gives the
/// original model back exactly.
pub proof fn lemma_grid_unplay_inverts_play(m: GridModel, p: Player, outer: u8, inner: u8)
    requires
        m.wf(),
        m.legal(outer, inner),
    ensures
        m.play(p, outer, inner).unplay(outer, inner, m.forced) == m,
{
    let played = m.subs[outer as int].spec_play(inner as u16, p);
    let m2 = m.play(p, outer, inner);
    lemma_unplay_inverts_play(m.subs[outer as int], inner as u16, p);
    assert(m2.subs[outer as int] == played);
    assert(m2.unplay(outer, inner, m.forced).subs =~= m.subs);
    assert(m2.unplay(outer, inner, m.forced) =~= m);
}

} // verus!
