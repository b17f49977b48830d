use vstd::prelude::*;

verus! {

/// One of the two players of the match.
#[derive(Debug, Clone, Copy, PartialEq, Eq, Structural)]
pub enum Player {
    X,
    O,
}

impl Player {
    /// The opposing player.
    pub fn other(&self) -> (r: Self)
        ensures
            r == self.spec_other(),
    {
        match self {
            Player::X => Player::O,
            Player::O => Player::X,
        }
    }

    pub open spec fn spec_other(self) -> Self {
        match self {
            Player::X => Player::O,
            Player::O => Player::X,
        }
    }
}

/// Toggling a player twice gives the player back.
pub proof fn lemma_other_involutive(p: Player)
    ensures
        p.spec_other().spec_other() == p,
{
}

} // verus!
