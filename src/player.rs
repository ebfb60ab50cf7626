use vstd::prelude::*;

verus! {

/// One of the two sides of a game. `PlayerOne` always moves first.
#[derive(Clone, Copy, Debug, PartialEq, Eq, Structural)]
pub enum Player {
    PlayerOne,
    PlayerTwo,
}

impl Player {
    /// The other side.
    pub open spec fn opponent(self) -> Player {
        match self {
            Player::PlayerOne => Player::PlayerTwo,
            Player::PlayerTwo => Player::PlayerOne,
        }
    }

    /// Returns the other side.
    pub fn opposite(self) -> (r: Player)
        ensures
            r == self.opponent(),
            r != self,
            r.opponent() == self,
    {
        match self {
            Player::PlayerOne => Player::PlayerTwo,
            Player::PlayerTwo => Player::PlayerOne,
        }
    }
}

} // verus!
