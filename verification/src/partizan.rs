//! Players of a partizan game

use vstd::prelude::*;
use quickcheck::Gen;
use crate::misere::game_form::arbitrary::arbitrary_bool;

verus! {

/// Player
#[derive(Debug, Clone, Copy, PartialEq, Eq, Structural, PartialOrd, Ord, Hash)]
pub enum Player {
    /// Right (red) player
    Right,
    /// Left (bLue) player
    Left,
}

impl Player {
    /// The other player, as a value in specifications
    pub open spec fn spec_opposite(self) -> Player {
        match self {
            Player::Left => Player::Right,
            Player::Right => Player::Left,
        }
    }

    /// A random player: Left when a random truth value is true
    pub fn arbitrary(g: &mut Gen) -> Player {
        if arbitrary_bool(g) {
            Player::Left
        } else {
            Player::Right
        }
    }

    /// Opposite player
    #[verifier::when_used_as_spec(spec_opposite)]
    pub fn opposite(self) -> (r: Player)
        ensures
            r == self.spec_opposite(),
    {
        match self {
            Player::Left => Player::Right,
            Player::Right => Player::Left,
        }
    }

    /// Run a predicate for both players: whether it holds for Left and, if so,
    /// for Right.
    pub fn forall_players<P: Fn(Player) -> bool>(predicate: P) -> (r: bool)
        requires
            predicate.requires((Player::Left,)),
            predicate.requires((Player::Right,)),
        ensures
            r ==> predicate.ensures((Player::Left,), true) && predicate.ensures((Player::Right,), true),
            !r ==> predicate.ensures((Player::Left,), false) || predicate.ensures(
                (Player::Right,),
                false,
            ),
    {
        predicate(Player::Left) && predicate(Player::Right)
    }
}

/// The opposite of the opposite player is the player.
pub proof fn law_opposite_involution(player: Player)
    ensures
        player.spec_opposite().spec_opposite() == player,
        player.spec_opposite() != player,
{
}

} // verus!
