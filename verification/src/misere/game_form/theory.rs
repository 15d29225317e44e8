//! Misère play on game trees: who wins, outcome classes, the structural
//! classes of forms (P-free, dead-ending, blocking), integers, conjugates,
//! disjunctive sums and birthdays.

use vstd::prelude::*;
use crate::misere::game_form::tree::{canonical_seq, GameTree};
use crate::partizan::Player;

verus! {

/// Outcome class of a game under misère play
#[derive(Debug, Clone, Copy, PartialEq, Eq, Structural, Hash)]
pub enum Outcome {
    /// Left wins whoever moves first
    L,
    /// The player who moves first wins
    N,
    /// The player who moves second wins
    P,
    /// Right wins whoever moves first
    R,
}

/// The empty tree `{|}`
pub open spec fn zero_tree() -> GameTree {
    GameTree { left: Seq::empty(), right: Seq::empty() }
}

/// Misère play: the player to move wins when they have no move, or when some
/// move leads to a position that the opponent, moving first, does not win.
pub open spec fn wins_going_first(g: GameTree, player: Player) -> bool
    decreases g,
{
    let m = g.moves(player);
    m.len() == 0 || exists|i: int| 0 <= i < m.len() && !wins_going_first(#[trigger] m[i], player.spec_opposite())
}

/// Outcome class from who wins moving first
pub open spec fn outcome_of(left_first: bool, right_first: bool) -> Outcome {
    if left_first && right_first {
        Outcome::N
    } else if left_first {
        Outcome::L
    } else if right_first {
        Outcome::R
    } else {
        Outcome::P
    }
}

pub open spec fn outcome(g: GameTree) -> Outcome {
    outcome_of(wins_going_first(g, Player::Left), wins_going_first(g, Player::Right))
}

/// No position of the game, including the game itself, is a P-position.
pub open spec fn is_p_free(g: GameTree) -> bool
    decreases g,
{
    &&& outcome(g) != Outcome::P
    &&& forall|i: int| 0 <= i < g.left.len() ==> is_p_free(#[trigger] g.left[i])
    &&& forall|i: int| 0 <= i < g.right.len() ==> is_p_free(#[trigger] g.right[i])
}

/// `player` has no move
pub open spec fn is_end(g: GameTree, player: Player) -> bool {
    g.moves(player).len() == 0
}

/// `player` has no move, now or after any sequence of the opponent's moves.
pub open spec fn is_dead_end(g: GameTree, player: Player) -> bool
    decreases g,
{
    let m = g.moves(player.spec_opposite());
    is_end(g, player) && forall|i: int| 0 <= i < m.len() ==> is_dead_end(#[trigger] m[i], player)
}

/// Every end, in every position of the game, is a dead end.
pub open spec fn is_dead_ending(g: GameTree) -> bool
    decreases g,
{
    &&& (!is_end(g, Player::Left) || is_dead_end(g, Player::Left))
    &&& (!is_end(g, Player::Right) || is_dead_end(g, Player::Right))
    &&& forall|i: int| 0 <= i < g.left.len() ==> is_dead_ending(#[trigger] g.left[i])
    &&& forall|i: int| 0 <= i < g.right.len() ==> is_dead_ending(#[trigger] g.right[i])
}

/// `player` has no move, and each opponent's move leads to a blocked end or
/// to a position where `player` can move to a blocked end.
pub open spec fn is_blocked_end(g: GameTree, player: Player) -> bool
    decreases g,
{
    let m = g.moves(player.spec_opposite());
    &&& is_end(g, player)
    &&& forall|i: int|
        0 <= i < m.len() ==> {
            ||| is_blocked_end(#[trigger] m[i], player)
            ||| exists|j: int|
                0 <= j < m[i].moves(player).len() && is_blocked_end(
                    #[trigger] m[i].moves(player)[j],
                    player,
                )
        }
}

/// Every end, in every position of the game, is a blocked end.
pub open spec fn is_blocking(g: GameTree) -> bool
    decreases g,
{
    &&& (!is_end(g, Player::Left) || is_blocked_end(g, Player::Left))
    &&& (!is_end(g, Player::Right) || is_blocked_end(g, Player::Right))
    &&& forall|i: int| 0 <= i < g.left.len() ==> is_blocking(#[trigger] g.left[i])
    &&& forall|i: int| 0 <= i < g.right.len() ==> is_blocking(#[trigger] g.right[i])
}

/// The integer `n`: `0 = {|}`, `n = {n-1|}` for positive and `n = {|n+1}` for
/// negative `n`.
pub open spec fn integer_tree(n: int) -> GameTree
    decreases (if n < 0 { -n } else { n }),
{
    if n == 0 {
        zero_tree()
    } else if n > 0 {
        GameTree { left: seq![integer_tree(n - 1)], right: Seq::empty() }
    } else {
        GameTree { left: Seq::empty(), right: seq![integer_tree(n + 1)] }
    }
}

/// The integer that a tree is, if any.
pub open spec fn tree_to_integer(g: GameTree) -> Option<int>
    decreases g,
{
    if g.left.len() == 0 && g.right.len() == 0 {
        Some(0)
    } else if g.left.len() == 1 && g.right.len() == 0 {
        match tree_to_integer(g.left[0]) {
            Some(n) => if n >= 0 {
                Some(n + 1)
            } else {
                None
            },
            None => None,
        }
    } else if g.left.len() == 0 && g.right.len() == 1 {
        match tree_to_integer(g.right[0]) {
            Some(n) => if n <= 0 {
                Some(n - 1)
            } else {
                None
            },
            None => None,
        }
    } else {
        None
    }
}

/// Conjugates of the options of `player`
pub open spec fn conjugate_moves(g: GameTree, player: Player) -> Seq<GameTree>
    decreases g, 0nat,
{
    Seq::new(
        g.moves(player).len(),
        |i: int|
            if 0 <= i < g.moves(player).len() {
                conjugate_tree(g.moves(player)[i])
            } else {
                zero_tree()
            },
    )
}

/// Conjugate: the roles of Left and Right swapped at every position.
pub open spec fn conjugate_tree(g: GameTree) -> GameTree
    decreases g, 1nat,
{
    GameTree {
        left: canonical_seq(conjugate_moves(g, Player::Right)),
        right: canonical_seq(conjugate_moves(g, Player::Left)),
    }
}

/// Options of `player` in the disjunctive sum of `g` and `h`: a move in `g`
/// or a move in `h`.
pub open spec fn sum_moves(g: GameTree, h: GameTree, player: Player) -> Seq<GameTree>
    decreases g, h, 0nat,
{
    Seq::new(
        g.moves(player).len(),
        |i: int|
            if 0 <= i < g.moves(player).len() {
                sum_tree(g.moves(player)[i], h)
            } else {
                zero_tree()
            },
    ) + Seq::new(
        h.moves(player).len(),
        |i: int|
            if 0 <= i < h.moves(player).len() {
                sum_tree(g, h.moves(player)[i])
            } else {
                zero_tree()
            },
    )
}

/// Disjunctive sum, with canonical option lists
pub open spec fn sum_tree(g: GameTree, h: GameTree) -> GameTree
    decreases g, h, 1nat,
{
    GameTree {
        left: canonical_seq(sum_moves(g, h, Player::Left)),
        right: canonical_seq(sum_moves(g, h, Player::Right)),
    }
}

/// Largest birthday plus one over a list of options, 0 for no options
pub open spec fn options_birthday(s: Seq<GameTree>) -> nat
    decreases s,
{
    if s.len() == 0 {
        0
    } else {
        let a = birthday(s[0]) + 1;
        let b = options_birthday(s.subrange(1, s.len() as int));
        if a >= b {
            a
        } else {
            b
        }
    }
}

/// Birthday: the height of the game tree
pub open spec fn birthday(g: GameTree) -> nat
    decreases g,
{
    let a = options_birthday(g.left);
    let b = options_birthday(g.right);
    if a >= b {
        a
    } else {
        b
    }
}

pub proof fn lemma_options_birthday(s: Seq<GameTree>, i: int)
    requires
        0 <= i < s.len(),
    ensures
        birthday(s[i]) < options_birthday(s),
    decreases s,
{
    if i > 0 {
        let t = s.subrange(1, s.len() as int);
        assert(t[i - 1] == s[i]);
        lemma_options_birthday(t, i - 1);
    }
}

/// Every option is born strictly before the game.
pub proof fn lemma_child_birthday(g: GameTree, player: Player, i: int)
    requires
        0 <= i < g.moves(player).len(),
    ensures
        birthday(g.moves(player)[i]) < birthday(g),
{
    lemma_options_birthday(g.moves(player), i);
}

/// An integer form is born no earlier than its absolute value.
pub proof fn lemma_integer_birthday(g: GameTree)
    ensures
        tree_to_integer(g) matches Some(n) ==> -(birthday(g) as int) <= n <= birthday(g),
    decreases g,
{
    if g.left.len() == 1 && g.right.len() == 0 {
        lemma_integer_birthday(g.left[0]);
        lemma_child_birthday(g, Player::Left, 0);
    } else if g.left.len() == 0 && g.right.len() == 1 {
        lemma_integer_birthday(g.right[0]);
        lemma_child_birthday(g, Player::Right, 0);
    }
}

} // verus!
