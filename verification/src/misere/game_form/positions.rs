//! Positions reached by sequences of moves, and what P-free, dead-ending
//! and dead ends say of them.

use vstd::prelude::*;
use crate::misere::game_form::theory::{is_dead_end, is_dead_ending, is_end, is_p_free, outcome, Outcome};
use crate::misere::game_form::tree::GameTree;
use crate::partizan::Player;

verus! {

/// The position reached from `g` by the moves of `path`, each given by the
/// player who moves and the index of the option taken; `None` when some
/// move of the path is not available.
pub open spec fn position_after(g: GameTree, path: Seq<(Player, int)>) -> Option<GameTree>
    decreases path.len(),
{
    if path.len() == 0 {
        Some(g)
    } else {
        let p = path[0].0;
        let i = path[0].1;
        if 0 <= i < g.moves(p).len() {
            position_after(g.moves(p)[i], path.drop_first())
        } else {
            None
        }
    }
}

/// Every move of `path` is made by `player`.
pub open spec fn moves_only_of(path: Seq<(Player, int)>, player: Player) -> bool {
    forall|k: int| 0 <= k < path.len() ==> #[trigger] path[k].0 == player
}

/// The path that takes option `i` of `player` first, then follows `path`.
proof fn lemma_position_after_first(g: GameTree, player: Player, i: int, path: Seq<(Player, int)>)
    requires
        0 <= i < g.moves(player).len(),
    ensures
        position_after(g, seq![(player, i)] + path) == position_after(g.moves(player)[i], path),
{
    let p2 = seq![(player, i)] + path;
    assert(p2.drop_first() =~= path);
}

proof fn lemma_p_free_hereditary(g: GameTree, path: Seq<(Player, int)>)
    requires
        is_p_free(g),
        position_after(g, path) is Some,
    ensures
        is_p_free(position_after(g, path)->0),
    decreases path.len(),
{
    if path.len() > 0 {
        let p = path[0].0;
        let i = path[0].1;
        let c = g.moves(p)[i];
        assert(is_p_free(c)) by {
            match p {
                Player::Left => assert(c == g.left[i]),
                Player::Right => assert(c == g.right[i]),
            }
        }
        lemma_p_free_hereditary(c, path.drop_first());
    }
}

proof fn lemma_p_free_from_positions(g: GameTree)
    requires
        forall|path: Seq<(Player, int)>| #[trigger]
            position_after(g, path) is Some ==> outcome(position_after(g, path)->0) != Outcome::P,
    ensures
        is_p_free(g),
    decreases g,
{
    assert(position_after(g, Seq::<(Player, int)>::empty()) == Some(g));
    assert forall|i: int| 0 <= i < g.left.len() implies is_p_free(#[trigger] g.left[i]) by {
        let c = g.left[i];
        assert forall|path: Seq<(Player, int)>| #[trigger]
            position_after(c, path) is Some implies outcome(position_after(c, path)->0) != Outcome::P by {
            lemma_position_after_first(g, Player::Left, i, path);
            assert(position_after(g, seq![(Player::Left, i)] + path) == position_after(c, path));
        }
        lemma_p_free_from_positions(c);
    }
    assert forall|i: int| 0 <= i < g.right.len() implies is_p_free(#[trigger] g.right[i]) by {
        let c = g.right[i];
        assert forall|path: Seq<(Player, int)>| #[trigger]
            position_after(c, path) is Some implies outcome(position_after(c, path)->0) != Outcome::P by {
            lemma_position_after_first(g, Player::Right, i, path);
            assert(position_after(g, seq![(Player::Right, i)] + path) == position_after(c, path));
        }
        lemma_p_free_from_positions(c);
    }
}

/// A form is P-free exactly when no position reached from it, by any
/// sequence of moves of either player (none included), is a P-position.
pub proof fn law_p_free_positions(g: GameTree)
    ensures
        is_p_free(g) <==> forall|path: Seq<(Player, int)>| #[trigger]
            position_after(g, path) is Some ==> outcome(position_after(g, path)->0) != Outcome::P,
{
    if is_p_free(g) {
        assert forall|path: Seq<(Player, int)>| #[trigger]
            position_after(g, path) is Some implies outcome(position_after(g, path)->0) != Outcome::P by {
            lemma_p_free_hereditary(g, path);
        }
    }
    if forall|path: Seq<(Player, int)>| #[trigger]
        position_after(g, path) is Some ==> outcome(position_after(g, path)->0) != Outcome::P {
        lemma_p_free_from_positions(g);
    }
}

proof fn lemma_dead_end_hereditary(g: GameTree, player: Player, path: Seq<(Player, int)>)
    requires
        is_dead_end(g, player),
        moves_only_of(path, player.spec_opposite()),
        position_after(g, path) is Some,
    ensures
        is_dead_end(position_after(g, path)->0, player),
    decreases path.len(),
{
    if path.len() > 0 {
        let i = path[0].1;
        assert(path[0].0 == player.spec_opposite());
        let c = g.moves(player.spec_opposite())[i];
        let rest = path.drop_first();
        assert forall|k: int| 0 <= k < rest.len() implies #[trigger] rest[k].0 == player.spec_opposite() by {
            assert(rest[k] == path[k + 1]);
        }
        lemma_dead_end_hereditary(c, player, rest);
    }
}

proof fn lemma_dead_end_from_positions(g: GameTree, player: Player)
    requires
        forall|path: Seq<(Player, int)>|
            moves_only_of(path, player.spec_opposite()) && #[trigger] position_after(g, path) is Some ==> is_end(
                position_after(g, path)->0,
                player,
            ),
    ensures
        is_dead_end(g, player),
    decreases g,
{
    let q = player.spec_opposite();
    let m = g.moves(q);
    assert(position_after(g, Seq::<(Player, int)>::empty()) == Some(g));
    assert(moves_only_of(Seq::<(Player, int)>::empty(), q));
    assert forall|i: int| 0 <= i < m.len() implies is_dead_end(#[trigger] m[i], player) by {
        let c = m[i];
        assert forall|path: Seq<(Player, int)>|
            moves_only_of(path, q) && #[trigger] position_after(c, path) is Some implies is_end(
            position_after(c, path)->0,
            player,
        ) by {
            let p2 = seq![(q, i)] + path;
            lemma_position_after_first(g, q, i, path);
            assert forall|k: int| 0 <= k < p2.len() implies #[trigger] p2[k].0 == q by {
                if k > 0 {
                    assert(p2[k] == path[k - 1]);
                }
            }
            assert(position_after(g, p2) == position_after(c, path));
        }
        match q {
            Player::Left => assert(c == g.left[i]),
            Player::Right => assert(c == g.right[i]),
        }
        lemma_dead_end_from_positions(c, player);
    }
}

/// `player` is at a dead end exactly when `player` has no move now, nor
/// after any sequence of moves of the opponent alone.
pub proof fn law_dead_end_positions(g: GameTree, player: Player)
    ensures
        is_dead_end(g, player) <==> forall|path: Seq<(Player, int)>|
            moves_only_of(path, player.spec_opposite()) && #[trigger] position_after(g, path) is Some ==> is_end(
                position_after(g, path)->0,
                player,
            ),
{
    if is_dead_end(g, player) {
        assert forall|path: Seq<(Player, int)>|
            moves_only_of(path, player.spec_opposite()) && #[trigger] position_after(g, path) is Some implies is_end(
            position_after(g, path)->0,
            player,
        ) by {
            lemma_dead_end_hereditary(g, player, path);
        }
    }
    if forall|path: Seq<(Player, int)>|
        moves_only_of(path, player.spec_opposite()) && #[trigger] position_after(g, path) is Some ==> is_end(
            position_after(g, path)->0,
            player,
        ) {
        lemma_dead_end_from_positions(g, player);
    }
}

/// Every end of `x` is a dead end.
pub open spec fn ends_are_dead(x: GameTree) -> bool {
    &&& is_end(x, Player::Left) ==> is_dead_end(x, Player::Left)
    &&& is_end(x, Player::Right) ==> is_dead_end(x, Player::Right)
}

proof fn lemma_dead_ending_hereditary(g: GameTree, path: Seq<(Player, int)>)
    requires
        is_dead_ending(g),
        position_after(g, path) is Some,
    ensures
        is_dead_ending(position_after(g, path)->0),
    decreases path.len(),
{
    if path.len() > 0 {
        let p = path[0].0;
        let i = path[0].1;
        let c = g.moves(p)[i];
        assert(is_dead_ending(c)) by {
            match p {
                Player::Left => assert(c == g.left[i]),
                Player::Right => assert(c == g.right[i]),
            }
        }
        lemma_dead_ending_hereditary(c, path.drop_first());
    }
}

proof fn lemma_dead_ending_from_positions(g: GameTree)
    requires
        forall|path: Seq<(Player, int)>|
            #[trigger] position_after(g, path) is Some ==> ends_are_dead(position_after(g, path)->0),
    ensures
        is_dead_ending(g),
    decreases g,
{
    assert(position_after(g, Seq::<(Player, int)>::empty()) == Some(g));
    assert forall|i: int| 0 <= i < g.left.len() implies is_dead_ending(#[trigger] g.left[i]) by {
        let c = g.left[i];
        assert forall|path: Seq<(Player, int)>|
            #[trigger] position_after(c, path) is Some implies ends_are_dead(position_after(c, path)->0) by {
            lemma_position_after_first(g, Player::Left, i, path);
            assert(position_after(g, seq![(Player::Left, i)] + path) == position_after(c, path));
        }
        lemma_dead_ending_from_positions(c);
    }
    assert forall|i: int| 0 <= i < g.right.len() implies is_dead_ending(#[trigger] g.right[i]) by {
        let c = g.right[i];
        assert forall|path: Seq<(Player, int)>|
            #[trigger] position_after(c, path) is Some implies ends_are_dead(position_after(c, path)->0) by {
            lemma_position_after_first(g, Player::Right, i, path);
            assert(position_after(g, seq![(Player::Right, i)] + path) == position_after(c, path));
        }
        lemma_dead_ending_from_positions(c);
    }
}

/// A form is dead-ending exactly when, in every position reached from it by
/// any sequence of moves of either player (none included), every end is a
/// dead end.
pub proof fn law_dead_ending_positions(g: GameTree)
    ensures
        is_dead_ending(g) <==> forall|path: Seq<(Player, int)>|
            #[trigger] position_after(g, path) is Some ==> ends_are_dead(position_after(g, path)->0),
{
    if is_dead_ending(g) {
        assert forall|path: Seq<(Player, int)>|
            #[trigger] position_after(g, path) is Some implies ends_are_dead(position_after(g, path)->0) by {
            lemma_dead_ending_hereditary(g, path);
        }
    }
    if forall|path: Seq<(Player, int)>|
        #[trigger] position_after(g, path) is Some ==> ends_are_dead(position_after(g, path)->0) {
        lemma_dead_ending_from_positions(g);
    }
}

/// Every option of a P-free form, of either player, is P-free and is not
/// a P-position.
pub proof fn law_p_free_options(g: GameTree, player: Player, i: int)
    requires
        is_p_free(g),
        0 <= i < g.moves(player).len(),
    ensures
        is_p_free(g.moves(player)[i]),
        outcome(g.moves(player)[i]) != Outcome::P,
{
    let path = seq![(player, i)];
    lemma_position_after_first(g, player, i, Seq::<(Player, int)>::empty());
    assert(path =~= seq![(player, i)] + Seq::<(Player, int)>::empty());
    assert(position_after(g.moves(player)[i], Seq::<(Player, int)>::empty()) == Some(g.moves(player)[i]));
    lemma_p_free_hereditary(g, path);
    law_p_free_positions(g);
    assert(position_after(g, path) is Some);
}

/// Every option of a dead-ending form, of either player, is dead-ending.
pub proof fn law_dead_ending_options(g: GameTree, player: Player, i: int)
    requires
        is_dead_ending(g),
        0 <= i < g.moves(player).len(),
    ensures
        is_dead_ending(g.moves(player)[i]),
{
    let path = seq![(player, i)];
    lemma_position_after_first(g, player, i, Seq::<(Player, int)>::empty());
    assert(path =~= seq![(player, i)] + Seq::<(Player, int)>::empty());
    assert(position_after(g.moves(player)[i], Seq::<(Player, int)>::empty()) == Some(g.moves(player)[i]));
    lemma_dead_ending_hereditary(g, path);
}

} // verus!
