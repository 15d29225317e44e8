//! Operations on standard game forms.

use vstd::prelude::*;
use std::cmp::Ordering;
use std::convert::Infallible;
use crate::misere::game_form::form::{canonical, compare_forms, node, views, StandardForm};
use crate::misere::game_form::theory::{
    birthday, conjugate_moves, conjugate_tree, integer_tree, is_blocked_end, options_birthday, sum_moves, sum_tree, is_blocking, is_dead_end, is_dead_ending, is_end,
    is_p_free, lemma_child_birthday, lemma_integer_birthday, outcome, outcome_of,
    tree_to_integer, wins_going_first, zero_tree, Outcome,
};
use crate::misere::game_form::tree::{
    canonical_seq, lemma_tree_order_antisym, lemma_tree_order_refl, tree_order, GameTree,
};
use crate::partizan::Player;

verus! {

/// Context of standard game forms
#[derive(Debug, Clone, Copy, PartialEq, Eq, Structural, PartialOrd, Ord, Hash)]
pub struct StandardFormContext;

impl StandardFormContext {
    /// Form with the given options
    pub fn new(&self, left: Vec<StandardForm>, right: Vec<StandardForm>) -> (r: Result<
        StandardForm,
        Infallible,
    >)
        ensures
            r matches Ok(g) && g@ == node(views(left@), views(right@)),
    {
        Ok(StandardForm::new(left, right))
    }

    /// Options of `player` in `game`
    pub fn moves<'a>(&self, game: &'a StandardForm, player: Player) -> (r: &'a [StandardForm])
        ensures
            views(r@) == game@.moves(player),
    {
        game.moves(player)
    }

    /// The integer `n`
    pub fn new_integer(&self, n: i32) -> (r: Result<StandardForm, Infallible>)
        ensures
            r matches Ok(g) && g@ == integer_tree(n as int),
        decreases (if n < 0 { -(n as int) } else { n as int }),
    {
        if n < 0 {
            let previous = match self.new_integer(n + 1) {
                Ok(g) => g,
                Err(e) => return Err(e),
            };
            let ghost p = previous@;
            let mut right: Vec<StandardForm> = Vec::new();
            right.push(previous);
            let r = StandardForm::new(Vec::new(), right);
            proof {
                assert(views(right@) =~= seq![p]);
                assert(canonical_seq(seq![p]) =~= seq![p]) by {
                    reveal_with_fuel(canonical_seq, 2);
                    assert(seq![p].drop_last() =~= Seq::<GameTree>::empty());
                }
                assert(r@ =~= integer_tree(n as int));
            }
            Ok(r)
        } else if n == 0 {
            let r = StandardForm::new(Vec::new(), Vec::new());
            proof {
                assert(r@ =~= zero_tree());
            }
            Ok(r)
        } else {
            let previous = match self.new_integer(n - 1) {
                Ok(g) => g,
                Err(e) => return Err(e),
            };
            let ghost p = previous@;
            let mut left: Vec<StandardForm> = Vec::new();
            left.push(previous);
            let r = StandardForm::new(left, Vec::new());
            proof {
                assert(views(left@) =~= seq![p]);
                assert(canonical_seq(seq![p]) =~= seq![p]) by {
                    reveal_with_fuel(canonical_seq, 2);
                    assert(seq![p].drop_last() =~= Seq::<GameTree>::empty());
                }
                assert(r@ =~= integer_tree(n as int));
            }
            Ok(r)
        }
    }

    /// The integer that `game` is, if any
    pub fn to_integer(&self, game: &StandardForm) -> (r: Option<i32>)
        requires
            birthday(game@) <= i32::MAX,
        ensures
            r == match tree_to_integer(game@) {
                Some(n) => Some(n as i32),
                None => None::<i32>,
            },
        decreases birthday(game@),
    {
        let left = game.moves(Player::Left);
        let right = game.moves(Player::Right);
        proof {
            lemma_integer_birthday(game@);
        }
        if left.len() == 0 && right.len() == 0 {
            Some(0)
        } else if left.len() == 1 && right.len() == 0 {
            proof {
                lemma_child_birthday(game@, Player::Left, 0);
                lemma_integer_birthday(game@.left[0]);
                assert(views(left@)[0] == left@[0]@);
            }
            match self.to_integer(&left[0]) {
                Some(prev) => if prev >= 0 {
                    Some(prev + 1)
                } else {
                    None
                },
                None => None,
            }
        } else if left.len() == 0 && right.len() == 1 {
            proof {
                lemma_child_birthday(game@, Player::Right, 0);
                lemma_integer_birthday(game@.right[0]);
                assert(views(right@)[0] == right@[0]@);
            }
            match self.to_integer(&right[0]) {
                Some(prev) => if prev <= 0 {
                    Some(prev - 1)
                } else {
                    None
                },
                None => None,
            }
        } else {
            None
        }
    }

    /// The winner of `game` when `player` moves first
    pub fn player_outcome(&self, game: &StandardForm, player: Player) -> (r: Player)
        ensures
            r == (if wins_going_first(game@, player) {
                player
            } else {
                player.spec_opposite()
            }),
    {
        if self.wins_going_first(game, player) {
            player
        } else {
            player.opposite()
        }
    }

    /// Whether `player` wins `game` moving first
    pub fn wins_going_first(&self, game: &StandardForm, player: Player) -> (r: bool)
        ensures
            r == wins_going_first(game@, player),
        decreases birthday(game@),
    {
        let m = game.moves(player);
        if m.len() == 0 {
            return true;
        }
        let mut i: usize = 0;
        while i < m.len()
            invariant
                i <= m@.len(),
                views(m@) == game@.moves(player),
                forall|k: int| 0 <= k < i ==> wins_going_first(#[trigger] game@.moves(player)[k], player.spec_opposite()),
            decreases m.len() - i,
        {
            proof {
                lemma_child_birthday(game@, player, i as int);
                assert(views(m@)[i as int] == m@[i as int]@);
            }
            if !self.wins_going_first(&m[i], player.opposite()) {
                return true;
            }
            i += 1;
        }
        false
    }

    /// Outcome class of `game`
    pub fn outcome(&self, game: &StandardForm) -> (r: Outcome)
        ensures
            r == outcome(game@),
    {
        match (self.wins_going_first(game, Player::Left), self.wins_going_first(game, Player::Right)) {
            (true, true) => Outcome::N,
            (true, false) => Outcome::L,
            (false, true) => Outcome::R,
            (false, false) => Outcome::P,
        }
    }

    /// Whether `player` has no move in `game`
    pub fn is_end(&self, game: &StandardForm, player: Player) -> (r: bool)
        ensures
            r == is_end(game@, player),
    {
        game.moves(player).len() == 0
    }

    /// No position of `game` is a P-position
    pub fn is_p_free(&self, game: &StandardForm) -> (r: bool)
        ensures
            r == is_p_free(game@),
        decreases birthday(game@),
    {
        if self.outcome(game) == Outcome::P {
            return false;
        }
        let l = self.all_options_p_free(game, Player::Left);
        if !l {
            return false;
        }
        self.all_options_p_free(game, Player::Right)
    }

    fn all_options_p_free(&self, game: &StandardForm, player: Player) -> (r: bool)
        ensures
            r == forall|i: int| 0 <= i < game@.moves(player).len() ==> is_p_free(#[trigger] game@.moves(player)[i]),
        decreases birthday(game@), 0nat,
    {
        let m = game.moves(player);
        let mut i: usize = 0;
        while i < m.len()
            invariant
                i <= m@.len(),
                views(m@) == game@.moves(player),
                forall|k: int| 0 <= k < i ==> is_p_free(#[trigger] game@.moves(player)[k]),
            decreases m.len() - i,
        {
            proof {
                lemma_child_birthday(game@, player, i as int);
                assert(views(m@)[i as int] == m@[i as int]@);
            }
            if !self.is_p_free(&m[i]) {
                return false;
            }
            i += 1;
        }
        true
    }

    /// `player` has no move in `game` nor after any sequence of the opponent's moves
    pub fn is_dead_end(&self, game: &StandardForm, player: Player) -> (r: bool)
        ensures
            r == is_dead_end(game@, player),
        decreases birthday(game@),
    {
        if !self.is_end(game, player) {
            return false;
        }
        let m = game.moves(player.opposite());
        let mut i: usize = 0;
        while i < m.len()
            invariant
                i <= m@.len(),
                views(m@) == game@.moves(player.spec_opposite()),
                forall|k: int| 0 <= k < i ==> is_dead_end(#[trigger] game@.moves(player.spec_opposite())[k], player),
            decreases m.len() - i,
        {
            proof {
                lemma_child_birthday(game@, player.spec_opposite(), i as int);
                assert(views(m@)[i as int] == m@[i as int]@);
            }
            if !self.is_dead_end(&m[i], player) {
                return false;
            }
            i += 1;
        }
        true
    }

    /// Every end in every position of `game` is a dead end
    pub fn is_dead_ending(&self, game: &StandardForm) -> (r: bool)
        ensures
            r == is_dead_ending(game@),
        decreases birthday(game@),
    {
        if self.is_end(game, Player::Left) && !self.is_dead_end(game, Player::Left) {
            return false;
        }
        if self.is_end(game, Player::Right) && !self.is_dead_end(game, Player::Right) {
            return false;
        }
        if !self.all_options_dead_ending(game, Player::Left) {
            return false;
        }
        self.all_options_dead_ending(game, Player::Right)
    }

    fn all_options_dead_ending(&self, game: &StandardForm, player: Player) -> (r: bool)
        ensures
            r == forall|i: int| 0 <= i < game@.moves(player).len() ==> is_dead_ending(#[trigger] game@.moves(player)[i]),
        decreases birthday(game@), 0nat,
    {
        let m = game.moves(player);
        let mut i: usize = 0;
        while i < m.len()
            invariant
                i <= m@.len(),
                views(m@) == game@.moves(player),
                forall|k: int| 0 <= k < i ==> is_dead_ending(#[trigger] game@.moves(player)[k]),
            decreases m.len() - i,
        {
            proof {
                lemma_child_birthday(game@, player, i as int);
                assert(views(m@)[i as int] == m@[i as int]@);
            }
            if !self.is_dead_ending(&m[i]) {
                return false;
            }
            i += 1;
        }
        true
    }

    /// `player` has no move in `game`, and every opponent's move leads to a
    /// blocked end or to a position from which `player` can move to one
    pub fn is_blocked_end(&self, game: &StandardForm, player: Player) -> (r: bool)
        ensures
            r == is_blocked_end(game@, player),
        decreases birthday(game@), 1nat,
    {
        if !self.is_end(game, player) {
            return false;
        }
        let m = game.moves(player.opposite());
        let mut i: usize = 0;
        while i < m.len()
            invariant
                i <= m@.len(),
                views(m@) == game@.moves(player.spec_opposite()),
                is_end(game@, player),
                forall|k: int|
                    0 <= k < i ==> {
                        ||| is_blocked_end(#[trigger] game@.moves(player.spec_opposite())[k], player)
                        ||| exists|j: int|
                            0 <= j < game@.moves(player.spec_opposite())[k].moves(player).len()
                                && is_blocked_end(
                                #[trigger] game@.moves(player.spec_opposite())[k].moves(player)[j],
                                player,
                            )
                    },
            decreases m.len() - i,
        {
            let gr = &m[i];
            proof {
                lemma_child_birthday(game@, player.spec_opposite(), i as int);
                assert(views(m@)[i as int] == gr@);
            }
            if !self.is_blocked_end(gr, player) && !self.some_option_blocked_end(gr, player) {
                return false;
            }
            i += 1;
        }
        true
    }

    fn some_option_blocked_end(&self, game: &StandardForm, player: Player) -> (r: bool)
        ensures
            r == exists|j: int| 0 <= j < game@.moves(player).len() && is_blocked_end(#[trigger] game@.moves(player)[j], player),
        decreases birthday(game@), 2nat,
    {
        let m = game.moves(player);
        let mut j: usize = 0;
        while j < m.len()
            invariant
                j <= m@.len(),
                views(m@) == game@.moves(player),
                forall|k: int| 0 <= k < j ==> !is_blocked_end(#[trigger] game@.moves(player)[k], player),
            decreases m.len() - j,
        {
            proof {
                lemma_child_birthday(game@, player, j as int);
                assert(views(m@)[j as int] == m@[j as int]@);
            }
            if self.is_blocked_end(&m[j], player) {
                return true;
            }
            j += 1;
        }
        false
    }

    /// Every end in every position of `game` is a blocked end
    pub fn is_blocking(&self, game: &StandardForm) -> (r: bool)
        ensures
            r == is_blocking(game@),
        decreases birthday(game@),
    {
        if self.is_end(game, Player::Left) && !self.is_blocked_end(game, Player::Left) {
            return false;
        }
        if self.is_end(game, Player::Right) && !self.is_blocked_end(game, Player::Right) {
            return false;
        }
        if !self.all_options_blocking(game, Player::Left) {
            return false;
        }
        self.all_options_blocking(game, Player::Right)
    }

    fn all_options_blocking(&self, game: &StandardForm, player: Player) -> (r: bool)
        ensures
            r == forall|i: int| 0 <= i < game@.moves(player).len() ==> is_blocking(#[trigger] game@.moves(player)[i]),
        decreases birthday(game@), 0nat,
    {
        let m = game.moves(player);
        let mut i: usize = 0;
        while i < m.len()
            invariant
                i <= m@.len(),
                views(m@) == game@.moves(player),
                forall|k: int| 0 <= k < i ==> is_blocking(#[trigger] game@.moves(player)[k]),
            decreases m.len() - i,
        {
            proof {
                lemma_child_birthday(game@, player, i as int);
                assert(views(m@)[i as int] == m@[i as int]@);
            }
            if !self.is_blocking(&m[i]) {
                return false;
            }
            i += 1;
        }
        true
    }

    /// Conjugate of `game`: Left and Right swapped at every position
    pub fn conjugate(&self, game: &StandardForm) -> (r: Result<StandardForm, Infallible>)
        ensures
            r matches Ok(c) && c@ == conjugate_tree(game@),
        decreases birthday(game@), 1nat,
    {
        let left = match self.conjugate_options(game, Player::Right) {
            Ok(v) => v,
            Err(e) => return Err(e),
        };
        let right = match self.conjugate_options(game, Player::Left) {
            Ok(v) => v,
            Err(e) => return Err(e),
        };
        let c = StandardForm::new(left, right);
        Ok(c)
    }

    fn conjugate_options(&self, game: &StandardForm, player: Player) -> (r: Result<Vec<StandardForm>, Infallible>)
        ensures
            r matches Ok(v) && views(v@) == conjugate_moves(game@, player),
        decreases birthday(game@), 0nat,
    {
        let m = game.moves(player);
        let mut out: Vec<StandardForm> = Vec::new();
        let mut i: usize = 0;
        while i < m.len()
            invariant
                i <= m@.len(),
                views(m@) == game@.moves(player),
                out@.len() == i,
                forall|k: int| 0 <= k < i ==> #[trigger] views(out@)[k] == conjugate_tree(game@.moves(player)[k]),
            decreases m.len() - i,
        {
            proof {
                lemma_child_birthday(game@, player, i as int);
                assert(views(m@)[i as int] == m@[i as int]@);
            }
            let c = match self.conjugate(&m[i]) {
                Ok(c) => c,
                Err(e) => return Err(e),
            };
            let ghost prev = views(out@);
            let ghost cv = c@;
            out.push(c);
            proof {
                assert(views(out@) =~= prev.push(cv));
            }
            i += 1;
        }
        proof {
            assert(views(out@) =~= conjugate_moves(game@, player));
        }
        Ok(out)
    }

    /// Disjunctive sum of `g` and `h`
    pub fn sum(&self, g: &StandardForm, h: &StandardForm) -> (r: Result<StandardForm, Infallible>)
        ensures
            r matches Ok(s) && s@ == sum_tree(g@, h@),
        decreases birthday(g@) + birthday(h@), 1nat,
    {
        let left = match self.sum_options(g, h, Player::Left) {
            Ok(v) => v,
            Err(e) => return Err(e),
        };
        let right = match self.sum_options(g, h, Player::Right) {
            Ok(v) => v,
            Err(e) => return Err(e),
        };
        let s = StandardForm::new(left, right);
        Ok(s)
    }

    fn sum_options(&self, g: &StandardForm, h: &StandardForm, player: Player) -> (r: Result<Vec<StandardForm>, Infallible>)
        ensures
            r matches Ok(v) && views(v@) == sum_moves(g@, h@, player),
        decreases birthday(g@) + birthday(h@), 0nat,
    {
        let mg = g.moves(player);
        let mh = h.moves(player);
        let ghost target = sum_moves(g@, h@, player);
        let ghost n = mg@.len();
        let mut out: Vec<StandardForm> = Vec::new();
        let mut i: usize = 0;
        while i < mg.len()
            invariant
                i <= mg@.len(),
                n == mg@.len(),
                views(mg@) == g@.moves(player),
                views(mh@) == h@.moves(player),
                target == sum_moves(g@, h@, player),
                out@.len() == i,
                forall|k: int| 0 <= k < i ==> #[trigger] views(out@)[k] == target[k],
            decreases mg.len() - i,
        {
            proof {
                lemma_child_birthday(g@, player, i as int);
                assert(views(mg@)[i as int] == mg@[i as int]@);
            }
            let s = match self.sum(&mg[i], h) {
                Ok(s) => s,
                Err(e) => return Err(e),
            };
            let ghost prev = views(out@);
            let ghost sv = s@;
            out.push(s);
            proof {
                assert(views(out@) =~= prev.push(sv));
                assert(target[i as int] == sum_tree(g@.moves(player)[i as int], h@));
            }
            i += 1;
        }
        let mut j: usize = 0;
        while j < mh.len()
            invariant
                j <= mh@.len(),
                n == mg@.len(),
                views(mg@) == g@.moves(player),
                views(mh@) == h@.moves(player),
                target == sum_moves(g@, h@, player),
                out@.len() == n + j,
                forall|k: int| 0 <= k < n + j ==> #[trigger] views(out@)[k] == target[k],
            decreases mh.len() - j,
        {
            proof {
                lemma_child_birthday(h@, player, j as int);
                assert(views(mh@)[j as int] == mh@[j as int]@);
            }
            let s = match self.sum(g, &mh[j]) {
                Ok(s) => s,
                Err(e) => return Err(e),
            };
            let ghost prev = views(out@);
            let ghost sv = s@;
            out.push(s);
            proof {
                assert(views(out@) =~= prev.push(sv));
                assert(target[n + j] == sum_tree(g@, h@.moves(player)[j as int]));
            }
            j += 1;
        }
        proof {
            assert(views(out@) =~= target);
        }
        Ok(out)
    }

    /// Birthday of `game`: the height of its game tree
    pub fn birthday(&self, game: &StandardForm) -> (r: u32)
        requires
            birthday(game@) <= u32::MAX,
        ensures
            r == birthday(game@),
        decreases birthday(game@), 1nat,
    {
        let a = self.options_birthday(game, Player::Left);
        let b = self.options_birthday(game, Player::Right);
        if a >= b {
            a
        } else {
            b
        }
    }

    fn options_birthday(&self, game: &StandardForm, player: Player) -> (r: u32)
        requires
            birthday(game@) <= u32::MAX,
        ensures
            r == options_birthday(game@.moves(player)),
        decreases birthday(game@), 0nat,
    {
        let m = game.moves(player);
        let ghost s = game@.moves(player);
        let mut i: usize = m.len();
        let mut best: u32 = 0;
        assert(s.subrange(s.len() as int, s.len() as int) =~= Seq::<GameTree>::empty());
        while i > 0
            invariant
                i <= m@.len(),
                views(m@) == s,
                s == game@.moves(player),
                birthday(game@) <= u32::MAX,
                best == options_birthday(s.subrange(i as int, s.len() as int)),
            decreases i,
        {
            i -= 1;
            proof {
                lemma_child_birthday(game@, player, i as int);
                assert(views(m@)[i as int] == m@[i as int]@);
                let t = s.subrange(i as int, s.len() as int);
                assert(t[0] == s[i as int]);
                assert(t.subrange(1, t.len() as int) =~= s.subrange(i + 1, s.len() as int));
            }
            let b = self.birthday(&m[i]) + 1;
            if b >= best {
                best = b;
            }
        }
        proof {
            assert(s.subrange(0, s.len() as int) =~= s);
        }
        best
    }

    /// Total structural order of forms
    pub fn total_cmp(&self, lhs: &StandardForm, rhs: &StandardForm) -> (r: Ordering)
        ensures
            r == (if tree_order(lhs@, rhs@) < 0 {
                Ordering::Less
            } else if tree_order(lhs@, rhs@) == 0 {
                Ordering::Equal
            } else {
                Ordering::Greater
            }),
    {
        let c = compare_forms(lhs, rhs);
        if c < 0 {
            Ordering::Less
        } else if c == 0 {
            Ordering::Equal
        } else {
            Ordering::Greater
        }
    }

    /// Structural equality of forms
    pub fn total_eq(&self, lhs: &StandardForm, rhs: &StandardForm) -> (r: bool)
        ensures
            r == (lhs@ == rhs@),
    {
        proof {
            lemma_tree_order_antisym(lhs@, rhs@);
            lemma_tree_order_refl(lhs@);
        }
        compare_forms(lhs, rhs) == 0
    }
}

} // verus!
