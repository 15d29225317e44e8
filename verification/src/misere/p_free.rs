//! P-free game forms: forms none of whose positions is a P-position, and
//! their tipping points.

use vstd::prelude::*;
use vstd::string::StringSliceAdditionalSpecFns;
use std::cmp::Ordering;
use std::convert::Infallible;
use crate::misere::game_form::context::StandardFormContext;
use crate::misere::game_form::form::{canonical, node, views, StandardForm};
use crate::misere::game_form::parse::parse_form_at;
use crate::misere::game_form::laws::{law_integer_p_free, lemma_sum_options};
use crate::misere::game_form::theory::{
    birthday, integer_tree, is_blocking, is_dead_ending, is_p_free, lemma_child_birthday, outcome,
    sum_tree, tree_to_integer, wins_going_first, Outcome,
};
use crate::misere::game_form::tree::{tree_order, GameTree};
use crate::partizan::Player;

verus! {

/// The chain of `n` moves for the opponent of `player` only: `-n` when
/// `player` is Left, `n` when `player` is Right.
pub open spec fn handicap(player: Player, n: nat) -> GameTree {
    match player {
        Player::Left => integer_tree(-(n as int)),
        Player::Right => integer_tree(n as int),
    }
}

/// `g` plus the handicap of `n` moves against `player`
pub open spec fn tipping_sum(g: GameTree, player: Player, n: nat) -> GameTree {
    sum_tree(g, handicap(player, n))
}

/// The outcome in which `player` wins whoever starts
pub open spec fn win_for(player: Player) -> Outcome {
    match player {
        Player::Left => Outcome::L,
        Player::Right => Outcome::R,
    }
}

/// With a handicap of `n` moves against `player`, `player` wins whoever starts.
pub open spec fn tips(g: GameTree, player: Player, n: nat) -> bool {
    outcome(tipping_sum(g, player, n)) == win_for(player)
}

/// The least handicap with which `player` wins whoever starts
pub open spec fn is_tipping_point(g: GameTree, player: Player, n: nat) -> bool {
    tips(g, player, n) && forall|k: nat| k < n ==> !tips(g, player, k)
}

/// The handicaps up to the tipping point of `player` all give P-free sums.
pub open spec fn tipping_sums_p_free(g: GameTree, player: Player) -> bool {
    forall|k: nat|
        k <= birthday(g) + 1 && (forall|j: nat| j < k ==> !tips(g, player, j)) ==> is_p_free(
            #[trigger] tipping_sum(g, player, k),
        )
}

/// Adding `n` or `-n` to `g` gives a next-player win.
pub open spec fn next_tips(g: GameTree, n: nat) -> bool {
    outcome(sum_tree(g, integer_tree(n as int))) == Outcome::N || outcome(
        sum_tree(g, integer_tree(-(n as int))),
    ) == Outcome::N
}

/// The least `n` such that `g + n` or `g - n` is a next-player win
pub open spec fn is_next_tipping_point(g: GameTree, n: nat) -> bool {
    next_tips(g, n) && forall|k: nat| k < n ==> !next_tips(g, k)
}

/// The sums computed while searching for the next tipping point are P-free:
/// `g + k` for every `k` up to it, and `g - k` when `g + k` is not a
/// next-player win.
pub open spec fn next_tipping_sums_p_free(g: GameTree) -> bool {
    forall|k: nat|
        (forall|j: nat| j < k ==> !next_tips(g, j)) ==> {
            &&& is_p_free(#[trigger] sum_tree(g, integer_tree(k as int)))
            &&& outcome(sum_tree(g, integer_tree(k as int))) != Outcome::N ==> is_p_free(
                sum_tree(g, integer_tree(-(k as int))),
            )
        }
}

proof fn lemma_handicap_moves(player: Player, n: nat)
    ensures
        handicap(player, n).moves(player).len() == 0,
        n == 0 ==> handicap(player, n).moves(player.spec_opposite()).len() == 0,
        n > 0 ==> handicap(player, n).moves(player.spec_opposite()) == seq![
            handicap(player, (n - 1) as nat),
        ],
{
    if n > 0 {
        match player {
            Player::Left => {
                assert(-(n as int) + 1 == -((n - 1) as nat as int));
            },
            Player::Right => {},
        }
    }
}

proof fn lemma_handicap_first(g: GameTree, player: Player, n: nat)
    requires
        n >= birthday(g),
    ensures
        wins_going_first(tipping_sum(g, player, n), player),
    decreases birthday(g), n, 1nat,
{
    let h = handicap(player, n);
    let s = tipping_sum(g, player, n);
    let q = player.spec_opposite();
    lemma_handicap_moves(player, n);
    lemma_sum_options(g, h, player);
    if g.moves(player).len() > 0 {
        let c = g.moves(player)[0];
        lemma_child_birthday(g, player, 0);
        lemma_handicap_second(c, player, n);
        let x = sum_tree(c, h);
        assert(s.moves(player).contains(x));
        let k = choose|k: int| 0 <= k < s.moves(player).len() && s.moves(player)[k] == x;
        assert(!wins_going_first(s.moves(player)[k], q));
    }
}

proof fn lemma_handicap_second(g: GameTree, player: Player, n: nat)
    requires
        n > birthday(g),
    ensures
        !wins_going_first(tipping_sum(g, player, n), player.spec_opposite()),
    decreases birthday(g), n, 0nat,
{
    let h = handicap(player, n);
    let s = tipping_sum(g, player, n);
    let q = player.spec_opposite();
    assert(q.spec_opposite() == player);
    lemma_handicap_moves(player, n);
    lemma_sum_options(g, h, q);
    assert(h.moves(q).len() == 1);
    assert forall|k: int| 0 <= k < s.moves(q).len() implies wins_going_first(#[trigger] s.moves(q)[k], player) by {
        let y = s.moves(q)[k];
        assert(s.moves(q).contains(y));
        if exists|i: int| 0 <= i < g.moves(q).len() && y == sum_tree(#[trigger] g.moves(q)[i], h) {
            let i = choose|i: int| 0 <= i < g.moves(q).len() && y == sum_tree(#[trigger] g.moves(q)[i], h);
            lemma_child_birthday(g, q, i);
            lemma_handicap_first(g.moves(q)[i], player, n);
        } else {
            let j = choose|j: int| 0 <= j < h.moves(q).len() && y == sum_tree(g, #[trigger] h.moves(q)[j]);
            assert(j == 0);
            lemma_handicap_first(g, player, (n - 1) as nat);
        }
    }
}

/// With a handicap of more moves than the birthday of `g`, `player` wins
/// `g` whoever starts: every tipping point is at most the birthday plus one.
pub proof fn law_tipping_beyond_birthday(g: GameTree, player: Player, n: nat)
    requires
        n > birthday(g),
    ensures
        tips(g, player, n),
{
    lemma_handicap_first(g, player, n);
    lemma_handicap_second(g, player, n);
    match player {
        Player::Left => {},
        Player::Right => {},
    }
}

/// Context whose forms are the P-free forms of an underlying context
#[derive(Debug, Clone, Copy, PartialEq, Eq, PartialOrd, Ord, Hash)]
pub struct PFreeFormContext<C> {
    context: C,
}

impl<C> PFreeFormContext<C> {
    /// P-free context over `context`
    pub fn new(context: C) -> (r: Self)
        ensures
            r.underlying_spec() == context,
    {
        PFreeFormContext { context }
    }

    pub closed spec fn underlying_spec(self) -> C {
        self.context
    }

    /// The underlying context
    pub fn underlying(&self) -> (r: &C)
        ensures
            *r == self.underlying_spec(),
    {
        &self.context
    }
}

/// A form known to be P-free
#[derive(Debug)]
pub struct PFreeForm<G> {
    underlying: G,
}

impl<G> PFreeForm<G> {
    pub(crate) fn new_unchecked(underlying: G) -> (r: PFreeForm<G>)
        ensures
            r.underlying_spec() == underlying,
    {
        PFreeForm { underlying }
    }

    pub closed spec fn underlying_spec(self) -> G {
        self.underlying
    }

    /// The underlying form
    pub fn underlying(&self) -> (r: &G)
        ensures
            *r == self.underlying_spec(),
    {
        &self.underlying
    }

    /// The underlying form, by value
    pub fn into_underlying(self) -> (r: G)
        ensures
            r == self.underlying_spec(),
    {
        self.underlying
    }
}

impl View for PFreeForm<StandardForm> {
    type V = GameTree;

    open spec fn view(&self) -> GameTree {
        self.underlying_spec()@
    }
}

impl Clone for PFreeForm<StandardForm> {
    fn clone(&self) -> (r: Self)
        ensures
            r@ == self@,
    {
        PFreeForm { underlying: self.underlying.clone() }
    }
}

/// The trees of a sequence of P-free forms
pub open spec fn p_free_views(s: Seq<PFreeForm<StandardForm>>) -> Seq<GameTree> {
    Seq::new(s.len(), |i: int| s[i]@)
}

/// Why a P-free form could not be built
#[derive(Debug, Clone, Copy, PartialEq, Eq, PartialOrd, Ord, Hash)]
pub enum PFreeConstructionError<E> {
    /// The form would not be P-free
    NotPFree,
    /// The underlying context refused the form
    Underlying(E),
}

fn into_underlying_vec(v: Vec<PFreeForm<StandardForm>>) -> (r: Vec<StandardForm>)
    ensures
        views(r@) == p_free_views(v@),
{
    let ghost target = p_free_views(v@);
    let mut v = v;
    let mut out: Vec<StandardForm> = Vec::new();
    let n = v.len();
    let mut rev: Vec<StandardForm> = Vec::new();
    while v.len() > 0
        invariant
            v@.len() <= n,
            n == target.len(),
            rev@.len() == n - v@.len(),
            forall|k: int| 0 <= k < v@.len() ==> #[trigger] v@[k]@ == target[k],
            forall|k: int| 0 <= k < rev@.len() ==> #[trigger] rev@[k]@ == target[n - 1 - k],
        decreases v.len(),
    {
        let ghost old_rev = rev@;
        let ghost old_v = v@;
        let f = v.pop().unwrap();
        proof {
            assert(f == old_v[old_v.len() - 1]);
            assert(f@ == target[old_v.len() - 1]);
        }
        let u = f.into_underlying();
        rev.push(u);
        proof {
            assert(rev@ == old_rev.push(u));
            assert(u@ == target[old_v.len() - 1]);
            assert forall|k: int| 0 <= k < v@.len() implies #[trigger] v@[k]@ == target[k] by {
                assert(v@[k] == old_v[k]);
            }
        }
    }
    while rev.len() > 0
        invariant
            rev@.len() + out@.len() == n,
            n == target.len(),
            forall|k: int| 0 <= k < rev@.len() ==> #[trigger] rev@[k]@ == target[n - 1 - k],
            forall|k: int| 0 <= k < out@.len() ==> #[trigger] out@[k]@ == target[k],
        decreases rev.len(),
    {
        let g = rev.pop().unwrap();
        out.push(g);
    }
    assert(views(out@) =~= target);
    out
}

impl StandardFormContext {
    /// `game` as a P-free form, or `game` back when it is not P-free
    pub fn to_p_free(&self, game: StandardForm) -> (r: Result<PFreeForm<StandardForm>, StandardForm>)
        ensures
            is_p_free(game@) ==> (r matches Ok(f) && f@ == game@),
            !is_p_free(game@) ==> (r matches Err(g) && g@ == game@),
    {
        if self.is_p_free(&game) {
            Ok(PFreeForm::new_unchecked(game))
        } else {
            Err(game)
        }
    }
}

impl PFreeFormContext<StandardFormContext> {
    /// P-free form with the given options; refused when it is not P-free
    pub fn new_form(
        &self,
        left: Vec<PFreeForm<StandardForm>>,
        right: Vec<PFreeForm<StandardForm>>,
    ) -> (r: Result<PFreeForm<StandardForm>, PFreeConstructionError<Infallible>>)
        ensures
            is_p_free(node(p_free_views(left@), p_free_views(right@))) ==> (r matches Ok(g) && g@
                == node(p_free_views(left@), p_free_views(right@))),
            !is_p_free(node(p_free_views(left@), p_free_views(right@))) ==> r matches Err(
                PFreeConstructionError::NotPFree,
            ),
    {
        let l = into_underlying_vec(left);
        let r = into_underlying_vec(right);
        let g = StandardForm::new(l, r);
        match self.context.to_p_free(g) {
            Ok(f) => Ok(f),
            Err(_) => Err(PFreeConstructionError::NotPFree),
        }
    }

    /// The integer `n`, which is P-free
    pub fn new_integer(&self, n: i32) -> (r: Result<PFreeForm<StandardForm>, Infallible>)
        ensures
            r matches Ok(g) && g@ == integer_tree(n as int) && is_p_free(g@),
    {
        proof {
            law_integer_p_free(n as int);
        }
        match self.context.new_integer(n) {
            Ok(g) => Ok(PFreeForm::new_unchecked(g)),
            Err(e) => Err(e),
        }
    }

    /// Disjunctive sum; refused when the sum is not P-free
    pub fn sum(&self, g: &PFreeForm<StandardForm>, h: &PFreeForm<StandardForm>) -> (r: Result<
        PFreeForm<StandardForm>,
        PFreeConstructionError<Infallible>,
    >)
        ensures
            is_p_free(sum_tree(g@, h@)) ==> (r matches Ok(s) && s@ == sum_tree(g@, h@)),
            !is_p_free(sum_tree(g@, h@)) ==> r matches Err(PFreeConstructionError::NotPFree),
    {
        let s = match self.context.sum(&g.underlying, &h.underlying) {
            Ok(s) => s,
            Err(e) => return Err(PFreeConstructionError::Underlying(e)),
        };
        match self.context.to_p_free(s) {
            Ok(f) => Ok(f),
            Err(_) => Err(PFreeConstructionError::NotPFree),
        }
    }

    /// Outcome class of `game`
    pub fn outcome(&self, game: &PFreeForm<StandardForm>) -> (r: Outcome)
        ensures
            r == outcome(game@),
    {
        self.context.outcome(&game.underlying)
    }

    /// Every form of this context is P-free
    pub fn is_p_free(&self, game: &PFreeForm<StandardForm>) -> (r: bool)
        ensures
            r,
    {
        true
    }

    /// Total structural order of forms
    pub fn total_cmp(&self, lhs: &PFreeForm<StandardForm>, rhs: &PFreeForm<StandardForm>) -> (r: Ordering)
        ensures
            r == (if tree_order(lhs@, rhs@) < 0 {
                Ordering::Less
            } else if tree_order(lhs@, rhs@) == 0 {
                Ordering::Equal
            } else {
                Ordering::Greater
            }),
    {
        self.context.total_cmp(&lhs.underlying, &rhs.underlying)
    }

    /// Structural equality of forms
    pub fn total_eq(&self, lhs: &PFreeForm<StandardForm>, rhs: &PFreeForm<StandardForm>) -> (r: bool)
        ensures
            r == (lhs@ == rhs@),
    {
        self.context.total_eq(&lhs.underlying, &rhs.underlying)
    }

    /// Options of `player` in `game`; options of P-free forms are P-free
    pub fn moves(&self, game: &PFreeForm<StandardForm>, player: Player) -> (r: Vec<PFreeForm<StandardForm>>)
        ensures
            p_free_views(r@) == game@.moves(player),
            canonical(game@),
    {
        let m = game.underlying.moves(player);
        let mut out: Vec<PFreeForm<StandardForm>> = Vec::new();
        let mut i: usize = 0;
        while i < m.len()
            invariant
                i <= m@.len(),
                views(m@) == game@.moves(player),
                out@.len() == i,
                forall|k: int| 0 <= k < i ==> #[trigger] out@[k]@ == views(m@)[k],
            decreases m.len() - i,
        {
            let c = m[i].clone();
            out.push(PFreeForm::new_unchecked(c));
            i += 1;
        }
        assert(p_free_views(out@) =~= game@.moves(player));
        out
    }

    /// The integer that `game` is, if any
    pub fn to_integer(&self, game: &PFreeForm<StandardForm>) -> (r: Option<i32>)
        requires
            birthday(game@) <= i32::MAX,
        ensures
            r == match tree_to_integer(game@) {
                Some(n) => Some(n as i32),
                None => None::<i32>,
            },
    {
        self.context.to_integer(&game.underlying)
    }

    /// Whether `player` wins `game` moving first
    pub fn wins_going_first(&self, game: &PFreeForm<StandardForm>, player: Player) -> (r: bool)
        ensures
            r == wins_going_first(game@, player),
    {
        self.context.wins_going_first(&game.underlying, player)
    }

    /// Every end in every position of `game` is a dead end
    pub fn is_dead_ending(&self, game: &PFreeForm<StandardForm>) -> (r: bool)
        ensures
            r == is_dead_ending(game@),
    {
        self.context.is_dead_ending(&game.underlying)
    }

    /// Every end in every position of `game` is a blocked end
    pub fn is_blocking(&self, game: &PFreeForm<StandardForm>) -> (r: bool)
        ensures
            r == is_blocking(game@),
    {
        self.context.is_blocking(&game.underlying)
    }

    /// Text of `game`
    pub fn to_string(&self, game: &PFreeForm<StandardForm>) -> (r: String)
        requires
            birthday(game@) <= i32::MAX,
        ensures
            r@ == crate::misere::game_form::display::show(game@),
    {
        self.context.to_string(&game.underlying)
    }

    /// Parse a P-free form from the start of `input`; text after the form is
    /// ignored, and forms that are not P-free are refused.
    pub fn from_str(&self, input: &str) -> (r: Option<PFreeForm<StandardForm>>)
        ensures
            match parse_form_at(input.spec_bytes(), 0) {
                Some((p, t)) => if is_p_free(t) {
                    r matches Some(g) && g@ == t
                } else {
                    r is None
                },
                None => r is None,
            },
    {
        match self.context.from_str(input) {
            Some(g) => if self.context.is_p_free(&g) {
                Some(PFreeForm::new_unchecked(g))
            } else {
                None
            },
            None => None,
        }
    }
}

/// Tipping points of P-free forms
pub trait PFreeContext {
    /// The least handicap of moves against `player` with which `player` wins
    /// whoever starts.
    fn tipping_point(&self, game: &PFreeForm<StandardForm>, player: Player) -> (r: u32)
        requires
            birthday(game@) < i32::MAX,
            tipping_sums_p_free(game@, player),
        ensures
            is_tipping_point(game@, player, r as nat),
    ;

    /// The least `n` such that Left wins `game - n` whoever starts
    fn left_tipping_point(&self, game: &PFreeForm<StandardForm>) -> (r: u32)
        requires
            birthday(game@) < i32::MAX,
            tipping_sums_p_free(game@, Player::Left),
        ensures
            is_tipping_point(game@, Player::Left, r as nat),
    ;

    /// The least `n` such that Right wins `game + n` whoever starts
    fn right_tipping_point(&self, game: &PFreeForm<StandardForm>) -> (r: u32)
        requires
            birthday(game@) < i32::MAX,
            tipping_sums_p_free(game@, Player::Right),
        ensures
            is_tipping_point(game@, Player::Right, r as nat),
    ;

    /// The least `n` such that `game + n` or `game - n` is a next-player win
    fn next_tipping_point(&self, game: &PFreeForm<StandardForm>) -> (r: u32)
        requires
            birthday(game@) < i32::MAX,
            exists|n: nat| next_tips(game@, n),
            next_tipping_sums_p_free(game@),
        ensures
            is_next_tipping_point(game@, r as nat),
    ;
}

impl PFreeContext for PFreeFormContext<StandardFormContext> {
    fn tipping_point(&self, game: &PFreeForm<StandardForm>, player: Player) -> (r: u32) {
        let ghost b = birthday(game@);
        let mut n: u32 = 0;
        loop
            invariant
                n <= b + 1,
                b == birthday(game@),
                b < i32::MAX,
                tipping_sums_p_free(game@, player),
                forall|k: nat| k < n ==> !tips(game@, player, k),
            decreases b + 1 - n,
        {
            let offset: i32 = match player {
                Player::Left => -(n as i32),
                Player::Right => n as i32,
            };
            let h = match self.new_integer(offset) {
                Ok(h) => h,
                Err(_) => {
                    return n;
                },
            };
            proof {
                assert(h@ == handicap(player, n as nat));
                assert(is_p_free(tipping_sum(game@, player, n as nat)));
            }
            let s = match self.sum(game, &h) {
                Ok(s) => s,
                Err(_) => {
                    return n;
                },
            };
            let o = self.outcome(&s);
            let won = match player {
                Player::Left => o == Outcome::L,
                Player::Right => o == Outcome::R,
            };
            if won {
                return n;
            }
            proof {
                if n == b + 1 {
                    law_tipping_beyond_birthday(game@, player, n as nat);
                }
            }
            n += 1;
        }
    }

    fn left_tipping_point(&self, game: &PFreeForm<StandardForm>) -> (r: u32) {
        self.tipping_point(game, Player::Left)
    }

    fn right_tipping_point(&self, game: &PFreeForm<StandardForm>) -> (r: u32) {
        self.tipping_point(game, Player::Right)
    }

    fn next_tipping_point(&self, game: &PFreeForm<StandardForm>) -> (r: u32) {
        let ghost b = birthday(game@);
        let ghost w = choose|n: nat| next_tips(game@, n);
        let mut n: u32 = 0;
        loop
            invariant
                n <= w,
                next_tips(game@, w),
                b == birthday(game@),
                b < i32::MAX,
                next_tipping_sums_p_free(game@),
                forall|k: nat| k < n ==> !next_tips(game@, k),
            decreases w - n,
        {
            proof {
                if w > b {
                    law_tipping_beyond_birthday(game@, Player::Left, w);
                    law_tipping_beyond_birthday(game@, Player::Right, w);
                }
                assert(w <= b);
                assert(is_p_free(sum_tree(game@, integer_tree(n as int))));
            }
            let hp = match self.new_integer(n as i32) {
                Ok(h) => h,
                Err(_) => {
                    return n;
                },
            };
            let sp = match self.sum(game, &hp) {
                Ok(s) => s,
                Err(_) => {
                    return n;
                },
            };
            if self.outcome(&sp) == Outcome::N {
                return n;
            }
            let hm = match self.new_integer(-(n as i32)) {
                Ok(h) => h,
                Err(_) => {
                    return n;
                },
            };
            let sm = match self.sum(game, &hm) {
                Ok(s) => s,
                Err(_) => {
                    return n;
                },
            };
            if self.outcome(&sm) == Outcome::N {
                return n;
            }
            n += 1;
        }
    }
}

} // verus!
