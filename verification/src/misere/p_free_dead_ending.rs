//! Comparison and reduction of P-free dead-ending game forms.

use vstd::prelude::*;
use std::convert::Infallible;
use crate::misere::game_form::context::StandardFormContext;
use crate::misere::game_form::form::{node, StandardForm};
use crate::misere::game_form::theory::{
    birthday, integer_tree, is_p_free, lemma_child_birthday, lemma_integer_birthday, tree_to_integer,
};
use crate::misere::game_form::tree::{lemma_canonical_seq, canonical_seq, GameTree};
use crate::misere::game_form::laws::{lemma_canonical_single, law_integer_roundtrip};
use crate::misere::p_free::{p_free_views, PFreeConstructionError, PFreeForm, PFreeFormContext};
use crate::partizan::Player;

verus! {

/// A context that compares game forms modulo the dead-ending universe.
pub trait DeadEndingContext: Sized {
    /// `g >= h` modulo the dead-ending universe, as this context decides it
    spec fn ge_mod_dead_ending_spec(&self, g: GameTree, h: GameTree) -> bool;

    /// Whether `g >= h` modulo the dead-ending universe; the answer depends on
    /// the two forms alone.
    fn ge_mod_dead_ending(&self, g: &PFreeForm<StandardForm>, h: &PFreeForm<StandardForm>) -> (r: bool)
        ensures
            r == self.ge_mod_dead_ending_spec(g@, h@),
    ;
}

/// `g >= h` modulo the P-free dead-ending universe: integers compare as
/// `g <= h`; other forms compare as in the dead-ending universe.
pub open spec fn ge_mod_p_free_dead_ending_spec<D: DeadEndingContext>(
    d: &D,
    g: GameTree,
    h: GameTree,
) -> bool {
    match (tree_to_integer(g), tree_to_integer(h)) {
        (Some(a), Some(b)) => a <= b,
        _ => d.ge_mod_dead_ending_spec(g, h),
    }
}

/// Integers compare in reverse order modulo the P-free dead-ending
/// universe: `a >= b` there exactly when `a <= b` as integers, whatever the
/// dead-ending comparison.
pub proof fn law_integers_compare_reversed<D: DeadEndingContext>(d: &D, a: int, b: int)
    ensures
        ge_mod_p_free_dead_ending_spec(d, integer_tree(a), integer_tree(b)) == (a <= b),
{
    law_integer_roundtrip(a);
    law_integer_roundtrip(b);
}

/// When either form is not an integer, the comparison modulo the P-free
/// dead-ending universe is the dead-ending comparison of the two forms.
pub proof fn law_non_integers_compare_as_dead_ending<D: DeadEndingContext>(d: &D, g: GameTree, h: GameTree)
    requires
        tree_to_integer(g) is None || tree_to_integer(h) is None,
    ensures
        ge_mod_p_free_dead_ending_spec(d, g, h) == d.ge_mod_dead_ending_spec(g, h),
{
}

/// `worse` is dominated by `better` as an option of `player`
pub open spec fn dominated<D: DeadEndingContext>(
    d: &D,
    worse: GameTree,
    better: GameTree,
    player: Player,
) -> bool {
    match player {
        Player::Left => ge_mod_p_free_dead_ending_spec(d, better, worse),
        Player::Right => ge_mod_p_free_dead_ending_spec(d, worse, better),
    }
}

/// `output` is what is left of the options `input` of `player` after
/// dominated options are removed: some of the options, none dominated by
/// another that is kept, each removed option dominated by an option, and at
/// least one kept when there is any.
pub open spec fn eliminated<D: DeadEndingContext>(
    d: &D,
    input: Seq<GameTree>,
    output: Seq<GameTree>,
    player: Player,
) -> bool {
    &&& output.to_multiset().subset_of(input.to_multiset())
    &&& forall|i: int, j: int|
        0 <= i < output.len() && 0 <= j < output.len() && i != j ==> !dominated(
            d,
            #[trigger] output[i],
            #[trigger] output[j],
            player,
        )
    &&& forall|x: GameTree|
        #[trigger] input.contains(x) ==> output.contains(x) || exists|y: GameTree|
            input.to_multiset().remove(x).count(y) > 0 && dominated(d, x, y, player)
    &&& input.len() > 0 ==> output.len() > 0
    &&& dominance_transitive(d, input, player) ==> covers(d, input, output, player)
}

/// `s` with the element at `k` removed and the last element moved into its
/// place
pub open spec fn swap_removed(s: Seq<GameTree>, k: int) -> Seq<GameTree> {
    s.update(k, s.last()).drop_last()
}

/// What the elimination of dominated options of `player` leaves of `s` when
/// it goes on from the option at `i` compared with the option at `j`: when
/// the option at `i` is dominated by the one at `j`, it is removed, the last
/// option taking its place, and that place is compared anew from the next
/// position on; otherwise, when the option at `j` is dominated by the one at
/// `i`, it is removed in the same way; otherwise the comparison moves on to
/// the next `j`, and once every `j` is done, to the next `i`. The options
/// at `i` are compared with those after it only.
pub open spec fn eliminate_from<D: DeadEndingContext>(
    d: &D,
    s: Seq<GameTree>,
    player: Player,
    i: int,
    j: int,
) -> Seq<GameTree>
    decreases s.len(), s.len() - i, s.len() - j,
{
    if i < 0 || i >= s.len() {
        s
    } else if j <= i {
        eliminate_from(d, s, player, i, i + 1)
    } else if j >= s.len() {
        eliminate_from(d, s, player, i + 1, i + 2)
    } else if dominated(d, s[i], s[j], player) {
        eliminate_from(d, swap_removed(s, i), player, i, i + 1)
    } else if dominated(d, s[j], s[i], player) {
        eliminate_from(d, swap_removed(s, j), player, i, j)
    } else {
        eliminate_from(d, s, player, i, j + 1)
    }
}

/// The options of `player` that are left of `s` once dominated options are
/// removed, each option compared in turn with those after it
pub open spec fn eliminated_options<D: DeadEndingContext>(d: &D, s: Seq<GameTree>, player: Player) -> Seq<
    GameTree,
> {
    eliminate_from(d, s, player, 0, 1)
}

/// What `g` reduces to: dominated options removed on both sides, and pairs
/// of single integer options collapsed
pub open spec fn reduced_form<D: DeadEndingContext>(d: &D, g: GameTree) -> GameTree {
    reduced_tree(eliminated_options(d, g.left, Player::Left), eliminated_options(d, g.right, Player::Right))
}

/// Domination among the options `s` of `player` is transitive.
pub open spec fn dominance_transitive<D: DeadEndingContext>(d: &D, s: Seq<GameTree>, player: Player) -> bool {
    forall|x: GameTree, y: GameTree, z: GameTree|
        #![trigger dominated(d, x, y, player), dominated(d, y, z, player)]
        s.contains(x) && s.contains(y) && s.contains(z) && dominated(d, x, y, player) && dominated(
            d,
            y,
            z,
            player,
        ) ==> dominated(d, x, z, player)
}

/// Every option of `input` is in `output` or dominated by an option of
/// `output`.
pub open spec fn covers<D: DeadEndingContext>(
    d: &D,
    input: Seq<GameTree>,
    output: Seq<GameTree>,
    player: Player,
) -> bool {
    forall|x: GameTree|
        #[trigger] input.contains(x) ==> output.contains(x) || exists|y: GameTree|
            output.contains(y) && dominated(d, x, y, player)
}

/// The form left after dominated options are removed: certain pairs of
/// single integer options collapse to an integer; otherwise the form with the
/// remaining options.
pub open spec fn reduced_tree(left: Seq<GameTree>, right: Seq<GameTree>) -> GameTree {
    if left.len() == 1 && right.len() == 1 {
        match (tree_to_integer(left[0]), tree_to_integer(right[0])) {
            (Some(a), Some(b)) => if a == -1 && b == 1 {
                integer_tree(0)
            } else if a >= 0 && b <= a + 2 {
                integer_tree(a + 1)
            } else if b <= 0 && a >= b - 2 {
                integer_tree(b - 1)
            } else {
                node(left, right)
            },
            _ => node(left, right),
        }
    } else {
        node(left, right)
    }
}

/// A form `{a|b}` whose options are single integers with `a < b <= a + 2`
/// collapses to an integer: to the one whose only option is Left's `a` when
/// `a >= 0`, to the one whose only option is Right's `b` when `b <= 0`, and
/// to 0, with no option, for `{-1|1}`.
pub proof fn law_integer_options_collapse(a: int, b: int)
    requires
        a < b,
        b - a <= 2,
    ensures
        tree_to_integer(reduced_tree(seq![integer_tree(a)], seq![integer_tree(b)])) is Some,
        a >= 0 ==> reduced_tree(seq![integer_tree(a)], seq![integer_tree(b)]) == node(
            seq![integer_tree(a)],
            Seq::<GameTree>::empty(),
        ),
        b <= 0 ==> reduced_tree(seq![integer_tree(a)], seq![integer_tree(b)]) == node(
            Seq::<GameTree>::empty(),
            seq![integer_tree(b)],
        ),
        a < 0 && 0 < b ==> reduced_tree(seq![integer_tree(a)], seq![integer_tree(b)]) == node(
            Seq::<GameTree>::empty(),
            Seq::<GameTree>::empty(),
        ),
{
    let l = seq![integer_tree(a)];
    let r = seq![integer_tree(b)];
    let e = Seq::<GameTree>::empty();
    law_integer_roundtrip(a);
    law_integer_roundtrip(b);
    lemma_canonical_single(integer_tree(a));
    lemma_canonical_single(integer_tree(b));
    assert(canonical_seq(e) == e);
    let t = reduced_tree(l, r);
    if a == -1 && b == 1 {
        assert(t == integer_tree(0));
        assert(node(e, e) =~= integer_tree(0));
        law_integer_roundtrip(0);
    } else if a >= 0 {
        assert(t == integer_tree(a + 1));
        assert(node(l, e) =~= integer_tree(a + 1));
        law_integer_roundtrip(a + 1);
    } else {
        assert(b <= 0);
        assert(t == integer_tree(b - 1));
        assert(node(e, r) =~= integer_tree(b - 1));
        law_integer_roundtrip(b - 1);
    }
}

/// Whatever the dead-ending comparison, a form whose options left after
/// elimination are the integer -1 for Left and the integer 1 for Right
/// reduces to the integer 0.
pub proof fn law_reduces_to_zero<D: DeadEndingContext>(d: &D, g: GameTree)
    requires
        eliminated_options(d, g.left, Player::Left) == seq![integer_tree(-1)],
        eliminated_options(d, g.right, Player::Right) == seq![integer_tree(1)],
    ensures
        reduced_form(d, g) == integer_tree(0),
        tree_to_integer(reduced_form(d, g)) == Some(0int),
{
    law_integer_options_collapse(-1, 1);
    assert(node(Seq::<GameTree>::empty(), Seq::<GameTree>::empty()) =~= integer_tree(0));
    law_integer_roundtrip(0);
}

/// `r` is the P-free form `reduced_tree(left, right)`, or the refusal when
/// that form is not P-free.
pub open spec fn reduction_result(
    left: Seq<GameTree>,
    right: Seq<GameTree>,
    r: Result<PFreeForm<StandardForm>, PFreeConstructionError<Infallible>>,
) -> bool {
    let t = reduced_tree(left, right);
    &&& is_p_free(t) ==> (r matches Ok(f) && f@ == t)
    &&& !is_p_free(t) ==> (r matches Err(PFreeConstructionError::NotPFree))
}

/// Book-keeping when the option at index `i` of `cur` is removed because the
/// option at index `k` dominates it.
proof fn lemma_removal_bookkeeping<D: DeadEndingContext>(
    d: &D,
    orig: Seq<GameTree>,
    cur: Seq<GameTree>,
    next: Seq<GameTree>,
    i: int,
    k: int,
    player: Player,
)
    requires
        0 <= i < cur.len(),
        0 <= k < cur.len(),
        i != k,
        dominated(d, cur[i], cur[k], player),
        cur.to_multiset().subset_of(orig.to_multiset()),
        next.to_multiset() == cur.to_multiset().remove(cur[i]),
        next.len() == cur.len() - 1,
        forall|x: GameTree|
            #[trigger] orig.contains(x) ==> cur.contains(x) || exists|y: GameTree|
                orig.to_multiset().remove(x).count(y) > 0 && dominated(d, x, y, player),
    ensures
        next.to_multiset().subset_of(orig.to_multiset()),
        forall|x: GameTree|
            #[trigger] orig.contains(x) ==> next.contains(x) || exists|y: GameTree|
                orig.to_multiset().remove(x).count(y) > 0 && dominated(d, x, y, player),
        next.len() > 0,
{
    broadcast use vstd::seq_lib::group_to_multiset_ensures;
    broadcast use vstd::multiset::group_multiset_axioms;

    let x0 = cur[i];
    let y0 = cur[k];
    assert(cur.to_multiset().remove(x0).count(y0) > 0) by {
        if y0 == x0 {
            assert(cur.to_multiset().count(x0) >= 2) by {
                let without = cur.remove(i);
                vstd::seq_lib::to_multiset_remove(cur, i);
                let kk = if k < i { k } else { k - 1 };
                assert(without[kk] == y0);
                assert(without.contains(y0));
            }
        } else {
            assert(cur.contains(y0));
        }
    }
    assert(orig.to_multiset().remove(x0).count(y0) > 0);
    assert forall|x: GameTree| #[trigger] orig.contains(x) implies next.contains(x) || exists|y: GameTree|
        orig.to_multiset().remove(x).count(y) > 0 && dominated(d, x, y, player) by {
        if cur.contains(x) && !next.contains(x) {
            assert(next.to_multiset().count(x) == 0);
            assert(x == x0);
        }
    }
    assert(next.len() > 0) by {
        assert(cur.to_multiset().count(y0) > 0);
        if y0 == x0 {
        } else {
            assert(next.to_multiset().count(y0) > 0);
        }
        assert(next.to_multiset().len() > 0);
    }
}

/// Removing the option at index `i` of `cur`, which the option at index `k`
/// dominates, keeps every option of `orig` covered when domination is
/// transitive.
proof fn lemma_cover_after_removal<D: DeadEndingContext>(
    d: &D,
    orig: Seq<GameTree>,
    cur: Seq<GameTree>,
    next: Seq<GameTree>,
    i: int,
    k: int,
    player: Player,
)
    requires
        0 <= i < cur.len(),
        0 <= k < cur.len(),
        i != k,
        dominated(d, cur[i], cur[k], player),
        cur.to_multiset().subset_of(orig.to_multiset()),
        next.to_multiset() == cur.to_multiset().remove(cur[i]),
        dominance_transitive(d, orig, player) ==> covers(d, orig, cur, player),
    ensures
        dominance_transitive(d, orig, player) ==> covers(d, orig, next, player),
{
    broadcast use vstd::seq_lib::group_to_multiset_ensures;
    broadcast use vstd::multiset::group_multiset_axioms;

    let x0 = cur[i];
    let y0 = cur[k];
    assert(cur.to_multiset().remove(x0).count(y0) > 0) by {
        if y0 == x0 {
            assert(cur.to_multiset().count(x0) >= 2) by {
                let without = cur.remove(i);
                vstd::seq_lib::to_multiset_remove(cur, i);
                let kk = if k < i { k } else { k - 1 };
                assert(without[kk] == y0);
                assert(without.contains(y0));
            }
        } else {
            assert(cur.contains(y0));
        }
    }
    assert(next.contains(y0));
    assert(cur.contains(x0));
    assert(orig.to_multiset().count(x0) > 0);
    assert(orig.contains(x0));
    assert(orig.to_multiset().count(y0) > 0);
    assert(orig.contains(y0));
    if dominance_transitive(d, orig, player) {
        assert forall|x: GameTree| #[trigger] orig.contains(x) implies next.contains(x) || exists|y: GameTree|
            next.contains(y) && dominated(d, x, y, player) by {
            if next.contains(x) {
            } else if cur.contains(x) {
                assert(next.to_multiset().count(x) == 0);
                assert(x == x0);
            } else {
                let y = choose|y: GameTree| cur.contains(y) && dominated(d, x, y, player);
                if next.contains(y) {
                } else {
                    assert(next.to_multiset().count(y) == 0);
                    assert(y == x0);
                    assert(dominated(d, x, y0, player));
                }
            }
        }
    }
}

proof fn lemma_options_birthday_bounded(g: GameTree, player: Player, s: Seq<GameTree>)
    requires
        s == g.moves(player),
        birthday(g) < i32::MAX,
    ensures
        forall|k: int| 0 <= k < s.len() ==> birthday(#[trigger] s[k]) < i32::MAX,
{
    assert forall|k: int| 0 <= k < s.len() implies birthday(#[trigger] s[k]) < i32::MAX by {
        lemma_child_birthday(g, player, k);
    }
}

/// Options kept from those of `player` in `g` are born before `g`.
proof fn lemma_kept_birthday(g: GameTree, player: Player, kept: Seq<GameTree>)
    requires
        kept.to_multiset().subset_of(g.moves(player).to_multiset()),
    ensures
        forall|k: int| 0 <= k < kept.len() ==> birthday(#[trigger] kept[k]) < birthday(g),
{
    broadcast use vstd::seq_lib::group_to_multiset_ensures;

    assert forall|k: int| 0 <= k < kept.len() implies birthday(#[trigger] kept[k]) < birthday(g) by {
        assert(kept.contains(kept[k]));
        assert(kept.to_multiset().count(kept[k]) > 0);
        assert(g.moves(player).to_multiset().count(kept[k]) > 0);
        assert(g.moves(player).contains(kept[k]));
        let m = choose|m: int| 0 <= m < g.moves(player).len() && g.moves(player)[m] == kept[k];
        lemma_child_birthday(g, player, m);
    }
}

proof fn lemma_swap_remove_multiset(s: Seq<GameTree>, i: int)
    requires
        0 <= i < s.len(),
    ensures
        s.update(i, s.last()).drop_last().to_multiset() == s.to_multiset().remove(s[i]),
{
    broadcast use vstd::seq_lib::group_to_multiset_ensures;
    broadcast use vstd::multiset::group_multiset_axioms;

    let t = s.update(i, s.last());
    vstd::seq_lib::to_multiset_update(s, i, s.last());
    assert(t.drop_last() =~= t.remove(t.len() - 1));
    vstd::seq_lib::to_multiset_remove(t, t.len() - 1);
    assert(t[t.len() - 1] == s.last());
    assert(t.drop_last().to_multiset() =~= s.to_multiset().remove(s[i]));
}

/// What the elimination leaves of `s` are options of `s`, each as often at
/// most as in `s`.
proof fn lemma_eliminate_from_subset<D: DeadEndingContext>(
    d: &D,
    s: Seq<GameTree>,
    player: Player,
    i: int,
    j: int,
)
    ensures
        eliminate_from(d, s, player, i, j).to_multiset().subset_of(s.to_multiset()),
    decreases s.len(), s.len() - i, s.len() - j,
{
    broadcast use vstd::multiset::group_multiset_axioms;

    if i < 0 || i >= s.len() {
    } else if j <= i {
        lemma_eliminate_from_subset(d, s, player, i, i + 1);
    } else if j >= s.len() {
        lemma_eliminate_from_subset(d, s, player, i + 1, i + 2);
    } else {
        let k = if dominated(d, s[i], s[j], player) {
            i
        } else {
            j
        };
        if dominated(d, s[i], s[j], player) || dominated(d, s[j], s[i], player) {
            let t = swap_removed(s, k);
            if k == i {
                lemma_eliminate_from_subset(d, t, player, i, i + 1);
            } else {
                lemma_eliminate_from_subset(d, t, player, i, j);
            }
            lemma_swap_remove_multiset(s, k);
            let e = eliminate_from(d, s, player, i, j);
            assert forall|x: GameTree| e.to_multiset().count(x) <= s.to_multiset().count(x) by {
                assert(e.to_multiset().count(x) <= t.to_multiset().count(x));
            }
        } else {
            lemma_eliminate_from_subset(d, s, player, i, j + 1);
        }
    }
}

/// Unless the reduction of `g` collapses to an integer, every option of the
/// reduced form is an option of `g`.
pub proof fn law_reduced_keeps_options<D: DeadEndingContext>(d: &D, g: GameTree, player: Player, x: GameTree)
    requires
        tree_to_integer(reduced_form(d, g)) is None,
        reduced_form(d, g).moves(player).contains(x),
    ensures
        g.moves(player).contains(x),
{
    broadcast use vstd::seq_lib::group_to_multiset_ensures;
    broadcast use vstd::multiset::group_multiset_axioms;

    let l = eliminated_options(d, g.left, Player::Left);
    let r = eliminated_options(d, g.right, Player::Right);
    let t = reduced_form(d, g);
    if l.len() == 1 && r.len() == 1 {
        if let (Some(a), Some(b)) = (tree_to_integer(l[0]), tree_to_integer(r[0])) {
            law_integer_roundtrip(0);
            law_integer_roundtrip(a + 1);
            law_integer_roundtrip(b - 1);
        }
    }
    assert(t == node(l, r));
    let kept = match player {
        Player::Left => l,
        Player::Right => r,
    };
    lemma_eliminate_from_subset(d, g.left, Player::Left, 0, 1);
    lemma_eliminate_from_subset(d, g.right, Player::Right, 0, 1);
    lemma_canonical_seq(kept);
    assert(t.moves(player) == canonical_seq(kept));
    assert(kept.contains(x));
    assert(kept.to_multiset().count(x) > 0);
    assert(g.moves(player).to_multiset().count(x) > 0);
}

/// Comparison and reduction of P-free dead-ending forms, for every context
/// that compares forms modulo the dead-ending universe.
pub trait PFreeDeadEndingContext: DeadEndingContext {
    /// `g >= h` modulo the P-free dead-ending universe
    fn ge_mod_p_free_dead_ending(&self, g: &PFreeForm<StandardForm>, h: &PFreeForm<StandardForm>) -> (r: bool)
        requires
            birthday(g@) <= i32::MAX,
            birthday(h@) <= i32::MAX,
        ensures
            r == ge_mod_p_free_dead_ending_spec(self, g@, h@),
            tree_to_integer(g@) is None || tree_to_integer(h@) is None ==> r == self.ge_mod_dead_ending_spec(
                g@,
                h@,
            ),
            tree_to_integer(g@) is Some && tree_to_integer(h@) is Some ==> r == (tree_to_integer(g@)->0
                <= tree_to_integer(h@)->0),
    {
        let context = StandardFormContext;
        proof {
            lemma_integer_birthday(g@);
            lemma_integer_birthday(h@);
        }
        if let Some(a) = context.to_integer(g.underlying()) {
            if let Some(b) = context.to_integer(h.underlying()) {
                return a <= b;
            }
        }
        self.ge_mod_dead_ending(g, h)
    }

    /// `g` and `h` are equal modulo the P-free dead-ending universe
    fn eq_mod_p_free_dead_ending(&self, g: &PFreeForm<StandardForm>, h: &PFreeForm<StandardForm>) -> (r: bool)
        requires
            birthday(g@) <= i32::MAX,
            birthday(h@) <= i32::MAX,
        ensures
            r == (ge_mod_p_free_dead_ending_spec(self, g@, h@) && ge_mod_p_free_dead_ending_spec(
                self,
                h@,
                g@,
            )),
    {
        self.ge_mod_p_free_dead_ending(g, h) && self.ge_mod_p_free_dead_ending(h, g)
    }

    /// Remove the options of `player` in `moves` that are dominated by
    /// another option, comparing each option in turn with those after it;
    /// of two options that dominate each other, the earlier one goes, and
    /// the last option takes the place of one that goes.
    fn eliminate_dominated_moves(&self, moves: &mut Vec<PFreeForm<StandardForm>>, player: Player)
        requires
            forall|k: int| 0 <= k < old(moves)@.len() ==> birthday(#[trigger] old(moves)@[k]@) <= i32::MAX,
        ensures
            p_free_views(final(moves)@) == eliminated_options(self, p_free_views(old(moves)@), player),
            eliminated(self, p_free_views(old(moves)@), p_free_views(final(moves)@), player),
    {
        broadcast use vstd::seq_lib::group_to_multiset_ensures;
        broadcast use vstd::multiset::group_multiset_axioms;

        let ghost orig = p_free_views(moves@);
        let ghost target = eliminated_options(self, orig, player);
        let mut i: usize = 0;
        while i < moves.len()
            invariant
                target == eliminated_options(self, orig, player),
                eliminate_from(self, p_free_views(moves@), player, i as int, i + 1) == target,
                forall|k: int| 0 <= k < moves@.len() ==> birthday(#[trigger] moves@[k]@) <= i32::MAX,
                orig == p_free_views(old(moves)@),
                p_free_views(moves@).to_multiset().subset_of(orig.to_multiset()),
                forall|x: GameTree|
                    #[trigger] orig.contains(x) ==> p_free_views(moves@).contains(x) || exists|y: GameTree|
                        orig.to_multiset().remove(x).count(y) > 0 && dominated(self, x, y, player),
                orig.len() > 0 ==> moves@.len() > 0,
                dominance_transitive(self, orig, player) ==> covers(self, orig, p_free_views(moves@), player),
                i <= moves@.len(),
                forall|a: int, b: int|
                    0 <= a < i && a < b < moves@.len() ==> !dominated(self, #[trigger] moves@[a]@, #[trigger] moves@[b]@, player)
                        && !dominated(self, moves@[b]@, moves@[a]@, player),
            decreases moves@.len() - i,
        {
            let mut j: usize = i + 1;
            let mut restart = false;
            let ghost len0 = moves@.len();
            while !restart && i < moves.len() && j < moves.len()
                invariant
                    target == eliminated_options(self, orig, player),
                    !restart ==> eliminate_from(self, p_free_views(moves@), player, i as int, j as int) == target,
                    restart ==> eliminate_from(self, p_free_views(moves@), player, i as int, i + 1) == target,
                    forall|k: int| 0 <= k < moves@.len() ==> birthday(#[trigger] moves@[k]@) <= i32::MAX,
                    orig == p_free_views(old(moves)@),
                    p_free_views(moves@).to_multiset().subset_of(orig.to_multiset()),
                    forall|x: GameTree|
                        #[trigger] orig.contains(x) ==> p_free_views(moves@).contains(x) || exists|y: GameTree|
                            orig.to_multiset().remove(x).count(y) > 0 && dominated(self, x, y, player),
                    orig.len() > 0 ==> moves@.len() > 0,
                    dominance_transitive(self, orig, player) ==> covers(self, orig, p_free_views(moves@), player),
                    moves@.len() <= len0,
                    restart ==> moves@.len() < len0,
                    i <= moves@.len(),
                    j <= moves@.len(),
                    !restart ==> i < moves@.len() && i + 1 <= j,
                    forall|a: int, b: int|
                        0 <= a < i && a < b < moves@.len() ==> !dominated(self, #[trigger] moves@[a]@, #[trigger] moves@[b]@, player)
                            && !dominated(self, moves@[b]@, moves@[a]@, player),
                    !restart ==> forall|b: int|
                        i < b < j ==> !dominated(self, moves@[i as int]@, #[trigger] moves@[b]@, player)
                            && !dominated(self, moves@[b]@, moves@[i as int]@, player),
                decreases moves@.len() - j + (if restart { 0int } else { 1int }),
            {
                let remove_i = match player {
                    Player::Left => self.ge_mod_p_free_dead_ending(&moves[j], &moves[i]),
                    Player::Right => self.ge_mod_p_free_dead_ending(&moves[i], &moves[j]),
                };
                proof {
                    assert(p_free_views(moves@)[i as int] == moves@[i as int]@);
                    assert(p_free_views(moves@)[j as int] == moves@[j as int]@);
                }
                if remove_i {
                    let ghost cur = p_free_views(moves@);
                    let ghost x = cur[i as int];
                    let ghost y = cur[j as int];
                    let ghost cur_moves = moves@;
                    moves.swap_remove(i);
                    proof {
                        let next = p_free_views(moves@);
                        assert(next =~= cur.update(i as int, cur.last()).drop_last());
                        lemma_swap_remove_multiset(cur, i as int);
                        lemma_removal_bookkeeping(self, orig, cur, next, i as int, j as int, player);
                        lemma_cover_after_removal(self, orig, cur, next, i as int, j as int, player);
                        assert forall|k: int| 0 <= k < moves@.len() implies birthday(#[trigger] moves@[k]@) <= i32::MAX by {
                            if k == i {
                                assert(moves@[k] == cur_moves[cur_moves.len() - 1]);
                            } else {
                                assert(moves@[k] == cur_moves[k]);
                            }
                        }
                        assert forall|a: int, b: int|
                            0 <= a < i && a < b < moves@.len() implies !dominated(self, #[trigger] moves@[a]@, #[trigger] moves@[b]@, player)
                                && !dominated(self, moves@[b]@, moves@[a]@, player) by {
                            assert(moves@[a] == cur_moves[a]);
                            if b == i {
                                assert(moves@[b] == cur_moves[cur_moves.len() - 1]);
                            } else {
                                assert(moves@[b] == cur_moves[b]);
                            }
                        }
                    }
                    restart = true;
                } else {
                let remove_j = match player {
                    Player::Left => self.ge_mod_p_free_dead_ending(&moves[i], &moves[j]),
                    Player::Right => self.ge_mod_p_free_dead_ending(&moves[j], &moves[i]),
                };
                if remove_j {
                    let ghost cur = p_free_views(moves@);
                    let ghost cur_moves = moves@;
                    moves.swap_remove(j);
                    proof {
                        let next = p_free_views(moves@);
                        assert(next =~= cur.update(j as int, cur.last()).drop_last());
                        lemma_swap_remove_multiset(cur, j as int);
                        lemma_removal_bookkeeping(self, orig, cur, next, j as int, i as int, player);
                        lemma_cover_after_removal(self, orig, cur, next, j as int, i as int, player);
                        assert forall|k: int| 0 <= k < moves@.len() implies birthday(#[trigger] moves@[k]@) <= i32::MAX by {
                            if k == j {
                                assert(moves@[k] == cur_moves[cur_moves.len() - 1]);
                            } else {
                                assert(moves@[k] == cur_moves[k]);
                            }
                        }
                        assert forall|a: int, b: int|
                            0 <= a < i && a < b < moves@.len() implies !dominated(self, #[trigger] moves@[a]@, #[trigger] moves@[b]@, player)
                                && !dominated(self, moves@[b]@, moves@[a]@, player) by {
                            assert(moves@[a] == cur_moves[a]);
                            if b == j {
                                assert(moves@[b] == cur_moves[cur_moves.len() - 1]);
                            } else {
                                assert(moves@[b] == cur_moves[b]);
                            }
                        }
                        assert forall|b: int|
                            i < b < j implies !dominated(self, moves@[i as int]@, #[trigger] moves@[b]@, player)
                                && !dominated(self, moves@[b]@, moves@[i as int]@, player) by {
                            assert(moves@[b] == cur_moves[b]);
                            assert(moves@[i as int] == cur_moves[i as int]);
                        }
                    }
                } else {
                    j += 1;
                }
                }
            }
            if !restart {
                i += 1;
            }
        }
        proof {
            let fin = p_free_views(moves@);
            assert forall|a: int, b: int|
                0 <= a < fin.len() && 0 <= b < fin.len() && a != b implies !dominated(
                    self,
                    #[trigger] fin[a],
                    #[trigger] fin[b],
                    player,
                ) by {
                if a < b {
                    assert(fin[a] == moves@[a]@);
                    assert(fin[b] == moves@[b]@);
                } else {
                    assert(fin[a] == moves@[a]@);
                    assert(fin[b] == moves@[b]@);
                }
            }
            if orig.len() > 0 {
                assert(fin.len() > 0);
            }
        }
    }

    /// `game` with dominated options removed; pairs of single integer
    /// options collapse to an integer. Refused when the result is not P-free.
    fn reduced(&self, game: &PFreeForm<StandardForm>) -> (r: Result<
        PFreeForm<StandardForm>,
        PFreeConstructionError<Infallible>,
    >)
        requires
            birthday(game@) < i32::MAX,
        ensures
            reduction_result(
                eliminated_options(self, game@.left, Player::Left),
                eliminated_options(self, game@.right, Player::Right),
                r,
            ),
            exists|left: Seq<GameTree>, right: Seq<GameTree>|
                eliminated(self, game@.left, left, Player::Left) && eliminated(
                    self,
                    game@.right,
                    right,
                    Player::Right,
                ) && reduction_result(left, right, r),
    {
        let pf = PFreeFormContext::new(StandardFormContext);
        let mut left = pf.moves(game, Player::Left);
        proof {
            lemma_options_birthday_bounded(game@, Player::Left, p_free_views(left@));
            assert forall|k: int| 0 <= k < left@.len() implies birthday(#[trigger] left@[k]@) <= i32::MAX by {
                assert(p_free_views(left@)[k] == left@[k]@);
            }
        }
        self.eliminate_dominated_moves(&mut left, Player::Left);
        let mut right = pf.moves(game, Player::Right);
        proof {
            lemma_options_birthday_bounded(game@, Player::Right, p_free_views(right@));
            assert forall|k: int| 0 <= k < right@.len() implies birthday(#[trigger] right@[k]@) <= i32::MAX by {
                assert(p_free_views(right@)[k] == right@[k]@);
            }
        }
        self.eliminate_dominated_moves(&mut right, Player::Right);
        let ghost l = p_free_views(left@);
        let ghost rr = p_free_views(right@);
        proof {
            assert(l == eliminated_options(self, game@.left, Player::Left));
            assert(rr == eliminated_options(self, game@.right, Player::Right));
            lemma_kept_birthday(game@, Player::Left, l);
            lemma_kept_birthday(game@, Player::Right, rr);
        }
        if left.len() == 1 && right.len() == 1 {
            proof {
                assert(l[0] == left@[0]@);
                assert(rr[0] == right@[0]@);
                lemma_integer_birthday(l[0]);
                lemma_integer_birthday(rr[0]);
            }
            if let Some(a) = pf.to_integer(&left[0]) {
                if let Some(b) = pf.to_integer(&right[0]) {
                    proof {
                        assert(tree_to_integer(l[0]) == Some(a as int));
                        assert(tree_to_integer(rr[0]) == Some(b as int));
                    }
                    if a == -1 && b == 1 {
                        let z = pf.new_integer(0);
                        let result = match z {
                            Ok(g) => Ok(g),
                            Err(e) => Err(PFreeConstructionError::Underlying(e)),
                        };
                        proof {
                            assert(reduced_tree(l, rr) == integer_tree(0));
                            assert(reduction_result(l, rr, result));
                        }
                        return result;
                    }
                    if a >= 0 && b <= a + 2 {
                        let z = pf.new_integer(a + 1);
                        let result = match z {
                            Ok(g) => Ok(g),
                            Err(e) => Err(PFreeConstructionError::Underlying(e)),
                        };
                        proof {
                            assert(reduced_tree(l, rr) == integer_tree((a + 1) as int));
                            assert(reduction_result(l, rr, result));
                        }
                        return result;
                    }
                    if b <= 0 && a >= b - 2 {
                        let z = pf.new_integer(b - 1);
                        let result = match z {
                            Ok(g) => Ok(g),
                            Err(e) => Err(PFreeConstructionError::Underlying(e)),
                        };
                        proof {
                            assert(reduced_tree(l, rr) == integer_tree((b - 1) as int));
                            assert(reduction_result(l, rr, result));
                        }
                        return result;
                    }
                }
            }
        }
        let result = pf.new_form(left, right);
        proof {
            assert(reduced_tree(l, rr) == node(l, rr));
            assert(reduction_result(l, rr, result));
        }
        result
    }
}

impl<D: DeadEndingContext> PFreeDeadEndingContext for D {

}

} // verus!
