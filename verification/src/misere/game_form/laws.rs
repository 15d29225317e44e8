//! Laws of game forms: canonical construction, integers, conjugates and sums.

use vstd::prelude::*;
use crate::misere::game_form::form::{canonical, node};
use crate::misere::game_form::theory::{
    conjugate_moves, conjugate_tree, integer_tree, is_p_free, lemma_child_birthday, birthday, outcome,
    options_birthday,
    sum_moves, sum_tree, tree_to_integer, wins_going_first, zero_tree, Outcome,
};
use crate::misere::game_form::tree::{
    canonical_seq, lemma_canonical_seq, lemma_canonical_seq_same_elements,
    lemma_canonical_seq_sorted, same_elements, GameTree,
};
use crate::partizan::Player;
use crate::misere::game_form::roundtrip::lemma_integer_tree_unique;

verus! {

/// A form is determined by the sets of its options: the order in which
/// options are given, and repetitions among them, make no difference.
pub proof fn law_new_ignores_order(
    left1: Seq<GameTree>,
    right1: Seq<GameTree>,
    left2: Seq<GameTree>,
    right2: Seq<GameTree>,
)
    requires
        same_elements(left1, left2),
        same_elements(right1, right2),
    ensures
        node(left1, right1) == node(left2, right2),
{
    lemma_canonical_seq_same_elements(left1, left2);
    lemma_canonical_seq_same_elements(right1, right2);
}

/// Building a canonical form again from its own options gives it back.
pub proof fn law_new_of_canonical(g: GameTree)
    requires
        canonical(g),
    ensures
        node(g.left, g.right) == g,
{
    lemma_canonical_seq_sorted(g.left);
    lemma_canonical_seq_sorted(g.right);
    assert(node(g.left, g.right) =~= g);
}

/// Reading the integer back from the integer `n` gives `n`.
pub proof fn law_integer_roundtrip(n: int)
    ensures
        tree_to_integer(integer_tree(n)) == Some(n),
    decreases (if n < 0 { -n } else { n }),
{
    if n > 0 {
        law_integer_roundtrip(n - 1);
    } else if n < 0 {
        law_integer_roundtrip(n + 1);
    }
}

/// Outcome of an integer: `0` is a next-player win, positive integers are
/// Right wins and negative integers are Left wins.
pub proof fn law_integer_outcome(n: int)
    ensures
        outcome(integer_tree(n)) == (if n == 0 {
            Outcome::N
        } else if n > 0 {
            Outcome::R
        } else {
            Outcome::L
        }),
{
    let g = integer_tree(n);
    if n > 0 {
        let gl = integer_tree(n - 1);
        assert(g.left[0] == gl);
        assert(wins_going_first(gl, Player::Right));
        assert(!wins_going_first(g, Player::Left));
    } else if n < 0 {
        let gr = integer_tree(n + 1);
        assert(g.right[0] == gr);
        assert(wins_going_first(gr, Player::Left));
        assert(!wins_going_first(g, Player::Right));
    }
}

proof fn lemma_map_same_elements_conjugate(g: GameTree, player: Player, t: Seq<GameTree>)
    requires
        same_elements(t, conjugate_moves(g, player)),
    ensures
        forall|x: GameTree| #[trigger] t.contains(x) ==> exists|i: int|
            0 <= i < g.moves(player).len() && x == conjugate_tree(#[trigger] g.moves(player)[i]),
        forall|i: int| 0 <= i < g.moves(player).len() ==> t.contains(conjugate_tree(#[trigger] g.moves(player)[i])),
{
    let m = conjugate_moves(g, player);
    assert forall|x: GameTree| #[trigger] t.contains(x) implies exists|i: int|
        0 <= i < g.moves(player).len() && x == conjugate_tree(#[trigger] g.moves(player)[i]) by {
        assert(m.contains(x));
        let i = choose|i: int| 0 <= i < m.len() && m[i] == x;
        assert(x == conjugate_tree(g.moves(player)[i]));
    }
    assert forall|i: int| 0 <= i < g.moves(player).len() implies t.contains(conjugate_tree(#[trigger] g.moves(player)[i])) by {
        assert(m[i] == conjugate_tree(g.moves(player)[i]));
        assert(m.contains(m[i]));
    }
}

/// Conjugating swaps the players: Left wins the conjugate moving first
/// exactly when Right wins the game moving first, and vice versa.
pub proof fn law_conjugate_wins(g: GameTree, player: Player)
    ensures
        wins_going_first(conjugate_tree(g), player) == wins_going_first(g, player.spec_opposite()),
    decreases birthday(g),
{
    let c = conjugate_tree(g);
    let q = player.spec_opposite();
    let cm = c.moves(player);
    let gm = g.moves(q);
    assert(cm == canonical_seq(conjugate_moves(g, q)));
    lemma_canonical_seq(conjugate_moves(g, q));
    lemma_map_same_elements_conjugate(g, q, cm);
    if cm.len() == 0 && gm.len() > 0 {
        assert(cm.contains(conjugate_tree(gm[0])));
    }
    if gm.len() == 0 && cm.len() > 0 {
        assert(cm.contains(cm[0]));
    }
    if wins_going_first(c, player) && cm.len() > 0 {
        let i = choose|i: int| 0 <= i < cm.len() && !wins_going_first(#[trigger] cm[i], q);
        assert(cm.contains(cm[i]));
        let j = choose|j: int| 0 <= j < gm.len() && cm[i] == conjugate_tree(#[trigger] gm[j]);
        lemma_child_birthday(g, q, j);
        law_conjugate_wins(gm[j], q);
        assert(q.spec_opposite() == player);
        assert(!wins_going_first(gm[j], player));
    }
    if wins_going_first(g, q) && gm.len() > 0 {
        let j = choose|j: int| 0 <= j < gm.len() && !wins_going_first(#[trigger] gm[j], player);
        lemma_child_birthday(g, q, j);
        law_conjugate_wins(gm[j], q);
        assert(cm.contains(conjugate_tree(gm[j])));
        let i = choose|i: int| 0 <= i < cm.len() && cm[i] == conjugate_tree(gm[j]);
        assert(!wins_going_first(cm[i], q));
    }
}

/// The outcome of a conjugate is the outcome with Left and Right swapped.
pub proof fn law_conjugate_outcome(g: GameTree)
    ensures
        outcome(conjugate_tree(g)) == match outcome(g) {
            Outcome::L => Outcome::R,
            Outcome::R => Outcome::L,
            o => o,
        },
{
    law_conjugate_wins(g, Player::Left);
    law_conjugate_wins(g, Player::Right);
}

/// Conjugating twice gives back the canonical form.
pub proof fn law_conjugate_involution(g: GameTree)
    requires
        canonical(g),
    ensures
        conjugate_tree(conjugate_tree(g)) == g,
    decreases birthday(g),
{
    let c = conjugate_tree(g);
    lemma_conjugate_involution_side(g, Player::Left);
    lemma_conjugate_involution_side(g, Player::Right);
    assert(conjugate_tree(c) =~= g);
}

proof fn lemma_conjugate_involution_side(g: GameTree, player: Player)
    requires
        canonical(g),
    ensures
        canonical_seq(conjugate_moves(conjugate_tree(g), player.spec_opposite())) == g.moves(player),
    decreases birthday(g), 0nat,
{
    let c = conjugate_tree(g);
    let q = player.spec_opposite();
    let inner = conjugate_moves(g, player);
    assert(c.moves(q) == canonical_seq(inner));
    lemma_canonical_seq(inner);
    lemma_map_same_elements_conjugate(g, player, c.moves(q));
    let outer = conjugate_moves(c, q);
    let gm = g.moves(player);
    assert forall|i: int| 0 <= i < gm.len() implies conjugate_tree(conjugate_tree(#[trigger] gm[i])) == gm[i] by {
        lemma_child_birthday(g, player, i);
        law_conjugate_involution(gm[i]);
    }
    assert forall|x: GameTree| outer.contains(x) <==> gm.contains(x) by {
        if outer.contains(x) {
            let k = choose|k: int| 0 <= k < outer.len() && outer[k] == x;
            let y = c.moves(q)[k];
            assert(c.moves(q).contains(y));
            let i = choose|i: int| 0 <= i < gm.len() && y == conjugate_tree(#[trigger] gm[i]);
            assert(x == gm[i]);
        }
        if gm.contains(x) {
            let i = choose|i: int| 0 <= i < gm.len() && gm[i] == x;
            assert(c.moves(q).contains(conjugate_tree(gm[i])));
            let k = choose|k: int| 0 <= k < c.moves(q).len() && c.moves(q)[k] == conjugate_tree(gm[i]);
            assert(outer[k] == x);
        }
    }
    lemma_canonical_seq_same_elements(outer, gm);
    lemma_canonical_seq_sorted(gm);
}

/// Disjunctive sum is commutative.
pub proof fn law_sum_commutative(g: GameTree, h: GameTree)
    ensures
        sum_tree(g, h) == sum_tree(h, g),
    decreases birthday(g) + birthday(h),
{
    lemma_sum_commutative_side(g, h, Player::Left);
    lemma_sum_commutative_side(g, h, Player::Right);
    assert(sum_tree(g, h) =~= sum_tree(h, g));
}

proof fn lemma_sum_commutative_side(g: GameTree, h: GameTree, player: Player)
    ensures
        canonical_seq(sum_moves(g, h, player)) == canonical_seq(sum_moves(h, g, player)),
    decreases birthday(g) + birthday(h), 0nat,
{
    let a = sum_moves(g, h, player);
    let b = sum_moves(h, g, player);
    let gm = g.moves(player);
    let hm = h.moves(player);
    assert(a.len() == gm.len() + hm.len());
    assert(b.len() == hm.len() + gm.len());
    assert forall|i: int| 0 <= i < gm.len() implies a[i] == b[hm.len() + i] by {
        lemma_child_birthday(g, player, i);
        law_sum_commutative(gm[i], h);
    }
    assert forall|j: int| 0 <= j < hm.len() implies a[gm.len() + j] == b[j] by {
        lemma_child_birthday(h, player, j);
        law_sum_commutative(g, hm[j]);
    }
    assert forall|x: GameTree| a.contains(x) <==> b.contains(x) by {
        if a.contains(x) {
            let k = choose|k: int| 0 <= k < a.len() && a[k] == x;
            if k < gm.len() {
                assert(b[hm.len() + k] == x);
            } else {
                assert(b[k - gm.len()] == x);
            }
        }
        if b.contains(x) {
            let k = choose|k: int| 0 <= k < b.len() && b[k] == x;
            if k < hm.len() {
                assert(a[gm.len() + k] == x);
            } else {
                assert(a[k - hm.len()] == x);
            }
        }
    }
    lemma_canonical_seq_same_elements(a, b);
}

/// `0` is the identity of disjunctive sum on canonical forms.
pub proof fn law_sum_zero(g: GameTree)
    requires
        canonical(g),
    ensures
        sum_tree(g, zero_tree()) == g,
    decreases birthday(g),
{
    lemma_sum_zero_side(g, Player::Left);
    lemma_sum_zero_side(g, Player::Right);
    assert(sum_tree(g, zero_tree()) =~= g);
}

proof fn lemma_sum_zero_side(g: GameTree, player: Player)
    requires
        canonical(g),
    ensures
        canonical_seq(sum_moves(g, zero_tree(), player)) == g.moves(player),
    decreases birthday(g), 0nat,
{
    let a = sum_moves(g, zero_tree(), player);
    let gm = g.moves(player);
    assert forall|i: int| 0 <= i < gm.len() implies a[i] == gm[i] by {
        lemma_child_birthday(g, player, i);
        law_sum_zero(gm[i]);
    }
    assert(a =~= gm);
    lemma_canonical_seq_sorted(gm);
}

/// The options of a sum are the sums with one component moved.
pub proof fn lemma_sum_options(g: GameTree, h: GameTree, player: Player)
    ensures
        forall|x: GameTree| #[trigger] sum_tree(g, h).moves(player).contains(x) <==> (
            (exists|i: int| 0 <= i < g.moves(player).len() && x == sum_tree(#[trigger] g.moves(player)[i], h))
            || (exists|j: int| 0 <= j < h.moves(player).len() && x == sum_tree(g, #[trigger] h.moves(player)[j]))),
        sum_tree(g, h).moves(player).len() == 0 <==> (g.moves(player).len() == 0 && h.moves(player).len() == 0),
{
    let a = sum_moves(g, h, player);
    let gm = g.moves(player);
    let hm = h.moves(player);
    assert(sum_tree(g, h).moves(player) == canonical_seq(a));
    lemma_canonical_seq(a);
    let c = canonical_seq(a);
    assert forall|x: GameTree| #[trigger] c.contains(x) <==> (
        (exists|i: int| 0 <= i < gm.len() && x == sum_tree(#[trigger] gm[i], h))
        || (exists|j: int| 0 <= j < hm.len() && x == sum_tree(g, #[trigger] hm[j]))) by {
        if c.contains(x) {
            assert(a.contains(x));
            let k = choose|k: int| 0 <= k < a.len() && a[k] == x;
            if k < gm.len() {
                assert(x == sum_tree(gm[k], h));
            } else {
                assert(x == sum_tree(g, hm[k - gm.len()]));
            }
        }
        if exists|i: int| 0 <= i < gm.len() && x == sum_tree(#[trigger] gm[i], h) {
            let i = choose|i: int| 0 <= i < gm.len() && x == sum_tree(#[trigger] gm[i], h);
            assert(a[i] == x);
            assert(a.contains(x));
        }
        if exists|j: int| 0 <= j < hm.len() && x == sum_tree(g, #[trigger] hm[j]) {
            let j = choose|j: int| 0 <= j < hm.len() && x == sum_tree(g, #[trigger] hm[j]);
            assert(a[gm.len() + j] == x);
            assert(a.contains(x));
        }
    }
    if c.len() == 0 && gm.len() > 0 {
        assert(a[0] == sum_tree(gm[0], h));
        assert(a.contains(a[0]));
    }
    if c.len() == 0 && hm.len() > 0 {
        assert(a[gm.len() as int] == sum_tree(g, hm[0]));
        assert(a.contains(a[gm.len() as int]));
    }
    if c.len() > 0 {
        assert(c.contains(c[0]));
    }
}

/// Integers are P-free.
pub proof fn law_integer_p_free(n: int)
    ensures
        is_p_free(integer_tree(n)),
    decreases (if n < 0 { -n } else { n }),
{
    law_integer_outcome(n);
    if n > 0 {
        law_integer_p_free(n - 1);
    } else if n < 0 {
        law_integer_p_free(n + 1);
    }
}

/// A list of options all born before `bound` gives a birthday of at most `bound`.
pub proof fn lemma_options_birthday_upper(s: Seq<GameTree>, bound: int)
    requires
        bound >= 0,
        forall|k: int| 0 <= k < s.len() ==> birthday(#[trigger] s[k]) < bound,
    ensures
        options_birthday(s) <= bound,
    decreases s.len(),
{
    if s.len() > 0 {
        let t = s.subrange(1, s.len() as int);
        assert forall|k: int| 0 <= k < t.len() implies birthday(#[trigger] t[k]) < bound by {
            assert(t[k] == s[k + 1]);
        }
        lemma_options_birthday_upper(t, bound);
    }
}

/// A form built from options all born before `bound` is born by `bound`.
pub proof fn lemma_node_birthday_bound(left: Seq<GameTree>, right: Seq<GameTree>, bound: int)
    requires
        bound >= 0,
        forall|k: int| 0 <= k < left.len() ==> birthday(#[trigger] left[k]) < bound,
        forall|k: int| 0 <= k < right.len() ==> birthday(#[trigger] right[k]) < bound,
    ensures
        birthday(node(left, right)) <= bound,
{
    lemma_canonical_seq(left);
    lemma_canonical_seq(right);
    let cl = canonical_seq(left);
    let cr = canonical_seq(right);
    assert forall|k: int| 0 <= k < cl.len() implies birthday(#[trigger] cl[k]) < bound by {
        assert(cl.contains(cl[k]));
        assert(left.contains(cl[k]));
    }
    assert forall|k: int| 0 <= k < cr.len() implies birthday(#[trigger] cr[k]) < bound by {
        assert(cr.contains(cr[k]));
        assert(right.contains(cr[k]));
    }
    lemma_options_birthday_upper(cl, bound);
    lemma_options_birthday_upper(cr, bound);
}

/// The integer `n` is born on day `|n|`.
pub proof fn law_integer_birthday(n: int)
    ensures
        birthday(integer_tree(n)) == (if n < 0 { -n } else { n }),
    decreases (if n < 0 { -n } else { n }),
{
    let g = integer_tree(n);
    if n > 0 {
        law_integer_birthday(n - 1);
        assert(g.left.subrange(1, 1) =~= Seq::<GameTree>::empty());
        assert(options_birthday(g.right) == 0);
    } else if n < 0 {
        law_integer_birthday(n + 1);
        assert(g.right.subrange(1, 1) =~= Seq::<GameTree>::empty());
        assert(options_birthday(g.left) == 0);
    }
}

/// A tree is the integer `n` exactly when it is the tree of `n`.
pub proof fn law_integer_iff(g: GameTree, n: int)
    ensures
        tree_to_integer(g) == Some(n) <==> g == integer_tree(n),
{
    lemma_integer_tree_unique(g);
    law_integer_roundtrip(n);
}

/// A one-element list is already in canonical order.
pub(crate) proof fn lemma_canonical_single(x: GameTree)
    ensures
        canonical_seq(seq![x]) == seq![x],
{
    reveal_with_fuel(canonical_seq, 2);
    assert(seq![x].drop_last() =~= Seq::<GameTree>::empty());
}

/// The conjugate of the integer `n` is `-n`.
pub proof fn law_conjugate_integer(n: int)
    ensures
        conjugate_tree(integer_tree(n)) == integer_tree(-n),
    decreases (if n < 0 { -n } else { n }),
{
    let g = integer_tree(n);
    let c = conjugate_tree(g);
    if n == 0 {
        assert(conjugate_moves(g, Player::Left) =~= Seq::<GameTree>::empty());
        assert(conjugate_moves(g, Player::Right) =~= Seq::<GameTree>::empty());
        assert(c =~= integer_tree(0));
    } else if n > 0 {
        law_conjugate_integer(n - 1);
        assert(conjugate_moves(g, Player::Right) =~= Seq::<GameTree>::empty());
        assert(conjugate_moves(g, Player::Left) =~= seq![integer_tree(-(n - 1))]);
        lemma_canonical_single(integer_tree(-(n - 1)));
        assert(c =~= integer_tree(-n));
    } else {
        law_conjugate_integer(n + 1);
        assert(conjugate_moves(g, Player::Left) =~= Seq::<GameTree>::empty());
        assert(conjugate_moves(g, Player::Right) =~= seq![integer_tree(-(n + 1))]);
        lemma_canonical_single(integer_tree(-(n + 1)));
        assert(c =~= integer_tree(-n));
    }
}

/// A form reads as the integer `n` exactly when its conjugate reads as `-n`.
pub proof fn law_conjugate_reads_negated(g: GameTree, n: int)
    requires
        canonical(g),
    ensures
        tree_to_integer(g) == Some(n) <==> tree_to_integer(conjugate_tree(g)) == Some(-n),
{
    law_integer_iff(g, n);
    law_integer_iff(conjugate_tree(g), -n);
    law_conjugate_integer(n);
    law_conjugate_integer(-n);
    law_conjugate_involution(g);
}

/// A non-empty list of options has an option born one day before the list's
/// birthday bound.
proof fn lemma_options_birthday_attained(s: Seq<GameTree>)
    requires
        s.len() > 0,
    ensures
        exists|i: int| 0 <= i < s.len() && birthday(#[trigger] s[i]) + 1 == options_birthday(s),
    decreases s.len(),
{
    let t = s.subrange(1, s.len() as int);
    if t.len() > 0 {
        lemma_options_birthday_attained(t);
        let i = choose|i: int| 0 <= i < t.len() && birthday(#[trigger] t[i]) + 1 == options_birthday(t);
        assert(s[i + 1] == t[i]);
        if birthday(s[0]) + 1 >= options_birthday(t) {
            assert(birthday(s[0]) + 1 == options_birthday(s));
        } else {
            assert(birthday(s[i + 1]) + 1 == options_birthday(s));
        }
    } else {
        assert(options_birthday(t) == 0);
        assert(birthday(s[0]) + 1 == options_birthday(s));
    }
}

/// A form born on day `b > 0` has an option born on day `b - 1`.
proof fn lemma_birthday_attained(g: GameTree)
    requires
        birthday(g) > 0,
    ensures
        exists|p: Player, i: int|
            0 <= i < g.moves(p).len() && birthday(#[trigger] g.moves(p)[i]) + 1 == birthday(g),
{
    if options_birthday(g.left) >= options_birthday(g.right) {
        assert(g.left.len() > 0);
        lemma_options_birthday_attained(g.left);
        let i = choose|i: int| 0 <= i < g.left.len() && birthday(#[trigger] g.left[i]) + 1 == options_birthday(g.left);
        assert(g.moves(Player::Left)[i] == g.left[i]);
    } else {
        assert(g.right.len() > 0);
        lemma_options_birthday_attained(g.right);
        let i = choose|i: int| 0 <= i < g.right.len() && birthday(#[trigger] g.right[i]) + 1 == options_birthday(g.right);
        assert(g.moves(Player::Right)[i] == g.right[i]);
    }
}

/// The birthday of a sum is the sum of the birthdays.
pub proof fn law_sum_birthday(g: GameTree, h: GameTree)
    ensures
        birthday(sum_tree(g, h)) == birthday(g) + birthday(h),
    decreases birthday(g) + birthday(h),
{
    let s = sum_tree(g, h);
    let b = birthday(g) + birthday(h);
    lemma_sum_options(g, h, Player::Left);
    lemma_sum_options(g, h, Player::Right);
    assert forall|p: Player, k: int| 0 <= k < s.moves(p).len() implies birthday(#[trigger] s.moves(p)[k]) < b by {
        let x = s.moves(p)[k];
        assert(s.moves(p).contains(x));
        if exists|i: int| 0 <= i < g.moves(p).len() && x == sum_tree(#[trigger] g.moves(p)[i], h) {
            let i = choose|i: int| 0 <= i < g.moves(p).len() && x == sum_tree(#[trigger] g.moves(p)[i], h);
            lemma_child_birthday(g, p, i);
            law_sum_birthday(g.moves(p)[i], h);
        } else {
            let j = choose|j: int| 0 <= j < h.moves(p).len() && x == sum_tree(g, #[trigger] h.moves(p)[j]);
            lemma_child_birthday(h, p, j);
            law_sum_birthday(g, h.moves(p)[j]);
        }
    }
    if b > 0 {
        assert forall|k: int| 0 <= k < s.left.len() implies birthday(#[trigger] s.left[k]) < b by {
            assert(s.moves(Player::Left)[k] == s.left[k]);
        }
        assert forall|k: int| 0 <= k < s.right.len() implies birthday(#[trigger] s.right[k]) < b by {
            assert(s.moves(Player::Right)[k] == s.right[k]);
        }
        lemma_options_birthday_upper(s.left, b as int);
        lemma_options_birthday_upper(s.right, b as int);
        let (p, x) = if birthday(g) > 0 {
            lemma_birthday_attained(g);
            let (p, i) = choose|p: Player, i: int|
                0 <= i < g.moves(p).len() && birthday(#[trigger] g.moves(p)[i]) + 1 == birthday(g);
            law_sum_birthday(g.moves(p)[i], h);
            (p, sum_tree(g.moves(p)[i], h))
        } else {
            lemma_birthday_attained(h);
            let (p, j) = choose|p: Player, j: int|
                0 <= j < h.moves(p).len() && birthday(#[trigger] h.moves(p)[j]) + 1 == birthday(h);
            law_sum_birthday(g, h.moves(p)[j]);
            (p, sum_tree(g, h.moves(p)[j]))
        };
        assert(birthday(x) + 1 == b);
        assert(s.moves(p).contains(x));
        let k = choose|k: int| 0 <= k < s.moves(p).len() && s.moves(p)[k] == x;
        lemma_child_birthday(s, p, k);
    } else {
        assert(g.left.len() == 0 && g.right.len() == 0) by {
            if g.left.len() > 0 {
                lemma_child_birthday(g, Player::Left, 0);
            }
            if g.right.len() > 0 {
                lemma_child_birthday(g, Player::Right, 0);
            }
        }
        assert(h.left.len() == 0 && h.right.len() == 0) by {
            if h.left.len() > 0 {
                lemma_child_birthday(h, Player::Left, 0);
            }
            if h.right.len() > 0 {
                lemma_child_birthday(h, Player::Right, 0);
            }
        }
        assert(s.left.len() == 0 && s.right.len() == 0);
    }
}

} // verus!
