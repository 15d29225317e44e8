//! Enumerating P-free forms from subsets of given options: the forms born
//! on the next day, and the smaller forms that a counterexample shrinks to.

use vstd::prelude::*;
use crate::misere::game_form::context::StandardFormContext;
use crate::misere::game_form::form::node;
use crate::misere::game_form::theory::{
    birthday, integer_tree, is_p_free, lemma_child_birthday, lemma_integer_birthday, tree_to_integer,
};
use crate::misere::game_form::form::canonical;
use crate::misere::game_form::laws::{law_integer_birthday, law_integer_p_free, law_integer_roundtrip, lemma_node_birthday_bound};
use crate::misere::game_form::roundtrip::lemma_integer_tree_unique;
use crate::misere::game_form::tree::{lemma_canonical_seq_sorted, lemma_tree_order_refl, strictly_sorted, tree_order};
use crate::misere::game_form::tree::GameTree;
use crate::misere::p_free::{p_free_views, PFreeForm, PFreeFormContext};
use crate::misere::game_form::form::StandardForm;
use crate::partizan::Player;
use crate::result::UnwrapInfallible;
use crate::subsets::{
    graded_less, index_powerset, is_index_subset, lemma_graded_less_asymmetric, lemma_graded_less_total,
    proper_index_subsets,
};
use crate::misere::game_form::enumerate::{
    index_pair_less, integer_shrinks, lists_picks, pair_less, pick, picks_witness,
};

verus! {

/// Keep the P-free forms
pub open spec fn p_free_kept() -> spec_fn(GameTree) -> bool {
    |t: GameTree| is_p_free(t)
}

/// `r` lists the P-free forms with Left options picked from `left` and Right
/// options picked from `right`, at positions that `left_ok` and `right_ok`
/// admit, each pair of positions once, ordered by the pairs.
pub open spec fn lists_p_free_picks(
    r: Seq<GameTree>,
    left: Seq<GameTree>,
    right: Seq<GameTree>,
    left_ok: spec_fn(Seq<usize>) -> bool,
    right_ok: spec_fn(Seq<usize>) -> bool,
) -> bool {
    lists_picks(r, left, right, left_ok, right_ok, p_free_kept())
}

/// `c` is among the forms that `g` shrinks to: for an integer, an integer
/// nearer to zero; otherwise a P-free form whose Left options are a proper
/// subset of those of `g` and whose Right options are a proper subset of
/// those of `g`.
pub open spec fn is_shrink_candidate(g: GameTree, c: GameTree) -> bool {
    match tree_to_integer(g) {
        Some(n) => exists|i: int| 0 <= i < integer_shrinks(n).len() && integer_shrinks(n)[i] == c,
        None => exists|a: Seq<usize>, b: Seq<usize>|
            is_index_subset(a, g.left.len()) && a.len() < g.left.len() && is_index_subset(b, g.right.len())
                && b.len() < g.right.len() && is_p_free(c) && c == node(
                #[trigger] pick(g.left, a),
                #[trigger] pick(g.right, b),
            ),
    }
}

/// Among the forms that `g` shrinks to, `c2` is tried before `c`: for an
/// integer, `c2` is nearer to `g`; otherwise `c2` is picked at a pair of
/// position lists that comes before the pair `c` is picked at.
pub open spec fn shrinks_before(g: GameTree, c2: GameTree, c: GameTree) -> bool {
    match tree_to_integer(g) {
        Some(n) => exists|i: int, j: int|
            0 <= i < j < integer_shrinks(n).len() && #[trigger] integer_shrinks(n)[i] == c2
                && #[trigger] integer_shrinks(n)[j] == c,
        None => exists|a2: Seq<usize>, b2: Seq<usize>, a: Seq<usize>, b: Seq<usize>|
            #![trigger pick(g.left, a2), pick(g.right, b2), pick(g.left, a), pick(g.right, b)]
            is_index_subset(a2, g.left.len()) && is_index_subset(b2, g.right.len()) && is_index_subset(
                a,
                g.left.len(),
            ) && is_index_subset(b, g.right.len()) && c2 == node(pick(g.left, a2), pick(g.right, b2))
                && c == node(pick(g.left, a), pick(g.right, b)) && pair_less((a2, b2), (a, b)),
    }
}

/// Of two different forms that `g` shrinks to, one is tried before the other.
pub proof fn lemma_shrinks_before_total(g: GameTree, c: GameTree, c2: GameTree)
    requires
        is_shrink_candidate(g, c),
        is_shrink_candidate(g, c2),
        c != c2,
    ensures
        shrinks_before(g, c, c2) || shrinks_before(g, c2, c),
{
    match tree_to_integer(g) {
        Some(n) => {
            let t = integer_shrinks(n);
            let i = choose|i: int| 0 <= i < t.len() && t[i] == c;
            let j = choose|j: int| 0 <= j < t.len() && t[j] == c2;
            if i < j {
                assert(t[i] == c && t[j] == c2);
            } else {
                assert(t[j] == c2 && t[i] == c);
            }
        },
        None => {
            let (a, b) = choose|a: Seq<usize>, b: Seq<usize>|
                is_index_subset(a, g.left.len()) && a.len() < g.left.len() && is_index_subset(b, g.right.len())
                    && b.len() < g.right.len() && is_p_free(c) && c == node(
                    #[trigger] pick(g.left, a),
                    #[trigger] pick(g.right, b),
                );
            let (a2, b2) = choose|a2: Seq<usize>, b2: Seq<usize>|
                is_index_subset(a2, g.left.len()) && a2.len() < g.left.len() && is_index_subset(
                    b2,
                    g.right.len(),
                ) && b2.len() < g.right.len() && is_p_free(c2) && c2 == node(
                    #[trigger] pick(g.left, a2),
                    #[trigger] pick(g.right, b2),
                );
            if a != a2 {
                lemma_graded_less_total(a, a2);
            } else {
                assert(b != b2);
                lemma_graded_less_total(b, b2);
            }
            if pair_less((a, b), (a2, b2)) {
                assert(shrinks_before(g, c, c2));
            } else {
                assert(pair_less((a2, b2), (a, b)));
                assert(shrinks_before(g, c2, c));
            }
        },
    }
}

/// `c` is smaller than `g`: born earlier, or born on the same day with
/// fewer options
pub open spec fn smaller_form(c: GameTree, g: GameTree) -> bool {
    ||| birthday(c) < birthday(g)
    ||| birthday(c) == birthday(g) && c.left.len() + c.right.len() < g.left.len() + g.right.len()
}

/// Options of a strictly sorted list picked at increasing positions are
/// strictly sorted.
proof fn lemma_pick_sorted(s: Seq<GameTree>, a: Seq<usize>)
    requires
        strictly_sorted(s),
        is_index_subset(a, s.len()),
    ensures
        strictly_sorted(pick(s, a)),
{
    let p = pick(s, a);
    assert forall|i: int, j: int| 0 <= i < j < p.len() implies #[trigger] tree_order(p[i], p[j]) == -1 by {
        assert(a[i] < a[j]);
        assert(tree_order(s[a[i] as int], s[a[j] as int]) == -1);
    }
}

/// Of a canonical form, the options picked at two subsets of positions make
/// the same form only when the subsets are the same.
proof fn lemma_pick_injective(
    g: GameTree,
    a: Seq<usize>,
    b: Seq<usize>,
    a2: Seq<usize>,
    b2: Seq<usize>,
)
    requires
        canonical(g),
        is_index_subset(a, g.left.len()),
        is_index_subset(b, g.right.len()),
        is_index_subset(a2, g.left.len()),
        is_index_subset(b2, g.right.len()),
        node(pick(g.left, a), pick(g.right, b)) == node(pick(g.left, a2), pick(g.right, b2)),
    ensures
        a == a2,
        b == b2,
{
    lemma_pick_sorted(g.left, a);
    lemma_pick_sorted(g.right, b);
    lemma_pick_sorted(g.left, a2);
    lemma_pick_sorted(g.right, b2);
    lemma_canonical_seq_sorted(pick(g.left, a));
    lemma_canonical_seq_sorted(pick(g.right, b));
    lemma_canonical_seq_sorted(pick(g.left, a2));
    lemma_canonical_seq_sorted(pick(g.right, b2));
    lemma_seq_pick_injective(g.left, a, a2);
    lemma_seq_pick_injective(g.right, b, b2);
}

/// Of a strictly sorted list, equal picks are made at equal positions.
proof fn lemma_seq_pick_injective(s: Seq<GameTree>, a: Seq<usize>, a2: Seq<usize>)
    requires
        strictly_sorted(s),
        is_index_subset(a, s.len()),
        is_index_subset(a2, s.len()),
        pick(s, a) == pick(s, a2),
    ensures
        a == a2,
{
    assert(pick(s, a).len() == a.len() && pick(s, a2).len() == a2.len());
    assert forall|i: int| 0 <= i < a.len() implies a[i] == a2[i] by {
        assert(pick(s, a)[i] == pick(s, a2)[i]);
        let x = a[i] as int;
        let y = a2[i] as int;
        lemma_tree_order_refl(s[x]);
        if x < y {
            assert(tree_order(s[x], s[y]) == -1);
        } else if y < x {
            assert(tree_order(s[y], s[x]) == -1);
        }
    }
    assert(a =~= a2);
}

/// No pair of position lists comes before itself, and of two pairs at most
/// one comes before the other.
proof fn lemma_pair_less_asymmetric(x: (Seq<usize>, Seq<usize>), y: (Seq<usize>, Seq<usize>))
    ensures
        !pair_less(x, x),
        !(pair_less(x, y) && pair_less(y, x)),
{
    lemma_graded_less_asymmetric(x.0, y.0);
    lemma_graded_less_asymmetric(x.1, y.1);
}

/// Picking a proper subset of the options on each side of a canonical form
/// gives a smaller form.
proof fn lemma_pick_smaller(g: GameTree, a: Seq<usize>, b: Seq<usize>)
    requires
        canonical(g),
        is_index_subset(a, g.left.len()),
        a.len() < g.left.len(),
        is_index_subset(b, g.right.len()),
        b.len() < g.right.len(),
    ensures
        smaller_form(node(pick(g.left, a), pick(g.right, b)), g),
{
    let pl = pick(g.left, a);
    let pr = pick(g.right, b);
    lemma_pick_sorted(g.left, a);
    lemma_pick_sorted(g.right, b);
    lemma_canonical_seq_sorted(pl);
    lemma_canonical_seq_sorted(pr);
    assert forall|k: int| 0 <= k < pl.len() implies birthday(#[trigger] pl[k]) < birthday(g) by {
        lemma_child_birthday(g, Player::Left, a[k] as int);
    }
    assert forall|k: int| 0 <= k < pr.len() implies birthday(#[trigger] pr[k]) < birthday(g) by {
        lemma_child_birthday(g, Player::Right, b[k] as int);
    }
    lemma_node_birthday_bound(pl, pr, birthday(g) as int);
}

/// The options at the given positions
fn pick_forms(options: &[PFreeForm<StandardForm>], positions: &Vec<usize>) -> (r: Vec<
    PFreeForm<StandardForm>,
>)
    requires
        forall|i: int| 0 <= i < positions@.len() ==> positions@[i] < options@.len(),
    ensures
        p_free_views(r@) == pick(p_free_views(options@), positions@),
{
    let mut out: Vec<PFreeForm<StandardForm>> = Vec::new();
    let mut k: usize = 0;
    while k < positions.len()
        invariant
            k <= positions@.len(),
            forall|i: int| 0 <= i < positions@.len() ==> positions@[i] < options@.len(),
            out@.len() == k,
            forall|t: int| 0 <= t < k ==> #[trigger] out@[t]@ == options@[positions@[t] as int]@,
        decreases positions.len() - k,
    {
        let f = options[positions[k]].clone();
        out.push(f);
        k += 1;
    }
    assert(p_free_views(out@) =~= pick(p_free_views(options@), positions@));
    out
}

impl PFreeFormContext<StandardFormContext> {
    /// The P-free forms with Left options picked from `left` at the
    /// positions of a list of `ls`, and Right options picked from `right` at
    /// the positions of a list of `rs`, in the order of the pairs of lists.
    fn forms_of_picks(
        &self,
        left: &[PFreeForm<StandardForm>],
        right: &[PFreeForm<StandardForm>],
        ls: &Vec<Vec<usize>>,
        rs: &Vec<Vec<usize>>,
        Ghost(left_ok): Ghost<spec_fn(Seq<usize>) -> bool>,
        Ghost(right_ok): Ghost<spec_fn(Seq<usize>) -> bool>,
    ) -> (r: Vec<PFreeForm<StandardForm>>)
        requires
            forall|i: int|
                0 <= i < ls@.len() ==> left_ok(#[trigger] ls@[i]@) && is_index_subset(
                    ls@[i]@,
                    left@.len(),
                ),
            forall|a: Seq<usize>| #[trigger] left_ok(a) ==> exists|i: int| 0 <= i < ls@.len() && ls@[i]@ == a,
            forall|i: int, j: int| 0 <= i < j < ls@.len() ==> graded_less(ls@[i]@, ls@[j]@),
            forall|i: int|
                0 <= i < rs@.len() ==> right_ok(#[trigger] rs@[i]@) && is_index_subset(
                    rs@[i]@,
                    right@.len(),
                ),
            forall|b: Seq<usize>| #[trigger] right_ok(b) ==> exists|i: int| 0 <= i < rs@.len() && rs@[i]@ == b,
            forall|i: int, j: int| 0 <= i < j < rs@.len() ==> graded_less(rs@[i]@, rs@[j]@),
        ensures
            lists_p_free_picks(p_free_views(r@), p_free_views(left@), p_free_views(right@), left_ok, right_ok),
    {
        let ghost lv = p_free_views(left@);
        let ghost rv = p_free_views(right@);
        let mut out: Vec<PFreeForm<StandardForm>> = Vec::new();
        let ghost mut idx: Seq<(int, int)> = Seq::empty();
        let mut i: usize = 0;
        while i < ls.len()
            invariant
                i <= ls@.len(),
                lv == p_free_views(left@),
                rv == p_free_views(right@),
                forall|k: int|
                    0 <= k < ls@.len() ==> left_ok(#[trigger] ls@[k]@) && is_index_subset(
                        ls@[k]@,
                        left@.len(),
                    ),
                forall|k: int|
                    0 <= k < rs@.len() ==> right_ok(#[trigger] rs@[k]@) && is_index_subset(
                        rs@[k]@,
                        right@.len(),
                    ),
                out@.len() == idx.len(),
                forall|m: int|
                    0 <= m < idx.len() ==> 0 <= #[trigger] idx[m].0 < i && 0 <= idx[m].1 < rs@.len()
                        && out@[m]@ == node(pick(lv, ls@[idx[m].0]@), pick(rv, rs@[idx[m].1]@))
                        && is_p_free(out@[m]@),
                forall|m: int, n: int| 0 <= m < n < idx.len() ==> index_pair_less(idx[m], idx[n]),
                forall|a: int, b: int|
                    0 <= a < i && 0 <= b < rs@.len() && is_p_free(
                        node(pick(lv, #[trigger] ls@[a]@), pick(rv, #[trigger] rs@[b]@)),
                    ) ==> idx.contains((a, b)),
            decreases ls.len() - i,
        {
            let mut j: usize = 0;
            while j < rs.len()
                invariant
                    i < ls@.len(),
                    j <= rs@.len(),
                    lv == p_free_views(left@),
                    rv == p_free_views(right@),
                    forall|k: int|
                        0 <= k < ls@.len() ==> left_ok(#[trigger] ls@[k]@) && is_index_subset(
                            ls@[k]@,
                            left@.len(),
                        ),
                    forall|k: int|
                        0 <= k < rs@.len() ==> right_ok(#[trigger] rs@[k]@) && is_index_subset(
                            rs@[k]@,
                            right@.len(),
                        ),
                    out@.len() == idx.len(),
                    forall|m: int|
                        0 <= m < idx.len() ==> 0 <= #[trigger] idx[m].0 <= i && 0 <= idx[m].1 < rs@.len()
                            && (idx[m].0 == i ==> idx[m].1 < j)
                            && out@[m]@ == node(pick(lv, ls@[idx[m].0]@), pick(rv, rs@[idx[m].1]@))
                            && is_p_free(out@[m]@),
                    forall|m: int, n: int| 0 <= m < n < idx.len() ==> index_pair_less(idx[m], idx[n]),
                    forall|a: int, b: int|
                        0 <= a <= i && 0 <= b < rs@.len() && (a == i ==> b < j) && is_p_free(
                            node(pick(lv, #[trigger] ls@[a]@), pick(rv, #[trigger] rs@[b]@)),
                        ) ==> idx.contains((a, b)),
                decreases rs.len() - j,
            {
                proof {
                    assert(is_index_subset(ls@[i as int]@, left@.len()));
                    assert(is_index_subset(rs@[j as int]@, right@.len()));
                }
                let lp = pick_forms(left, &ls[i]);
                let rp = pick_forms(right, &rs[j]);
                let ghost before_idx = idx;
                let ghost before_out = out@;
                match self.new_form(lp, rp) {
                    Ok(f) => {
                        out.push(f);
                        proof {
                            idx = idx.push((i as int, j as int));
                            assert forall|m: int|
                                0 <= m < idx.len() implies 0 <= #[trigger] idx[m].0 <= i && 0 <= idx[m].1
                                < rs@.len() && (idx[m].0 == i ==> idx[m].1 < j + 1) && out@[m]@ == node(
                                pick(lv, ls@[idx[m].0]@),
                                pick(rv, rs@[idx[m].1]@),
                            ) && is_p_free(out@[m]@) by {
                                if m < before_idx.len() {
                                    assert(idx[m] == before_idx[m]);
                                    assert(out@[m] == before_out[m]);
                                }
                            }
                            assert forall|m: int, n: int| 0 <= m < n < idx.len() implies index_pair_less(
                                idx[m],
                                idx[n],
                            ) by {
                                if n < before_idx.len() {
                                    assert(idx[m] == before_idx[m] && idx[n] == before_idx[n]);
                                } else {
                                    assert(idx[m] == before_idx[m]);
                                }
                            }
                            assert forall|a: int, b: int|
                                0 <= a <= i && 0 <= b < rs@.len() && (a == i ==> b < j + 1) && is_p_free(
                                    node(pick(lv, #[trigger] ls@[a]@), pick(rv, #[trigger] rs@[b]@)),
                                ) implies idx.contains((a, b)) by {
                                if a == i && b == j {
                                    assert(idx[idx.len() - 1] == (a, b));
                                } else {
                                    assert(before_idx.contains((a, b)));
                                    let m = choose|m: int| 0 <= m < before_idx.len() && before_idx[m] == (a, b);
                                    assert(idx[m] == (a, b));
                                }
                            }
                        }
                    },
                    Err(_) => {
                        proof {
                            assert forall|a: int, b: int|
                                0 <= a <= i && 0 <= b < rs@.len() && (a == i ==> b < j + 1) && is_p_free(
                                    node(pick(lv, #[trigger] ls@[a]@), pick(rv, #[trigger] rs@[b]@)),
                                ) implies idx.contains((a, b)) by {
                                if a == i && b == j {
                                    assert(false);
                                }
                            }
                        }
                    },
                }
                j += 1;
            }
            i += 1;
        }
        let ghost ps = Seq::new(idx.len(), |m: int| (ls@[idx[m].0]@, rs@[idx[m].1]@));
        proof {
            assert forall|m: int, n: int| 0 <= m < n < ps.len() implies pair_less(ps[m], ps[n]) by {
                assert(index_pair_less(idx[m], idx[n]));
                if idx[m].0 < idx[n].0 {
                    assert(graded_less(ls@[idx[m].0]@, ls@[idx[n].0]@));
                } else {
                    assert(graded_less(rs@[idx[m].1]@, rs@[idx[n].1]@));
                }
            }
            assert forall|a: Seq<usize>, b: Seq<usize>|
                #![trigger pick(lv, a), pick(rv, b)]
                left_ok(a) && right_ok(b) && is_p_free(node(pick(lv, a), pick(rv, b))) implies exists|m: int|
                0 <= m < ps.len() && ps[m] == (a, b) by {
                let ia = choose|k: int| 0 <= k < ls@.len() && ls@[k]@ == a;
                let ib = choose|k: int| 0 <= k < rs@.len() && rs@[k]@ == b;
                assert(idx.contains((ia, ib)));
                let m = choose|m: int| 0 <= m < idx.len() && idx[m] == (ia, ib);
                assert(ps[m] == (a, b));
            }
            assert forall|m: int| 0 <= m < ps.len() implies left_ok(ps[m].0) && right_ok(ps[m].1)
                && #[trigger] p_free_views(out@)[m] == node(pick(lv, ps[m].0), pick(rv, ps[m].1))
                && is_p_free(p_free_views(out@)[m]) by {
                assert(left_ok(ls@[idx[m].0]@));
                assert(right_ok(rs@[idx[m].1]@));
            }
            assert(picks_witness(p_free_views(out@), lv, rv, left_ok, right_ok, p_free_kept(), ps));
        }
        out
    }

    /// Every P-free form whose Left options and whose Right options are
    /// subsets of `day`, ordered by the pair of subsets: by the Left subset,
    /// then by the Right one, fewer options first and subsets of one size in
    /// lexicographic order of their positions.
    pub fn next_day(&self, day: &[PFreeForm<StandardForm>]) -> (r: Vec<PFreeForm<StandardForm>>)
        requires
            day@.len() <= 27,
        ensures
            lists_p_free_picks(
                p_free_views(r@),
                p_free_views(day@),
                p_free_views(day@),
                |a: Seq<usize>| is_index_subset(a, day@.len()),
                |b: Seq<usize>| is_index_subset(b, day@.len()),
            ),
    {
        let subsets = index_powerset(day.len());
        let ghost ok = |a: Seq<usize>| is_index_subset(a, day@.len());
        self.forms_of_picks(day, day, &subsets, &subsets, Ghost(ok), Ghost(ok))
    }

    /// Smaller forms that a counterexample `game` can be replaced with: an
    /// integer shrinks toward zero, nearest first; any other form shrinks to
    /// the P-free forms whose Left options are a proper subset of its Left
    /// options and whose Right options are a proper subset of its Right
    /// options, ordered by the pair of subsets as in `next_day`.
    pub fn shrink(&self, game: &PFreeForm<StandardForm>) -> (r: Vec<PFreeForm<StandardForm>>)
        requires
            birthday(game@) <= i32::MAX,
        ensures
            match tree_to_integer(game@) {
                Some(n) => p_free_views(r@) == integer_shrinks(n),
                None => lists_p_free_picks(
                    p_free_views(r@),
                    game@.left,
                    game@.right,
                    |a: Seq<usize>| is_index_subset(a, game@.left.len()) && a.len() < game@.left.len(),
                    |b: Seq<usize>| is_index_subset(b, game@.right.len()) && b.len() < game@.right.len(),
                ),
            },
            forall|i: int|
                0 <= i < r@.len() ==> is_p_free(#[trigger] r@[i]@) && smaller_form(r@[i]@, game@)
                    && is_shrink_candidate(game@, r@[i]@),
            forall|c: GameTree| #[trigger]
                is_shrink_candidate(game@, c) ==> exists|i: int| 0 <= i < r@.len() && r@[i]@ == c,
            forall|i: int, c2: GameTree|
                0 <= i < r@.len() && is_shrink_candidate(game@, c2) && #[trigger] shrinks_before(
                    game@,
                    c2,
                    r@[i]@,
                ) ==> exists|k: int| 0 <= k < i && r@[k]@ == c2,
    {
        proof {
            lemma_integer_birthday(game@);
        }
        match self.to_integer(game) {
            Some(n) => {
                proof {
                    assert(tree_to_integer(game@) == Some(n as int));
                }
                let ghost target = integer_shrinks(n as int);
                let mut out: Vec<PFreeForm<StandardForm>> = Vec::new();
                if n < 0 {
                    let mut m: i32 = n;
                    while m < 0
                        invariant
                            n <= m <= 0,
                            n < 0,
                            target == integer_shrinks(n as int),
                            out@.len() == m - n,
                            forall|t: int| 0 <= t < out@.len() ==> #[trigger] out@[t]@ == target[t],
                        decreases 0 - m,
                    {
                        m = m + 1;
                        let f = self.new_integer(m).unwrap_infallible();
                        out.push(f);
                    }
                } else {
                    let mut m: i32 = n;
                    while m > 0
                        invariant
                            0 <= m <= n,
                            target == integer_shrinks(n as int),
                            out@.len() == n - m,
                            forall|t: int| 0 <= t < out@.len() ==> #[trigger] out@[t]@ == target[t],
                        decreases m,
                    {
                        m = m - 1;
                        let f = self.new_integer(m).unwrap_infallible();
                        out.push(f);
                    }
                }
                assert(p_free_views(out@) =~= target);
                proof {
                    lemma_integer_tree_unique(game@);
                    law_integer_birthday(n as int);
                    assert forall|i: int| 0 <= i < out@.len() implies is_p_free(#[trigger] out@[i]@) && smaller_form(
                        out@[i]@,
                        game@,
                    ) && is_shrink_candidate(game@, out@[i]@) by {
                        let m = if n < 0 { n + 1 + i } else { n - 1 - i };
                        assert(out@[i]@ == integer_tree(m));
                        law_integer_birthday(m);
                        law_integer_p_free(m);
                        assert(integer_shrinks(n as int)[i] == out@[i]@);
                        assert(is_shrink_candidate(game@, out@[i]@));
                    }
                    assert forall|c: GameTree| #[trigger] is_shrink_candidate(game@, c) implies exists|i: int|
                        0 <= i < out@.len() && out@[i]@ == c by {
                        let i = choose|i: int| 0 <= i < target.len() && target[i] == c;
                        assert(p_free_views(out@)[i] == out@[i]@);
                    }
                    assert forall|i: int, c2: GameTree|
                        0 <= i < out@.len() && is_shrink_candidate(game@, c2) && #[trigger] shrinks_before(
                            game@,
                            c2,
                            out@[i]@,
                        ) implies exists|k: int| 0 <= k < i && out@[k]@ == c2 by {
                        let (p, q) = choose|p: int, q: int|
                            0 <= p < q < target.len() && #[trigger] target[p] == c2 && #[trigger] target[q]
                                == out@[i]@;
                        assert(p_free_views(out@)[i] == out@[i]@);
                        assert(p_free_views(out@)[p] == out@[p]@);
                        let vq = if n < 0 { n + 1 + q } else { n - 1 - q };
                        let vi = if n < 0 { n + 1 + i } else { n - 1 - i };
                        assert(target[q] == integer_tree(vq));
                        assert(target[i] == integer_tree(vi));
                        law_integer_roundtrip(vq);
                        law_integer_roundtrip(vi);
                        assert(q == i);
                    }
                }
                out
            },
            None => {
                let left = self.moves(game, Player::Left);
                let right = self.moves(game, Player::Right);
                let ls = proper_index_subsets(left.len());
                let rs = proper_index_subsets(right.len());
                let ghost left_ok = |a: Seq<usize>| is_index_subset(a, game@.left.len()) && a.len() < game@.left.len();
                let ghost right_ok = |b: Seq<usize>| is_index_subset(b, game@.right.len()) && b.len() < game@.right.len();
                proof {
                    assert(p_free_views(left@) == game@.left);
                    assert(p_free_views(right@) == game@.right);
                    assert(p_free_views(left@).len() == left@.len());
                    assert(p_free_views(right@).len() == right@.len());
                }
                let r = self.forms_of_picks(left.as_slice(), right.as_slice(), &ls, &rs, Ghost(left_ok), Ghost(right_ok));
                proof {
                    let rv = p_free_views(r@);
                    let ps = choose|ps: Seq<(Seq<usize>, Seq<usize>)>| picks_witness(rv, game@.left, game@.right, left_ok, right_ok, p_free_kept(), ps);
                    assert forall|i: int| 0 <= i < r@.len() implies is_p_free(#[trigger] r@[i]@) && smaller_form(
                        r@[i]@,
                        game@,
                    ) && is_shrink_candidate(game@, r@[i]@) by {
                        assert(rv[i] == r@[i]@);
                        assert(left_ok(ps[i].0) && right_ok(ps[i].1));
                        lemma_pick_smaller(game@, ps[i].0, ps[i].1);
                        assert(r@[i]@ == node(pick(game@.left, ps[i].0), pick(game@.right, ps[i].1)));
                        assert(is_index_subset(ps[i].0, game@.left.len()) && ps[i].0.len() < game@.left.len());
                        assert(is_index_subset(ps[i].1, game@.right.len()) && ps[i].1.len() < game@.right.len());
                        assert(is_shrink_candidate(game@, r@[i]@));
                    }
                    assert forall|c: GameTree| #[trigger] is_shrink_candidate(game@, c) implies exists|i: int|
                        0 <= i < r@.len() && r@[i]@ == c by {
                        let (a, b) = choose|a: Seq<usize>, b: Seq<usize>|
                            is_index_subset(a, game@.left.len()) && a.len() < game@.left.len()
                                && is_index_subset(b, game@.right.len()) && b.len() < game@.right.len()
                                && is_p_free(c) && c == node(
                                #[trigger] pick(game@.left, a),
                                #[trigger] pick(game@.right, b),
                            );
                        assert(left_ok(a) && right_ok(b));
                        let i = choose|i: int| 0 <= i < ps.len() && ps[i] == (a, b);
                        assert(rv[i] == r@[i]@);
                    }
                    assert forall|i: int, c2: GameTree|
                        0 <= i < r@.len() && is_shrink_candidate(game@, c2) && #[trigger] shrinks_before(
                            game@,
                            c2,
                            r@[i]@,
                        ) implies exists|k: int| 0 <= k < i && r@[k]@ == c2 by {
                        let (a2, b2, a, b) = choose|a2: Seq<usize>, b2: Seq<usize>, a: Seq<usize>, b: Seq<usize>|
                            #![trigger pick(game@.left, a2), pick(game@.right, b2), pick(game@.left, a), pick(game@.right, b)]
                            is_index_subset(a2, game@.left.len()) && is_index_subset(b2, game@.right.len())
                                && is_index_subset(a, game@.left.len()) && is_index_subset(b, game@.right.len())
                                && c2 == node(pick(game@.left, a2), pick(game@.right, b2)) && r@[i]@ == node(
                                pick(game@.left, a),
                                pick(game@.right, b),
                            ) && pair_less((a2, b2), (a, b));
                        assert(rv[i] == r@[i]@);
                        assert(left_ok(ps[i].0) && right_ok(ps[i].1));
                        lemma_pick_injective(game@, a, b, ps[i].0, ps[i].1);
                        let (a3, b3) = choose|a3: Seq<usize>, b3: Seq<usize>|
                            is_index_subset(a3, game@.left.len()) && a3.len() < game@.left.len()
                                && is_index_subset(b3, game@.right.len()) && b3.len() < game@.right.len()
                                && is_p_free(c2) && c2 == node(
                                #[trigger] pick(game@.left, a3),
                                #[trigger] pick(game@.right, b3),
                            );
                        lemma_pick_injective(game@, a2, b2, a3, b3);
                        assert(left_ok(a2) && right_ok(b2));
                        assert(p_free_kept()(node(pick(game@.left, a2), pick(game@.right, b2))));
                        let m = choose|m: int| 0 <= m < ps.len() && ps[m] == (a2, b2);
                        lemma_pair_less_asymmetric(ps[m], ps[i]);
                        if m > i {
                            assert(pair_less(ps[i], ps[m]));
                        }
                        assert(rv[m] == r@[m]@);
                    }
                }
                r
            },
        }
    }
}

} // verus!
