//! Enumerating game forms from subsets of given options: the forms born on
//! the next day, and the smaller forms that a counterexample shrinks to.

use vstd::prelude::*;
use crate::misere::game_form::context::StandardFormContext;
use crate::misere::game_form::form::{node, views, StandardForm};
use crate::misere::game_form::theory::{birthday, integer_tree, lemma_integer_birthday, tree_to_integer};
use crate::misere::game_form::tree::GameTree;
use crate::partizan::Player;
use crate::result::UnwrapInfallible;
use crate::subsets::{graded_less, index_powerset, is_index_subset, proper_index_subsets};

verus! {

/// The options at the given positions
pub open spec fn pick(options: Seq<GameTree>, positions: Seq<usize>) -> Seq<GameTree> {
    Seq::new(positions.len(), |i: int| options[positions[i] as int])
}

/// Pairs of position lists, ordered by their Left positions, then by their
/// Right positions
pub open spec fn pair_less(x: (Seq<usize>, Seq<usize>), y: (Seq<usize>, Seq<usize>)) -> bool {
    graded_less(x.0, y.0) || (x.0 == y.0 && graded_less(x.1, y.1))
}

/// `ps` shows that `r` lists the forms that `keep` keeps among those with
/// Left options picked from `left` and Right options picked from `right`, at
/// positions that `left_ok` and `right_ok` admit, ordered by their pairs of
/// positions.
pub open spec fn picks_witness(
    r: Seq<GameTree>,
    left: Seq<GameTree>,
    right: Seq<GameTree>,
    left_ok: spec_fn(Seq<usize>) -> bool,
    right_ok: spec_fn(Seq<usize>) -> bool,
    keep: spec_fn(GameTree) -> bool,
    ps: Seq<(Seq<usize>, Seq<usize>)>,
) -> bool {
    &&& ps.len() == r.len()
    &&& forall|i: int|
        0 <= i < ps.len() ==> left_ok(ps[i].0) && right_ok(ps[i].1) && #[trigger] r[i] == node(
            pick(left, ps[i].0),
            pick(right, ps[i].1),
        ) && keep(r[i])
    &&& forall|i: int, j: int| 0 <= i < j < ps.len() ==> pair_less(ps[i], ps[j])
    &&& forall|a: Seq<usize>, b: Seq<usize>|
        #![trigger pick(left, a), pick(right, b)]
        left_ok(a) && right_ok(b) && keep(node(pick(left, a), pick(right, b))) ==> exists|i: int|
            0 <= i < ps.len() && ps[i] == (a, b)
}

/// `r` lists the forms that `keep` keeps among those with Left options
/// picked from `left` and Right options picked from `right`, at positions
/// that `left_ok` and `right_ok` admit, each pair of positions once, ordered
/// by the pairs.
pub open spec fn lists_picks(
    r: Seq<GameTree>,
    left: Seq<GameTree>,
    right: Seq<GameTree>,
    left_ok: spec_fn(Seq<usize>) -> bool,
    right_ok: spec_fn(Seq<usize>) -> bool,
    keep: spec_fn(GameTree) -> bool,
) -> bool {
    exists|ps: Seq<(Seq<usize>, Seq<usize>)>| picks_witness(r, left, right, left_ok, right_ok, keep, ps)
}

/// Keep every form
pub open spec fn every_form() -> spec_fn(GameTree) -> bool {
    |t: GameTree| true
}

/// The integers an integer shrinks to: toward zero, nearest first
pub open spec fn integer_shrinks(n: int) -> Seq<GameTree> {
    if n < 0 {
        Seq::new((-n) as nat, |i: int| integer_tree(n + 1 + i))
    } else {
        Seq::new(n as nat, |i: int| integer_tree(n - 1 - i))
    }
}

/// Index pairs, ordered lexicographically
pub(crate) open spec fn index_pair_less(p: (int, int), q: (int, int)) -> bool {
    p.0 < q.0 || (p.0 == q.0 && p.1 < q.1)
}

/// The forms at the given positions
fn pick_forms(options: &[StandardForm], positions: &Vec<usize>) -> (r: Vec<StandardForm>)
    requires
        forall|i: int| 0 <= i < positions@.len() ==> positions@[i] < options@.len(),
    ensures
        views(r@) == pick(views(options@), positions@),
{
    let mut out: Vec<StandardForm> = Vec::new();
    let mut k: usize = 0;
    while k < positions.len()
        invariant
            k <= positions@.len(),
            forall|i: int| 0 <= i < positions@.len() ==> positions@[i] < options@.len(),
            out@.len() == k,
            forall|t: int| 0 <= t < k ==> #[trigger] out@[t]@ == options@[positions@[t] as int]@,
        decreases positions.len() - k,
    {
        let f = options[positions[k]].clone();
        out.push(f);
        k += 1;
    }
    assert(views(out@) =~= pick(views(options@), positions@));
    out
}

impl StandardFormContext {
    /// The forms with Left options picked from `left` at the positions of a
    /// list of `ls`, and Right options picked from `right` at the positions of
    /// a list of `rs`, in the order of the pairs of lists.
    fn forms_of_picks(
        &self,
        left: &[StandardForm],
        right: &[StandardForm],
        ls: &Vec<Vec<usize>>,
        rs: &Vec<Vec<usize>>,
        Ghost(left_ok): Ghost<spec_fn(Seq<usize>) -> bool>,
        Ghost(right_ok): Ghost<spec_fn(Seq<usize>) -> bool>,
    ) -> (r: Vec<StandardForm>)
        requires
            forall|i: int|
                0 <= i < ls@.len() ==> left_ok(#[trigger] ls@[i]@) && is_index_subset(
                    ls@[i]@,
                    left@.len(),
                ),
            forall|a: Seq<usize>| #[trigger] left_ok(a) ==> exists|i: int| 0 <= i < ls@.len() && ls@[i]@ == a,
            forall|i: int, j: int| 0 <= i < j < ls@.len() ==> graded_less(ls@[i]@, ls@[j]@),
            forall|i: int|
                0 <= i < rs@.len() ==> right_ok(#[trigger] rs@[i]@) && is_index_subset(
                    rs@[i]@,
                    right@.len(),
                ),
            forall|b: Seq<usize>| #[trigger] right_ok(b) ==> exists|i: int| 0 <= i < rs@.len() && rs@[i]@ == b,
            forall|i: int, j: int| 0 <= i < j < rs@.len() ==> graded_less(rs@[i]@, rs@[j]@),
        ensures
            lists_picks(views(r@), views(left@), views(right@), left_ok, right_ok, every_form()),
    {
        let ghost lv = views(left@);
        let ghost rv = views(right@);
        let mut out: Vec<StandardForm> = Vec::new();
        let ghost mut idx: Seq<(int, int)> = Seq::empty();
        let mut i: usize = 0;
        while i < ls.len()
            invariant
                i <= ls@.len(),
                lv == views(left@),
                rv == views(right@),
                forall|k: int|
                    0 <= k < ls@.len() ==> left_ok(#[trigger] ls@[k]@) && is_index_subset(
                        ls@[k]@,
                        left@.len(),
                    ),
                forall|k: int|
                    0 <= k < rs@.len() ==> right_ok(#[trigger] rs@[k]@) && is_index_subset(
                        rs@[k]@,
                        right@.len(),
                    ),
                out@.len() == idx.len(),
                forall|m: int|
                    0 <= m < idx.len() ==> 0 <= #[trigger] idx[m].0 < i && 0 <= idx[m].1 < rs@.len()
                        && out@[m]@ == node(pick(lv, ls@[idx[m].0]@), pick(rv, rs@[idx[m].1]@)),
                forall|m: int, n: int| 0 <= m < n < idx.len() ==> index_pair_less(idx[m], idx[n]),
                forall|a: int, b: int| 0 <= a < i && 0 <= b < rs@.len() ==> idx.contains((a, b)),
            decreases ls.len() - i,
        {
            let mut j: usize = 0;
            while j < rs.len()
                invariant
                    i < ls@.len(),
                    j <= rs@.len(),
                    lv == views(left@),
                    rv == views(right@),
                    forall|k: int|
                        0 <= k < ls@.len() ==> left_ok(#[trigger] ls@[k]@) && is_index_subset(
                            ls@[k]@,
                            left@.len(),
                        ),
                    forall|k: int|
                        0 <= k < rs@.len() ==> right_ok(#[trigger] rs@[k]@) && is_index_subset(
                            rs@[k]@,
                            right@.len(),
                        ),
                    out@.len() == idx.len(),
                    forall|m: int|
                        0 <= m < idx.len() ==> 0 <= #[trigger] idx[m].0 <= i && 0 <= idx[m].1 < rs@.len()
                            && (idx[m].0 == i ==> idx[m].1 < j)
                            && out@[m]@ == node(pick(lv, ls@[idx[m].0]@), pick(rv, rs@[idx[m].1]@)),
                    forall|m: int, n: int| 0 <= m < n < idx.len() ==> index_pair_less(idx[m], idx[n]),
                    forall|a: int, b: int|
                        0 <= a <= i && 0 <= b < rs@.len() && (a == i ==> b < j) ==> idx.contains((a, b)),
                decreases rs.len() - j,
            {
                proof {
                    assert(is_index_subset(ls@[i as int]@, left@.len()));
                    assert(is_index_subset(rs@[j as int]@, right@.len()));
                }
                let lp = pick_forms(left, &ls[i]);
                let rp = pick_forms(right, &rs[j]);
                let ghost before_idx = idx;
                let ghost before_out = out@;
                let f = StandardForm::new(lp, rp);
                out.push(f);
                proof {
                    idx = idx.push((i as int, j as int));
                    assert forall|m: int|
                        0 <= m < idx.len() implies 0 <= #[trigger] idx[m].0 <= i && 0 <= idx[m].1 < rs@.len()
                        && (idx[m].0 == i ==> idx[m].1 < j + 1) && out@[m]@ == node(
                        pick(lv, ls@[idx[m].0]@),
                        pick(rv, rs@[idx[m].1]@),
                    ) by {
                        if m < before_idx.len() {
                            assert(idx[m] == before_idx[m]);
                            assert(out@[m] == before_out[m]);
                        }
                    }
                    assert forall|m: int, n: int| 0 <= m < n < idx.len() implies index_pair_less(
                        idx[m],
                        idx[n],
                    ) by {
                        if n < before_idx.len() {
                            assert(idx[m] == before_idx[m] && idx[n] == before_idx[n]);
                        } else {
                            assert(idx[m] == before_idx[m]);
                        }
                    }
                    assert forall|a: int, b: int|
                        0 <= a <= i && 0 <= b < rs@.len() && (a == i ==> b < j + 1) implies idx.contains(
                        (a, b),
                    ) by {
                        if a == i && b == j {
                            assert(idx[idx.len() - 1] == (a, b));
                        } else {
                            assert(before_idx.contains((a, b)));
                            let m = choose|m: int| 0 <= m < before_idx.len() && before_idx[m] == (a, b);
                            assert(idx[m] == (a, b));
                        }
                    }
                }
                j += 1;
            }
            i += 1;
        }
        let ghost ps = Seq::new(idx.len(), |m: int| (ls@[idx[m].0]@, rs@[idx[m].1]@));
        proof {
            assert forall|m: int, n: int| 0 <= m < n < ps.len() implies pair_less(ps[m], ps[n]) by {
                assert(index_pair_less(idx[m], idx[n]));
                if idx[m].0 < idx[n].0 {
                    assert(graded_less(ls@[idx[m].0]@, ls@[idx[n].0]@));
                } else {
                    assert(graded_less(rs@[idx[m].1]@, rs@[idx[n].1]@));
                }
            }
            assert forall|a: Seq<usize>, b: Seq<usize>|
                #![trigger pick(lv, a), pick(rv, b)]
                left_ok(a) && right_ok(b) && every_form()(node(pick(lv, a), pick(rv, b))) implies exists|m: int|
                0 <= m < ps.len() && ps[m] == (a, b) by {
                let ia = choose|k: int| 0 <= k < ls@.len() && ls@[k]@ == a;
                let ib = choose|k: int| 0 <= k < rs@.len() && rs@[k]@ == b;
                assert(idx.contains((ia, ib)));
                let m = choose|m: int| 0 <= m < idx.len() && idx[m] == (ia, ib);
                assert(ps[m] == (a, b));
            }
            assert forall|m: int| 0 <= m < ps.len() implies left_ok(ps[m].0) && right_ok(ps[m].1)
                && #[trigger] views(out@)[m] == node(pick(lv, ps[m].0), pick(rv, ps[m].1))
                && every_form()(views(out@)[m]) by {
                assert(left_ok(ls@[idx[m].0]@));
                assert(right_ok(rs@[idx[m].1]@));
            }
            assert(picks_witness(views(out@), lv, rv, left_ok, right_ok, every_form(), ps));
        }
        out
    }

    /// Every form whose Left options and whose Right options are subsets of
    /// `day`, ordered by the pair of subsets: by the Left subset, then by the
    /// Right one, fewer options first and subsets of one size in
    /// lexicographic order of their positions.
    pub fn next_day(&self, day: &[StandardForm]) -> (r: Vec<StandardForm>)
        requires
            day@.len() <= 27,
        ensures
            lists_picks(
                views(r@),
                views(day@),
                views(day@),
                |a: Seq<usize>| is_index_subset(a, day@.len()),
                |b: Seq<usize>| is_index_subset(b, day@.len()),
                every_form(),
            ),
    {
        let subsets = index_powerset(day.len());
        let ghost ok = |a: Seq<usize>| is_index_subset(a, day@.len());
        self.forms_of_picks(day, day, &subsets, &subsets, Ghost(ok), Ghost(ok))
    }

    /// Smaller forms that a counterexample `game` can be replaced with: an
    /// integer shrinks toward zero, nearest first; any other form shrinks to
    /// the forms whose Left options are a proper subset of its Left options
    /// and whose Right options are a proper subset of its Right options,
    /// ordered by the pair of subsets as in `next_day`.
    pub fn shrink(&self, game: &StandardForm) -> (r: Vec<StandardForm>)
        requires
            birthday(game@) <= i32::MAX,
        ensures
            match tree_to_integer(game@) {
                Some(n) => views(r@) == integer_shrinks(n),
                None => lists_picks(
                    views(r@),
                    game@.left,
                    game@.right,
                    |a: Seq<usize>| is_index_subset(a, game@.left.len()) && a.len() < game@.left.len(),
                    |b: Seq<usize>| is_index_subset(b, game@.right.len()) && b.len() < game@.right.len(),
                    every_form(),
                ),
            },
    {
        proof {
            lemma_integer_birthday(game@);
        }
        match self.to_integer(game) {
            Some(n) => {
                proof {
                    assert(tree_to_integer(game@) == Some(n as int));
                }
                let ghost target = integer_shrinks(n as int);
                let mut out: Vec<StandardForm> = Vec::new();
                if n < 0 {
                    let mut m: i32 = n;
                    while m < 0
                        invariant
                            n <= m <= 0,
                            n < 0,
                            target == integer_shrinks(n as int),
                            out@.len() == m - n,
                            forall|t: int| 0 <= t < out@.len() ==> #[trigger] out@[t]@ == target[t],
                        decreases 0 - m,
                    {
                        m = m + 1;
                        let f = self.new_integer(m).unwrap_infallible();
                        out.push(f);
                    }
                } else {
                    let mut m: i32 = n;
                    while m > 0
                        invariant
                            0 <= m <= n,
                            target == integer_shrinks(n as int),
                            out@.len() == n - m,
                            forall|t: int| 0 <= t < out@.len() ==> #[trigger] out@[t]@ == target[t],
                        decreases m,
                    {
                        m = m - 1;
                        let f = self.new_integer(m).unwrap_infallible();
                        out.push(f);
                    }
                }
                assert(views(out@) =~= target);
                out
            },
            None => {
                let left = self.moves(game, Player::Left);
                let right = self.moves(game, Player::Right);
                let ls = proper_index_subsets(left.len());
                let rs = proper_index_subsets(right.len());
                let ghost left_ok = |a: Seq<usize>| is_index_subset(a, game@.left.len()) && a.len() < game@.left.len();
                let ghost right_ok = |b: Seq<usize>| is_index_subset(b, game@.right.len()) && b.len() < game@.right.len();
                proof {
                    assert(views(left@) == game@.left);
                    assert(views(right@) == game@.right);
                    assert(views(left@).len() == left@.len());
                    assert(views(right@).len() == right@.len());
                }
                self.forms_of_picks(left, right, &ls, &rs, Ghost(left_ok), Ghost(right_ok))
            },
        }
    }
}

} // verus!
