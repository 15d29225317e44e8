//! Listing the P-free dead-ending forms day by day, reduced modulo the
//! P-free dead-ending universe, and the Hasse diagram of their order.

use vstd::prelude::*;
use std::convert::Infallible;
use crate::misere::game_form::context::StandardFormContext;
use crate::misere::game_form::form::{insert_form, node, views, StandardForm};
use crate::misere::game_form::laws::lemma_node_birthday_bound;
use crate::misere::game_form::theory::{birthday, is_dead_ending, is_p_free};
use crate::misere::game_form::tree::{strictly_sorted, GameTree};
use crate::misere::p_free::{p_free_views, PFreeConstructionError, PFreeForm, PFreeFormContext};
use crate::misere::p_free_dead_ending::{
    ge_mod_p_free_dead_ending_spec, law_integers_compare_reversed, reduced_form, DeadEndingContext,
    PFreeDeadEndingContext,
};
use crate::misere::game_form::theory::integer_tree;
use crate::misere::game_form::laws::{law_integer_iff, law_integer_roundtrip};
use crate::misere::game_form::enumerate::{pick, picks_witness};
use crate::misere::p_free_enumerate::p_free_kept;
use crate::subsets::is_index_subset;

verus! {

/// What the listing prints, as given on the command line
#[derive(Debug, Clone)]
pub struct Args {
    /// Day to print
    pub day: u32,
    /// Where to write the diagram: a file path, or `-` for the standard output
    pub output: String,
}

/// `c` is a P-free form whose Left options and whose Right options are
/// subsets of `day`.
pub open spec fn is_next_day_form(day: Seq<GameTree>, c: GameTree) -> bool {
    exists|a: Seq<usize>, b: Seq<usize>|
        is_index_subset(a, day.len()) && is_index_subset(b, day.len()) && is_p_free(c) && c == node(
            #[trigger] pick(day, a),
            #[trigger] pick(day, b),
        )
}

/// `t` is what is left of `g` once dominated options are removed on both
/// sides and pairs of single integer options are collapsed, as `reduced`
/// computes it.
pub open spec fn reduces_to<D: DeadEndingContext>(d: &D, g: GameTree, t: GameTree) -> bool {
    reduced_form(d, g) == t
}

/// Forms of a list, each known to be P-free
fn wrap_all(v: Vec<StandardForm>) -> (r: Vec<PFreeForm<StandardForm>>)
    ensures
        p_free_views(r@) == views(v@),
{
    let mut out: Vec<PFreeForm<StandardForm>> = Vec::new();
    let mut k: usize = 0;
    while k < v.len()
        invariant
            k <= v@.len(),
            out@.len() == k,
            forall|t: int| 0 <= t < k ==> #[trigger] out@[t]@ == v@[t]@,
        decreases v.len() - k,
    {
        let f = PFreeForm::new_unchecked(v[k].clone());
        out.push(f);
        k += 1;
    }
    assert(p_free_views(out@) =~= views(v@));
    out
}

/// Every form made on `day` is born before `i32::MAX`.
proof fn lemma_next_day_birthday(day: Seq<GameTree>, a: Seq<usize>, b: Seq<usize>)
    requires
        is_index_subset(a, day.len()),
        is_index_subset(b, day.len()),
        forall|k: int| 0 <= k < day.len() ==> birthday(#[trigger] day[k]) < i32::MAX - 1,
    ensures
        birthday(node(pick(day, a), pick(day, b))) < i32::MAX,
{
    let pl = pick(day, a);
    let pr = pick(day, b);
    assert forall|k: int| 0 <= k < pl.len() implies birthday(#[trigger] pl[k]) < i32::MAX - 1 by {
        assert(pl[k] == day[a[k] as int]);
    }
    assert forall|k: int| 0 <= k < pr.len() implies birthday(#[trigger] pr[k]) < i32::MAX - 1 by {
        assert(pr[k] == day[b[k] as int]);
    }
    lemma_node_birthday_bound(pl, pr, i32::MAX - 1);
}

/// The P-free dead-ending forms of the day after `previous_day`, each
/// reduced, without repetitions, in structural order. Fails when a form
/// reduces to one that is not P-free.
pub fn next_day<D: PFreeDeadEndingContext>(context: &D, previous_day: &[PFreeForm<StandardForm>]) -> (r: Result<
    Vec<PFreeForm<StandardForm>>,
    PFreeConstructionError<Infallible>,
>)
    requires
        previous_day@.len() <= 27,
        forall|k: int| 0 <= k < previous_day@.len() ==> birthday(#[trigger] previous_day@[k]@) < i32::MAX - 1,
    ensures
        r matches Ok(v) ==> {
            &&& strictly_sorted(p_free_views(v@))
            &&& forall|t: GameTree| #[trigger]
                p_free_views(v@).contains(t) ==> is_p_free(t) && exists|c: GameTree|
                    is_next_day_form(p_free_views(previous_day@), c) && is_dead_ending(c) && reduces_to(
                        context,
                        c,
                        t,
                    )
            &&& forall|c: GameTree|
                #[trigger] is_next_day_form(p_free_views(previous_day@), c) && is_dead_ending(c) ==> exists|
                    t: GameTree,
                | p_free_views(v@).contains(t) && reduces_to(context, c, t)
        },
        r is Err ==> exists|c: GameTree, t: GameTree|
            is_next_day_form(p_free_views(previous_day@), c) && is_dead_ending(c) && reduces_to(context, c, t)
                && !is_p_free(t),
{
    let ghost day = p_free_views(previous_day@);
    let pf = PFreeFormContext::new(StandardFormContext);
    let candidates = pf.next_day(previous_day);
    let ghost cv = p_free_views(candidates@);
    let ghost ok = |a: Seq<usize>| is_index_subset(a, day.len());
    let ghost ps = choose|ps: Seq<(Seq<usize>, Seq<usize>)>| picks_witness(cv, day, day, ok, ok, p_free_kept(), ps);
    proof {
        assert forall|k: int| 0 <= k < candidates@.len() implies is_next_day_form(day, #[trigger] candidates@[k]@)
            && birthday(candidates@[k]@) < i32::MAX by {
            assert(cv[k] == candidates@[k]@);
            assert(ok(ps[k].0) && ok(ps[k].1));
            lemma_next_day_birthday(day, ps[k].0, ps[k].1);
            assert(candidates@[k]@ == node(pick(day, ps[k].0), pick(day, ps[k].1)));
        }
    }
    let mut acc: Vec<StandardForm> = Vec::new();
    let mut i: usize = 0;
    while i < candidates.len()
        invariant
            i <= candidates@.len(),
            day == p_free_views(previous_day@),
            forall|k: int|
                0 <= k < candidates@.len() ==> is_next_day_form(day, #[trigger] candidates@[k]@) && birthday(
                    candidates@[k]@,
                ) < i32::MAX,
            strictly_sorted(views(acc@)),
            forall|t: GameTree| #[trigger]
                views(acc@).contains(t) ==> is_p_free(t) && exists|c: GameTree|
                    is_next_day_form(day, c) && is_dead_ending(c) && reduces_to(context, c, t),
            forall|k: int|
                0 <= k < i && is_dead_ending(#[trigger] candidates@[k]@) ==> exists|t: GameTree|
                    views(acc@).contains(t) && reduces_to(context, candidates@[k]@, t),
        decreases candidates.len() - i,
    {
        let c = &candidates[i];
        if pf.is_p_free(c) && pf.is_dead_ending(c) {
            match context.reduced(c) {
                Ok(f) => {
                    let ghost before = views(acc@);
                    let ghost fx = f@;
                    proof {
                        assert(reduced_form(context, c@) == f@);
                        assert(reduces_to(context, c@, f@));
                        assert(is_p_free(f@));
                    }
                    insert_form(&mut acc, f.into_underlying());
                    proof {
                        assert forall|t: GameTree| #[trigger]
                            views(acc@).contains(t) implies is_p_free(t) && exists|c2: GameTree|
                                is_next_day_form(day, c2) && is_dead_ending(c2) && reduces_to(context, c2, t) by {
                            if t != candidates@[i as int]@ && before.contains(t) {
                            } else if before.contains(t) {
                            } else {
                                assert(is_next_day_form(day, candidates@[i as int]@));
                            }
                        }
                        assert forall|k: int|
                            0 <= k < i + 1 && is_dead_ending(#[trigger] candidates@[k]@) implies exists|t: GameTree|
                                views(acc@).contains(t) && reduces_to(context, candidates@[k]@, t) by {
                            if k < i {
                                let t = choose|t: GameTree| before.contains(t) && reduces_to(context, candidates@[k]@, t);
                                assert(views(acc@).contains(t));
                            } else {
                                assert(views(acc@).contains(fx));
                                assert(reduces_to(context, candidates@[i as int]@, fx));
                            }
                        }
                    }
                },
                Err(e) => {
                    proof {
                        let t = reduced_form(context, c@);
                        assert(reduces_to(context, c@, t));
                        assert(!is_p_free(t));
                        assert(is_next_day_form(day, candidates@[i as int]@));
                    }
                    return Err(e);
                },
            }
        }
        i += 1;
    }
    let v = wrap_all(acc);
    proof {
        assert forall|c: GameTree|
            #[trigger] is_next_day_form(day, c) && is_dead_ending(c) implies exists|t: GameTree|
                p_free_views(v@).contains(t) && reduces_to(context, c, t) by {
            let (a, b) = choose|a: Seq<usize>, b: Seq<usize>|
                is_index_subset(a, day.len()) && is_index_subset(b, day.len()) && is_p_free(c) && c == node(
                    #[trigger] pick(day, a),
                    #[trigger] pick(day, b),
                );
            assert(ok(a) && ok(b));
            let k = choose|k: int| 0 <= k < ps.len() && ps[k] == (a, b);
            assert(cv[k] == candidates@[k]@);
            assert(candidates@[k]@ == c);
        }
    }
    Ok(v)
}

/// `j` covers `i` in the order of `day`: `day[j] >= day[i]`, with no
/// third form in between.
pub open spec fn is_hasse_edge<D: DeadEndingContext>(d: &D, day: Seq<GameTree>, i: int, j: int) -> bool {
    &&& 0 <= i < day.len()
    &&& 0 <= j < day.len()
    &&& i != j
    &&& ge_mod_p_free_dead_ending_spec(d, day[j], day[i])
    &&& forall|k: int|
        0 <= k < day.len() && k != i && k != j ==> !(ge_mod_p_free_dead_ending_spec(d, day[j], #[trigger] day[k])
            && ge_mod_p_free_dead_ending_spec(d, day[k], day[i]))
}

/// The edges `(i, j)` of the Hasse diagram of `day`, where `day[j]` covers
/// `day[i]`, ordered by `i` and then by `j`.
pub fn hasse_edges<D: PFreeDeadEndingContext>(context: &D, day: &[PFreeForm<StandardForm>]) -> (r: Vec<
    (usize, usize),
>)
    requires
        forall|k: int| 0 <= k < day@.len() ==> birthday(#[trigger] day@[k]@) <= i32::MAX,
    ensures
        forall|m: int| 0 <= m < r@.len() ==> is_hasse_edge(context, p_free_views(day@), #[trigger] r@[m].0 as int, r@[m].1 as int),
        forall|m: int, k: int|
            #![trigger r@[m], p_free_views(day@)[k]]
            0 <= m < r@.len() && 0 <= k < day@.len() && k != r@[m].0 && k != r@[m].1 ==> r@[m].0 != r@[m].1
                && ge_mod_p_free_dead_ending_spec(context, p_free_views(day@)[r@[m].1 as int], p_free_views(day@)[r@[m].0 as int])
                && !(ge_mod_p_free_dead_ending_spec(context, p_free_views(day@)[r@[m].1 as int], p_free_views(day@)[k])
                && ge_mod_p_free_dead_ending_spec(context, p_free_views(day@)[k], p_free_views(day@)[r@[m].0 as int])),
        forall|i: int, j: int|
            #[trigger] is_hasse_edge(context, p_free_views(day@), i, j) ==> exists|m: int|
                0 <= m < r@.len() && r@[m] == (i as usize, j as usize),
        forall|m: int, n: int|
            0 <= m < n < r@.len() ==> r@[m].0 < r@[n].0 || (r@[m].0 == r@[n].0 && r@[m].1 < r@[n].1),
{
    let ghost dv = p_free_views(day@);
    let mut edges: Vec<(usize, usize)> = Vec::new();
    let mut i: usize = 0;
    while i < day.len()
        invariant
            i <= day@.len(),
            dv == p_free_views(day@),
            forall|k: int| 0 <= k < day@.len() ==> birthday(#[trigger] day@[k]@) <= i32::MAX,
            forall|m: int| 0 <= m < edges@.len() ==> is_hasse_edge(context, dv, #[trigger] edges@[m].0 as int, edges@[m].1 as int)
                && edges@[m].0 < i,
            forall|a: int, b: int|
                0 <= a < i && #[trigger] is_hasse_edge(context, dv, a, b) ==> exists|m: int|
                    0 <= m < edges@.len() && edges@[m] == (a as usize, b as usize),
            forall|m: int, n: int|
                0 <= m < n < edges@.len() ==> edges@[m].0 < edges@[n].0 || (edges@[m].0 == edges@[n].0
                    && edges@[m].1 < edges@[n].1),
        decreases day.len() - i,
    {
        let mut j: usize = 0;
        while j < day.len()
            invariant
                i < day@.len(),
                j <= day@.len(),
                dv == p_free_views(day@),
                forall|k: int| 0 <= k < day@.len() ==> birthday(#[trigger] day@[k]@) <= i32::MAX,
                forall|m: int| 0 <= m < edges@.len() ==> is_hasse_edge(context, dv, #[trigger] edges@[m].0 as int, edges@[m].1 as int)
                    && (edges@[m].0 < i || (edges@[m].0 == i && edges@[m].1 < j)),
                forall|a: int, b: int|
                    (0 <= a < i || (a == i && 0 <= b < j)) && #[trigger] is_hasse_edge(context, dv, a, b) ==> exists|m: int|
                        0 <= m < edges@.len() && edges@[m] == (a as usize, b as usize),
                forall|m: int, n: int|
                    0 <= m < n < edges@.len() ==> edges@[m].0 < edges@[n].0 || (edges@[m].0 == edges@[n].0
                        && edges@[m].1 < edges@[n].1),
            decreases day.len() - j,
        {
            proof {
                assert(dv[i as int] == day@[i as int]@);
                assert(dv[j as int] == day@[j as int]@);
            }
            if i != j && context.ge_mod_p_free_dead_ending(&day[j], &day[i]) {
                let mut between = false;
                let mut k: usize = 0;
                while k < day.len() && !between
                    invariant
                        i < day@.len(),
                        j < day@.len(),
                        k <= day@.len(),
                        dv == p_free_views(day@),
                        forall|t: int| 0 <= t < day@.len() ==> birthday(#[trigger] day@[t]@) <= i32::MAX,
                        !between ==> forall|t: int|
                            0 <= t < k && t != i && t != j ==> !(ge_mod_p_free_dead_ending_spec(
                                context,
                                dv[j as int],
                                #[trigger] dv[t],
                            ) && ge_mod_p_free_dead_ending_spec(context, dv[t], dv[i as int])),
                        between ==> exists|t: int|
                            0 <= t < day@.len() && t != i && t != j && ge_mod_p_free_dead_ending_spec(
                                context,
                                dv[j as int],
                                #[trigger] dv[t],
                            ) && ge_mod_p_free_dead_ending_spec(context, dv[t], dv[i as int]),
                    decreases day.len() - k, (if between { 0int } else { 1int }),
                {
                    proof {
                        assert(dv[k as int] == day@[k as int]@);
                    }
                    if k != i && k != j && context.ge_mod_p_free_dead_ending(&day[j], &day[k])
                        && context.ge_mod_p_free_dead_ending(&day[k], &day[i]) {
                        between = true;
                    } else {
                        k += 1;
                    }
                }
                if !between {
                    let ghost before = edges@;
                    edges.push((i, j));
                    proof {
                        assert(is_hasse_edge(context, dv, i as int, j as int));
                        assert forall|m: int| 0 <= m < edges@.len() implies is_hasse_edge(
                            context,
                            dv,
                            #[trigger] edges@[m].0 as int,
                            edges@[m].1 as int,
                        ) && (edges@[m].0 < i || (edges@[m].0 == i && edges@[m].1 < j + 1)) by {
                            if m < before.len() {
                                assert(edges@[m] == before[m]);
                            }
                        }
                        assert forall|a: int, b: int|
                            (0 <= a < i || (a == i && 0 <= b < j + 1)) && #[trigger] is_hasse_edge(context, dv, a, b) implies exists|m: int|
                                0 <= m < edges@.len() && edges@[m] == (a as usize, b as usize) by {
                            if a == i && b == j {
                                assert(edges@[edges@.len() - 1] == (a as usize, b as usize));
                            } else {
                                let m = choose|m: int| 0 <= m < before.len() && before[m] == (a as usize, b as usize);
                                assert(edges@[m] == before[m]);
                            }
                        }
                    }
                } else {
                    proof {
                        assert(!is_hasse_edge(context, dv, i as int, j as int));
                    }
                }
            } else {
                proof {
                    assert(!is_hasse_edge(context, dv, i as int, j as int));
                }
            }
            j += 1;
        }
        i += 1;
    }
    proof {
        assert forall|m: int, k: int|
            #![trigger edges@[m], dv[k]]
            0 <= m < edges@.len() && 0 <= k < day@.len() && k != edges@[m].0 && k != edges@[m].1 implies edges@[m].0
                != edges@[m].1 && ge_mod_p_free_dead_ending_spec(context, dv[edges@[m].1 as int], dv[edges@[m].0 as int])
                && !(ge_mod_p_free_dead_ending_spec(context, dv[edges@[m].1 as int], dv[k])
                && ge_mod_p_free_dead_ending_spec(context, dv[k], dv[edges@[m].0 as int])) by {
            law_hasse_edge_has_nothing_between(context, dv, edges@[m].0 as int, edges@[m].1 as int, k);
        }
    }
    edges
}

/// Of an edge `(i, j)` of the Hasse diagram of `day`: `i` and `j` are two
/// different forms of the day, `day[j] >= day[i]`, and no third form `k` of
/// the whole day lies between them.
pub proof fn law_hasse_edge_has_nothing_between<D: DeadEndingContext>(
    d: &D,
    day: Seq<GameTree>,
    i: int,
    j: int,
    k: int,
)
    requires
        is_hasse_edge(d, day, i, j),
        0 <= k < day.len(),
        k != i,
        k != j,
    ensures
        i != j,
        ge_mod_p_free_dead_ending_spec(d, day[j], day[i]),
        !(ge_mod_p_free_dead_ending_spec(d, day[j], day[k]) && ge_mod_p_free_dead_ending_spec(d, day[k], day[i])),
{
}

/// In the Hasse diagram of a day, an edge between two integers `a` (at `i`)
/// and `b` (at `j`) goes up from `a` to `b <= a` (integers compare in
/// reverse), and no integer of the day lies strictly between them: edges
/// join integers that are consecutive among those of the day.
pub proof fn law_hasse_edges_of_integers<D: DeadEndingContext>(
    d: &D,
    day: Seq<GameTree>,
    i: int,
    j: int,
    k: int,
    a: int,
    b: int,
    c: int,
)
    requires
        is_hasse_edge(d, day, i, j),
        day[i] == integer_tree(a),
        day[j] == integer_tree(b),
        0 <= k < day.len(),
        day[k] == integer_tree(c),
    ensures
        b <= a,
        !(b < c < a),
{
    law_integers_compare_reversed(d, a, b);
    law_integers_compare_reversed(d, b, a);
    law_integers_compare_reversed(d, b, c);
    law_integers_compare_reversed(d, c, a);
    if b < c < a {
        law_integer_iff(day[k], a);
        law_integer_iff(day[k], b);
        law_integer_roundtrip(c);
        assert(k != i && k != j);
        law_hasse_edge_has_nothing_between(d, day, i, j, k);
    }
}

} // verus!
