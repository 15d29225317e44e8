//! Searching for forms that tell two P-free forms apart: a form `x` such
//! that the outcome of `lhs + x` is worse for Left than that of `rhs + x`
//! shows that `lhs >= rhs` fails, and the other way round for `<=`.

use vstd::prelude::*;
use crate::misere::game_form::arbitrary::{new_generator, size_bound, PFreeArbitraryError};
use crate::misere::game_form::theory::integer_tree;
use crate::misere::game_form::laws::law_integer_birthday;
use crate::misere::game_form::context::StandardFormContext;
use crate::misere::game_form::form::StandardForm;
use crate::misere::game_form::outcome_order::better_for_left;
use crate::misere::game_form::theory::{birthday, is_blocking, is_dead_ending, is_p_free, outcome, sum_tree};
use crate::misere::game_form::tree::GameTree;
use crate::misere::p_free::{PFreeForm, PFreeFormContext};
use crate::misere::p_free_enumerate::{is_shrink_candidate, lemma_shrinks_before_total, shrinks_before, smaller_form};
use crate::partizan::Player;
use crate::misere::game_form::parse::parse_form_at;
use vstd::utf8::encode_utf8;
use crate::result::UnwrapInfallible;

verus! {

/// The class of games that a search is restricted to
#[derive(Debug, Clone, Copy, PartialEq, Eq, Structural)]
pub enum Variant {
    /// Dead-ending games
    DeadEnding,
    /// Blocking games
    Blocking,
}

/// `g` belongs to the class of games `variant`
pub open spec fn variant_holds(variant: Variant, g: GameTree) -> bool {
    match variant {
        Variant::DeadEnding => is_dead_ending(g),
        Variant::Blocking => is_blocking(g),
    }
}

impl Variant {
    /// Whether `g` belongs to this class of games
    pub fn matches(self, context: &PFreeFormContext<StandardFormContext>, g: &PFreeForm<StandardForm>) -> (r: bool)
        ensures
            r == variant_holds(self, g@),
    {
        match self {
            Variant::DeadEnding => context.is_dead_ending(g),
            Variant::Blocking => context.is_blocking(g),
        }
    }
}

/// What a search compares, as given on the command line
#[derive(Debug, Clone)]
pub struct Args {
    /// Left-hand side of the comparison, as text
    pub lhs: String,
    /// Right-hand side of the comparison, as text
    pub rhs: String,
    /// Generator size
    pub size: u64,
    /// Number of random forms tried for each of the two inequalities
    pub max_attempts: u64,
    /// Class of games the distinguishing forms are taken from
    pub variant: Variant,
}

/// The P-free form that the text `chars` starts with, if any; text after
/// the form is ignored.
pub open spec fn p_free_form_of_text(chars: Seq<char>) -> Option<GameTree> {
    match parse_form_at(encode_utf8(chars), 0) {
        Some((_, t)) => if is_p_free(t) {
            Some(t)
        } else {
            None
        },
        None => None,
    }
}

/// What a search compares, and how long it looks
pub struct RichArgs<G> {
    /// Left-hand side of the comparison
    pub lhs: G,
    /// Right-hand side of the comparison
    pub rhs: G,
    /// Size of the random forms tried
    pub size: u64,
    /// Number of random forms tried for each of the two inequalities
    pub max_attempts: u64,
    /// Class of games the distinguishing forms are taken from
    pub variant: Variant,
}

/// What a search found, and how much it tried
pub struct SearchStatistics<T> {
    /// Number of total generated potential witnesses
    pub attempted: u64,
    /// Number of non-tested witnesses due to not being P-free or in the
    /// specified variant
    pub skipped: u64,
    /// The finding
    pub result: T,
}

/// What the search tells of two forms
#[derive(Debug, Clone)]
pub enum Relation<G> {
    /// Possibly equal
    PossiblyEqual,
    /// Possibly less than, guaranteed not to be greater or equal
    PossiblyLessThan { not_ge_witness: G },
    /// Possibly greater than, guaranteed not to be less or equal
    PossiblyGreaterThan { not_le_witness: G },
    /// Guaranteed to be incomparable
    Incomparable { not_ge_witness: G, not_le_witness: G },
}

/// The inequality a search tries to refute
#[derive(Debug, Clone, Copy, PartialEq, Eq, Structural)]
pub enum CheckedOrder {
    /// `lhs <= rhs`
    LessThanOrEqual,
    /// `lhs >= rhs`
    GreaterThanOrEqual,
}

/// The search that `args` asks for, with both sides parsed as P-free forms;
/// the error names the side that could not be parsed, `lhs` first.
pub fn parse_args(
    context: &PFreeFormContext<StandardFormContext>,
    args: &Args,
) -> (r: Result<RichArgs<PFreeForm<StandardForm>>, &'static str>)
    ensures
        match (p_free_form_of_text(args.lhs@), p_free_form_of_text(args.rhs@)) {
            (Some(l), Some(g)) => r matches Ok(rich) && rich.lhs@ == l && rich.rhs@ == g && rich.size
                == args.size && rich.max_attempts == args.max_attempts && rich.variant == args.variant,
            (None, _) => r matches Err(e) && e@ == "Could not parse `lhs`"@,
            (Some(_), None) => r matches Err(e) && e@ == "Could not parse `rhs`"@,
        },
{
    let lhs = match context.from_str(args.lhs.as_str()) {
        Some(g) => g,
        None => return Err("Could not parse `lhs`"),
    };
    let rhs = match context.from_str(args.rhs.as_str()) {
        Some(g) => g,
        None => return Err("Could not parse `rhs`"),
    };
    Ok(RichArgs { lhs, rhs, size: args.size, max_attempts: args.max_attempts, variant: args.variant })
}

/// `x` refutes `order` between `lhs` and `rhs`: for `>=`, the outcome of
/// `lhs + x` is worse for Left than that of `rhs + x`; for `<=`, better.
pub open spec fn refutes(order: CheckedOrder, lhs: GameTree, rhs: GameTree, x: GameTree) -> bool {
    let ol = outcome(sum_tree(lhs, x));
    let or = outcome(sum_tree(rhs, x));
    match order {
        CheckedOrder::GreaterThanOrEqual => better_for_left(or, ol),
        CheckedOrder::LessThanOrEqual => better_for_left(ol, or),
    }
}

/// `x` is a witness that the search accepts: of the class `variant`, and
/// refuting `order`.
pub open spec fn is_witness(
    variant: Variant,
    order: CheckedOrder,
    lhs: GameTree,
    rhs: GameTree,
    x: GameTree,
) -> bool {
    variant_holds(variant, x) && refutes(order, lhs, rhs, x)
}

/// Whether `x` refutes `order` between `lhs` and `rhs`
pub fn check_order(
    context: &PFreeFormContext<StandardFormContext>,
    x: &PFreeForm<StandardForm>,
    lhs: &PFreeForm<StandardForm>,
    rhs: &PFreeForm<StandardForm>,
    order: CheckedOrder,
) -> (r: bool)
    ensures
        r == refutes(order, lhs@, rhs@, x@),
{
    let base = context.underlying();
    let ol = base.outcome(&base.sum(lhs.underlying(), x.underlying()).unwrap_infallible());
    let or = base.outcome(&base.sum(rhs.underlying(), x.underlying()).unwrap_infallible());
    match order {
        CheckedOrder::GreaterThanOrEqual => ol < or,
        CheckedOrder::LessThanOrEqual => or < ol,
    }
}

/// Shrinking `d` moves to `c`: among the forms that `d` shrinks to, `c` is
/// the first one that is a witness.
pub open spec fn first_witness_shrink(
    variant: Variant,
    order: CheckedOrder,
    lhs: GameTree,
    rhs: GameTree,
    d: GameTree,
    c: GameTree,
) -> bool {
    &&& is_shrink_candidate(d, c)
    &&& is_witness(variant, order, lhs, rhs, c)
    &&& forall|c2: GameTree|
        is_shrink_candidate(d, c2) && #[trigger] shrinks_before(d, c2, c) ==> !is_witness(
            variant,
            order,
            lhs,
            rhs,
            c2,
        )
}

/// No form that `w` shrinks to is a witness: `w` is shrunk as far as it goes.
pub open spec fn fully_shrunk(variant: Variant, order: CheckedOrder, lhs: GameTree, rhs: GameTree, w: GameTree) -> bool {
    forall|c: GameTree| #[trigger] is_shrink_candidate(w, c) ==> !is_witness(variant, order, lhs, rhs, c)
}

/// The step from `chain[k]` to `chain[k + 1]` is a shrinking to the first witness.
pub open spec fn shrink_step_at(
    variant: Variant,
    order: CheckedOrder,
    lhs: GameTree,
    rhs: GameTree,
    chain: Seq<GameTree>,
    k: int,
) -> bool {
    first_witness_shrink(variant, order, lhs, rhs, chain[k], chain[k + 1])
}

/// `chain` leads from `d` to `w` in one or more steps, each to the first
/// witness that the form before shrinks to.
pub open spec fn shrink_chain(
    variant: Variant,
    order: CheckedOrder,
    lhs: GameTree,
    rhs: GameTree,
    d: GameTree,
    w: GameTree,
    chain: Seq<GameTree>,
) -> bool {
    &&& chain.len() >= 2
    &&& chain[0] == d
    &&& chain.last() == w
    &&& forall|k: int| 0 <= k < chain.len() - 1 ==> #[trigger] shrink_step_at(variant, order, lhs, rhs, chain, k)
}

/// Shrinking moves to one form only: two forms that are each the first
/// witness that `d` shrinks to are the same form.
pub proof fn law_first_witness_shrink_unique(
    variant: Variant,
    order: CheckedOrder,
    lhs: GameTree,
    rhs: GameTree,
    d: GameTree,
    c: GameTree,
    c2: GameTree,
)
    requires
        first_witness_shrink(variant, order, lhs, rhs, d, c),
        first_witness_shrink(variant, order, lhs, rhs, d, c2),
    ensures
        c == c2,
{
    if c != c2 {
        lemma_shrinks_before_total(d, c, c2);
    }
}

/// The witness that shrinking `d` ends at is determined by `d`: two chains
/// of shrinking steps from `d` that each end at a form shrunk as far as it
/// goes end at the same form.
pub proof fn law_shrunk_witness_unique(
    variant: Variant,
    order: CheckedOrder,
    lhs: GameTree,
    rhs: GameTree,
    d: GameTree,
    w: GameTree,
    w2: GameTree,
    chain: Seq<GameTree>,
    chain2: Seq<GameTree>,
)
    requires
        shrink_chain(variant, order, lhs, rhs, d, w, chain),
        fully_shrunk(variant, order, lhs, rhs, w),
        shrink_chain(variant, order, lhs, rhs, d, w2, chain2),
        fully_shrunk(variant, order, lhs, rhs, w2),
    ensures
        w == w2,
    decreases chain.len(),
{
    assert(shrink_step_at(variant, order, lhs, rhs, chain, 0));
    assert(shrink_step_at(variant, order, lhs, rhs, chain2, 0));
    law_first_witness_shrink_unique(variant, order, lhs, rhs, d, chain[1], chain2[1]);
    if chain.len() == 2 {
        if chain2.len() > 2 {
            assert(shrink_step_at(variant, order, lhs, rhs, chain2, 1));
            assert(is_shrink_candidate(w, chain2[2]));
        }
    } else if chain2.len() == 2 {
        assert(shrink_step_at(variant, order, lhs, rhs, chain, 1));
        assert(is_shrink_candidate(w2, chain[2]));
    } else {
        let t = chain.subrange(1, chain.len() as int);
        let t2 = chain2.subrange(1, chain2.len() as int);
        assert forall|k: int| 0 <= k < t.len() - 1 implies #[trigger] shrink_step_at(
            variant,
            order,
            lhs,
            rhs,
            t,
            k,
        ) by {
            assert(shrink_step_at(variant, order, lhs, rhs, chain, k + 1));
        }
        assert forall|k: int| 0 <= k < t2.len() - 1 implies #[trigger] shrink_step_at(
            variant,
            order,
            lhs,
            rhs,
            t2,
            k,
        ) by {
            assert(shrink_step_at(variant, order, lhs, rhs, chain2, k + 1));
        }
        law_shrunk_witness_unique(variant, order, lhs, rhs, chain[1], w, w2, t, t2);
    }
}

/// A smaller witness than `distinguisher`: the first form it shrinks to that
/// is a witness, shrunk again as far as it goes. `None` when no form it
/// shrinks to is a witness.
pub fn shrink_witness(
    context: &PFreeFormContext<StandardFormContext>,
    distinguisher: &PFreeForm<StandardForm>,
    lhs: &PFreeForm<StandardForm>,
    rhs: &PFreeForm<StandardForm>,
    variant: Variant,
    order: CheckedOrder,
) -> (r: Option<PFreeForm<StandardForm>>)
    requires
        birthday(distinguisher@) <= i32::MAX,
    ensures
        r matches Some(w) ==> is_p_free(w@) && is_witness(variant, order, lhs@, rhs@, w@) && smaller_form(
            w@,
            distinguisher@,
        ) && fully_shrunk(variant, order, lhs@, rhs@, w@) && exists|chain: Seq<GameTree>|
            shrink_chain(variant, order, lhs@, rhs@, distinguisher@, w@, chain),
        r is None <==> fully_shrunk(variant, order, lhs@, rhs@, distinguisher@),
    decreases birthday(distinguisher@), distinguisher@.left.len() + distinguisher@.right.len(),
{
    let candidates = context.shrink(distinguisher);
    let mut i: usize = 0;
    while i < candidates.len()
        invariant
            i <= candidates@.len(),
            birthday(distinguisher@) <= i32::MAX,
            forall|k: int|
                0 <= k < candidates@.len() ==> is_p_free(#[trigger] candidates@[k]@) && smaller_form(
                    candidates@[k]@,
                    distinguisher@,
                ) && is_shrink_candidate(distinguisher@, candidates@[k]@),
            forall|k: int| 0 <= k < i ==> !is_witness(variant, order, lhs@, rhs@, #[trigger] candidates@[k]@),
            forall|j: int, c2: GameTree|
                0 <= j < candidates@.len() && is_shrink_candidate(distinguisher@, c2) && #[trigger] shrinks_before(
                    distinguisher@,
                    c2,
                    candidates@[j]@,
                ) ==> exists|k: int| 0 <= k < j && candidates@[k]@ == c2,
        decreases candidates.len() - i,
    {
        let shrunken = &candidates[i];
        if variant.matches(context, shrunken) && check_order(context, shrunken, lhs, rhs, order) {
            let ghost d = distinguisher@;
            let ghost c = candidates@[i as int]@;
            proof {
                assert(is_shrink_candidate(d, c));
                assert(is_witness(variant, order, lhs@, rhs@, c));
                assert forall|c2: GameTree|
                    is_shrink_candidate(d, c2) && #[trigger] shrinks_before(d, c2, c) implies !is_witness(
                    variant,
                    order,
                    lhs@,
                    rhs@,
                    c2,
                ) by {
                    let k = choose|k: int| 0 <= k < i && candidates@[k]@ == c2;
                    assert(!is_witness(variant, order, lhs@, rhs@, candidates@[k]@));
                }
                assert(first_witness_shrink(variant, order, lhs@, rhs@, d, c));
            }
            let more_shrunken = shrink_witness(context, shrunken, lhs, rhs, variant, order);
            return match more_shrunken {
                Some(w) => {
                    proof {
                        let tail = choose|chain: Seq<GameTree>| shrink_chain(variant, order, lhs@, rhs@, c, w@, chain);
                        let chain = seq![d] + tail;
                        assert(chain[0] == d);
                        assert(chain.last() == tail.last());
                        assert forall|k: int| 0 <= k < chain.len() - 1 implies #[trigger] shrink_step_at(
                            variant,
                            order,
                            lhs@,
                            rhs@,
                            chain,
                            k,
                        ) by {
                            if k == 0 {
                                assert(chain[1] == tail[0]);
                            } else {
                                assert(shrink_step_at(variant, order, lhs@, rhs@, tail, k - 1));
                                assert(chain[k] == tail[k - 1]);
                                assert(chain[k + 1] == tail[k]);
                            }
                        }
                        assert(shrink_chain(variant, order, lhs@, rhs@, d, w@, chain));
                    }
                    Some(w)
                },
                None => {
                    proof {
                        let chain = seq![d, c];
                        assert(shrink_step_at(variant, order, lhs@, rhs@, chain, 0));
                        assert(shrink_chain(variant, order, lhs@, rhs@, d, c, chain));
                    }
                    Some(shrunken.clone())
                },
            };
        }
        i += 1;
    }
    proof {
        assert forall|c: GameTree| #[trigger] is_shrink_candidate(distinguisher@, c) implies !is_witness(
            variant,
            order,
            lhs@,
            rhs@,
            c,
        ) by {
            let k = choose|k: int| 0 <= k < candidates@.len() && candidates@[k]@ == c;
            assert(!is_witness(variant, order, lhs@, rhs@, candidates@[k]@));
        }
    }
    None
}

/// What became of one random form tried in a search
pub enum Trial {
    /// The form could not be made, or is not of the class searched
    Skipped,
    /// The form was tested and does not refute the inequality
    Tested,
    /// The form refutes the inequality; the witness is shrunk as far as it goes
    Witness(PFreeForm<StandardForm>),
}

/// Judge one random form `sample` of a search: skip it when it could not be
/// made or is not of the class searched, test it otherwise, and shrink it
/// when it is a witness.
pub fn judge_sample(
    context: &PFreeFormContext<StandardFormContext>,
    args: &RichArgs<PFreeForm<StandardForm>>,
    order: CheckedOrder,
    sample: Result<PFreeForm<StandardForm>, PFreeArbitraryError>,
) -> (r: Trial)
    requires
        sample matches Ok(x) ==> birthday(x@) <= i32::MAX,
    ensures
        match sample {
            Err(_) => r is Skipped,
            Ok(x) => if !variant_holds(args.variant, x@) {
                r is Skipped
            } else if !refutes(order, args.lhs@, args.rhs@, x@) {
                r is Tested
            } else {
                r matches Trial::Witness(w) && (w@ == x@ || smaller_form(w@, x@)) && is_witness(
                    args.variant,
                    order,
                    args.lhs@,
                    args.rhs@,
                    w@,
                ) && (is_p_free(x@) ==> is_p_free(w@)) && fully_shrunk(
                    args.variant,
                    order,
                    args.lhs@,
                    args.rhs@,
                    w@,
                ) && (fully_shrunk(args.variant, order, args.lhs@, args.rhs@, x@) ==> w@ == x@) && (!fully_shrunk(
                    args.variant,
                    order,
                    args.lhs@,
                    args.rhs@,
                    x@,
                ) ==> exists|chain: Seq<GameTree>|
                    shrink_chain(args.variant, order, args.lhs@, args.rhs@, x@, w@, chain))
            },
        },
{
    let x = match sample {
        Ok(x) => x,
        Err(_) => return Trial::Skipped,
    };
    if !args.variant.matches(context, &x) {
        return Trial::Skipped;
    }
    if !check_order(context, &x, &args.lhs, &args.rhs, order) {
        return Trial::Tested;
    }
    match shrink_witness(context, &x, &args.lhs, &args.rhs, args.variant, order) {
        Some(w) => Trial::Witness(w),
        None => Trial::Witness(x),
    }
}

/// What a search finds when every form drawn is 0: nothing is skipped when
/// 0 is of the class searched and everything otherwise; 0 itself is the
/// witness, found at the first attempt, when it refutes the order.
pub open spec fn search_of_zero(
    variant: Variant,
    order: CheckedOrder,
    lhs: GameTree,
    rhs: GameTree,
    max_attempts: u64,
    r: SearchStatistics<Option<PFreeForm<StandardForm>>>,
) -> bool {
    let z = integer_tree(0);
    if !variant_holds(variant, z) {
        r.attempted == max_attempts && r.skipped == max_attempts && r.result is None
    } else if !refutes(order, lhs, rhs, z) {
        r.attempted == max_attempts && r.skipped == 0 && r.result is None
    } else {
        r.attempted == 1 && r.skipped == 0 && (r.result matches Some(w) && w@ == z)
    }
}

/// Try up to `args.max_attempts` random P-free forms of size `args.size`,
/// and return the first witness that refutes `order`, shrunk, if any.
/// Which forms are tried is up to chance; what holds of every run is stated.
pub fn find_witness(
    context: &PFreeFormContext<StandardFormContext>,
    args: &RichArgs<PFreeForm<StandardForm>>,
    order: CheckedOrder,
) -> (r: SearchStatistics<Option<PFreeForm<StandardForm>>>)
    requires
        args.size <= i32::MAX,
    ensures
        r.skipped <= r.attempted <= args.max_attempts,
        r.result is None ==> r.attempted == args.max_attempts,
        r.result matches Some(w) ==> is_p_free(w@) && is_witness(args.variant, order, args.lhs@, args.rhs@, w@)
            && birthday(w@) <= size_bound(args.size as i64) && fully_shrunk(
            args.variant,
            order,
            args.lhs@,
            args.rhs@,
            w@,
        ),
        args.max_attempts == 0 ==> r.attempted == 0 && r.skipped == 0 && r.result is None,
        args.size <= 1 && args.max_attempts > 0 ==> search_of_zero(args.variant, order, args.lhs@, args.rhs@, args.max_attempts, r),
{
    let mut statistics = SearchStatistics { attempted: 0, skipped: 0, result: None };
    let size: i64 = args.size as i64;
    let mut rnd = new_generator(args.size as usize);
    let ghost z = integer_tree(0);
    while statistics.attempted < args.max_attempts
        invariant
            args.size <= i32::MAX,
            size == args.size,
            z == integer_tree(0),
            statistics.skipped <= statistics.attempted <= args.max_attempts,
            statistics.result is None,
            args.size <= 1 && !variant_holds(args.variant, z) ==> statistics.skipped == statistics.attempted,
            args.size <= 1 && variant_holds(args.variant, z) ==> statistics.skipped == 0,
            args.size <= 1 && is_witness(args.variant, order, args.lhs@, args.rhs@, z) ==> statistics.attempted == 0,
        decreases args.max_attempts - statistics.attempted,
    {
        statistics.attempted += 1;
        let sample = context.arbitrary_sized(&mut rnd, size);
        proof {
            law_integer_birthday(0);
        }
        match judge_sample(context, args, order, sample) {
            Trial::Skipped => {
                statistics.skipped += 1;
            },
            Trial::Tested => {},
            Trial::Witness(w) => {
                proof {
                    if args.size <= 1 {
                        assert(w@ == z);
                    }
                }
                statistics.result = Some(w);
                return statistics;
            },
        }
    }
    statistics
}

/// The relation that the witnesses found show: `le_witness` refutes `<=`,
/// `ge_witness` refutes `>=`.
pub fn relation_of<G>(le_witness: Option<G>, ge_witness: Option<G>) -> (r: Relation<G>)
    ensures
        match (le_witness, ge_witness) {
            (None, None) => r is PossiblyEqual,
            (Some(a), None) => r matches Relation::PossiblyGreaterThan { not_le_witness } && not_le_witness == a,
            (None, Some(b)) => r matches Relation::PossiblyLessThan { not_ge_witness } && not_ge_witness == b,
            (Some(a), Some(b)) => r matches Relation::Incomparable { not_ge_witness, not_le_witness }
                && not_le_witness == a && not_ge_witness == b,
        },
{
    match (le_witness, ge_witness) {
        (None, None) => Relation::PossiblyEqual,
        (Some(not_le_witness), None) => Relation::PossiblyGreaterThan { not_le_witness },
        (None, Some(not_ge_witness)) => Relation::PossiblyLessThan { not_ge_witness },
        (Some(not_le_witness), Some(not_ge_witness)) => Relation::Incomparable {
            not_le_witness,
            not_ge_witness,
        },
    }
}

/// What the two searches report when every form drawn is 0: each inequality
/// that 0 refutes has 0 as its witness, found at the first attempt of its
/// search; nothing is skipped when 0 is of the class searched and
/// everything otherwise.
pub open spec fn relation_of_zero(
    variant: Variant,
    lhs: GameTree,
    rhs: GameTree,
    max_attempts: u64,
    r: SearchStatistics<Relation<PFreeForm<StandardForm>>>,
) -> bool {
    let z = integer_tree(0);
    let le = is_witness(variant, CheckedOrder::LessThanOrEqual, lhs, rhs, z);
    let ge = is_witness(variant, CheckedOrder::GreaterThanOrEqual, lhs, rhs, z);
    &&& r.skipped == (if variant_holds(variant, z) { 0 } else { 2 * max_attempts })
    &&& r.attempted == (if le { 1 } else { max_attempts as int }) + (if ge { 1 } else { max_attempts as int })
    &&& match r.result {
        Relation::PossiblyEqual => !le && !ge,
        Relation::PossiblyGreaterThan { not_le_witness } => le && !ge && not_le_witness@ == z,
        Relation::PossiblyLessThan { not_ge_witness } => !le && ge && not_ge_witness@ == z,
        Relation::Incomparable { not_ge_witness, not_le_witness } => le && ge && not_le_witness@ == z
            && not_ge_witness@ == z,
    }
}

/// Search for witnesses against `lhs <= rhs` and against `lhs >= rhs`, and
/// report what they show, with the number of forms tried and skipped over
/// both searches.
pub fn check_relation_possibility(
    context: &PFreeFormContext<StandardFormContext>,
    args: &RichArgs<PFreeForm<StandardForm>>,
) -> (r: SearchStatistics<Relation<PFreeForm<StandardForm>>>)
    requires
        args.size <= i32::MAX,
        args.max_attempts <= u64::MAX / 2,
    ensures
        r.skipped <= r.attempted <= 2 * args.max_attempts,
        r.result is PossiblyEqual ==> r.attempted == 2 * args.max_attempts,
        r.result matches Relation::PossiblyGreaterThan { not_le_witness } ==> is_witness(
            args.variant,
            CheckedOrder::LessThanOrEqual,
            args.lhs@,
            args.rhs@,
            not_le_witness@,
        ) && fully_shrunk(args.variant, CheckedOrder::LessThanOrEqual, args.lhs@, args.rhs@, not_le_witness@),
        r.result matches Relation::PossiblyLessThan { not_ge_witness } ==> is_witness(
            args.variant,
            CheckedOrder::GreaterThanOrEqual,
            args.lhs@,
            args.rhs@,
            not_ge_witness@,
        ) && fully_shrunk(args.variant, CheckedOrder::GreaterThanOrEqual, args.lhs@, args.rhs@, not_ge_witness@),
        r.result matches Relation::Incomparable { not_ge_witness, not_le_witness } ==> is_witness(
            args.variant,
            CheckedOrder::LessThanOrEqual,
            args.lhs@,
            args.rhs@,
            not_le_witness@,
        ) && fully_shrunk(args.variant, CheckedOrder::LessThanOrEqual, args.lhs@, args.rhs@, not_le_witness@) && is_witness(
            args.variant,
            CheckedOrder::GreaterThanOrEqual,
            args.lhs@,
            args.rhs@,
            not_ge_witness@,
        ) && fully_shrunk(args.variant, CheckedOrder::GreaterThanOrEqual, args.lhs@, args.rhs@, not_ge_witness@),
        args.max_attempts == 0 ==> r.attempted == 0 && r.skipped == 0 && r.result is PossiblyEqual,
        args.size <= 1 && args.max_attempts > 0 ==> relation_of_zero(
            args.variant,
            args.lhs@,
            args.rhs@,
            args.max_attempts,
            r,
        ),
{
    let le = find_witness(context, args, CheckedOrder::LessThanOrEqual);
    let ge = find_witness(context, args, CheckedOrder::GreaterThanOrEqual);
    SearchStatistics {
        attempted: le.attempted + ge.attempted,
        skipped: le.skipped + ge.skipped,
        result: relation_of(le.result, ge.result),
    }
}

} // verus!
