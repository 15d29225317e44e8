use cgt_misere::commands::p_free::list::{hasse_edges, next_day};
use cgt_misere::commands::p_free::order::{
    check_order, check_relation_possibility, find_witness, judge_sample, parse_args, relation_of, shrink_witness,
    Args, CheckedOrder, Relation, RichArgs, Trial, Variant,
};
use cgt_misere::commands::p_free::outcome_table::{
    checked_tipping_point, record_sample, sample_step, OutcomeTable, PossibleOutcome, TippingPoints,
};
use cgt_misere::misere::game_form::context::StandardFormContext;
use cgt_misere::misere::game_form::errors::ArbitraryError;
use cgt_misere::misere::game_form::form::StandardForm;
use cgt_misere::misere::game_form::theory::Outcome;
use cgt_misere::misere::game_form::tree::GameTree;
use cgt_misere::misere::p_free::{PFreeConstructionError, PFreeForm, PFreeFormContext};
use cgt_misere::misere::p_free_dead_ending::DeadEndingContext;
use cgt_misere::partizan::Player;
use cgt_misere::subsets::proper_index_subsets;
use quickcheck::Gen;

fn context() -> PFreeFormContext<StandardFormContext> {
    PFreeFormContext::new(StandardFormContext)
}

fn form(text: &str) -> PFreeForm<StandardForm> {
    context().from_str(text).unwrap()
}

fn texts(forms: &[PFreeForm<StandardForm>]) -> Vec<String> {
    forms.iter().map(|g| context().to_string(g)).collect()
}

/// A dead-ending comparison for days in which only integers are compared;
/// the P-free dead-ending comparison of integers never consults it.
struct IntegersOnly;

impl DeadEndingContext for IntegersOnly {
    fn ge_mod_dead_ending_spec(&self, _g: GameTree, _h: GameTree) -> bool {
        unreachable!("only integers are compared here")
    }

    fn ge_mod_dead_ending(&self, _g: &PFreeForm<StandardForm>, _h: &PFreeForm<StandardForm>) -> bool {
        unreachable!("only integers are compared here")
    }
}

#[test]
fn proper_subsets_by_size_then_lexicographically() {
    let subsets = proper_index_subsets(3);
    let expected: Vec<Vec<usize>> = vec![vec![], vec![0], vec![1], vec![2], vec![0, 1], vec![0, 2], vec![1, 2]];
    assert_eq!(subsets, expected);
    assert!(proper_index_subsets(0).is_empty());
    assert_eq!(proper_index_subsets(1), vec![Vec::<usize>::new()]);
}

#[test]
fn outcome_classes_are_partially_ordered_for_left() {
    assert!(Outcome::R < Outcome::N);
    assert!(Outcome::R < Outcome::P);
    assert!(Outcome::N < Outcome::L);
    assert!(Outcome::P < Outcome::L);
    assert!(Outcome::R < Outcome::L);
    assert!(!(Outcome::N < Outcome::P));
    assert!(!(Outcome::P < Outcome::N));
    assert_eq!(Outcome::N.partial_cmp(&Outcome::P), None);
    assert_eq!(Outcome::L.partial_cmp(&Outcome::L), Some(std::cmp::Ordering::Equal));
}

#[test]
fn variants() {
    let ctx = context();
    assert!(Variant::DeadEnding.matches(&ctx, &form("{1|1}")));
    assert!(!Variant::DeadEnding.matches(&ctx, &form("{|1}")));
    assert!(Variant::Blocking.matches(&ctx, &form("{|1}")));
    assert!(!Variant::Blocking.matches(&ctx, &form("{|2}")));
}

#[test]
fn zero_refutes_zero_at_most_one() {
    let ctx = context();
    let zero = form("0");
    let one = form("1");
    // o(0 + 0) = N is better for Left than o(1 + 0) = R
    assert!(check_order(&ctx, &zero, &zero, &one, CheckedOrder::LessThanOrEqual));
    assert!(!check_order(&ctx, &zero, &zero, &one, CheckedOrder::GreaterThanOrEqual));
    assert!(check_order(&ctx, &zero, &one, &zero, CheckedOrder::GreaterThanOrEqual));
}

#[test]
fn shrinking_a_witness() {
    let ctx = context();
    let zero = form("0");
    let one = form("1");
    // o(0 + -1) = L is better for Left than o(1 + -1) = N
    assert!(check_order(&ctx, &form("-1"), &zero, &one, CheckedOrder::LessThanOrEqual));
    let w = shrink_witness(&ctx, &form("-1"), &zero, &one, Variant::DeadEnding, CheckedOrder::LessThanOrEqual)
        .unwrap();
    assert_eq!(ctx.to_integer(&w), Some(0));
    // 0 cannot shrink at all
    assert!(shrink_witness(&ctx, &zero, &zero, &one, Variant::DeadEnding, CheckedOrder::LessThanOrEqual).is_none());
}

#[test]
fn judging_samples() {
    let ctx = context();
    let args = RichArgs { lhs: form("0"), rhs: form("1"), size: 4, max_attempts: 10, variant: Variant::DeadEnding };
    let failed: Result<PFreeForm<StandardForm>, _> =
        Err(ArbitraryError::Construction(PFreeConstructionError::NotPFree));
    assert!(matches!(judge_sample(&ctx, &args, CheckedOrder::LessThanOrEqual, failed), Trial::Skipped));
    assert!(matches!(judge_sample(&ctx, &args, CheckedOrder::LessThanOrEqual, Ok(form("{|1}"))), Trial::Skipped));
    assert!(matches!(judge_sample(&ctx, &args, CheckedOrder::GreaterThanOrEqual, Ok(form("0"))), Trial::Tested));
    match judge_sample(&ctx, &args, CheckedOrder::LessThanOrEqual, Ok(form("0"))) {
        Trial::Witness(w) => assert_eq!(ctx.to_integer(&w), Some(0)),
        _ => panic!("0 refutes 0 <= 1"),
    }
}

#[test]
fn relations_from_witnesses() {
    assert!(matches!(relation_of::<u8>(None, None), Relation::PossiblyEqual));
    assert!(matches!(relation_of(Some(1), None), Relation::PossiblyGreaterThan { not_le_witness: 1 }));
    assert!(matches!(relation_of(None, Some(2)), Relation::PossiblyLessThan { not_ge_witness: 2 }));
    assert!(matches!(
        relation_of(Some(1), Some(2)),
        Relation::Incomparable { not_ge_witness: 2, not_le_witness: 1 }
    ));
}

#[test]
fn searching_for_witnesses() {
    let ctx = context();
    let args = RichArgs { lhs: form("0"), rhs: form("1"), size: 4, max_attempts: 300, variant: Variant::DeadEnding };
    let found = find_witness(&ctx, &args, CheckedOrder::LessThanOrEqual);
    assert!(found.skipped <= found.attempted && found.attempted <= 300);
    if let Some(w) = &found.result {
        assert!(check_order(&ctx, w, &args.lhs, &args.rhs, CheckedOrder::LessThanOrEqual));
    } else {
        assert_eq!(found.attempted, 300);
    }
    let stats = check_relation_possibility(&ctx, &args);
    assert!(stats.skipped <= stats.attempted && stats.attempted <= 600);
    match stats.result {
        Relation::PossiblyEqual => assert_eq!(stats.attempted, 600),
        Relation::PossiblyGreaterThan { not_le_witness } => {
            assert!(check_order(&ctx, &not_le_witness, &args.lhs, &args.rhs, CheckedOrder::LessThanOrEqual))
        }
        Relation::PossiblyLessThan { not_ge_witness } => {
            assert!(check_order(&ctx, &not_ge_witness, &args.lhs, &args.rhs, CheckedOrder::GreaterThanOrEqual))
        }
        Relation::Incomparable { not_ge_witness, not_le_witness } => {
            assert!(check_order(&ctx, &not_le_witness, &args.lhs, &args.rhs, CheckedOrder::LessThanOrEqual));
            assert!(check_order(&ctx, &not_ge_witness, &args.lhs, &args.rhs, CheckedOrder::GreaterThanOrEqual));
        }
    }
}

#[test]
fn listing_day_one() {
    let day = next_day(&IntegersOnly, &[form("0")]).unwrap();
    assert_eq!(texts(&day), vec!["0", "-1", "1"]);
    assert_eq!(hasse_edges(&IntegersOnly, &day), vec![(0, 1), (2, 0)]);
}

#[test]
fn hasse_diagram_of_a_chain() {
    let day = vec![form("2"), form("1"), form("0")];
    // modulo the P-free dead-ending universe 2 <= 1 <= 0
    assert_eq!(hasse_edges(&IntegersOnly, &day), vec![(0, 1), (1, 2)]);
}

#[test]
fn possible_outcomes() {
    let mut set = PossibleOutcome::none();
    assert!(set.listed().is_empty());
    assert!(set.mark_as_possible(Outcome::N));
    assert!(!set.mark_as_possible(Outcome::N));
    assert!(set.mark_as_possible(Outcome::L));
    assert!(set.has_outcome(Outcome::L));
    assert!(!set.has_outcome(Outcome::R));
    assert_eq!(set.listed(), vec![Outcome::L, Outcome::N]);
}

#[test]
fn outcome_table_keeps_tipping_points_in_order() {
    let mut table = OutcomeTable::new();
    let a = TippingPoints { gl: 2, gr: 0, hl: 0, hr: 0 };
    let b = TippingPoints { gl: 1, gr: 5, hl: 0, hr: 0 };
    assert!(table.mark_as_possible(a, Outcome::N));
    assert!(table.mark_as_possible(b, Outcome::R));
    assert!(!table.mark_as_possible(a, Outcome::N));
    assert!(table.mark_as_possible(a, Outcome::P));
    let entries = table.entries();
    assert_eq!(entries.len(), 2);
    assert_eq!(entries[0].0, b);
    assert_eq!(entries[1].0, a);
    assert_eq!(entries[1].1.listed(), vec![Outcome::P, Outcome::N]);
    assert!(TippingPoints { gl: 0, gr: 2, hl: 1, hr: 1 }.crossed());
    assert!(!a.crossed());
}

#[test]
fn checked_tipping_points_of_zero() {
    let ctx = context();
    assert_eq!(checked_tipping_point(&ctx, &form("0"), Player::Left), Some(1));
    assert_eq!(checked_tipping_point(&ctx, &form("0"), Player::Right), Some(1));
}

#[test]
fn recording_samples() {
    let ctx = context();
    let mut table = OutcomeTable::new();
    let first = record_sample(&mut table, &ctx, Variant::DeadEnding, Ok(form("0")), Ok(form("0"))).unwrap().unwrap();
    assert_eq!(first.tipping_points, TippingPoints { gl: 1, gr: 1, hl: 1, hr: 1 });
    assert_eq!(first.outcome, Outcome::N);
    assert!(record_sample(&mut table, &ctx, Variant::DeadEnding, Ok(form("0")), Ok(form("0"))).unwrap().is_none());
    // 1 is not a next-player win, so it is not recorded
    assert!(record_sample(&mut table, &ctx, Variant::DeadEnding, Ok(form("1")), Ok(form("0"))).unwrap().is_none());
    assert_eq!(table.entries().len(), 1);
}

#[test]
fn random_steps_only_add_outcomes() {
    let ctx = context();
    let mut table = OutcomeTable::new();
    let mut g = Gen::new(4);
    let mut found = 0;
    for _ in 0..100 {
        if let Ok(Some(obs)) = sample_step(&mut table, &ctx, &mut g, 4, Variant::DeadEnding) {
            assert_eq!(ctx.outcome(&obs.g), Outcome::N);
            assert_eq!(ctx.outcome(&obs.h), Outcome::N);
            found += 1;
        }
    }
    let total: usize = table.entries().iter().map(|(_, set)| set.listed().len()).sum();
    assert_eq!(total, found);
}

#[test]
fn parsing_search_arguments() {
    let ctx = context();
    let args = Args {
        lhs: "0".to_string(),
        rhs: "{1|1} ignored".to_string(),
        size: 3,
        max_attempts: 5,
        variant: Variant::Blocking,
    };
    let rich = parse_args(&ctx, &args).unwrap();
    assert_eq!(ctx.to_string(&rich.lhs), "0");
    assert_eq!(ctx.to_string(&rich.rhs), "{1|1}");
    assert_eq!((rich.size, rich.max_attempts, rich.variant), (3, 5, Variant::Blocking));

    let not_p_free = Args { lhs: "{0|0}".to_string(), ..args.clone() };
    assert_eq!(parse_args(&ctx, &not_p_free).err(), Some("Could not parse `lhs`"));
    let broken_rhs = Args { rhs: "{".to_string(), ..args.clone() };
    assert_eq!(parse_args(&ctx, &broken_rhs).err(), Some("Could not parse `rhs`"));
    let both = Args { lhs: "|".to_string(), rhs: "{".to_string(), ..args };
    assert_eq!(parse_args(&ctx, &both).err(), Some("Could not parse `lhs`"));
}

#[test]
fn searches_of_size_one_draw_only_zero() {
    let ctx = context();
    let args = RichArgs { lhs: form("1"), rhs: form("2"), size: 1, max_attempts: 1, variant: Variant::DeadEnding };
    let stats = check_relation_possibility(&ctx, &args);
    assert_eq!(stats.attempted, 2);
    assert_eq!(stats.skipped, 0);
    assert!(matches!(stats.result, Relation::PossiblyEqual));

    let args = RichArgs { lhs: form("0"), rhs: form("1"), size: 1, max_attempts: 5, variant: Variant::DeadEnding };
    let found = find_witness(&ctx, &args, CheckedOrder::LessThanOrEqual);
    assert_eq!((found.attempted, found.skipped), (1, 0));
    assert_eq!(ctx.to_integer(&found.result.unwrap()), Some(0));

    let none = RichArgs { max_attempts: 0, ..args };
    let found = find_witness(&ctx, &none, CheckedOrder::LessThanOrEqual);
    assert_eq!((found.attempted, found.skipped), (0, 0));
    assert!(found.result.is_none());
}

#[test]
fn sample_steps_of_size_one_record_zero_plus_zero() {
    let ctx = context();
    let mut table = OutcomeTable::new();
    let mut g = Gen::new(1);
    let obs = sample_step(&mut table, &ctx, &mut g, 1, Variant::Blocking).unwrap().unwrap();
    assert_eq!(obs.tipping_points, TippingPoints { gl: 1, gr: 1, hl: 1, hr: 1 });
    assert_eq!(obs.outcome, Outcome::N);
    assert!(sample_step(&mut table, &ctx, &mut g, 1, Variant::Blocking).unwrap().is_none());
    for (_, set) in table.entries() {
        assert!(!set.listed().is_empty());
    }
}

#[test]
fn shrinking_goes_as_far_as_it_goes() {
    let ctx = context();
    let zero = form("0");
    let one = form("1");
    let order = CheckedOrder::LessThanOrEqual;
    // -3 shrinks to -2, -1, 0 in turn; -2 is no witness (o(0 + -2) = o(1 + -2) = L),
    // -1 is the first that is, and -1 shrinks on to 0
    assert!(!check_order(&ctx, &form("-2"), &zero, &one, order));
    let w = shrink_witness(&ctx, &form("-3"), &zero, &one, Variant::DeadEnding, order).unwrap();
    assert_eq!(ctx.to_integer(&w), Some(0));
    for c in ctx.shrink(&w) {
        assert!(!(Variant::DeadEnding.matches(&ctx, &c) && check_order(&ctx, &c, &zero, &one, order)));
    }
    // a drawn witness is handed back shrunk; -3 itself is no witness
    let args = RichArgs { lhs: zero, rhs: one, size: 4, max_attempts: 10, variant: Variant::DeadEnding };
    assert!(matches!(judge_sample(&ctx, &args, order, Ok(form("-3"))), Trial::Tested));
    match judge_sample(&ctx, &args, order, Ok(form("-1"))) {
        Trial::Witness(w) => assert_eq!(ctx.to_integer(&w), Some(0)),
        _ => panic!("-1 refutes 0 <= 1"),
    }
}
