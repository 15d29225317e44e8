use cgt_misere::misere::game_form::context::StandardFormContext;
use cgt_misere::misere::game_form::form::StandardForm;
use cgt_misere::misere::game_form::tree::GameTree;
use cgt_misere::misere::p_free::{PFreeForm, PFreeFormContext};
use cgt_misere::misere::p_free_dead_ending::{DeadEndingContext, PFreeDeadEndingContext};
use cgt_misere::partizan::Player;

/// A dead-ending comparison for inputs in which only integers are compared;
/// the P-free dead-ending comparison of integers never consults it.
struct IntegerComparisonsOnly;

impl DeadEndingContext for IntegerComparisonsOnly {
    fn ge_mod_dead_ending_spec(&self, _g: GameTree, _h: GameTree) -> bool {
        unreachable!("only integers are compared here")
    }

    fn ge_mod_dead_ending(&self, _g: &PFreeForm<StandardForm>, _h: &PFreeForm<StandardForm>) -> bool {
        unreachable!("only integers are compared here")
    }
}

#[test]
fn reductions() {
    let context = PFreeFormContext::new(StandardFormContext);
    let dead_ending = IntegerComparisonsOnly;

    let g = dead_ending.reduced(&context.from_str("{0,1|3}").unwrap()).unwrap();
    let h = context.from_str("{0|3}").unwrap();
    assert!(context.total_eq(&g, &h));

    let g = dead_ending.reduced(&context.from_str("{0|2}").unwrap()).unwrap();
    let h = context.from_str("1").unwrap();
    assert!(context.total_eq(&g, &h));

    let g = dead_ending.reduced(&context.from_str("{-2|0}").unwrap()).unwrap();
    let h = context.from_str("-1").unwrap();
    assert!(context.total_eq(&g, &h));
}

#[test]
fn integers_compare_in_reverse_order() {
    let context = PFreeFormContext::new(StandardFormContext);
    let dead_ending = IntegerComparisonsOnly;
    let zero = context.from_str("0").unwrap();
    let one = context.from_str("1").unwrap();
    assert!(dead_ending.ge_mod_p_free_dead_ending(&zero, &one));
    assert!(!dead_ending.ge_mod_p_free_dead_ending(&one, &zero));
    assert!(dead_ending.eq_mod_p_free_dead_ending(&one, &one));
    assert!(!dead_ending.eq_mod_p_free_dead_ending(&zero, &one));
}

#[test]
fn dominated_integer_options_are_removed() {
    let context = PFreeFormContext::new(StandardFormContext);
    let dead_ending = IntegerComparisonsOnly;
    let mut left = vec![
        context.from_str("2").unwrap(),
        context.from_str("0").unwrap(),
        context.from_str("1").unwrap(),
    ];
    dead_ending.eliminate_dominated_moves(&mut left, Player::Left);
    assert_eq!(left.len(), 1);
    assert!(context.total_eq(&left[0], &context.from_str("0").unwrap()));

    let mut right = vec![
        context.from_str("2").unwrap(),
        context.from_str("0").unwrap(),
        context.from_str("1").unwrap(),
    ];
    dead_ending.eliminate_dominated_moves(&mut right, Player::Right);
    assert_eq!(right.len(), 1);
    assert!(context.total_eq(&right[0], &context.from_str("2").unwrap()));
}

/// A dead-ending comparison under which any two forms are equal, so that
/// any two options that are not both integers dominate each other.
struct AllEqual;

impl DeadEndingContext for AllEqual {
    fn ge_mod_dead_ending_spec(&self, _g: GameTree, _h: GameTree) -> bool {
        true
    }

    fn ge_mod_dead_ending(&self, _g: &PFreeForm<StandardForm>, _h: &PFreeForm<StandardForm>) -> bool {
        true
    }
}

#[test]
fn of_two_equal_options_the_earlier_is_removed() {
    let context = PFreeFormContext::new(StandardFormContext);
    let mut left = vec![
        context.from_str("{1|3}").unwrap(),
        context.from_str("{0|3}").unwrap(),
        context.from_str("{2|3}").unwrap(),
    ];
    // {1|3} gives way to {0|3}, the last option {2|3} takes its place and
    // gives way to {0|3} in turn
    AllEqual.eliminate_dominated_moves(&mut left, Player::Left);
    assert_eq!(left.len(), 1);
    assert!(context.total_eq(&left[0], &context.from_str("{0|3}").unwrap()));

    let mut right = vec![context.from_str("{1|3}").unwrap(), context.from_str("{0|3}").unwrap()];
    AllEqual.eliminate_dominated_moves(&mut right, Player::Right);
    assert_eq!(right.len(), 1);
    assert!(context.total_eq(&right[0], &context.from_str("{0|3}").unwrap()));
}

#[test]
fn reduction_keeps_the_later_of_equal_options() {
    let context = PFreeFormContext::new(StandardFormContext);
    let g = AllEqual.reduced(&context.from_str("{{1|3},{0|3}|4}").unwrap()).unwrap();
    let h = context.from_str("{{1|3}|4}").unwrap();
    assert!(context.total_eq(&g, &h));
}

#[test]
fn reduced_options_are_options_of_the_input() {
    let context = PFreeFormContext::new(StandardFormContext);
    let g = context.from_str("{0,1|3}").unwrap();
    let r = IntegerComparisonsOnly.reduced(&g).unwrap();
    assert_eq!(context.to_integer(&r), None);
    for player in [Player::Left, Player::Right] {
        let options = context.moves(&g, player);
        for x in context.moves(&r, player) {
            assert!(options.iter().any(|y| context.total_eq(&x, y)));
        }
    }
}
