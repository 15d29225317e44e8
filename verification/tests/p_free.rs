use cgt_misere::misere::game_form::context::StandardFormContext;
use cgt_misere::misere::game_form::form::StandardForm;
use cgt_misere::misere::game_form::theory::Outcome;
use cgt_misere::misere::p_free::{PFreeConstructionError, PFreeContext, PFreeForm, PFreeFormContext};
use cgt_misere::partizan::Player;
use quickcheck::Gen;
use cgt_misere::misere::game_form::errors::ArbitraryError;

fn context() -> PFreeFormContext<StandardFormContext> {
    PFreeFormContext::new(StandardFormContext)
}

fn form(text: &str) -> PFreeForm<StandardForm> {
    context().from_str(text).unwrap()
}

fn texts(forms: &[PFreeForm<StandardForm>]) -> Vec<String> {
    forms.iter().map(|g| context().to_string(g)).collect()
}

#[test]
fn forms_that_are_not_p_free_are_refused() {
    let ctx = context();
    assert!(ctx.from_str("{0|0}").is_none());
    assert!(ctx.from_str("{1|1}").is_some());
    let zero = form("0");
    let made = ctx.new_form(vec![zero.clone()], vec![zero.clone()]);
    assert!(matches!(made, Err(PFreeConstructionError::NotPFree)));
    let made = ctx.new_form(vec![form("1")], vec![form("1")]).unwrap();
    assert_eq!(ctx.to_string(&made), "{1|1}");
}

#[test]
fn to_p_free_gives_the_form_back_when_refused() {
    let base = StandardFormContext;
    let p = base.from_str("{0|0}").unwrap();
    let back = base.to_p_free(p).err().unwrap();
    assert_eq!(base.to_string(&back), "{0|0}");
    let q = base.from_str("{1|1}").unwrap();
    assert!(base.to_p_free(q).is_ok());
}

#[test]
fn p_free_sums_and_integers() {
    let ctx = context();
    let one = ctx.new_integer(1).unwrap();
    let two = ctx.new_integer(2).unwrap();
    let three = ctx.sum(&one, &two).unwrap();
    assert_eq!(ctx.to_integer(&three), Some(3));
    assert_eq!(ctx.outcome(&three), Outcome::R);
    assert!(ctx.is_p_free(&three));
    assert!(ctx.total_eq(&three, &form("3")));
    assert_eq!(ctx.moves(&three, Player::Left).len(), 1);
    assert!(ctx.wins_going_first(&form("0"), Player::Left));
    assert!(ctx.is_dead_ending(&form("{1|1}")));
    assert!(ctx.is_blocking(&form("{1|1}")));
}

#[test]
fn p_free_sums_agree_with_plain_sums() {
    let ctx = context();
    let base = StandardFormContext;
    let day1 = ctx.next_day(&[form("0")]);
    let day2 = ctx.next_day(&day1);
    let mut pool = day2.clone();
    for g in &day2 {
        for h in &day1 {
            if let Ok(s) = ctx.sum(g, h) {
                pool.push(s);
            }
        }
    }
    for g in &pool {
        for h in &day2 {
            let plain = base.sum(g.underlying(), h.underlying()).unwrap();
            match ctx.sum(g, h) {
                Ok(s) => {
                    assert!(base.is_p_free(&plain));
                    assert!(base.total_eq(s.underlying(), &plain));
                }
                Err(e) => {
                    assert!(matches!(e, PFreeConstructionError::NotPFree));
                    assert!(!base.is_p_free(&plain));
                }
            }
        }
    }
}

#[test]
fn one_plus_minus_one_is_a_next_player_win() {
    let ctx = context();
    let sum = ctx.sum(&form("1"), &form("-1")).unwrap();
    assert_eq!(ctx.to_string(&sum), "{-1|1}");
    assert_eq!(ctx.outcome(&sum), Outcome::N);
}

#[test]
fn tipping_points_of_zero() {
    let ctx = context();
    let zero = form("0");
    assert_eq!(ctx.left_tipping_point(&zero), 1);
    assert_eq!(ctx.right_tipping_point(&zero), 1);
    assert_eq!(ctx.tipping_point(&zero, Player::Left), 1);
    assert_eq!(ctx.next_tipping_point(&zero), 0);
}

#[test]
fn tipping_points_are_at_most_one_past_the_birthday() {
    let ctx = context();
    for t in ["0", "{1|1}", "3", "-2", "{0,1|3}"] {
        let g = form(t);
        let b = StandardFormContext.birthday(g.underlying());
        assert!(ctx.left_tipping_point(&g) <= b + 1, "{t}");
        assert!(ctx.right_tipping_point(&g) <= b + 1, "{t}");
    }
}

#[test]
fn next_day_after_day_zero() {
    let ctx = context();
    let day = vec![form("0")];
    let next = ctx.next_day(&day);
    assert_eq!(texts(&next), vec!["0", "-1", "1"]);
}

#[test]
fn next_day_of_nothing() {
    let ctx = context();
    let next = ctx.next_day(&[]);
    assert_eq!(texts(&next), vec!["0"]);
}

#[test]
fn integers_shrink_toward_zero() {
    let ctx = context();
    assert_eq!(texts(&ctx.shrink(&form("3"))), vec!["2", "1", "0"]);
    assert_eq!(texts(&ctx.shrink(&form("-2"))), vec!["-1", "0"]);
    assert!(ctx.shrink(&form("0")).is_empty());
}

#[test]
fn forms_shrink_to_proper_subsets_of_their_options() {
    let ctx = context();
    assert_eq!(texts(&ctx.shrink(&form("{1|1}"))), vec!["0"]);
    // no proper subset of an empty side
    assert!(ctx.shrink(&form("{0,1|}")).is_empty());
    let shrunk = texts(&ctx.shrink(&form("{0,2|1,3}")));
    assert_eq!(shrunk[0], "0");
    for t in &shrunk {
        let g = form(t);
        assert!(ctx.moves(&g, Player::Left).len() < 2);
        assert!(ctx.moves(&g, Player::Right).len() < 2);
    }
}

#[test]
fn random_forms_are_p_free_and_small() {
    let ctx = context();
    let mut g = Gen::new(6);
    for _ in 0..50 {
        if let Ok(f) = ctx.arbitrary_sized(&mut g, 6) {
            assert!(StandardFormContext.is_p_free(f.underlying()));
            assert!(StandardFormContext.birthday(f.underlying()) <= 5);
        }
        if let Ok(f) = ctx.arbitrary(&mut g) {
            assert!(StandardFormContext.is_p_free(f.underlying()));
        }
    }
    let tiny = ctx.arbitrary_sized(&mut g, 0).unwrap();
    assert_eq!(ctx.to_integer(&tiny), Some(0));
}

#[test]
fn random_players() {
    let mut g = Gen::new(4);
    let mut seen_left = false;
    let mut seen_right = false;
    for _ in 0..200 {
        match Player::arbitrary(&mut g) {
            Player::Left => seen_left = true,
            Player::Right => seen_right = true,
        }
    }
    assert!(seen_left && seen_right);
}

#[test]
fn forms_of_draws() {
    let ctx = context();
    // integers: the magnitude brought below the size, then signed
    let r = ctx.form_of_draws(5, 10, 13, false, vec![], vec![]).unwrap();
    assert_eq!(ctx.to_string(&r), "-3");
    let r = ctx.form_of_draws(5, 63, -1, true, vec![], vec![]).unwrap();
    assert_eq!(ctx.to_string(&r), "4");
    // compound forms: the options that could be made
    let refused = || Err(ArbitraryError::Construction(PFreeConstructionError::NotPFree));
    let left = vec![Ok(form("1")), refused(), Ok(form("1"))];
    let right = vec![Ok(form("1"))];
    let r = ctx.form_of_draws(5, 64, 0, false, left, right).unwrap();
    assert_eq!(ctx.to_string(&r), "{1|1}");
    let r = ctx.form_of_draws(5, 200, 0, false, vec![Ok(form("0"))], vec![Ok(form("0"))]);
    assert!(matches!(r, Err(ArbitraryError::Construction(PFreeConstructionError::NotPFree))));
}
