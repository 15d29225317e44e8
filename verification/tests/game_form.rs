use cgt_misere::misere::game_form::context::StandardFormContext;
use cgt_misere::misere::game_form::form::StandardForm;
use cgt_misere::misere::game_form::theory::Outcome;
use cgt_misere::partizan::Player;
use std::cmp::Ordering;
use std::str::FromStr;
use quickcheck::Gen;

fn form(text: &str) -> StandardForm {
    StandardFormContext.from_str(text).unwrap()
}

fn text(g: &StandardForm) -> String {
    StandardFormContext.to_string(g)
}

#[test]
fn parse_then_show_gives_back_the_text() {
    for t in ["0", "1", "-3", "{1|1}", "{0,1|3}", "{-2|0}", "{{1|-1}|}", "{|{0|0}}"] {
        assert_eq!(text(&form(t)), t);
    }
}

#[test]
fn options_are_sorted_and_deduplicated() {
    let ctx = StandardFormContext;
    let g = ctx.new(vec![form("1"), form("0"), form("1")], vec![]).unwrap();
    let h = ctx.new(vec![form("0"), form("1")], vec![]).unwrap();
    assert!(ctx.total_eq(&g, &h));
    assert_eq!(text(&g), "{0,1|}");
    assert_eq!(ctx.moves(&g, Player::Left).len(), 2);
    assert_eq!(ctx.moves(&g, Player::Right).len(), 0);
}

#[test]
fn spaces_between_tokens_are_skipped() {
    assert_eq!(text(&form("{ 0 , 1 | 3 }")), "{0,1|3}");
}

#[test]
fn parse_errors() {
    assert_eq!(StandardForm::from_str("{0|").err(), Some("Parse error: parser failed"));
    assert_eq!(StandardForm::from_str("0 junk").err(), Some("Parse error: leftover input"));
    assert!(StandardForm::from_str("{0|1}").is_ok());
    assert!(StandardFormContext.from_str("").is_none());
}

#[test]
fn integers_round_trip() {
    let ctx = StandardFormContext;
    for n in [-5, -1, 0, 1, 7] {
        let g = ctx.new_integer(n).unwrap();
        assert_eq!(ctx.to_integer(&g), Some(n));
        assert_eq!(ctx.birthday(&g), n.unsigned_abs());
        assert!(ctx.is_p_free(&g));
    }
    assert_eq!(ctx.to_integer(&form("{1|1}")), None);
    assert_eq!(text(&ctx.new_integer(2).unwrap()), "2");
    assert_eq!(text(&ctx.new(vec![form("1")], vec![]).unwrap()), "2");
}

#[test]
fn integer_outcomes() {
    let ctx = StandardFormContext;
    assert_eq!(ctx.outcome(&form("0")), Outcome::N);
    assert_eq!(ctx.outcome(&form("2")), Outcome::R);
    assert_eq!(ctx.outcome(&form("-2")), Outcome::L);
}

#[test]
fn outcome_examples() {
    let ctx = StandardFormContext;
    assert_eq!(ctx.outcome(&form("{0|0}")), Outcome::P);
    assert_eq!(ctx.outcome(&form("{1|1}")), Outcome::R);
    assert!(!ctx.wins_going_first(&form("{1|1}"), Player::Left));
    assert!(ctx.wins_going_first(&form("{1|1}"), Player::Right));
    assert_eq!(ctx.player_outcome(&form("{1|1}"), Player::Left), Player::Right);
    assert_eq!(ctx.player_outcome(&form("{1|1}"), Player::Right), Player::Right);
}

#[test]
fn p_free_examples() {
    let ctx = StandardFormContext;
    assert!(!ctx.is_p_free(&form("{0|0}")));
    assert!(!ctx.is_p_free(&form("{{0|0}|}")));
    assert!(ctx.is_p_free(&form("{1|1}")));
}

#[test]
fn ends_and_dead_ends() {
    let ctx = StandardFormContext;
    assert!(ctx.is_end(&form("1"), Player::Right));
    assert!(!ctx.is_end(&form("1"), Player::Left));
    assert!(ctx.is_dead_end(&form("1"), Player::Right));
    assert!(ctx.is_dead_ending(&form("{1|1}")));
    assert!(!ctx.is_dead_end(&form("{|{0|}}"), Player::Left));
    assert!(!ctx.is_dead_ending(&form("{|{0|}}")));
}

#[test]
fn blocked_ends() {
    let ctx = StandardFormContext;
    assert!(ctx.is_blocked_end(&form("0"), Player::Left));
    assert!(ctx.is_blocking(&form("{1|1}")));
    assert!(ctx.is_blocked_end(&form("{|{0|}}"), Player::Left));
    assert!(ctx.is_blocking(&form("{|{0|}}")));
    assert!(!ctx.is_blocked_end(&form("{|2}"), Player::Left));
    assert!(!ctx.is_blocking(&form("{|2}")));
}

#[test]
fn conjugate_swaps_sides() {
    let ctx = StandardFormContext;
    assert_eq!(text(&ctx.conjugate(&form("{0,1|3}")).unwrap()), "{-3|0,-1}");
    assert_eq!(text(&ctx.conjugate(&form("2")).unwrap()), "-2");
    let g = form("{{1|-1}|2}");
    let back = ctx.conjugate(&ctx.conjugate(&g).unwrap()).unwrap();
    assert!(ctx.total_eq(&back, &g));
    assert_eq!(ctx.outcome(&ctx.conjugate(&form("3")).unwrap()), Outcome::L);
}

#[test]
fn sums() {
    let ctx = StandardFormContext;
    let one = form("1");
    let two = form("2");
    let zero = form("0");
    assert_eq!(text(&ctx.sum(&one, &two).unwrap()), "3");
    assert!(ctx.total_eq(&ctx.sum(&two, &zero).unwrap(), &two));
    let g = form("{1|1}");
    let h = form("{0|2}");
    assert!(ctx.total_eq(&ctx.sum(&g, &h).unwrap(), &ctx.sum(&h, &g).unwrap()));
    assert_eq!(text(&ctx.sum(&one, &form("-1")).unwrap()), "{-1|1}");
}

#[test]
fn birthdays() {
    let ctx = StandardFormContext;
    assert_eq!(ctx.birthday(&form("0")), 0);
    assert_eq!(ctx.birthday(&form("{1|1}")), 2);
    assert_eq!(ctx.birthday(&form("{0,3|}")), 4);
}

#[test]
fn structural_order() {
    let ctx = StandardFormContext;
    assert_eq!(ctx.total_cmp(&form("0"), &form("0")), Ordering::Equal);
    assert_eq!(ctx.total_cmp(&form("0"), &form("-1")), Ordering::Less);
    assert_eq!(ctx.total_cmp(&form("1"), &form("-1")), Ordering::Greater);
    assert!(!ctx.total_eq(&form("1"), &form("-1")));
}

#[test]
fn parse_reports_the_position_after_the_form() {
    let ctx = StandardFormContext;
    // spaces after the form are skipped too
    let (position, g) = ctx.parse(b"{0|1} rest", 0).unwrap();
    assert_eq!(position, 6);
    assert_eq!(text(&g), "{0|1}");
    let (position, list) = ctx.parse_list(b"0,1,2|", 0);
    assert_eq!(position, 5);
    assert_eq!(list.len(), 3);
    assert!(ctx.parse(b"|", 0).is_none());
}

#[test]
fn rebuilding_a_form_from_its_options_gives_it_back() {
    let ctx = StandardFormContext;
    for t in ["{0,1|3}", "{{1|-1}|2}", "5", "0"] {
        let g = form(t);
        let left = ctx.moves(&g, Player::Left).to_vec();
        let right = ctx.moves(&g, Player::Right).to_vec();
        assert!(ctx.total_eq(&ctx.new(left, right).unwrap(), &g));
    }
}

#[test]
fn conjugates_swap_who_wins() {
    let ctx = StandardFormContext;
    for t in ["{0,1|3}", "{1|1}", "{0|0}", "-4"] {
        let g = form(t);
        let c = ctx.conjugate(&g).unwrap();
        assert_eq!(ctx.wins_going_first(&c, Player::Left), ctx.wins_going_first(&g, Player::Right));
        assert_eq!(ctx.wins_going_first(&c, Player::Right), ctx.wins_going_first(&g, Player::Left));
    }
}

#[test]
fn next_day_lists_every_pair_of_subsets() {
    let ctx = StandardFormContext;
    let next = ctx.next_day(&[form("0")]);
    let shown: Vec<String> = next.iter().map(text).collect();
    assert_eq!(shown, vec!["0", "-1", "1", "{0|0}"]);
    let day2 = ctx.next_day(&next);
    assert_eq!(day2.len(), 256);
}

#[test]
fn shrinking_standard_forms() {
    let ctx = StandardFormContext;
    let shown: Vec<String> = ctx.shrink(&form("{0,1|3}")).iter().map(text).collect();
    assert_eq!(shown, vec!["0", "1", "2"]);
    let shown: Vec<String> = ctx.shrink(&form("-3")).iter().map(text).collect();
    assert_eq!(shown, vec!["-2", "-1", "0"]);
    assert!(ctx.shrink(&form("{0|0}")).len() == 1);
}

#[test]
fn random_standard_forms_are_small() {
    let ctx = StandardFormContext;
    let mut g = Gen::new(5);
    for _ in 0..50 {
        let f = ctx.arbitrary_sized(&mut g, 5).unwrap();
        assert!(ctx.birthday(&f) <= 4);
        let f = ctx.arbitrary(&mut g).unwrap();
        assert!(ctx.birthday(&f) <= 4);
    }
    assert_eq!(text(&ctx.arbitrary_sized(&mut g, 0).unwrap()), "0");
    assert_eq!(text(&ctx.arbitrary_sized(&mut g, 1).unwrap()), "0");
}

#[test]
fn standard_forms_of_draws() {
    let ctx = StandardFormContext;
    let r = ctx.form_of_draws(5, 10, 13, false, vec![], vec![]).unwrap();
    assert_eq!(text(&r), "-3");
    let r = ctx.form_of_draws(5, 63, -1, true, vec![], vec![]).unwrap();
    assert_eq!(text(&r), "4");
    // any options make a form here, P-free or not
    let r = ctx.form_of_draws(5, 200, 0, false, vec![form("0")], vec![form("0")]).unwrap();
    assert_eq!(text(&r), "{0|0}");
}
