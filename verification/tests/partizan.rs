use cgt_misere::partizan::Player;
use cgt_misere::transposition_table::{NoTranspositionTable, TranspositionTable};
use std::cmp::Ordering;

#[test]
fn player_order() {
    // Just so no one changes order of enum variants
    assert_eq!(Ord::cmp(&Player::Left, &Player::Right), Ordering::Greater);
    assert_eq!(Ord::cmp(&Player::Right, &Player::Left), Ordering::Less);
    assert_eq!(Ord::cmp(&Player::Left, &Player::Left), Ordering::Equal);
    assert_eq!(Ord::cmp(&Player::Right, &Player::Right), Ordering::Equal);
}

#[test]
fn opposite_swaps_players() {
    assert_eq!(Player::Left.opposite(), Player::Right);
    assert_eq!(Player::Right.opposite(), Player::Left);
    assert_eq!(Player::Left.opposite().opposite(), Player::Left);
}

#[test]
fn forall_players_needs_both() {
    assert!(Player::forall_players(|_| true));
    assert!(!Player::forall_players(|p| p == Player::Left));
    assert!(!Player::forall_players(|p| p == Player::Right));
}

#[test]
fn the_empty_table_holds_nothing() {
    let table = NoTranspositionTable::<u32>::new();
    assert_eq!(table, NoTranspositionTable::<u32>::default());
    table.insert_position(3, 7u8);
    let found: Option<u8> = table.lookup_position(&3);
    assert_eq!(found, None);
}
