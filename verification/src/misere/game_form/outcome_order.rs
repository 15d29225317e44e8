//! Outcome classes ordered by how good they are for Left.

use vstd::prelude::*;
use std::cmp::Ordering;
use vstd::std_specs::cmp::PartialOrdSpecImpl;
use crate::misere::game_form::theory::Outcome;

verus! {

/// `a` is strictly better for Left than `b`: `L` beats every other class,
/// `N` and `P` both beat `R`, and `N` and `P` are incomparable.
pub open spec fn better_for_left(a: Outcome, b: Outcome) -> bool {
    match (a, b) {
        (Outcome::L, Outcome::N) | (Outcome::L, Outcome::P) | (Outcome::L, Outcome::R) => true,
        (Outcome::N, Outcome::R) | (Outcome::P, Outcome::R) => true,
        _ => false,
    }
}

/// Comparison in the partial order of outcome classes
pub open spec fn outcome_comparison(a: Outcome, b: Outcome) -> Option<Ordering> {
    if a == b {
        Some(Ordering::Equal)
    } else if better_for_left(a, b) {
        Some(Ordering::Greater)
    } else if better_for_left(b, a) {
        Some(Ordering::Less)
    } else {
        None
    }
}

impl PartialOrd for Outcome {
    fn partial_cmp(&self, other: &Outcome) -> (r: Option<Ordering>) {
        match (*self, *other) {
            (Outcome::L, Outcome::L) | (Outcome::N, Outcome::N) | (Outcome::P, Outcome::P) | (
                Outcome::R,
                Outcome::R,
            ) => Some(Ordering::Equal),
            (Outcome::L, _) => Some(Ordering::Greater),
            (_, Outcome::L) => Some(Ordering::Less),
            (_, Outcome::R) => Some(Ordering::Greater),
            (Outcome::R, _) => Some(Ordering::Less),
            _ => None,
        }
    }
}

impl PartialOrdSpecImpl for Outcome {
    open spec fn obeys_partial_cmp_spec() -> bool {
        true
    }

    open spec fn partial_cmp_spec(&self, other: &Outcome) -> Option<Ordering> {
        outcome_comparison(*self, *other)
    }
}

/// Outcome classes are partially ordered for Left: no class is better than
/// itself, better-than is asymmetric and transitive, `N` and `P` are
/// incomparable, and comparing the other way round gives the reverse answer.
pub proof fn law_outcome_order(a: Outcome, b: Outcome, c: Outcome)
    ensures
        !better_for_left(a, a),
        better_for_left(a, b) ==> !better_for_left(b, a),
        better_for_left(a, b) && better_for_left(b, c) ==> better_for_left(a, c),
        !better_for_left(Outcome::N, Outcome::P) && !better_for_left(Outcome::P, Outcome::N),
        outcome_comparison(a, b) == match outcome_comparison(b, a) {
            Some(Ordering::Less) => Some(Ordering::Greater),
            Some(Ordering::Greater) => Some(Ordering::Less),
            other => other,
        },
{
}

} // verus!
