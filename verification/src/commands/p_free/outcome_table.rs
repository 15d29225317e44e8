//! Tabulating which outcomes the sum of two P-free next-player wins can
//! have, by the tipping points of the two summands.

use vstd::prelude::*;
use quickcheck::Gen;
use crate::commands::p_free::order::{variant_holds, Variant};
use crate::misere::game_form::arbitrary::{size_bound, PFreeArbitraryError};
use crate::misere::game_form::context::StandardFormContext;
use crate::misere::game_form::form::StandardForm;
use crate::misere::game_form::theory::{
    birthday, integer_tree, is_blocking, is_dead_ending, is_p_free, outcome, sum_tree, Outcome,
};
use crate::misere::game_form::form::canonical;
use crate::misere::game_form::laws::{
    law_integer_birthday, law_integer_outcome, law_integer_p_free, law_sum_commutative, law_sum_zero,
};
use crate::misere::p_free::{
    handicap, is_tipping_point, law_tipping_beyond_birthday, tipping_sum, tipping_sums_p_free, tips, win_for,
    PFreeConstructionError, PFreeForm, PFreeFormContext,
};
use crate::misere::game_form::tree::GameTree;
use crate::partizan::Player;
use crate::result::UnwrapInfallible;
use std::convert::Infallible;

verus! {

/// What the outcome table samples, as given on the command line
#[derive(Debug, Clone, Copy)]
pub struct Args {
    /// Size of the random forms
    pub size: u64,
    /// Class of games the forms are taken from
    pub variant: Variant,
}

/// Left and right tipping points of two forms `g` and `h`
#[derive(Debug, Clone, Copy, PartialEq, Eq, Structural)]
pub struct TippingPoints {
    pub gl: u32,
    pub gr: u32,
    pub hl: u32,
    pub hr: u32,
}

/// Tipping points in lexicographic order of `(gl, gr, hl, hr)`
pub open spec fn tipping_points_less(a: TippingPoints, b: TippingPoints) -> bool {
    ||| a.gl < b.gl
    ||| a.gl == b.gl && a.gr < b.gr
    ||| a.gl == b.gl && a.gr == b.gr && a.hl < b.hl
    ||| a.gl == b.gl && a.gr == b.gr && a.hl == b.hl && a.hr < b.hr
}

fn tipping_points_lt(a: TippingPoints, b: TippingPoints) -> (r: bool)
    ensures
        r == tipping_points_less(a, b),
{
    if a.gl != b.gl {
        a.gl < b.gl
    } else if a.gr != b.gr {
        a.gr < b.gr
    } else if a.hl != b.hl {
        a.hl < b.hl
    } else {
        a.hr < b.hr
    }
}

impl TippingPoints {
    /// The left tipping point of `g` is below the right one of `h`, and the
    /// right tipping point of `g` above the left one of `h`.
    pub fn crossed(&self) -> (r: bool)
        ensures
            r == (self.gl < self.hr && self.gr > self.hl),
    {
        self.gl < self.hr && self.gr > self.hl
    }
}

/// Position of an outcome in a set of outcomes
pub open spec fn outcome_index(o: Outcome) -> int {
    match o {
        Outcome::L => 0,
        Outcome::N => 1,
        Outcome::P => 2,
        Outcome::R => 3,
    }
}

fn outcome_slot(o: Outcome) -> (r: usize)
    ensures
        r == outcome_index(o),
{
    match o {
        Outcome::L => 0,
        Outcome::N => 1,
        Outcome::P => 2,
        Outcome::R => 3,
    }
}

/// A set of outcome classes
#[derive(Debug, Clone, Copy, PartialEq, Eq)]
pub struct PossibleOutcome {
    outcomes: [bool; 4],
}

impl PossibleOutcome {
    /// `outcome` is in the set
    pub closed spec fn has(self, outcome: Outcome) -> bool {
        self.outcomes@[outcome_index(outcome)]
    }

    /// Some outcome is in the set
    pub open spec fn is_nonempty(self) -> bool {
        self.has(Outcome::L) || self.has(Outcome::N) || self.has(Outcome::P) || self.has(Outcome::R)
    }

    /// The empty set
    pub fn none() -> (r: PossibleOutcome)
        ensures
            forall|o: Outcome| !#[trigger] r.has(o),
    {
        PossibleOutcome { outcomes: [false, false, false, false] }
    }

    /// Add `outcome` to the set; whether it was not there before.
    pub fn mark_as_possible(&mut self, outcome: Outcome) -> (r: bool)
        ensures
            r == !old(self).has(outcome),
            forall|o: Outcome| #[trigger] final(self).has(o) == (o == outcome || old(self).has(o)),
    {
        let i = outcome_slot(outcome);
        let was_possible = self.outcomes[i];
        self.outcomes[i] = true;
        proof {
            assert forall|o: Outcome| #[trigger] self.has(o) == (o == outcome || old(self).has(o)) by {
                if o != outcome {
                    assert(outcome_index(o) != outcome_index(outcome));
                }
            }
        }
        !was_possible
    }

    /// Whether `outcome` is in the set
    pub fn has_outcome(self, outcome: Outcome) -> (r: bool)
        ensures
            r == self.has(outcome),
    {
        self.outcomes[outcome_slot(outcome)]
    }

    /// The outcomes in the set, in the order `L`, `R`, `P`, `N`
    pub fn listed(self) -> (r: Vec<Outcome>)
        ensures
            r@ == Self::if_has(self, Outcome::L) + Self::if_has(self, Outcome::R) + Self::if_has(self, Outcome::P)
                + Self::if_has(self, Outcome::N),
    {
        let mut out: Vec<Outcome> = Vec::new();
        if self.has_outcome(Outcome::L) {
            out.push(Outcome::L);
        }
        if self.has_outcome(Outcome::R) {
            out.push(Outcome::R);
        }
        if self.has_outcome(Outcome::P) {
            out.push(Outcome::P);
        }
        if self.has_outcome(Outcome::N) {
            out.push(Outcome::N);
        }
        assert(out@ =~= Self::if_has(self, Outcome::L) + Self::if_has(self, Outcome::R) + Self::if_has(
            self,
            Outcome::P,
        ) + Self::if_has(self, Outcome::N));
        out
    }

    /// `outcome` alone when it is in the set, nothing otherwise
    pub open spec fn if_has(self, outcome: Outcome) -> Seq<Outcome> {
        if self.has(outcome) {
            seq![outcome]
        } else {
            seq![]
        }
    }
}

/// Sets of possible outcomes by tipping points, in order of the tipping
/// points
pub struct OutcomeTable {
    entries: Vec<(TippingPoints, PossibleOutcome)>,
}

impl OutcomeTable {
    /// Entries are ordered by strictly increasing tipping points, and each
    /// holds some outcome.
    #[verifier::type_invariant]
    spec fn well_formed(self) -> bool {
        &&& forall|i: int, j: int|
            0 <= i < j < self.entries@.len() ==> tipping_points_less(
                #[trigger] self.entries@[i].0,
                #[trigger] self.entries@[j].0,
            )
        &&& forall|i: int| #![trigger self.entries@[i]] 0 <= i < self.entries@.len() ==> self.entries@[i].1.is_nonempty()
    }

    /// `outcome` is marked as possible for the tipping points `key`
    pub closed spec fn possible(self, key: TippingPoints, outcome: Outcome) -> bool {
        exists|i: int| 0 <= i < self.entries@.len() && self.entries@[i].0 == key && #[trigger] self.entries@[i].1.has(outcome)
    }

    /// The empty table
    pub fn new() -> (r: OutcomeTable)
        ensures
            forall|k: TippingPoints, o: Outcome| !#[trigger] r.possible(k, o),
    {
        OutcomeTable { entries: Vec::new() }
    }

    /// Mark `outcome` as possible for `key`; whether it was not before.
    pub fn mark_as_possible(&mut self, key: TippingPoints, outcome: Outcome) -> (r: bool)
        ensures
            r == !old(self).possible(key, outcome),
            forall|k: TippingPoints, o: Outcome| #[trigger]
                final(self).possible(k, o) == (old(self).possible(k, o) || (k == key && o == outcome)),
    {
        proof {
            use_type_invariant(&*self);
        }
        let mut i: usize = 0;
        while i < self.entries.len() && tipping_points_lt(self.entries[i].0, key)
            invariant
                i <= self.entries@.len(),
                forall|k: int| 0 <= k < i ==> tipping_points_less(#[trigger] self.entries@[k].0, key),
            decreases self.entries.len() - i,
        {
            i += 1;
        }
        let ghost before = self.entries@;
        if i < self.entries.len() && self.entries[i].0 == key {
            let mut set = self.entries[i].1;
            let fresh = set.mark_as_possible(outcome);
            let entry = (key, set);
            let mut entries: Vec<(TippingPoints, PossibleOutcome)> = Vec::new();
            std::mem::swap(&mut entries, &mut self.entries);
            entries.set(i, entry);
            proof {
                assert forall|a: int, b: int| 0 <= a < b < entries@.len() implies tipping_points_less(
                    #[trigger] entries@[a].0,
                    #[trigger] entries@[b].0,
                ) by {
                    assert(entries@[a].0 == before[a].0 && entries@[b].0 == before[b].0);
                }
                assert forall|a: int| #![trigger entries@[a]] 0 <= a < entries@.len() implies entries@[a].1.is_nonempty() by {
                    if a == i {
                        assert(entries@[a].1.has(outcome));
                    } else {
                        assert(entries@[a] == before[a]);
                    }
                }
            }
            self.entries = entries;
            proof {
                assert forall|k: TippingPoints, o: Outcome| #[trigger]
                    self.possible(k, o) == (old(self).possible(k, o) || (k == key && o == outcome)) by {
                    if old(self).possible(k, o) {
                        let a = choose|a: int| 0 <= a < before.len() && before[a].0 == k && #[trigger] before[a].1.has(o);
                        if a == i {
                            assert(self.entries@[a].1.has(o));
                        } else {
                            assert(self.entries@[a] == before[a]);
                        }
                    }
                    if k == key && o == outcome {
                        assert(self.entries@[i as int].1.has(o));
                    }
                    if self.possible(k, o) {
                        let a = choose|a: int| 0 <= a < self.entries@.len() && self.entries@[a].0 == k && #[trigger] self.entries@[a].1.has(o);
                        if a != i {
                            assert(self.entries@[a] == before[a]);
                        }
                    }
                }
                if !fresh {
                    assert(before[i as int].1.has(outcome));
                } else {
                    if old(self).possible(key, outcome) {
                        let a = choose|a: int| 0 <= a < before.len() && before[a].0 == key && #[trigger] before[a].1.has(outcome);
                        if a < i {
                            assert(tipping_points_less(before[a].0, key));
                        } else if a > i {
                            assert(tipping_points_less(before[i as int].0, before[a].0));
                        }
                    }
                }
            }
            fresh
        } else {
            let mut set = PossibleOutcome::none();
            set.mark_as_possible(outcome);
            let mut entries: Vec<(TippingPoints, PossibleOutcome)> = Vec::new();
            std::mem::swap(&mut entries, &mut self.entries);
            entries.insert(i, (key, set));
            proof {
                assert(entries@ == before.insert(i as int, (key, set)));
                assert forall|a: int, b: int| 0 <= a < b < entries@.len() implies tipping_points_less(
                    #[trigger] entries@[a].0,
                    #[trigger] entries@[b].0,
                ) by {
                    if b < i {
                        assert(entries@[a] == before[a] && entries@[b] == before[b]);
                    } else if b == i {
                        assert(entries@[a] == before[a]);
                    } else if a == i {
                        assert(entries@[b] == before[b - 1]);
                        assert(b - 1 >= i);
                        if b - 1 > i {
                            assert(tipping_points_less(before[i as int].0, before[b - 1].0));
                        }
                    } else if a < i {
                        assert(entries@[a] == before[a] && entries@[b] == before[b - 1]);
                    } else {
                        assert(entries@[a] == before[a - 1] && entries@[b] == before[b - 1]);
                    }
                }
                assert forall|a: int| #![trigger entries@[a]] 0 <= a < entries@.len() implies entries@[a].1.is_nonempty() by {
                    if a == i {
                        assert(entries@[a].1.has(outcome));
                    } else if a < i {
                        assert(entries@[a] == before[a]);
                    } else {
                        assert(entries@[a] == before[a - 1]);
                    }
                }
            }
            self.entries = entries;
            proof {
                assert(!old(self).possible(key, outcome)) by {
                    if old(self).possible(key, outcome) {
                        let a = choose|a: int| 0 <= a < before.len() && before[a].0 == key && #[trigger] before[a].1.has(outcome);
                        if a < i {
                            assert(tipping_points_less(before[a].0, key));
                        } else if a > i {
                            assert(tipping_points_less(before[i as int].0, before[a].0));
                        }
                    }
                }
                assert forall|k: TippingPoints, o: Outcome| #[trigger]
                    self.possible(k, o) == (old(self).possible(k, o) || (k == key && o == outcome)) by {
                    if old(self).possible(k, o) {
                        let a = choose|a: int| 0 <= a < before.len() && before[a].0 == k && #[trigger] before[a].1.has(o);
                        if a < i {
                            assert(self.entries@[a] == before[a]);
                        } else {
                            assert(self.entries@[a + 1] == before[a]);
                        }
                    }
                    if k == key && o == outcome {
                        assert(self.entries@[i as int].1.has(o));
                    }
                    if self.possible(k, o) {
                        let a = choose|a: int| 0 <= a < self.entries@.len() && self.entries@[a].0 == k && #[trigger] self.entries@[a].1.has(o);
                        if a < i {
                            assert(self.entries@[a] == before[a]);
                        } else if a > i {
                            assert(self.entries@[a] == before[a - 1]);
                        } else {
                            assert(self.entries@[a].1.has(o) ==> o == outcome);
                        }
                    }
                }
            }
            true
        }
    }

    /// The entries of the table, ordered by tipping points; each holds the
    /// outcomes marked for its tipping points, and every tipping points with
    /// an outcome marked has an entry.
    pub fn entries(&self) -> (r: Vec<(TippingPoints, PossibleOutcome)>)
        ensures
            forall|i: int, j: int| 0 <= i < j < r@.len() ==> tipping_points_less(#[trigger] r@[i].0, #[trigger] r@[j].0),
            forall|i: int, o: Outcome| 0 <= i < r@.len() ==> (#[trigger] r@[i].1.has(o) == self.possible(r@[i].0, o)),
            forall|k: TippingPoints, o: Outcome| #[trigger] self.possible(k, o) ==> exists|i: int|
                0 <= i < r@.len() && r@[i].0 == k,
            forall|i: int| #![trigger r@[i]] 0 <= i < r@.len() ==> r@[i].1.is_nonempty(),
    {
        proof {
            use_type_invariant(self);
        }
        let mut r: Vec<(TippingPoints, PossibleOutcome)> = Vec::new();
        let mut k: usize = 0;
        while k < self.entries.len()
            invariant
                k <= self.entries@.len(),
                r@ == self.entries@.take(k as int),
            decreases self.entries.len() - k,
        {
            let e = self.entries[k];
            r.push(e);
            k += 1;
            proof {
                assert(r@ =~= self.entries@.take(k as int));
            }
        }
        proof {
            assert(r@ =~= self.entries@);
            assert forall|i: int, o: Outcome| 0 <= i < r@.len() implies (#[trigger] r@[i].1.has(o) == self.possible(r@[i].0, o)) by {
                if self.possible(r@[i].0, o) {
                    let a = choose|a: int| 0 <= a < self.entries@.len() && self.entries@[a].0 == r@[i].0 && #[trigger] self.entries@[a].1.has(o);
                    if a < i {
                        assert(tipping_points_less(self.entries@[a].0, self.entries@[i].0));
                    } else if a > i {
                        assert(tipping_points_less(self.entries@[i].0, self.entries@[a].0));
                    }
                }
            }
        }
        r
    }
}

/// The tipping point of `player` in `game`, or `None` when one of the sums
/// computed on the way to it is not P-free.
pub fn checked_tipping_point(
    context: &PFreeFormContext<StandardFormContext>,
    game: &PFreeForm<StandardForm>,
    player: Player,
) -> (r: Option<u32>)
    requires
        birthday(game@) < i32::MAX,
    ensures
        match r {
            Some(n) => tipping_sums_p_free(game@, player) && is_tipping_point(game@, player, n as nat),
            None => !tipping_sums_p_free(game@, player),
        },
{
    let ghost b = birthday(game@);
    let mut n: u32 = 0;
    loop
        invariant
            n <= b + 1,
            b == birthday(game@),
            b < i32::MAX,
            forall|k: nat| k < n ==> !tips(game@, player, k),
            forall|k: nat| k < n ==> is_p_free(#[trigger] tipping_sum(game@, player, k)),
        decreases b + 1 - n,
    {
        let offset: i32 = match player {
            Player::Left => -(n as i32),
            Player::Right => n as i32,
        };
        let h = context.new_integer(offset).unwrap_infallible();
        proof {
            assert(h@ == handicap(player, n as nat));
        }
        let s = match context.sum(game, &h) {
            Ok(s) => s,
            Err(_) => {
                proof {
                    assert(!is_p_free(tipping_sum(game@, player, n as nat)));
                    assert(forall|j: nat| j < n ==> !tips(game@, player, j));
                }
                return None;
            },
        };
        let o = context.outcome(&s);
        let won = match player {
            Player::Left => o == Outcome::L,
            Player::Right => o == Outcome::R,
        };
        if won {
            proof {
                assert(tips(game@, player, n as nat));
                assert forall|k: nat|
                    k <= birthday(game@) + 1 && (forall|j: nat| j < k ==> !tips(game@, player, j)) implies is_p_free(
                    #[trigger] tipping_sum(game@, player, k),
                ) by {
                    if k > n {
                        assert(!tips(game@, player, n as nat));
                    }
                }
            }
            return Some(n);
        }
        proof {
            if n == b + 1 {
                law_tipping_beyond_birthday(game@, player, n as nat);
            }
        }
        n += 1;
    }
}

/// `tp` holds the left and right tipping points of `g` and of `h`.
pub open spec fn tipping_points_of(g: GameTree, h: GameTree, tp: TippingPoints) -> bool {
    &&& is_tipping_point(g, Player::Left, tp.gl as nat)
    &&& is_tipping_point(g, Player::Right, tp.gr as nat)
    &&& is_tipping_point(h, Player::Left, tp.hl as nat)
    &&& is_tipping_point(h, Player::Right, tp.hr as nat)
}

/// The sums computed for the tipping points of `g` and `h` are P-free.
pub open spec fn tipping_sums_all_p_free(g: GameTree, h: GameTree) -> bool {
    &&& tipping_sums_p_free(g, Player::Left)
    &&& tipping_sums_p_free(g, Player::Right)
    &&& tipping_sums_p_free(h, Player::Left)
    &&& tipping_sums_p_free(h, Player::Right)
}

/// A form the table takes: P-free, of the class `variant`, and a
/// next-player win.
pub open spec fn eligible(variant: Variant, g: GameTree) -> bool {
    is_p_free(g) && variant_holds(variant, g) && outcome(g) == Outcome::N
}

/// An outcome newly found possible for the tipping points of two forms
pub struct Observation {
    /// Tipping points of `g` and `h`
    pub tipping_points: TippingPoints,
    /// Outcome of `g + h`
    pub outcome: Outcome,
    /// First form
    pub g: PFreeForm<StandardForm>,
    /// Second form
    pub h: PFreeForm<StandardForm>,
}

/// Record the outcome of `g + h` for the tipping points of `g` and `h` when
/// both could be made and are eligible; the observation is returned when
/// the outcome is new for those tipping points. Fails when one of the sums
/// computed for the tipping points is not P-free.
pub fn record_sample(
    table: &mut OutcomeTable,
    context: &PFreeFormContext<StandardFormContext>,
    variant: Variant,
    g: Result<PFreeForm<StandardForm>, PFreeArbitraryError>,
    h: Result<PFreeForm<StandardForm>, PFreeArbitraryError>,
) -> (r: Result<Option<Observation>, PFreeConstructionError<Infallible>>)
    requires
        g matches Ok(x) ==> birthday(x@) < i32::MAX && is_p_free(x@),
        h matches Ok(y) ==> birthday(y@) < i32::MAX && is_p_free(y@),
    ensures
        match (g, h) {
            (Ok(x), Ok(y)) => if !(eligible(variant, x@) && eligible(variant, y@)) {
                r matches Ok(None) && *final(table) == *old(table)
            } else if !tipping_sums_all_p_free(x@, y@) {
                r matches Err(PFreeConstructionError::NotPFree) && *final(table) == *old(table)
            } else {
                exists|tp: TippingPoints| {
                    let o = outcome(sum_tree(x@, y@));
                    &&& #[trigger] tipping_points_of(x@, y@, tp)
                    &&& forall|k: TippingPoints, p: Outcome| #[trigger]
                        final(table).possible(k, p) == (old(table).possible(k, p) || (k == tp && p == o))
                    &&& r matches Ok(found)
                    &&& (found is Some <==> !old(table).possible(tp, o))
                    &&& (found matches Some(obs) ==> obs.tipping_points == tp && obs.outcome == o && obs.g@ == x@
                        && obs.h@ == y@)
                }
            },
            _ => r matches Ok(None) && *final(table) == *old(table),
        },
{
    let x = match g {
        Ok(x) => x,
        Err(_) => return Ok(None),
    };
    let y = match h {
        Ok(y) => y,
        Err(_) => return Ok(None),
    };
    let base = context.underlying();
    if !(context.is_p_free(&x) && variant.matches(context, &x) && context.outcome(&x) == Outcome::N
        && context.is_p_free(&y) && variant.matches(context, &y) && context.outcome(&y) == Outcome::N) {
        return Ok(None);
    }
    let gl = match checked_tipping_point(context, &x, Player::Left) {
        Some(n) => n,
        None => return Err(PFreeConstructionError::NotPFree),
    };
    let gr = match checked_tipping_point(context, &x, Player::Right) {
        Some(n) => n,
        None => return Err(PFreeConstructionError::NotPFree),
    };
    let hl = match checked_tipping_point(context, &y, Player::Left) {
        Some(n) => n,
        None => return Err(PFreeConstructionError::NotPFree),
    };
    let hr = match checked_tipping_point(context, &y, Player::Right) {
        Some(n) => n,
        None => return Err(PFreeConstructionError::NotPFree),
    };
    let tipping_points = TippingPoints { gl, gr, hl, hr };
    let sum = base.sum(x.underlying(), y.underlying()).unwrap_infallible();
    let outcome = base.outcome(&sum);
    let fresh = table.mark_as_possible(tipping_points, outcome);
    proof {
        assert(tipping_points_of(x@, y@, tipping_points));
        assert(outcome == crate::misere::game_form::theory::outcome(sum_tree(x@, y@)));
    }
    if fresh {
        Ok(Some(Observation { tipping_points, outcome, g: x, h: y }))
    } else {
        Ok(None)
    }
}

/// 0 plus the integer `n` is `n`, for `n` from -1 to 1.
proof fn lemma_zero_plus_small_integer(n: int)
    requires
        -1 <= n <= 1,
    ensures
        sum_tree(integer_tree(0), integer_tree(n)) == integer_tree(n),
        canonical(integer_tree(n)),
{
    let z = integer_tree(0);
    assert(z.left.len() == 0 && z.right.len() == 0);
    assert(canonical(z));
    let t = integer_tree(n);
    if n != 0 {
        assert(canonical(t));
    }
    law_sum_commutative(z, t);
    law_sum_zero(t);
}

/// The tipping points of 0 are 1 for both players, and the sums computed
/// for them are P-free.
proof fn lemma_zero_tipping(player: Player, n: nat)
    ensures
        tipping_sums_p_free(integer_tree(0), player),
        is_tipping_point(integer_tree(0), player, n) <==> n == 1,
{
    let z = integer_tree(0);
    lemma_zero_plus_small_integer(0);
    lemma_zero_plus_small_integer(1);
    lemma_zero_plus_small_integer(-1);
    law_integer_outcome(0);
    law_integer_outcome(1);
    law_integer_outcome(-1);
    law_integer_birthday(0);
    assert(handicap(player, 0) == integer_tree(0));
    assert(handicap(player, 1) == integer_tree(-1) || handicap(player, 1) == integer_tree(1));
    assert(!tips(z, player, 0));
    assert(tips(z, player, 1)) by {
        match player {
            Player::Left => assert(handicap(player, 1) == integer_tree(-1)),
            Player::Right => assert(handicap(player, 1) == integer_tree(1)),
        }
    }
    assert forall|k: nat|
        k <= birthday(z) + 1 && (forall|j: nat| j < k ==> !tips(z, player, j)) implies is_p_free(
        #[trigger] tipping_sum(z, player, k),
    ) by {
        law_integer_p_free(0);
        law_integer_p_free(1);
        law_integer_p_free(-1);
        if k == 1 {
            match player {
                Player::Left => assert(handicap(player, 1) == integer_tree(-1)),
                Player::Right => assert(handicap(player, 1) == integer_tree(1)),
            }
        }
    }
    if is_tipping_point(z, player, n) {
        if n > 1 {
            assert(!tips(z, player, 1nat));
        }
    }
}

/// Draw two random P-free forms of size `size` and record them as
/// `record_sample` does. Which forms are drawn is up to chance; what holds
/// of every draw is stated.
pub fn sample_step(
    table: &mut OutcomeTable,
    context: &PFreeFormContext<StandardFormContext>,
    rnd: &mut Gen,
    size: i64,
    variant: Variant,
) -> (r: Result<Option<Observation>, PFreeConstructionError<Infallible>>)
    requires
        size <= i32::MAX,
    ensures
        forall|k: TippingPoints, p: Outcome| #[trigger] old(table).possible(k, p) ==> final(table).possible(k, p),
        forall|k: TippingPoints, p: Outcome| #[trigger]
            final(table).possible(k, p) && !old(table).possible(k, p) ==> (r matches Ok(Some(obs))
                && obs.tipping_points == k && obs.outcome == p),
        r matches Ok(Some(obs)) ==> {
            &&& eligible(variant, obs.g@)
            &&& eligible(variant, obs.h@)
            &&& tipping_points_of(obs.g@, obs.h@, obs.tipping_points)
            &&& obs.outcome == outcome(sum_tree(obs.g@, obs.h@))
            &&& final(table).possible(obs.tipping_points, obs.outcome)
            &&& !old(table).possible(obs.tipping_points, obs.outcome)
        },
        r is Err ==> *final(table) == *old(table),
        size <= 1 ==> (r matches Ok(found) && {
            let tp = TippingPoints { gl: 1, gr: 1, hl: 1, hr: 1 };
            &&& final(table).possible(tp, Outcome::N)
            &&& (found is Some <==> !old(table).possible(tp, Outcome::N))
            &&& (found matches Some(obs) ==> obs.g@ == integer_tree(0) && obs.h@ == integer_tree(0)
                && obs.tipping_points == tp && obs.outcome == Outcome::N)
        }),
        r is Err ==> exists|x: GameTree, y: GameTree|
            #![trigger tipping_sums_all_p_free(x, y)]
            eligible(variant, x) && eligible(variant, y) && birthday(x) <= size_bound(size) && birthday(y)
                <= size_bound(size) && !tipping_sums_all_p_free(x, y),
{
    let g = context.arbitrary_sized(rnd, size);
    let h = context.arbitrary_sized(rnd, size);
    let ghost gv = g;
    let ghost hv = h;
    let r = record_sample(table, context, variant, g, h);
    proof {
        if size <= 1 {
            let z = integer_tree(0);
            lemma_zero_tipping(Player::Left, 1);
            lemma_zero_tipping(Player::Right, 1);
            lemma_zero_plus_small_integer(0);
            law_integer_outcome(0);
            law_integer_p_free(0);
            assert(is_dead_ending(z));
            assert(is_blocking(z));
            assert(eligible(variant, z));
            assert(tipping_sums_all_p_free(z, z));
            let tp = TippingPoints { gl: 1, gr: 1, hl: 1, hr: 1 };
            assert(tipping_points_of(z, z, tp));
            assert forall|t: TippingPoints| #[trigger] tipping_points_of(z, z, t) implies t == tp by {
                lemma_zero_tipping(Player::Left, t.gl as nat);
                lemma_zero_tipping(Player::Right, t.gr as nat);
                lemma_zero_tipping(Player::Left, t.hl as nat);
                lemma_zero_tipping(Player::Right, t.hr as nat);
            }
        }
        if r is Err {
            let x = gv->Ok_0@;
            let y = hv->Ok_0@;
            assert(tipping_sums_all_p_free(x, y) || !tipping_sums_all_p_free(x, y));
        }
    }
    r
}

} // verus!
