//! Random game forms, and random P-free game forms for searching
//! counterexamples.

use vstd::prelude::*;
use std::convert::Infallible;
use quickcheck::{Arbitrary, Gen};
use crate::misere::game_form::context::StandardFormContext;
use crate::misere::game_form::errors::ArbitraryError;
use crate::misere::game_form::theory::{birthday, integer_tree, is_p_free};
use crate::misere::p_free::{p_free_views, PFreeConstructionError, PFreeForm, PFreeFormContext};
use crate::misere::game_form::form::{node, views, StandardForm};
use crate::misere::game_form::laws::{law_integer_birthday, law_integer_p_free, lemma_node_birthday_bound};
use crate::misere::game_form::tree::GameTree;

verus! {

/// Random generator of quickcheck
#[verifier::external_type_specification]
#[verifier::external_body]
pub struct ExGen(Gen);

/// `u8::arbitrary` of quickcheck: a random byte. Nothing is claimed of it.
#[verifier::external_body]
fn arbitrary_u8(g: &mut Gen) -> u8 {
    u8::arbitrary(g)
}

/// `i64::arbitrary` of quickcheck: a random integer. Nothing is claimed of it.
#[verifier::external_body]
fn arbitrary_i64(g: &mut Gen) -> i64 {
    i64::arbitrary(g)
}

/// `bool::arbitrary` of quickcheck: a random truth value. Nothing is claimed of it.
#[verifier::external_body]
pub(crate) fn arbitrary_bool(g: &mut Gen) -> bool {
    bool::arbitrary(g)
}

/// `Gen::new` of quickcheck: a generator of the given size whose random
/// source is seeded from the machine (it panics only when the machine has no
/// random source to give). Nothing is claimed of the generator.
#[verifier::external_body]
pub(crate) fn new_generator(size: usize) -> Gen {
    Gen::new(size)
}

/// `Gen::size` of quickcheck: the size the generator was made with. Nothing
/// is claimed of it here.
#[verifier::external_body]
fn generator_size(g: &Gen) -> usize {
    g.size()
}

/// Errors of random generation in the P-free context
pub type PFreeArbitraryError = ArbitraryError<PFreeConstructionError<Infallible>, Infallible>;

/// Birthday bound of random forms of a given size
pub open spec fn size_bound(size: i64) -> int {
    if size < 1 {
        0
    } else {
        size - 1
    }
}

/// The integer that the draws `magnitude` and `positive` give at size
/// `size`: the magnitude brought below `size` (Euclidean remainder), negated
/// when `positive` is false, as an `i32`.
pub open spec fn drawn_integer(size: i64, magnitude: i64, positive: bool) -> int {
    let n = (magnitude % size) as i64;
    if positive {
        (n as i32) as int
    } else {
        ((-n) as i32) as int
    }
}

/// The trees of the forms that could be made, in order
pub open spec fn made_views(s: Seq<Result<PFreeForm<StandardForm>, PFreeArbitraryError>>) -> Seq<GameTree>
    decreases s.len(),
{
    if s.len() == 0 {
        seq![]
    } else {
        let rest = made_views(s.drop_last());
        match s.last() {
            Ok(f) => rest.push(f@),
            Err(_) => rest,
        }
    }
}

/// The form that one level of draws gives at size `size`: for `kind` below
/// 64 the drawn integer; otherwise the form with options `left` and `right`,
/// when it is P-free (`None` when it is not).
pub open spec fn form_of_draws_spec(
    size: i64,
    kind: u8,
    magnitude: i64,
    positive: bool,
    left: Seq<GameTree>,
    right: Seq<GameTree>,
) -> Option<GameTree> {
    if kind < 64 {
        Some(integer_tree(drawn_integer(size, magnitude, positive)))
    } else if is_p_free(node(left, right)) {
        Some(node(left, right))
    } else {
        None
    }
}

/// `r` is the form `t`, or the refusal of a form that is not P-free when
/// `t` is `None`
pub open spec fn gives(r: Result<PFreeForm<StandardForm>, PFreeArbitraryError>, t: Option<GameTree>) -> bool {
    match t {
        Some(t) => r matches Ok(f) && f@ == t,
        None => r == Err::<PFreeForm<StandardForm>, PFreeArbitraryError>(
            ArbitraryError::Construction(PFreeConstructionError::NotPFree),
        ),
    }
}

/// Every made form comes from an `Ok` entry.
proof fn lemma_made_views(s: Seq<Result<PFreeForm<StandardForm>, PFreeArbitraryError>>)
    ensures
        made_views(s).len() <= s.len(),
        forall|k: int| 0 <= k < made_views(s).len() ==> exists|j: int|
            0 <= j < s.len() && (#[trigger] s[j] matches Ok(f) && f@ == #[trigger] made_views(s)[k]),
    decreases s.len(),
{
    if s.len() > 0 {
        let t = s.drop_last();
        lemma_made_views(t);
        assert forall|k: int| 0 <= k < made_views(s).len() implies exists|j: int|
            0 <= j < s.len() && (#[trigger] s[j] matches Ok(f) && f@ == #[trigger] made_views(s)[k]) by {
            if k < made_views(t).len() {
                let j = choose|j: int| 0 <= j < t.len() && (#[trigger] t[j] matches Ok(f) && f@ == made_views(t)[k]);
                assert(s[j] == t[j]);
            } else {
                assert(s[s.len() - 1] == s.last());
            }
        }
    }
}

impl PFreeFormContext<StandardFormContext> {
    /// The form that one level of random draws gives at size `size`: for a
    /// `kind` below 64 the integer `magnitude` brought below `size` in
    /// absolute value and signed by `positive`; otherwise the form whose
    /// options are the forms of `left` and of `right` that could be made,
    /// refused when it is not P-free.
    pub fn form_of_draws(
        &self,
        size: i64,
        kind: u8,
        magnitude: i64,
        positive: bool,
        left: Vec<Result<PFreeForm<StandardForm>, PFreeArbitraryError>>,
        right: Vec<Result<PFreeForm<StandardForm>, PFreeArbitraryError>>,
    ) -> (r: Result<PFreeForm<StandardForm>, PFreeArbitraryError>)
        requires
            size >= 1,
        ensures
            gives(r, form_of_draws_spec(size, kind, magnitude, positive, made_views(left@), made_views(right@))),
    {
        if kind < 64 {
            let n = match magnitude.checked_rem_euclid(size) {
                Some(n) => n,
                None => 0,
            };
            let v: i32 = if positive {
                #[verifier::truncate] (n as i32)
            } else {
                #[verifier::truncate] ((-n) as i32)
            };
            proof {
                assert(v == drawn_integer(size, magnitude, positive));
            }
            match self.new_integer(v) {
                Ok(f) => Ok(f),
                Err(e) => Err(ArbitraryError::Integer(e)),
            }
        } else {
            let l = made_forms(left);
            let r = made_forms(right);
            match self.new_form(l, r) {
                Ok(f) => Ok(f),
                Err(e) => Err(ArbitraryError::Construction(e)),
            }
        }
    }

    /// A random P-free form of at most the given size: with probability about
    /// a quarter an integer below `size` in absolute value, otherwise a form
    /// whose Left and Right options are random forms of smaller size. Below
    /// size 2 every draw gives 0.
    pub fn arbitrary_sized(&self, g: &mut Gen, size: i64) -> (r: Result<PFreeForm<StandardForm>, PFreeArbitraryError>)
        ensures
            r matches Ok(f) ==> is_p_free(f@) && birthday(f@) <= size_bound(size),
            size <= 1 ==> (r matches Ok(f) && f@ == integer_tree(0)),
            r matches Err(e) ==> e == ArbitraryError::<PFreeConstructionError<Infallible>, Infallible>::Construction(
                PFreeConstructionError::NotPFree,
            ),
            size >= 1 ==> exists|kind: u8, magnitude: i64, positive: bool, left: Seq<GameTree>, right: Seq<GameTree>|
                #![trigger form_of_draws_spec(size, kind, magnitude, positive, left, right)]
                {
                    &&& left.len() < size && right.len() < size
                    &&& forall|k: int| 0 <= k < left.len() ==> is_p_free(#[trigger] left[k]) && birthday(left[k]) < size_bound(size)
                    &&& forall|k: int| 0 <= k < right.len() ==> is_p_free(#[trigger] right[k]) && birthday(right[k]) < size_bound(size)
                    &&& gives(r, form_of_draws_spec(size, kind, magnitude, positive, left, right))
                },
        decreases (if size < 0 { 0 } else { size as int }),
    {
        if size < 1 {
            proof {
                law_integer_birthday(0);
            }
            return match self.new_integer(0) {
                Ok(f) => Ok(f),
                Err(e) => Err(ArbitraryError::Integer(e)),
            };
        }
        let kind = arbitrary_u8(g);
        if kind < 64 {
            let magnitude = arbitrary_i64(g);
            let positive = arbitrary_bool(g);
            let r = self.form_of_draws(size, kind, magnitude, positive, Vec::new(), Vec::new());
            proof {
                let n = (magnitude % size) as i64;
                let v = drawn_integer(size, magnitude, positive);
                lemma_truncation_bound(n, v as i32);
                law_integer_birthday(v);
                law_integer_p_free(v);
                assert(made_views(Seq::<Result<PFreeForm<StandardForm>, PFreeArbitraryError>>::empty()) =~= seq![]);
                assert(form_of_draws_spec(size, kind, magnitude, positive, seq![], seq![]) == Some(integer_tree(v)));
            }
            r
        } else {
            let left = self.arbitrary_options(g, size);
            let right = self.arbitrary_options(g, size);
            let ghost lv = made_views(left@);
            let ghost rv = made_views(right@);
            proof {
                lemma_made_views(left@);
                lemma_made_views(right@);
                assert forall|k: int| 0 <= k < lv.len() implies is_p_free(#[trigger] lv[k]) && birthday(lv[k]) < size_bound(size) by {
                    let j = choose|j: int| 0 <= j < left@.len() && (#[trigger] left@[j] matches Ok(f) && f@ == lv[k]);
                }
                assert forall|k: int| 0 <= k < rv.len() implies is_p_free(#[trigger] rv[k]) && birthday(rv[k]) < size_bound(size) by {
                    let j = choose|j: int| 0 <= j < right@.len() && (#[trigger] right@[j] matches Ok(f) && f@ == rv[k]);
                }
                lemma_node_birthday_bound(lv, rv, size_bound(size));
                if size == 1 {
                    assert(lv =~= seq![]);
                    assert(rv =~= seq![]);
                    assert(node(lv, rv) =~= integer_tree(0));
                    law_integer_p_free(0);
                }
            }
            self.form_of_draws(size, kind, 0, false, left, right)
        }
    }

    /// A random number below `size` of attempts at random forms of smaller
    /// size
    fn arbitrary_options(&self, g: &mut Gen, size: i64) -> (r: Vec<Result<PFreeForm<StandardForm>, PFreeArbitraryError>>)
        requires
            size >= 1,
        ensures
            r@.len() < size,
            forall|k: int|
                0 <= k < r@.len() ==> (#[trigger] r@[k] matches Ok(f) ==> is_p_free(f@) && birthday(f@) < size_bound(size)),
        decreases size as int, 0nat,
    {
        let count = match arbitrary_i64(g).checked_rem_euclid(size) {
            Some(n) => n,
            None => 0,
        };
        let mut out: Vec<Result<PFreeForm<StandardForm>, PFreeArbitraryError>> = Vec::new();
        let mut i: i64 = 0;
        while i < count
            invariant
                0 <= i <= count,
                count < size,
                forall|k: int|
                    0 <= k < out@.len() ==> (#[trigger] out@[k] matches Ok(f) ==> is_p_free(f@) && birthday(f@) < size_bound(size)),
                out@.len() == i,
            decreases count - i,
        {
            let f = self.arbitrary_sized(g, count - 1);
            out.push(f);
            i += 1;
        }
        out
    }

    /// A random P-free form of the generator's size
    pub fn arbitrary(&self, g: &mut Gen) -> (r: Result<PFreeForm<StandardForm>, PFreeArbitraryError>)
        ensures
            r matches Ok(f) ==> is_p_free(f@),
            r matches Err(e) ==> e == ArbitraryError::<PFreeConstructionError<Infallible>, Infallible>::Construction(
                PFreeConstructionError::NotPFree,
            ),
    {
        let size = generator_size(g);
        self.arbitrary_sized(g, #[verifier::truncate] (size as i64))
    }
}

/// Errors of random generation in the standard context; none can occur
pub type StandardArbitraryError = ArbitraryError<Infallible, Infallible>;

/// The form that one level of draws gives at size `size` in the standard
/// context: for `kind` below 64 the drawn integer; otherwise the form with
/// options `left` and `right`.
pub open spec fn standard_form_of_draws_spec(
    size: i64,
    kind: u8,
    magnitude: i64,
    positive: bool,
    left: Seq<GameTree>,
    right: Seq<GameTree>,
) -> GameTree {
    if kind < 64 {
        integer_tree(drawn_integer(size, magnitude, positive))
    } else {
        node(left, right)
    }
}

impl StandardFormContext {
    /// The form that one level of random draws gives at size `size`: for a
    /// `kind` below 64 the integer `magnitude` brought below `size` in
    /// absolute value and signed by `positive`; otherwise the form whose
    /// options are `left` and `right`.
    pub fn form_of_draws(
        &self,
        size: i64,
        kind: u8,
        magnitude: i64,
        positive: bool,
        left: Vec<StandardForm>,
        right: Vec<StandardForm>,
    ) -> (r: Result<StandardForm, StandardArbitraryError>)
        requires
            size >= 1,
        ensures
            r matches Ok(f) && f@ == standard_form_of_draws_spec(
                size,
                kind,
                magnitude,
                positive,
                views(left@),
                views(right@),
            ),
    {
        if kind < 64 {
            let n = match magnitude.checked_rem_euclid(size) {
                Some(n) => n,
                None => 0,
            };
            let v: i32 = if positive {
                #[verifier::truncate] (n as i32)
            } else {
                #[verifier::truncate] ((-n) as i32)
            };
            proof {
                assert(v == drawn_integer(size, magnitude, positive));
            }
            match self.new_integer(v) {
                Ok(f) => Ok(f),
                Err(e) => Err(ArbitraryError::Integer(e)),
            }
        } else {
            match self.new(left, right) {
                Ok(f) => Ok(f),
                Err(e) => Err(ArbitraryError::Construction(e)),
            }
        }
    }

    /// A random form of at most the given size: with probability about a
    /// quarter an integer below `size` in absolute value, otherwise a form
    /// whose Left and Right options are random forms of smaller size. Below
    /// size 2 every draw gives 0.
    pub fn arbitrary_sized(&self, g: &mut Gen, size: i64) -> (r: Result<StandardForm, StandardArbitraryError>)
        ensures
            r matches Ok(f) && birthday(f@) <= size_bound(size),
            size <= 1 ==> (r matches Ok(f) && f@ == integer_tree(0)),
            size >= 1 ==> exists|kind: u8, magnitude: i64, positive: bool, left: Seq<GameTree>, right: Seq<GameTree>|
                #![trigger standard_form_of_draws_spec(size, kind, magnitude, positive, left, right)]
                {
                    &&& left.len() < size && right.len() < size
                    &&& forall|k: int| 0 <= k < left.len() ==> birthday(#[trigger] left[k]) < size_bound(size)
                    &&& forall|k: int| 0 <= k < right.len() ==> birthday(#[trigger] right[k]) < size_bound(size)
                    &&& r matches Ok(f) && f@ == standard_form_of_draws_spec(size, kind, magnitude, positive, left, right)
                },
        decreases (if size < 0 { 0 } else { size as int }),
    {
        if size < 1 {
            proof {
                law_integer_birthday(0);
            }
            return match self.new_integer(0) {
                Ok(f) => Ok(f),
                Err(e) => Err(ArbitraryError::Integer(e)),
            };
        }
        let kind = arbitrary_u8(g);
        if kind < 64 {
            let magnitude = arbitrary_i64(g);
            let positive = arbitrary_bool(g);
            let r = self.form_of_draws(size, kind, magnitude, positive, Vec::new(), Vec::new());
            proof {
                let n = (magnitude % size) as i64;
                let v = drawn_integer(size, magnitude, positive);
                lemma_truncation_bound(n, v as i32);
                law_integer_birthday(v);
                assert(views(Seq::<StandardForm>::empty()) =~= seq![]);
            }
            r
        } else {
            let left = self.arbitrary_options(g, size);
            let right = self.arbitrary_options(g, size);
            let ghost lv = views(left@);
            let ghost rv = views(right@);
            proof {
                lemma_node_birthday_bound(lv, rv, size_bound(size));
                if size == 1 {
                    assert(lv =~= seq![]);
                    assert(rv =~= seq![]);
                    assert(node(lv, rv) =~= integer_tree(0));
                }
            }
            self.form_of_draws(size, kind, 0, false, left, right)
        }
    }

    /// A random number below `size` of random forms of smaller size
    fn arbitrary_options(&self, g: &mut Gen, size: i64) -> (r: Vec<StandardForm>)
        requires
            size >= 1,
        ensures
            r@.len() < size,
            forall|k: int| 0 <= k < r@.len() ==> birthday(#[trigger] views(r@)[k]) < size_bound(size),
        decreases size as int, 0nat,
    {
        let count = match arbitrary_i64(g).checked_rem_euclid(size) {
            Some(n) => n,
            None => 0,
        };
        let mut out: Vec<StandardForm> = Vec::new();
        let mut i: i64 = 0;
        while i < count
            invariant
                0 <= i <= count,
                count < size,
                out@.len() <= i,
                forall|k: int| 0 <= k < out@.len() ==> birthday(#[trigger] views(out@)[k]) < size_bound(size),
            decreases count - i,
        {
            let ghost before = out@;
            match self.arbitrary_sized(g, count - 1) {
                Ok(f) => {
                    out.push(f);
                    proof {
                        assert forall|k: int| 0 <= k < out@.len() implies birthday(#[trigger] views(out@)[k])
                            < size_bound(size) by {
                            if k < before.len() {
                                assert(views(out@)[k] == views(before)[k]);
                            }
                        }
                    }
                },
                Err(_) => {},
            }
            i += 1;
        }
        out
    }

    /// A random form of the generator's size
    pub fn arbitrary(&self, g: &mut Gen) -> (r: Result<StandardForm, StandardArbitraryError>)
        ensures
            r is Ok,
    {
        let size = generator_size(g);
        self.arbitrary_sized(g, #[verifier::truncate] (size as i64))
    }
}

/// The forms that could be made, in order
fn made_forms(s: Vec<Result<PFreeForm<StandardForm>, PFreeArbitraryError>>) -> (r: Vec<PFreeForm<StandardForm>>)
    ensures
        p_free_views(r@) == made_views(s@),
{
    let ghost all = s@;
    let mut s = s;
    // Take the entries from the back, so that each is moved out once.
    let mut out: Vec<PFreeForm<StandardForm>> = Vec::new();
    let mut k: usize = 0;
    let n = s.len();
    let mut taken: Vec<Result<PFreeForm<StandardForm>, PFreeArbitraryError>> = Vec::new();
    while s.len() > 0
        invariant
            s@.len() + taken@.len() == all.len(),
            n == all.len(),
            forall|j: int| 0 <= j < s@.len() ==> #[trigger] s@[j] == all[j],
            forall|j: int| 0 <= j < taken@.len() ==> #[trigger] taken@[j] == all[all.len() - 1 - j],
        decreases s.len(),
    {
        let e = s.pop().unwrap();
        taken.push(e);
    }
    while taken.len() > 0
        invariant
            taken@.len() + k == all.len(),
            k <= n,
            n == all.len(),
            forall|j: int| 0 <= j < taken@.len() ==> #[trigger] taken@[j] == all[all.len() - 1 - j],
            p_free_views(out@) == made_views(all.take(k as int)),
        decreases taken.len(),
    {
        let e = taken.pop().unwrap();
        proof {
            assert(e == all[k as int]);
            assert(all.take(k + 1).drop_last() =~= all.take(k as int));
            assert(all.take(k + 1).last() == all[k as int]);
        }
        let ghost before = out@;
        match e {
            Ok(f) => {
                out.push(f);
                proof {
                    assert(p_free_views(out@) =~= p_free_views(before).push(out@[out@.len() - 1]@));
                }
            },
            Err(_) => {},
        }
        k += 1;
    }
    assert(all.take(n as int) =~= all);
    out
}

proof fn lemma_truncation_bound(n: i64, v: i32)
    requires
        n >= 0,
        v == (n as i32) || v == ((-n) as i32),
    ensures
        -(n as int) <= v <= n,
{
    if n <= i32::MAX {
        assert(n as i32 == n);
        assert((-n) as i32 == -n);
    } else {
        assert(v >= i32::MIN);
    }
}

} // verus!
