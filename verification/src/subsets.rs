//! Subsets of the positions `0..n`, as increasing lists of positions.

use vstd::prelude::*;
use itertools::Itertools;
use itertools::structs::Combinations;
use std::ops::Range;

verus! {

/// `s` is a subset of `0..n`: its positions are below `n` and increase.
pub open spec fn is_index_subset(s: Seq<usize>, n: nat) -> bool {
    &&& forall|i: int, j: int| 0 <= i < j < s.len() ==> s[i] < s[j]
    &&& forall|i: int| 0 <= i < s.len() ==> s[i] < n
}

/// `a` comes before `b` in lexicographic order.
pub open spec fn lex_less(a: Seq<usize>, b: Seq<usize>) -> bool {
    exists|k: int|
        0 <= k < a.len() && k < b.len() && a[k] < b[k] && #[trigger] a.take(k) == b.take(k)
}

/// Shorter lists first, lists of one length in lexicographic order.
pub open spec fn graded_less(a: Seq<usize>, b: Seq<usize>) -> bool {
    a.len() < b.len() || (a.len() == b.len() && lex_less(a, b))
}

/// The first position at or after `k` where two lists of one length differ,
/// when they agree before `k`.
proof fn lemma_first_difference(a: Seq<usize>, b: Seq<usize>, k: int) -> (m: int)
    requires
        a.len() == b.len(),
        a != b,
        0 <= k <= a.len(),
        forall|i: int| 0 <= i < k ==> a[i] == b[i],
    ensures
        k <= m < a.len(),
        a[m] != b[m],
        forall|i: int| 0 <= i < m ==> a[i] == b[i],
    decreases a.len() - k,
{
    if k == a.len() {
        assert(a =~= b);
        k
    } else if a[k] != b[k] {
        k
    } else {
        lemma_first_difference(a, b, k + 1)
    }
}

/// Of two different lists, one comes before the other.
pub proof fn lemma_graded_less_total(a: Seq<usize>, b: Seq<usize>)
    requires
        a != b,
    ensures
        graded_less(a, b) || graded_less(b, a),
{
    if a.len() == b.len() {
        let m = lemma_first_difference(a, b, 0);
        assert(a.take(m) =~= b.take(m));
        if a[m] < b[m] {
            assert(lex_less(a, b));
        } else {
            assert(b.take(m) == a.take(m));
            assert(lex_less(b, a));
        }
    }
}

/// No list comes before itself, and of two lists at most one comes before
/// the other.
pub proof fn lemma_graded_less_asymmetric(a: Seq<usize>, b: Seq<usize>)
    ensures
        !graded_less(a, a),
        !(graded_less(a, b) && graded_less(b, a)),
{
    if lex_less(a, a) {
        let k = choose|k: int| 0 <= k < a.len() && k < a.len() && a[k] < a[k] && #[trigger] a.take(k) == a.take(k);
    }
    if a.len() == b.len() && lex_less(a, b) && lex_less(b, a) {
        let k = choose|k: int| 0 <= k < a.len() && k < b.len() && a[k] < b[k] && #[trigger] a.take(k) == b.take(k);
        let m = choose|m: int| 0 <= m < b.len() && m < a.len() && b[m] < a[m] && #[trigger] b.take(m) == a.take(m);
        if k < m {
            assert(a.take(m)[k] == b.take(m)[k]);
        } else if m < k {
            assert(a.take(k)[m] == b.take(k)[m]);
        }
    }
}

/// A cursor of itertools' `Combinations` over the positions `0..n`. Verus
/// refuses a declaration of that type (its generics are those of a private
/// struct behind a type alias), so it is held in a field hidden from Verus.
#[verifier::external_body]
pub struct SubsetCursor {
    inner: Combinations<Range<usize>>,
}

/// The subsets that a cursor of itertools' `Combinations` has still to give,
/// in the order it gives them
pub uninterp spec fn remaining_combinations(c: SubsetCursor) -> Seq<Seq<usize>>;

/// `Itertools::combinations` of itertools on the positions `0..n`: a cursor
/// that gives every `k`-element subset of `0..n`, each once, in lexicographic
/// order. Nothing is collected here.
#[verifier::external_body]
fn combinations_of(n: usize, k: usize) -> (r: SubsetCursor)
    ensures
        forall|i: int|
            0 <= i < remaining_combinations(r).len() ==> is_index_subset(
                #[trigger] remaining_combinations(r)[i],
                n as nat,
            ) && remaining_combinations(r)[i].len() == k,
        forall|s: Seq<usize>|
            #[trigger] is_index_subset(s, n as nat) && s.len() == k ==> exists|i: int|
                0 <= i < remaining_combinations(r).len() && remaining_combinations(r)[i] == s,
        forall|i: int, j: int|
            0 <= i < j < remaining_combinations(r).len() ==> lex_less(
                remaining_combinations(r)[i],
                remaining_combinations(r)[j],
            ),
{
    SubsetCursor { inner: (0..n).combinations(k) }
}

/// `Iterator::next` of itertools' `Combinations`: the next subset, which
/// then leaves the cursor; `None`, with the cursor unchanged, once every
/// subset has been given.
#[verifier::external_body]
fn next_combination(c: &mut SubsetCursor) -> (r: Option<Vec<usize>>)
    ensures
        remaining_combinations(*old(c)).len() == 0 ==> (r is None && remaining_combinations(*final(c))
            == remaining_combinations(*old(c))),
        remaining_combinations(*old(c)).len() > 0 ==> (r matches Some(v) && v@ == remaining_combinations(
            *old(c),
        )[0] && remaining_combinations(*final(c)) == remaining_combinations(*old(c)).drop_first()),
{
    c.inner.next()
}

/// Every `k`-element subset of `0..n`, each once, in lexicographic order
fn index_combinations(n: usize, k: usize) -> (r: Vec<Vec<usize>>)
    ensures
        forall|i: int|
            0 <= i < r@.len() ==> is_index_subset(#[trigger] r@[i]@, n as nat) && r@[i]@.len() == k,
        forall|s: Seq<usize>|
            #[trigger] is_index_subset(s, n as nat) && s.len() == k ==> exists|i: int|
                0 <= i < r@.len() && r@[i]@ == s,
        forall|i: int, j: int| 0 <= i < j < r@.len() ==> lex_less(r@[i]@, r@[j]@),
{
    let mut cursor = combinations_of(n, k);
    let ghost all = remaining_combinations(cursor);
    let mut out: Vec<Vec<usize>> = Vec::new();
    loop
        invariant
            out@.len() + remaining_combinations(cursor).len() == all.len(),
            forall|i: int| 0 <= i < out@.len() ==> #[trigger] out@[i]@ == all[i],
            forall|i: int|
                0 <= i < remaining_combinations(cursor).len() ==> #[trigger] remaining_combinations(cursor)[i]
                    == all[out@.len() + i],
        ensures
            out@.len() == all.len(),
            forall|i: int| 0 <= i < out@.len() ==> #[trigger] out@[i]@ == all[i],
        decreases remaining_combinations(cursor).len(),
    {
        let ghost before = remaining_combinations(cursor);
        match next_combination(&mut cursor) {
            Some(v) => {
                proof {
                    assert(v@ == all[out@.len() as int]);
                    assert forall|i: int| 0 <= i < remaining_combinations(cursor).len() implies #[trigger] remaining_combinations(cursor)[i]
                        == all[out@.len() + 1 + i] by {
                        assert(remaining_combinations(cursor)[i] == before[i + 1]);
                    }
                }
                out.push(v);
            },
            None => {
                break;
            },
        }
    }
    proof {
        assert forall|s: Seq<usize>| #[trigger] is_index_subset(s, n as nat) && s.len() == k implies exists|i: int|
            0 <= i < out@.len() && out@[i]@ == s by {
            let i = choose|i: int| 0 <= i < all.len() && all[i] == s;
            assert(out@[i]@ == all[i]);
        }
        assert forall|i: int, j: int| 0 <= i < j < out@.len() implies lex_less(out@[i]@, out@[j]@) by {
            assert(out@[i]@ == all[i] && out@[j]@ == all[j]);
        }
        assert forall|i: int| 0 <= i < out@.len() implies is_index_subset(#[trigger] out@[i]@, n as nat) && out@[i]@.len() == k by {
            assert(out@[i]@ == all[i]);
        }
    }
    out
}

/// `Itertools::powerset` of itertools on the positions `0..n`, collected:
/// every subset of `0..n`, each once, shorter ones first and those of one
/// size in lexicographic order. With `n` at most 27 the 2^n subsets fit in
/// memory that a `Vec` can address on 32-bit targets too.
#[verifier::external_body]
pub(crate) fn index_powerset(n: usize) -> (r: Vec<Vec<usize>>)
    requires
        n <= 27,
    ensures
        forall|i: int| 0 <= i < r@.len() ==> is_index_subset(#[trigger] r@[i]@, n as nat),
        forall|s: Seq<usize>|
            #[trigger] is_index_subset(s, n as nat) ==> exists|i: int| 0 <= i < r@.len() && r@[i]@ == s,
        forall|i: int, j: int| 0 <= i < j < r@.len() ==> graded_less(r@[i]@, r@[j]@),
{
    (0..n).powerset().collect()
}

/// The subsets of `0..n` with fewer than `n` elements, shorter ones first
/// and those of one size in lexicographic order.
pub fn proper_index_subsets(n: usize) -> (r: Vec<Vec<usize>>)
    ensures
        forall|i: int|
            0 <= i < r@.len() ==> is_index_subset(#[trigger] r@[i]@, n as nat) && r@[i]@.len() < n,
        forall|s: Seq<usize>|
            #[trigger] is_index_subset(s, n as nat) && s.len() < n ==> exists|i: int|
                0 <= i < r@.len() && r@[i]@ == s,
        forall|i: int, j: int| 0 <= i < j < r@.len() ==> graded_less(r@[i]@, r@[j]@),
{
    let mut out: Vec<Vec<usize>> = Vec::new();
    let mut k: usize = 0;
    while k < n
        invariant
            k <= n,
            forall|i: int|
                0 <= i < out@.len() ==> is_index_subset(#[trigger] out@[i]@, n as nat) && out@[i]@.len() < k,
            forall|s: Seq<usize>|
                #[trigger] is_index_subset(s, n as nat) && s.len() < k ==> exists|i: int|
                    0 <= i < out@.len() && out@[i]@ == s,
            forall|i: int, j: int| 0 <= i < j < out@.len() ==> graded_less(out@[i]@, out@[j]@),
        decreases n - k,
    {
        let block = index_combinations(n, k);
        let ghost before = out@;
        let mut b: usize = 0;
        while b < block.len()
            invariant
                k < n,
                b <= block@.len(),
                out@.len() == before.len() + b,
                forall|i: int| 0 <= i < before.len() ==> #[trigger] out@[i] == before[i],
                forall|i: int| 0 <= i < b ==> #[trigger] out@[before.len() + i]@ == block@[i]@,
                forall|i: int|
                    0 <= i < before.len() ==> is_index_subset(#[trigger] before[i]@, n as nat) && before[i]@.len() < k,
                forall|i: int|
                    0 <= i < block@.len() ==> is_index_subset(#[trigger] block@[i]@, n as nat) && block@[i]@.len() == k,
                forall|i: int, j: int| 0 <= i < j < block@.len() ==> lex_less(block@[i]@, block@[j]@),
                forall|i: int, j: int| 0 <= i < j < before.len() ==> graded_less(before[i]@, before[j]@),
                forall|s: Seq<usize>|
                    #[trigger] is_index_subset(s, n as nat) && s.len() == k ==> exists|i: int|
                        0 <= i < block@.len() && block@[i]@ == s,
                forall|s: Seq<usize>|
                    #[trigger] is_index_subset(s, n as nat) && s.len() < k ==> exists|i: int|
                        0 <= i < before.len() && before[i]@ == s,
                forall|i: int|
                    0 <= i < out@.len() ==> is_index_subset(#[trigger] out@[i]@, n as nat) && out@[i]@.len() <= k,
                forall|i: int, j: int| 0 <= i < j < out@.len() ==> graded_less(out@[i]@, out@[j]@),
            decreases block.len() - b,
        {
            let x = block[b].clone();
            let ghost prev = out@;
            out.push(x);
            proof {
                assert forall|i: int, j: int| 0 <= i < j < out@.len() implies graded_less(out@[i]@, out@[j]@) by {
                    if j < prev.len() {
                        assert(out@[i] == prev[i] && out@[j] == prev[j]);
                    } else if i < before.len() {
                        assert(out@[i] == before[i]);
                        assert(out@[j]@ == block@[b as int]@);
                    } else {
                        let ii = i - before.len();
                        assert(out@[i] == prev[before.len() + ii]);
                        assert(out@[i]@ == block@[ii]@);
                        assert(out@[j]@ == block@[b as int]@);
                    }
                }
                assert forall|i: int| 0 <= i < out@.len() implies is_index_subset(#[trigger] out@[i]@, n as nat) && out@[i]@.len() <= k by {
                    if i < prev.len() {
                        assert(out@[i] == prev[i]);
                    } else {
                        assert(out@[i]@ == block@[b as int]@);
                    }
                }
                assert forall|i: int| 0 <= i < b + 1 implies #[trigger] out@[before.len() + i]@ == block@[i]@ by {
                    if i < b {
                        assert(out@[before.len() + i] == prev[before.len() + i]);
                    }
                }
            }
            b += 1;
        }
        proof {
            assert forall|s: Seq<usize>| #[trigger] is_index_subset(s, n as nat) && s.len() < k + 1 implies exists|i: int|
                0 <= i < out@.len() && out@[i]@ == s by {
                if s.len() < k {
                    let i = choose|i: int| 0 <= i < before.len() && before[i]@ == s;
                    assert(out@[i] == before[i]);
                } else {
                    let i = choose|i: int| 0 <= i < block@.len() && block@[i]@ == s;
                    assert(out@[before.len() + i]@ == block@[i]@);
                }
            }
            assert forall|i: int| 0 <= i < out@.len() implies is_index_subset(#[trigger] out@[i]@, n as nat) && out@[i]@.len() < k + 1 by {
            }
        }
        k += 1;
    }
    out
}

} // verus!
