//! Reading game forms from text.
//!
//! Grammar, over the bytes of the input: a form is `{L|R}`, where `L` and `R`
//! are comma separated lists of forms, or a decimal integer with an optional
//! leading `-`. Whitespace (space, tab, line feed, form feed, carriage return)
//! may surround forms and separators.

use vstd::prelude::*;
use vstd::string::StringSliceAdditionalSpecFns;
use crate::misere::game_form::context::StandardFormContext;
use crate::misere::game_form::form::{node, views, StandardForm};
use crate::misere::game_form::theory::integer_tree;
use crate::misere::game_form::tree::GameTree;

verus! {

pub open spec fn is_space(c: u8) -> bool {
    c == 32 || c == 9 || c == 10 || c == 12 || c == 13
}

pub open spec fn is_digit(c: u8) -> bool {
    48 <= c <= 57
}

/// First position at or after `i` that is not whitespace
pub open spec fn skip_spaces(b: Seq<u8>, i: int) -> int
    decreases b.len() - i,
{
    if 0 <= i < b.len() && is_space(b[i]) {
        skip_spaces(b, i + 1)
    } else {
        i
    }
}

/// First position at or after `i` that is not a digit
pub open spec fn digits_end(b: Seq<u8>, i: int) -> int
    decreases b.len() - i,
{
    if 0 <= i < b.len() && is_digit(b[i]) {
        digits_end(b, i + 1)
    } else {
        i
    }
}

/// Decimal value of the digits in `b[i..e]`
pub open spec fn digits_value(b: Seq<u8>, i: int, e: int) -> int
    decreases e - i,
{
    if e <= i {
        0
    } else {
        digits_value(b, i, e - 1) * 10 + (b[e - 1] - 48)
    }
}

/// An integer at position `i`: its value and the position after it and the
/// whitespace that follows. Values outside the range of `i64` are rejected.
pub open spec fn parse_integer(b: Seq<u8>, i: int) -> Option<(int, int)> {
    let neg = 0 <= i < b.len() && b[i] == 45;
    let j = if neg {
        i + 1
    } else {
        i
    };
    if 0 <= j < b.len() && is_digit(b[j]) {
        let e = digits_end(b, j);
        let v = if neg {
            -digits_value(b, j, e)
        } else {
            digits_value(b, j, e)
        };
        if i64::MIN <= v <= i64::MAX {
            Some((skip_spaces(b, e), v))
        } else {
            None
        }
    } else {
        None
    }
}

pub proof fn lemma_skip_spaces(b: Seq<u8>, i: int)
    requires
        0 <= i <= b.len(),
    ensures
        i <= skip_spaces(b, i) <= b.len(),
        skip_spaces(b, i) < b.len() ==> !is_space(b[skip_spaces(b, i)]),
    decreases b.len() - i,
{
    if i < b.len() && is_space(b[i]) {
        lemma_skip_spaces(b, i + 1);
    }
}

pub proof fn lemma_digits_end(b: Seq<u8>, i: int)
    requires
        0 <= i <= b.len(),
    ensures
        i <= digits_end(b, i) <= b.len(),
        forall|k: int| i <= k < digits_end(b, i) ==> is_digit(#[trigger] b[k]),
    decreases b.len() - i,
{
    if i < b.len() && is_digit(b[i]) {
        lemma_digits_end(b, i + 1);
    }
}

proof fn lemma_digits_value_mono(b: Seq<u8>, i: int, k: int, e: int)
    requires
        i <= k <= e,
        forall|m: int| i <= m < e ==> is_digit(#[trigger] b[m]),
    ensures
        0 <= digits_value(b, i, k) <= digits_value(b, i, e),
    decreases e - i,
{
    if e > i {
        assert(is_digit(b[e - 1]));
        if k < e {
            lemma_digits_value_mono(b, i, k, e - 1);
        } else {
            lemma_digits_value_mono(b, i, e - 1, e - 1);
        }
    }
}

/// A form at position `i`, and the position after it and the whitespace that
/// follows.
pub open spec fn parse_form_at(b: Seq<u8>, i: int) -> Option<(int, GameTree)>
    decreases b.len() - i, 0nat,
{
    if !(0 <= i <= b.len()) {
        None
    } else {
        let j = skip_spaces(b, i);
        proof {
            lemma_skip_spaces(b, i);
        }
        if j < b.len() && b[j] == 123 {
            let (p1, left) = parse_list_at(b, j + 1);
            if j + 1 <= p1 < b.len() && b[p1] == 124 {
                let (p2, right) = parse_list_at(b, p1 + 1);
                if p2 < b.len() && b[p2] == 125 {
                    Some((skip_spaces(b, p2 + 1), node(left, right)))
                } else {
                    None
                }
            } else {
                None
            }
        } else {
            match parse_integer(b, j) {
                Some((p, v)) => Some((p, integer_tree((v as i32) as int))),
                None => None,
            }
        }
    }
}

/// A comma separated list of forms at position `k`, possibly empty, and the
/// position after it. A list ends where no form follows.
pub open spec fn parse_list_at(b: Seq<u8>, k: int) -> (int, Seq<GameTree>)
    decreases b.len() - k, 1nat,
{
    match parse_form_at(b, k) {
        Some((p, g)) => if 0 <= k < p <= b.len() {
            let q = skip_spaces(b, p);
            proof {
                lemma_skip_spaces(b, p);
            }
            if q < b.len() && b[q] == 44 {
                proof {
                    lemma_skip_spaces(b, q + 1);
                }
                let (r, rest) = parse_list_at(b, skip_spaces(b, q + 1));
                (r, seq![g] + rest)
            } else {
                (q, seq![g])
            }
        } else {
            (k, Seq::empty())
        },
        None => (k, Seq::empty()),
    }
}

/// Parsing moves forward.
pub proof fn lemma_parse_positions(b: Seq<u8>, i: int)
    requires
        0 <= i <= b.len(),
    ensures
        parse_form_at(b, i) matches Some((p, g)) ==> i < p <= b.len(),
        i <= parse_list_at(b, i).0 <= b.len(),
    decreases b.len() - i,
{
    lemma_skip_spaces(b, i);
    let j = skip_spaces(b, i);
    if j < b.len() && b[j] == 123 {
        lemma_parse_positions(b, j + 1);
        let (p1, left) = parse_list_at(b, j + 1);
        if j + 1 <= p1 < b.len() && b[p1] == 124 {
            lemma_parse_positions(b, p1 + 1);
            let (p2, right) = parse_list_at(b, p1 + 1);
            if p2 < b.len() && b[p2] == 125 {
                lemma_skip_spaces(b, p2 + 1);
            }
        }
    } else {
        let neg = 0 <= j < b.len() && b[j] == 45;
        let jj = if neg { j + 1 } else { j };
        if 0 <= jj < b.len() && is_digit(b[jj]) {
            lemma_digits_end(b, jj + 1);
            lemma_skip_spaces(b, digits_end(b, jj));
        }
    }
    match parse_form_at(b, i) {
        Some((p, g)) => {
            if i < p <= b.len() {
                let q = skip_spaces(b, p);
                lemma_skip_spaces(b, p);
                if q < b.len() && b[q] == 44 {
                    lemma_skip_spaces(b, q + 1);
                    lemma_parse_positions(b, skip_spaces(b, q + 1));
                }
            }
        },
        None => {},
    }
}

fn skip_spaces_exec(b: &[u8], i: usize) -> (r: usize)
    requires
        i <= b@.len(),
    ensures
        r == skip_spaces(b@, i as int),
{
    let mut k: usize = i;
    while k < b.len() && (b[k] == 32 || b[k] == 9 || b[k] == 10 || b[k] == 12 || b[k] == 13)
        invariant
            i <= k <= b@.len(),
            skip_spaces(b@, k as int) == skip_spaces(b@, i as int),
        decreases b.len() - k,
    {
        k += 1;
    }
    k
}

fn parse_integer_exec(b: &[u8], i: usize) -> (r: Option<(usize, i64)>)
    requires
        i <= b@.len(),
    ensures
        match parse_integer(b@, i as int) {
            Some((p, v)) => r == Some((p as usize, v as i64)),
            None => r is None,
        },
{
    let neg = i < b.len() && b[i] == 45;
    let j = if neg {
        i + 1
    } else {
        i
    };
    if !(j < b.len() && 48 <= b[j] && b[j] <= 57) {
        return None;
    }
    proof {
        lemma_digits_end(b@, j as int);
    }
    let ghost e = digits_end(b@, j as int);
    let mut v: u64 = 0;
    let mut k: usize = j;
    while k < b.len() && 48 <= b[k] && b[k] <= 57
        invariant
            j <= k <= b@.len(),
            j < b@.len(),
            is_digit(b@[j as int]),
            neg == (i < b@.len() && b@[i as int] == 45),
            j == (if neg { i + 1 } else { i as int }),
            e == digits_end(b@, j as int),
            j <= e <= b@.len(),
            forall|m: int| j <= m < e ==> is_digit(#[trigger] b@[m]),
            digits_end(b@, k as int) == e,
            v == digits_value(b@, j as int, k as int),
        decreases b.len() - k,
    {
        let d = (b[k] - 48) as u64;
        proof {
            lemma_digits_end(b@, k as int + 1);
            assert(k < e);
            lemma_digits_value_mono(b@, j as int, k as int + 1, e);
            assert(digits_value(b@, j as int, k as int + 1) == v * 10 + d);
        }
        match v.checked_mul(10) {
            Some(m) => match m.checked_add(d) {
                Some(n) => {
                    v = n;
                },
                None => {
                    proof {
                        assert(digits_value(b@, j as int, e) > u64::MAX);
                        assert(parse_integer(b@, i as int) is None);
                    }
                    return None;
                },
            },
            None => {
                proof {
                    assert(digits_value(b@, j as int, e) > u64::MAX);
                    assert(parse_integer(b@, i as int) is None);
                }
                return None;
            },
        }
        k += 1;
    }
    proof {
        lemma_skip_spaces(b@, k as int);
    }
    let p = skip_spaces_exec(b, k);
    if neg {
        if v > 9223372036854775808u64 {
            None
        } else if v == 9223372036854775808u64 {
            Some((p, i64::MIN))
        } else {
            let w = v as i64;
            Some((p, -w))
        }
    } else {
        if v > 9223372036854775807u64 {
            None
        } else {
            Some((p, v as i64))
        }
    }
}

impl StandardFormContext {
    /// Parse a form at position `position` of `input`; gives the form and the
    /// position after it and the whitespace that follows.
    pub fn parse(&self, input: &[u8], position: usize) -> (r: Option<(usize, StandardForm)>)
        requires
            position <= input@.len(),
        ensures
            match parse_form_at(input@, position as int) {
                Some((p, t)) => r matches Some((q, g)) && q == p && g@ == t,
                None => r is None,
            },
        decreases input@.len() - position, 0nat,
    {
        proof {
            lemma_skip_spaces(input@, position as int);
        }
        let j = skip_spaces_exec(input, position);
        if j < input.len() && input[j] == 123 {
            proof {
                lemma_parse_positions(input@, j as int + 1);
            }
            let (p1, left) = self.parse_list(input, j + 1);
            if p1 < input.len() && input[p1] == 124 {
                proof {
                    lemma_parse_positions(input@, p1 as int + 1);
                }
                let (p2, right) = self.parse_list(input, p1 + 1);
                if p2 < input.len() && input[p2] == 125 {
                    proof {
                        lemma_skip_spaces(input@, p2 as int + 1);
                    }
                    let p = skip_spaces_exec(input, p2 + 1);
                    let g = StandardForm::new(left, right);
                    assert(parse_form_at(input@, position as int) == Some((p as int, g@)));
                    Some((p, g))
                } else {
                    None
                }
            } else {
                None
            }
        } else {
            match parse_integer_exec(input, j) {
                Some((p, v)) => {
                    let n: i32 = #[verifier::truncate] (v as i32);
                    let g = match self.new_integer(n) {
                        Ok(g) => g,
                        Err(_) => return None,
                    };
                    proof {
                        lemma_parse_positions(input@, position as int);
                        let sv = match parse_integer(input@, j as int) {
                            Some((_, x)) => x,
                            None => 0,
                        };
                        assert(sv == v as int);
                        assert((sv as i32) == n);
                        assert(parse_form_at(input@, position as int) == Some((p as int, g@)));
                    }
                    Some((p, g))
                },
                None => None,
            }
        }
    }

    /// Parse a comma separated list of forms at position `position`; gives the
    /// forms and the position after the list.
    pub fn parse_list(&self, input: &[u8], position: usize) -> (r: (usize, Vec<StandardForm>))
        requires
            position <= input@.len(),
        ensures
            r.0 == parse_list_at(input@, position as int).0,
            views(r.1@) == parse_list_at(input@, position as int).1,
        decreases input@.len() - position, 1nat,
    {
        let mut acc: Vec<StandardForm> = Vec::new();
        let mut k: usize = position;
        proof {
            assert(views(acc@) + parse_list_at(input@, k as int).1 =~= parse_list_at(input@, k as int).1);
        }
        loop
            invariant
                position <= k <= input@.len(),
                parse_list_at(input@, position as int).0 == parse_list_at(input@, k as int).0,
                parse_list_at(input@, position as int).1 == views(acc@) + parse_list_at(input@, k as int).1,
            decreases input@.len() - k,
        {
            proof {
                lemma_parse_positions(input@, k as int);
            }
            match self.parse(input, k) {
                Some((p, g)) => {
                    let ghost gv = g@;
                    let ghost prev = views(acc@);
                    acc.push(g);
                    proof {
                        assert(views(acc@) =~= prev.push(gv));
                        lemma_skip_spaces(input@, p as int);
                    }
                    let q = skip_spaces_exec(input, p);
                    if q < input.len() && input[q] == 44 {
                        proof {
                            lemma_skip_spaces(input@, q as int + 1);
                        }
                        let next = skip_spaces_exec(input, q + 1);
                        proof {
                            assert(views(acc@) + parse_list_at(input@, next as int).1
                                =~= prev + (seq![gv] + parse_list_at(input@, next as int).1));
                        }
                        k = next;
                    } else {
                        proof {
                            assert(views(acc@) =~= prev + seq![gv]);
                        }
                        return (q, acc);
                    }
                },
                None => {
                    proof {
                        assert(views(acc@) =~= views(acc@) + Seq::<GameTree>::empty());
                    }
                    return (k, acc);
                },
            }
        }
    }

    /// Parse a form from the start of `input`; text after the form is ignored.
    pub fn from_str(&self, input: &str) -> (r: Option<StandardForm>)
        ensures
            match parse_form_at(input.spec_bytes(), 0) {
                Some((p, t)) => r matches Some(g) && g@ == t,
                None => r is None,
            },
    {
        let b = input.as_bytes();
        match self.parse(b, 0) {
            Some((_, g)) => Some(g),
            None => None,
        }
    }

    /// Parse a form that takes up all of `input`, apart from surrounding
    /// whitespace.
    pub fn parse_all(&self, input: &str) -> (r: Result<StandardForm, &'static str>)
        ensures
            parse_all_result(input.spec_bytes(), r),
    {
        let b = input.as_bytes();
        match self.parse(b, 0) {
            Some((p, g)) => if p == b.len() {
                Ok(g)
            } else {
                Err("Parse error: leftover input")
            },
            None => Err("Parse error: parser failed"),
        }
    }
}

/// `r` is the form that takes up all of `bytes`, apart from surrounding
/// whitespace, or the error that says why there is none.
pub open spec fn parse_all_result(bytes: Seq<u8>, r: Result<StandardForm, &'static str>) -> bool {
    match parse_form_at(bytes, 0) {
        Some((p, t)) => if p == bytes.len() {
            r matches Ok(g) && g@ == t
        } else {
            r matches Err(e) && e@ == "Parse error: leftover input"@
        },
        None => r matches Err(e) && e@ == "Parse error: parser failed"@,
    }
}

impl std::str::FromStr for StandardForm {
    type Err = &'static str;

    fn from_str(s: &str) -> (r: Result<StandardForm, &'static str>)
        ensures
            parse_all_result(s.spec_bytes(), r),
    {
        StandardFormContext.parse_all(s)
    }
}

} // verus!
