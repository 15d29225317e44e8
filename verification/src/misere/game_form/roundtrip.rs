//! Reading back what was written: parsing the text of a canonical form gives
//! the form back.

use vstd::prelude::*;
use crate::misere::game_form::display::{digit_char, int_decimal, nat_decimal, show, show_list};
use crate::misere::game_form::form::canonical;
use crate::misere::game_form::laws::law_new_of_canonical;
use crate::misere::game_form::parse::{
    digits_end, digits_value, is_digit, is_space, parse_form_at, parse_integer, parse_list_at,
    skip_spaces,
};
use crate::misere::game_form::theory::{
    birthday, integer_tree, lemma_child_birthday, lemma_integer_birthday, tree_to_integer,
};
use crate::misere::game_form::tree::GameTree;
use crate::partizan::Player;

verus! {

/// Bytes of a text made of ASCII characters
pub open spec fn ascii_bytes(s: Seq<char>) -> Seq<u8> {
    Seq::new(s.len(), |i: int| s[i] as u8)
}

/// `b` holds the characters `s` from position `i` on
pub open spec fn holds_at(b: Seq<u8>, i: int, s: Seq<char>) -> bool {
    &&& 0 <= i
    &&& i + s.len() <= b.len()
    &&& forall|k: int| 0 <= k < s.len() ==> b[i + k] == #[trigger] s[k] as u8
}

/// Position `p` ends a form: the end of the text, or a `,`, `|` or `}`
pub open spec fn ends_form(b: Seq<u8>, p: int) -> bool {
    p == b.len() || (0 <= p < b.len() && (b[p] == 44 || b[p] == 124 || b[p] == 125))
}

proof fn lemma_holds_prefix(b: Seq<u8>, i: int, s: Seq<char>, t: Seq<char>)
    requires
        holds_at(b, i, s + t),
    ensures
        holds_at(b, i, s),
        holds_at(b, i + s.len(), t),
{
    assert forall|k: int| 0 <= k < s.len() implies b[i + k] == #[trigger] s[k] as u8 by {
        assert((s + t)[k] == s[k]);
    }
    assert forall|k: int| 0 <= k < t.len() implies b[i + s.len() + k] == #[trigger] t[k] as u8 by {
        assert((s + t)[s.len() + k] == t[k]);
    }
}

proof fn lemma_nat_decimal_digits(m: nat)
    ensures
        nat_decimal(m).len() >= 1,
        forall|k: int| 0 <= k < nat_decimal(m).len() ==> is_digit(#[trigger] nat_decimal(m)[k] as u8),
    decreases m,
{
    if m >= 10 {
        lemma_nat_decimal_digits(m / 10);
        let s = nat_decimal(m);
        let p = nat_decimal(m / 10);
        assert forall|k: int| 0 <= k < s.len() implies is_digit(#[trigger] s[k] as u8) by {
            if k < p.len() {
                assert(s[k] == p[k]);
            } else {
                assert(s[k] == digit_char((m % 10) as int));
            }
        }
    }
}

proof fn lemma_digits_end_walk(b: Seq<u8>, j: int, e: int)
    requires
        0 <= j <= e <= b.len(),
        forall|k: int| j <= k < e ==> is_digit(#[trigger] b[k]),
        e == b.len() || !is_digit(b[e]),
    ensures
        digits_end(b, j) == e,
    decreases e - j,
{
    if j < e {
        lemma_digits_end_walk(b, j + 1, e);
    }
}

proof fn lemma_digit_byte(d: int)
    requires
        0 <= d < 10,
    ensures
        digit_char(d) as u8 == d + 48,
{
}

proof fn lemma_digits_value_decimal(b: Seq<u8>, j: int, m: nat)
    requires
        holds_at(b, j, nat_decimal(m)),
    ensures
        digits_value(b, j, j + nat_decimal(m).len()) == m,
    decreases m,
{
    let s = nat_decimal(m);
    if m >= 10 {
        let p = nat_decimal(m / 10);
        lemma_holds_prefix(b, j, p, seq![digit_char((m % 10) as int)]);
        lemma_digits_value_decimal(b, j, m / 10);
        assert(s.len() == p.len() + 1);
        assert(b[j + p.len()] == s[p.len() as int] as u8);
        assert(s[p.len() as int] == digit_char((m % 10) as int));
        lemma_digit_byte((m % 10) as int);
        assert(digits_value(b, j, j + s.len()) == digits_value(b, j, j + p.len()) * 10 + (b[j + p.len()] - 48));
    } else {
        assert(b[j] == s[0] as u8);
        lemma_digit_byte(m as int);
        assert(digits_value(b, j, j + 1) == digits_value(b, j, j) * 10 + (b[j] - 48));
    }
}

/// The integer that a tree is determines the tree.
pub proof fn lemma_integer_tree_unique(g: GameTree)
    ensures
        tree_to_integer(g) matches Some(n) ==> g == integer_tree(n),
    decreases g,
{
    if g.left.len() == 0 && g.right.len() == 0 {
        assert(integer_tree(0) == GameTree { left: Seq::empty(), right: Seq::empty() });
        assert(g.left =~= Seq::<GameTree>::empty());
        assert(g.right =~= Seq::<GameTree>::empty());
    } else if g.left.len() == 1 && g.right.len() == 0 {
        lemma_integer_tree_unique(g.left[0]);
        match tree_to_integer(g.left[0]) {
            Some(p) => {
                if p >= 0 {
                    let n = p + 1;
                    assert(integer_tree(n) == GameTree { left: seq![integer_tree(n - 1)], right: Seq::empty() });
                    assert(g.left =~= seq![integer_tree(n - 1)]);
                    assert(g.right =~= Seq::<GameTree>::empty());
                }
            },
            None => {},
        }
    } else if g.left.len() == 0 && g.right.len() == 1 {
        lemma_integer_tree_unique(g.right[0]);
        match tree_to_integer(g.right[0]) {
            Some(p) => {
                if p <= 0 {
                    let n = p - 1;
                    assert(integer_tree(n) == GameTree { left: Seq::empty(), right: seq![integer_tree(n + 1)] });
                    assert(g.right =~= seq![integer_tree(n + 1)]);
                    assert(g.left =~= Seq::<GameTree>::empty());
                }
            },
            None => {},
        }
    }
}

/// The text of a form starts with `{`, `-` or a digit.
proof fn lemma_show_start(g: GameTree)
    ensures
        show(g).len() >= 1,
        show(g)[0] == '{' || show(g)[0] == '-' || is_digit(show(g)[0] as u8),
        show(g)[0] == '{' <==> tree_to_integer(g) is None,
{
    match tree_to_integer(g) {
        Some(n) => {
            if n < 0 {
                lemma_nat_decimal_digits((-n) as nat);
                assert(int_decimal(n)[0] == '-');
            } else {
                lemma_nat_decimal_digits(n as nat);
                assert(int_decimal(n)[0] == nat_decimal(n as nat)[0]);
            }
        },
        None => {
            assert(show(g)[0] == '{');
        },
    }
}

/// Parsing the text of a canonical form, followed by the end of the text or
/// by `,`, `|` or `}`, gives the form back and the position after its text.
pub proof fn lemma_parse_show(b: Seq<u8>, i: int, g: GameTree)
    requires
        canonical(g),
        birthday(g) <= i32::MAX,
        holds_at(b, i, show(g)),
        ends_form(b, i + show(g).len()),
    ensures
        parse_form_at(b, i) == Some((i + show(g).len(), g)),
    decreases g, 1nat,
{
    let s = show(g);
    lemma_show_start(g);
    assert(b[i] == s[0] as u8);
    assert(!is_space(b[i]));
    assert(skip_spaces(b, i) == i);
    match tree_to_integer(g) {
        Some(n) => {
            lemma_integer_birthday(g);
            lemma_integer_tree_unique(g);
            let m: nat = if n < 0 { (-n) as nat } else { n as nat };
            let j = if n < 0 { i + 1 } else { i };
            let d = nat_decimal(m);
            lemma_nat_decimal_digits(m);
            if n < 0 {
                assert(s == seq!['-'] + d);
                lemma_holds_prefix(b, i, seq!['-'], d);
                assert(b[i] == 45);
            } else {
                assert(s == d);
                assert(b[i] != 45);
            }
            assert(holds_at(b, j, d));
            assert forall|k: int| j <= k < j + d.len() implies is_digit(#[trigger] b[k]) by {
                assert(b[j + (k - j)] == d[k - j] as u8);
            }
            assert(j + d.len() == i + s.len());
            lemma_digits_end_walk(b, j, j + d.len());
            lemma_digits_value_decimal(b, j, m);
            assert(b[j] == d[0] as u8);
            assert(digits_end(b, j) == i + s.len());
            assert(skip_spaces(b, i + s.len()) == i + s.len());
            assert(parse_integer(b, i) == Some((i + s.len(), n)));
            assert((n as i32) as int == n);
        },
        None => {
            let sl = show_list(g.left);
            let sr = show_list(g.right);
            assert(s == seq!['{'] + sl + seq!['|'] + sr + seq!['}']);
            assert(s =~= seq!['{'] + (sl + (seq!['|'] + (sr + seq!['}']))));
            lemma_holds_prefix(b, i, seq!['{'], sl + (seq!['|'] + (sr + seq!['}'])));
            lemma_holds_prefix(b, i + 1, sl, seq!['|'] + (sr + seq!['}']));
            lemma_holds_prefix(b, i + 1 + sl.len(), seq!['|'], sr + seq!['}']);
            lemma_holds_prefix(b, i + 2 + sl.len(), sr, seq!['}']);
            assert(b[i] == 123);
            let p1 = i + 1 + sl.len();
            assert(b[p1] == seq!['|'][0] as u8);
            assert(b[p1] == 124);
            let p2 = p1 + 1 + sr.len();
            assert(b[p2] == seq!['}'][0] as u8);
            assert(b[p2] == 125);
            assert forall|k: int| 0 <= k < g.left.len() implies canonical(#[trigger] g.left[k]) && birthday(g.left[k]) <= i32::MAX by {
                lemma_child_birthday(g, Player::Left, k);
            }
            assert forall|k: int| 0 <= k < g.right.len() implies canonical(#[trigger] g.right[k]) && birthday(g.right[k]) <= i32::MAX by {
                lemma_child_birthday(g, Player::Right, k);
            }
            lemma_parse_show_list(b, i + 1, g.left);
            lemma_parse_show_list(b, p1 + 1, g.right);
            assert(p2 + 1 == i + s.len());
            assert(skip_spaces(b, p2 + 1) == p2 + 1);
            law_new_of_canonical(g);
        },
    }
}

/// Parsing the text of a list of canonical forms, followed by the end of the
/// text or by `|` or `}`, gives the list back.
pub proof fn lemma_parse_show_list(b: Seq<u8>, k: int, s: Seq<GameTree>)
    requires
        forall|m: int| 0 <= m < s.len() ==> canonical(#[trigger] s[m]) && birthday(s[m]) <= i32::MAX,
        holds_at(b, k, show_list(s)),
        k + show_list(s).len() == b.len() || (k + show_list(s).len() < b.len() && (b[k
            + show_list(s).len()] == 124 || b[k + show_list(s).len()] == 125)),
    ensures
        parse_list_at(b, k) == (k + show_list(s).len(), s),
    decreases s, 0nat,
{
    let e = k + show_list(s).len();
    if s.len() == 0 {
        assert(e == k);
        assert(skip_spaces(b, k) == k);
        assert(parse_integer(b, k) is None);
        assert(parse_form_at(b, k) is None);
        assert(s =~= Seq::<GameTree>::empty());
    } else {
        let g = s[0];
        let sg = show(g);
        lemma_show_start(g);
        if s.len() == 1 {
            assert(show_list(s) == sg);
            lemma_parse_show(b, k, g);
            assert(skip_spaces(b, k + sg.len()) == k + sg.len());
            assert(s =~= seq![g]);
        } else {
            let rest = s.subrange(1, s.len() as int);
            let sr = show_list(rest);
            assert(show_list(s) == sg + seq![','] + sr);
            assert(show_list(s) =~= sg + (seq![','] + sr));
            lemma_holds_prefix(b, k, sg, seq![','] + sr);
            lemma_holds_prefix(b, k + sg.len(), seq![','], sr);
            let q = k + sg.len();
            assert(b[q] == seq![','][0] as u8);
            assert(b[q] == 44);
            lemma_parse_show(b, k, g);
            assert(skip_spaces(b, q) == q);
            lemma_show_start(rest[0]);
            assert(sr.len() >= 1) by {
                if rest.len() == 1 {
                    assert(sr == show(rest[0]));
                } else {
                    assert(sr == show(rest[0]) + seq![','] + show_list(rest.subrange(1, rest.len() as int)));
                }
            }
            assert(sr[0] == show(rest[0])[0]) by {
                if rest.len() == 1 {
                    assert(sr == show(rest[0]));
                } else {
                    assert(sr == show(rest[0]) + seq![','] + show_list(rest.subrange(1, rest.len() as int)));
                }
            }
            assert(b[q + 1] == sr[0] as u8);
            assert(!is_space(b[q + 1]));
            assert(skip_spaces(b, q + 1) == q + 1);
            assert forall|m: int| 0 <= m < rest.len() implies canonical(#[trigger] rest[m]) && birthday(rest[m]) <= i32::MAX by {
                assert(rest[m] == s[m + 1]);
            }
            lemma_parse_show_list(b, q + 1, rest);
            assert(s =~= seq![g] + rest);
        }
    }
}

/// Reading back the text of a canonical form gives the form.
pub proof fn law_parse_show(g: GameTree)
    requires
        canonical(g),
        birthday(g) <= i32::MAX,
    ensures
        parse_form_at(ascii_bytes(show(g)), 0) == Some((show(g).len() as int, g)),
{
    let b = ascii_bytes(show(g));
    assert forall|k: int| 0 <= k < show(g).len() implies b[0 + k] == #[trigger] show(g)[k] as u8 by {
    }
    lemma_parse_show(b, 0, g);
}

} // verus!
