//! Writing game forms as text: integers in decimal, other forms as
//! `{L|R}` with comma separated option lists.

use vstd::prelude::*;
use crate::misere::game_form::context::StandardFormContext;
use crate::misere::game_form::form::{views, StandardForm};
use crate::misere::game_form::theory::{
    birthday, lemma_child_birthday, lemma_integer_birthday, tree_to_integer,
};
use crate::misere::game_form::tree::GameTree;
use crate::partizan::Player;

verus! {

pub open spec fn digit_char(d: int) -> char {
    (d + 48) as char
}

/// Decimal digits of a natural number
pub open spec fn nat_decimal(m: nat) -> Seq<char>
    decreases m,
{
    if m < 10 {
        seq![digit_char(m as int)]
    } else {
        nat_decimal(m / 10) + seq![digit_char((m % 10) as int)]
    }
}

/// Decimal notation of an integer, with a leading `-` for negatives
pub open spec fn int_decimal(n: int) -> Seq<char> {
    if n < 0 {
        seq!['-'] + nat_decimal((-n) as nat)
    } else {
        nat_decimal(n as nat)
    }
}

/// Text of a form: the integer it is, if any, otherwise `{L|R}`.
pub open spec fn show(g: GameTree) -> Seq<char>
    decreases g, 1nat,
{
    match tree_to_integer(g) {
        Some(n) => int_decimal(n),
        None => seq!['{'] + show_list(g.left) + seq!['|'] + show_list(g.right) + seq!['}'],
    }
}

/// Texts of forms separated by commas
pub open spec fn show_list(s: Seq<GameTree>) -> Seq<char>
    decreases s, 0nat,
{
    if s.len() == 0 {
        Seq::empty()
    } else if s.len() == 1 {
        show(s[0])
    } else {
        show(s[0]) + seq![','] + show_list(s.subrange(1, s.len() as int))
    }
}

fn digit_str(d: u64) -> (r: &'static str)
    requires
        d < 10,
    ensures
        r@ == seq![digit_char(d as int)],
{
    proof {
        reveal_strlit("0");
        reveal_strlit("1");
        reveal_strlit("2");
        reveal_strlit("3");
        reveal_strlit("4");
        reveal_strlit("5");
        reveal_strlit("6");
        reveal_strlit("7");
        reveal_strlit("8");
        reveal_strlit("9");
    }
    match d {
        0 => "0",
        1 => "1",
        2 => "2",
        3 => "3",
        4 => "4",
        5 => "5",
        6 => "6",
        7 => "7",
        8 => "8",
        _ => "9",
    }
}

fn write_nat(m: u64, out: &mut String)
    ensures
        final(out)@ == old(out)@ + nat_decimal(m as nat),
    decreases m,
{
    if m >= 10 {
        write_nat(m / 10, out);
    }
    let d = digit_str(m % 10);
    out.append(d);
    proof {
        if m >= 10 {
            assert(final(out)@ =~= old(out)@ + nat_decimal(m as nat));
        } else {
            assert(final(out)@ =~= old(out)@ + nat_decimal(m as nat));
        }
    }
}

fn write_int(n: i32, out: &mut String)
    ensures
        final(out)@ == old(out)@ + int_decimal(n as int),
{
    proof {
        reveal_strlit("-");
    }
    if n < 0 {
        out.append("-");
        let m: u64 = if n == i32::MIN {
            2147483648u64
        } else {
            (-n) as u64
        };
        write_nat(m, out);
        assert(final(out)@ =~= old(out)@ + int_decimal(n as int));
    } else {
        write_nat(n as u64, out);
    }
}

impl StandardFormContext {
    /// Text of `game`
    pub fn to_string(&self, game: &StandardForm) -> (r: String)
        requires
            birthday(game@) <= i32::MAX,
        ensures
            r@ == show(game@),
    {
        let mut s = String::new();
        self.write_form(game, &mut s);
        assert(s@ =~= show(game@));
        s
    }

    fn write_form(&self, game: &StandardForm, out: &mut String)
        requires
            birthday(game@) <= i32::MAX,
        ensures
            final(out)@ == old(out)@ + show(game@),
        decreases birthday(game@), 1nat,
    {
        proof {
            reveal_strlit("{");
            reveal_strlit("|");
            reveal_strlit("}");
            lemma_integer_birthday(game@);
        }
        match self.to_integer(game) {
            Some(n) => {
                write_int(n, out);
            },
            None => {
                out.append("{");
                self.write_list(game, Player::Left, out);
                out.append("|");
                self.write_list(game, Player::Right, out);
                out.append("}");
                assert(final(out)@ =~= old(out)@ + show(game@));
            },
        }
    }

    fn write_list(&self, game: &StandardForm, player: Player, out: &mut String)
        requires
            birthday(game@) <= i32::MAX,
        ensures
            final(out)@ == old(out)@ + show_list(game@.moves(player)),
        decreases birthday(game@), 0nat,
    {
        proof {
            reveal_strlit(",");
        }
        let m = game.moves(player);
        let ghost s = game@.moves(player);
        let mut i: usize = 0;
        let ghost start = out@;
        assert(s.subrange(0, s.len() as int) =~= s);
        while i < m.len()
            invariant
                i <= m@.len(),
                views(m@) == s,
                s == game@.moves(player),
                birthday(game@) <= i32::MAX,
                i == 0 ==> out@ == start,
                i > 0 ==> start + show_list(s) == out@ + (if i < s.len() {
                    seq![','] + show_list(s.subrange(i as int, s.len() as int))
                } else {
                    Seq::empty()
                }),
            decreases m.len() - i,
        {
            proof {
                lemma_child_birthday(game@, player, i as int);
                assert(views(m@)[i as int] == m@[i as int]@);
            }
            let ghost prev = out@;
            proof {
                reveal_strlit(",");
            }
            if i > 0 {
                out.append(",");
            }
            let ghost before = out@;
            self.write_form(&m[i], out);
            proof {
                let t = s.subrange(i as int, s.len() as int);
                assert(t[0] == s[i as int]);
                assert(t.subrange(1, t.len() as int) =~= s.subrange(i + 1, s.len() as int));
                let rest = if i + 1 < s.len() {
                    seq![','] + show_list(s.subrange(i + 1, s.len() as int))
                } else {
                    Seq::empty()
                };
                assert(show_list(t) =~= show(s[i as int]) + rest);
                if i == 0 {
                    assert(s =~= t);
                    assert(before == start);
                    assert(start + show_list(s) =~= out@ + rest);
                } else {
                    assert(before =~= prev + seq![',']);
                    assert(start + show_list(s) =~= out@ + rest);
                }
            }
            i += 1;
        }
    }
}

} // verus!
