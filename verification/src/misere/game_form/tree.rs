//! Mathematical model of game forms: trees of Left and Right options,
//! their structural total order, and canonical (sorted, duplicate free)
//! option lists.

use vstd::prelude::*;
use crate::partizan::Player;

verus! {

/// A game form as a tree: the sequence of Left options and the sequence of
/// Right options.
#[verifier::ext_equal]
pub struct GameTree {
    pub left: Seq<GameTree>,
    pub right: Seq<GameTree>,
}

impl GameTree {
    /// Options of `player`
    pub open spec fn moves(self, player: Player) -> Seq<GameTree> {
        match player {
            Player::Left => self.left,
            Player::Right => self.right,
        }
    }
}

/// Structural order of game trees: the Left options are compared
/// lexicographically first, then the Right options. Result is -1, 0 or 1.
pub open spec fn tree_order(a: GameTree, b: GameTree) -> int
    decreases a,
{
    let c = seq_order(a.left, b.left);
    if c != 0 {
        c
    } else {
        seq_order(a.right, b.right)
    }
}

/// Lexicographic order of sequences of trees, a proper prefix being smaller.
pub open spec fn seq_order(s: Seq<GameTree>, t: Seq<GameTree>) -> int
    decreases s,
{
    if s.len() == 0 {
        if t.len() == 0 {
            0
        } else {
            -1
        }
    } else if t.len() == 0 {
        1
    } else {
        let c = tree_order(s[0], t[0]);
        if c != 0 {
            c
        } else {
            seq_order(s.subrange(1, s.len() as int), t.subrange(1, t.len() as int))
        }
    }
}

pub proof fn lemma_tree_order_antisym(a: GameTree, b: GameTree)
    ensures
        tree_order(a, b) == -tree_order(b, a),
        -1 <= tree_order(a, b) <= 1,
        tree_order(a, b) == 0 ==> a == b,
    decreases a,
{
    lemma_seq_order_antisym(a.left, b.left);
    lemma_seq_order_antisym(a.right, b.right);
    if tree_order(a, b) == 0 {
        assert(a =~= b);
    }
}

pub proof fn lemma_seq_order_antisym(s: Seq<GameTree>, t: Seq<GameTree>)
    ensures
        seq_order(s, t) == -seq_order(t, s),
        -1 <= seq_order(s, t) <= 1,
        seq_order(s, t) == 0 ==> s == t,
    decreases s,
{
    if s.len() > 0 && t.len() > 0 {
        lemma_tree_order_antisym(s[0], t[0]);
        let s1 = s.subrange(1, s.len() as int);
        let t1 = t.subrange(1, t.len() as int);
        lemma_seq_order_antisym(s1, t1);
        if seq_order(s, t) == 0 {
            assert(s =~= seq![s[0]] + s1);
            assert(t =~= seq![t[0]] + t1);
        }
    }
}

pub proof fn lemma_tree_order_refl(a: GameTree)
    ensures
        tree_order(a, a) == 0,
{
    lemma_tree_order_antisym(a, a);
}

pub proof fn lemma_tree_order_trans(a: GameTree, b: GameTree, c: GameTree)
    requires
        tree_order(a, b) == -1,
        tree_order(b, c) == -1,
    ensures
        tree_order(a, c) == -1,
    decreases a,
{
    lemma_seq_order_antisym(a.left, b.left);
    lemma_seq_order_antisym(b.left, c.left);
    lemma_seq_order_antisym(a.right, b.right);
    lemma_seq_order_antisym(b.right, c.right);
    let l1 = seq_order(a.left, b.left);
    let l2 = seq_order(b.left, c.left);
    if l1 == -1 && l2 == -1 {
        lemma_seq_order_trans(a.left, b.left, c.left);
    } else if l1 == 0 && l2 == 0 {
        lemma_seq_order_trans(a.right, b.right, c.right);
    }
}

pub proof fn lemma_seq_order_trans(s: Seq<GameTree>, t: Seq<GameTree>, u: Seq<GameTree>)
    requires
        seq_order(s, t) == -1,
        seq_order(t, u) == -1,
    ensures
        seq_order(s, u) == -1,
    decreases s,
{
    if s.len() > 0 {
        lemma_tree_order_antisym(s[0], t[0]);
        lemma_tree_order_antisym(t[0], u[0]);
        let c1 = tree_order(s[0], t[0]);
        let c2 = tree_order(t[0], u[0]);
        if c1 == -1 && c2 == -1 {
            lemma_tree_order_trans(s[0], t[0], u[0]);
        } else if c1 == 0 && c2 == 0 {
            lemma_seq_order_trans(
                s.subrange(1, s.len() as int),
                t.subrange(1, t.len() as int),
                u.subrange(1, u.len() as int),
            );
        }
    }
}

/// Every earlier element is strictly smaller than every later one.
pub open spec fn strictly_sorted(s: Seq<GameTree>) -> bool {
    forall|i: int, j: int| 0 <= i < j < s.len() ==> #[trigger] tree_order(s[i], s[j]) == -1
}

/// Two sequences hold the same elements, ignoring order and repetition.
pub open spec fn same_elements(s: Seq<GameTree>, t: Seq<GameTree>) -> bool {
    forall|x: GameTree| s.contains(x) <==> t.contains(x)
}

/// Insert `x` into a strictly sorted sequence, unless it is already there.
pub open spec fn insert_sorted(x: GameTree, s: Seq<GameTree>) -> Seq<GameTree>
    decreases s.len(),
{
    if s.len() == 0 {
        seq![x]
    } else {
        let c = tree_order(x, s[0]);
        if c < 0 {
            seq![x] + s
        } else if c == 0 {
            s
        } else {
            seq![s[0]] + insert_sorted(x, s.subrange(1, s.len() as int))
        }
    }
}

/// The canonical list of options: the elements of `s`, strictly sorted.
pub open spec fn canonical_seq(s: Seq<GameTree>) -> Seq<GameTree>
    decreases s.len(),
{
    if s.len() == 0 {
        Seq::empty()
    } else {
        insert_sorted(s.last(), canonical_seq(s.drop_last()))
    }
}

pub proof fn lemma_insert_sorted(x: GameTree, s: Seq<GameTree>)
    requires
        strictly_sorted(s),
    ensures
        strictly_sorted(insert_sorted(x, s)),
        forall|y: GameTree| #[trigger] insert_sorted(x, s).contains(y) <==> (y == x || s.contains(y)),
    decreases s.len(),
{
    let r = insert_sorted(x, s);
    if s.len() == 0 {
        assert(r =~= seq![x]);
        assert forall|y: GameTree| r.contains(y) <==> (y == x || s.contains(y)) by {
            if r.contains(y) {
                assert(r[0] == x);
            }
            if y == x {
                assert(r[0] == y);
            }
        }
    } else {
        lemma_tree_order_antisym(x, s[0]);
        let c = tree_order(x, s[0]);
        let s1 = s.subrange(1, s.len() as int);
        assert(s =~= seq![s[0]] + s1);
        if c < 0 {
            assert forall|i: int, j: int| 0 <= i < j < r.len() implies #[trigger] tree_order(r[i], r[j]) == -1 by {
                if i == 0 {
                    if j > 1 {
                        assert(tree_order(s[0], s[j - 1]) == -1);
                        lemma_tree_order_trans(x, s[0], s[j - 1]);
                    }
                } else {
                    assert(tree_order(s[i - 1], s[j - 1]) == -1);
                }
            }
            assert forall|y: GameTree| r.contains(y) <==> (y == x || s.contains(y)) by {
                if r.contains(y) {
                    let k = choose|k: int| 0 <= k < r.len() && r[k] == y;
                    if k > 0 {
                        assert(s[k - 1] == y);
                    }
                }
                if y == x {
                    assert(r[0] == y);
                }
                if s.contains(y) {
                    let k = choose|k: int| 0 <= k < s.len() && s[k] == y;
                    assert(r[k + 1] == y);
                }
            }
        } else if c == 0 {
            assert(x == s[0]);
            assert forall|y: GameTree| r.contains(y) <==> (y == x || s.contains(y)) by {
                if y == x {
                    assert(s[0] == y);
                }
            }
        } else {
            assert forall|i: int, j: int| 0 <= i < j < s1.len() implies #[trigger] tree_order(s1[i], s1[j]) == -1 by {
                assert(tree_order(s[i + 1], s[j + 1]) == -1);
            }
            lemma_insert_sorted(x, s1);
            let r1 = insert_sorted(x, s1);
            assert(r =~= seq![s[0]] + r1);
            assert forall|k: int| 0 <= k < r1.len() implies tree_order(s[0], #[trigger] r1[k]) == -1 by {
                let y = r1[k];
                assert(r1.contains(y));
                assert(y == x || s1.contains(y));
                if y == x {
                } else {
                    assert(s1.contains(y));
                    let m = choose|m: int| 0 <= m < s1.len() && s1[m] == y;
                    assert(s[m + 1] == y);
                    assert(tree_order(s[0], s[m + 1]) == -1);
                }
            }
            assert forall|i: int, j: int| 0 <= i < j < r.len() implies #[trigger] tree_order(r[i], r[j]) == -1 by {
                if i == 0 {
                    assert(r[j] == r1[j - 1]);
                } else {
                    assert(r[i] == r1[i - 1]);
                    assert(r[j] == r1[j - 1]);
                }
            }
            assert forall|y: GameTree| r.contains(y) <==> (y == x || s.contains(y)) by {
                if r.contains(y) {
                    let k = choose|k: int| 0 <= k < r.len() && r[k] == y;
                    if k > 0 {
                        assert(r1[k - 1] == y);
                        assert(r1.contains(y));
                        assert(y == x || s1.contains(y));
                        if y != x {
                            let m = choose|m: int| 0 <= m < s1.len() && s1[m] == y;
                            assert(s[m + 1] == y);
                        }
                    } else {
                        assert(s[0] == y);
                    }
                }
                if y == x {
                    assert(r1.contains(y));
                    let k = choose|k: int| 0 <= k < r1.len() && r1[k] == y;
                    assert(r[k + 1] == y);
                }
                if s.contains(y) {
                    let m = choose|m: int| 0 <= m < s.len() && s[m] == y;
                    if m == 0 {
                        assert(r[0] == y);
                    } else {
                        assert(s1[m - 1] == y);
                        assert(s1.contains(y));
                        assert(r1.contains(y));
                        let k = choose|k: int| 0 <= k < r1.len() && r1[k] == y;
                        assert(r[k + 1] == y);
                    }
                }
            }
        }
    }
}

pub proof fn lemma_canonical_seq(s: Seq<GameTree>)
    ensures
        strictly_sorted(canonical_seq(s)),
        same_elements(canonical_seq(s), s),
    decreases s.len(),
{
    if s.len() > 0 {
        let s0 = s.drop_last();
        lemma_canonical_seq(s0);
        lemma_insert_sorted(s.last(), canonical_seq(s0));
        assert(s =~= s0.push(s.last()));
        assert forall|y: GameTree| canonical_seq(s).contains(y) <==> s.contains(y) by {
            if s0.contains(y) {
                let k = choose|k: int| 0 <= k < s0.len() && s0[k] == y;
                assert(s[k] == y);
            }
            if s.contains(y) {
                let k = choose|k: int| 0 <= k < s.len() && s[k] == y;
                if k < s.len() - 1 {
                    assert(s0[k] == y);
                }
            }
        }
    }
}

/// Two strictly sorted sequences with the same elements are equal.
pub proof fn lemma_sorted_unique(s: Seq<GameTree>, t: Seq<GameTree>)
    requires
        strictly_sorted(s),
        strictly_sorted(t),
        same_elements(s, t),
    ensures
        s == t,
    decreases s.len(),
{
    if s.len() == 0 {
        if t.len() > 0 {
            assert(t.contains(t[0]));
        }
        assert(s =~= t);
    } else {
        assert(s.contains(s[0]));
        assert(t.contains(s[0]));
        assert(t.len() > 0);
        assert(t.contains(t[0]));
        assert(s.contains(t[0]));
        let i = choose|i: int| 0 <= i < t.len() && t[i] == s[0];
        let j = choose|j: int| 0 <= j < s.len() && s[j] == t[0];
        if i > 0 && j > 0 {
            assert(tree_order(t[0], t[i]) == -1);
            assert(tree_order(s[0], s[j]) == -1);
            lemma_tree_order_antisym(s[0], t[0]);
        } else if i > 0 {
            assert(tree_order(t[0], t[i]) == -1);
            lemma_tree_order_refl(t[0]);
        } else if j > 0 {
            assert(tree_order(s[0], s[j]) == -1);
            lemma_tree_order_refl(s[0]);
        }
        assert(s[0] == t[0]);
        let s1 = s.subrange(1, s.len() as int);
        let t1 = t.subrange(1, t.len() as int);
        assert forall|a: int, b: int| 0 <= a < b < s1.len() implies #[trigger] tree_order(s1[a], s1[b]) == -1 by {
            assert(tree_order(s[a + 1], s[b + 1]) == -1);
        }
        assert forall|a: int, b: int| 0 <= a < b < t1.len() implies #[trigger] tree_order(t1[a], t1[b]) == -1 by {
            assert(tree_order(t[a + 1], t[b + 1]) == -1);
        }
        assert forall|y: GameTree| s1.contains(y) <==> t1.contains(y) by {
            if s1.contains(y) {
                let k = choose|k: int| 0 <= k < s1.len() && s1[k] == y;
                assert(s[k + 1] == y);
                assert(tree_order(s[0], s[k + 1]) == -1);
                lemma_tree_order_refl(s[0]);
                assert(y != t[0]);
                assert(s.contains(y));
                let m = choose|m: int| 0 <= m < t.len() && t[m] == y;
                assert(m != 0);
                assert(t1[m - 1] == y);
            }
            if t1.contains(y) {
                let k = choose|k: int| 0 <= k < t1.len() && t1[k] == y;
                assert(t[k + 1] == y);
                assert(tree_order(t[0], t[k + 1]) == -1);
                lemma_tree_order_refl(t[0]);
                assert(y != s[0]);
                assert(t.contains(y));
                let m = choose|m: int| 0 <= m < s.len() && s[m] == y;
                assert(m != 0);
                assert(s1[m - 1] == y);
            }
        }
        lemma_sorted_unique(s1, t1);
        assert(s =~= seq![s[0]] + s1);
        assert(t =~= seq![t[0]] + t1);
    }
}

/// The canonical list of a sequence is determined by its elements alone.
pub proof fn lemma_canonical_seq_same_elements(s: Seq<GameTree>, t: Seq<GameTree>)
    requires
        same_elements(s, t),
    ensures
        canonical_seq(s) == canonical_seq(t),
{
    lemma_canonical_seq(s);
    lemma_canonical_seq(t);
    lemma_sorted_unique(canonical_seq(s), canonical_seq(t));
}

/// A strictly sorted sequence is its own canonical list.
pub proof fn lemma_canonical_seq_sorted(s: Seq<GameTree>)
    requires
        strictly_sorted(s),
    ensures
        canonical_seq(s) == s,
{
    lemma_canonical_seq(s);
    lemma_sorted_unique(canonical_seq(s), s);
}

} // verus!
