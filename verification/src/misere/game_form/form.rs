//! Standard game forms: each form holds its Left and Right options, kept in
//! canonical (strictly increasing, duplicate free) order.

use vstd::prelude::*;
use crate::misere::game_form::tree::{
    canonical_seq, lemma_canonical_seq, lemma_sorted_unique, lemma_tree_order_antisym,
    lemma_tree_order_trans, seq_order, strictly_sorted, tree_order, GameTree,
};
use crate::partizan::Player;

verus! {

/// Game trees whose option lists, at every level, are strictly sorted.
pub open spec fn canonical(t: GameTree) -> bool
    decreases t,
{
    &&& strictly_sorted(t.left)
    &&& strictly_sorted(t.right)
    &&& forall|i: int| 0 <= i < t.left.len() ==> canonical(#[trigger] t.left[i])
    &&& forall|i: int| 0 <= i < t.right.len() ==> canonical(#[trigger] t.right[i])
}

/// The trees of a sequence of forms
pub open spec fn views(s: Seq<StandardForm>) -> Seq<GameTree> {
    Seq::new(s.len(), |i: int| s[i]@)
}

/// The tree built from two option lists, each put in canonical order.
pub open spec fn node(left: Seq<GameTree>, right: Seq<GameTree>) -> GameTree {
    GameTree { left: canonical_seq(left), right: canonical_seq(right) }
}

/// Game form with canonically ordered options
#[derive(Debug)]
pub struct StandardForm {
    left: Vec<StandardForm>,
    right: Vec<StandardForm>,
}

impl StandardForm {
    /// The tree that this form stands for
    pub closed spec fn tree(self) -> GameTree
        decreases self,
    {
        GameTree {
            left: Seq::new(
                self.left@.len(),
                |i: int|
                    if 0 <= i < self.left@.len() {
                        self.left@[i].tree()
                    } else {
                        GameTree { left: seq![], right: seq![] }
                    },
            ),
            right: Seq::new(
                self.right@.len(),
                |i: int|
                    if 0 <= i < self.right@.len() {
                        self.right@[i].tree()
                    } else {
                        GameTree { left: seq![], right: seq![] }
                    },
            ),
        }
    }

    /// Every form is canonical
    #[verifier::type_invariant]
    pub closed spec fn inv(self) -> bool {
        canonical(self.tree())
    }

    proof fn lemma_tree_views(self)
        ensures
            self.tree().left == views(self.left@),
            self.tree().right == views(self.right@),
    {
        assert(self.tree().left =~= views(self.left@));
        assert(self.tree().right =~= views(self.right@));
    }
}

impl View for StandardForm {
    type V = GameTree;

    closed spec fn view(&self) -> GameTree {
        self.tree()
    }
}

impl Clone for StandardForm {
    /// Deep copy
    fn clone(&self) -> (r: Self)
        ensures
            r@ == self@,
        decreases self,
    {
        proof {
            use_type_invariant(self);
            self.lemma_tree_views();
        }
        let left = clone_vec(&self.left);
        let right = clone_vec(&self.right);
        proof {
            let ghost g = StandardForm { left, right };
            g.lemma_tree_views();
            assert(g.tree() =~= self.tree());
        }
        StandardForm { left, right }
    }
}

fn clone_vec(v: &Vec<StandardForm>) -> (r: Vec<StandardForm>)
    ensures
        views(r@) == views(v@),
    decreases v,
{
    let mut r: Vec<StandardForm> = Vec::new();
    let mut i: usize = 0;
    while i < v.len()
        invariant
            i <= v.len(),
            r@.len() == i,
            forall|k: int| 0 <= k < i ==> r@[k]@ == v@[k]@,
        decreases v.len() - i,
    {
        proof {
            assert(decreases_to!(v => v@[i as int]));
        }
        let c = v[i].clone();
        r.push(c);
        i += 1;
    }
    assert(views(r@) =~= views(v@));
    r
}

/// Structural comparison of two forms: -1, 0 or 1.
pub fn compare_forms(a: &StandardForm, b: &StandardForm) -> (r: i8)
    ensures
        r == tree_order(a@, b@),
    decreases a,
{
    proof {
        a.lemma_tree_views();
        b.lemma_tree_views();
    }
    let c = compare_vecs(&a.left, &b.left);
    if c != 0 {
        c
    } else {
        compare_vecs(&a.right, &b.right)
    }
}

fn compare_vecs(s: &Vec<StandardForm>, t: &Vec<StandardForm>) -> (r: i8)
    ensures
        r == seq_order(views(s@), views(t@)),
    decreases s,
{
    let ghost vs = views(s@);
    let ghost vt = views(t@);
    let mut i: usize = 0;
    assert(vs.subrange(0, vs.len() as int) =~= vs);
    assert(vt.subrange(0, vt.len() as int) =~= vt);
    while i < s.len() && i < t.len()
        invariant
            i <= s.len(),
            i <= t.len(),
            vs == views(s@),
            vt == views(t@),
            seq_order(vs, vt) == seq_order(
                vs.subrange(i as int, vs.len() as int),
                vt.subrange(i as int, vt.len() as int),
            ),
        decreases s.len() - i,
    {
        proof {
            assert(decreases_to!(s => s@[i as int]));
        }
        let c = compare_forms(&s[i], &t[i]);
        proof {
            let a = vs.subrange(i as int, vs.len() as int);
            let b = vt.subrange(i as int, vt.len() as int);
            assert(a[0] == s@[i as int]@);
            assert(b[0] == t@[i as int]@);
            assert(a.subrange(1, a.len() as int) =~= vs.subrange(i + 1, vs.len() as int));
            assert(b.subrange(1, b.len() as int) =~= vt.subrange(i + 1, vt.len() as int));
        }
        if c != 0 {
            return c;
        }
        i += 1;
    }
    if i < s.len() {
        1
    } else if i < t.len() {
        -1
    } else {
        0
    }
}

/// Insert a form into a strictly sorted list of forms, unless it is already there.
pub(crate) fn insert_form(out: &mut Vec<StandardForm>, x: StandardForm)
    requires
        strictly_sorted(views(old(out)@)),
    ensures
        strictly_sorted(views(final(out)@)),
        forall|y: GameTree| #[trigger] views(final(out)@).contains(y) <==> (y == x@ || views(old(out)@).contains(y)),
{
    let ghost before = views(out@);
    let mut i: usize = 0;
    let mut c: i8 = 1;
    while i < out.len() && c == 1
        invariant
            i <= out.len(),
            out@ == old(out)@,
            before == views(out@),
            c == 1 ==> forall|k: int| 0 <= k < i ==> tree_order(before[k], x@) == -1,
            c != 1 ==> i < out.len() && forall|k: int| 0 <= k < i ==> tree_order(before[k], x@) == -1,
            c != 1 ==> c == tree_order(x@, before[i as int]),
        decreases out.len() - i + (if c == 1 { 1int } else { 0int }),
    {
        let d = compare_forms(&x, &out[i]);
        proof {
            lemma_tree_order_antisym(x@, before[i as int]);
        }
        if d == 1 {
            i += 1;
        } else {
            c = d;
        }
    }
    if c == 0 {
        proof {
            lemma_tree_order_antisym(x@, before[i as int]);
            assert(before[i as int] == x@);
            assert forall|y: GameTree| #[trigger] views(out@).contains(y) <==> (y == x@ || before.contains(y)) by {
                if y == x@ {
                    assert(before[i as int] == y);
                }
            }
        }
        return;
    }
    proof {
        if c != 1 {
            lemma_tree_order_antisym(x@, before[i as int]);
            assert(c == -1);
        } else {
            assert(i == before.len());
        }
    }
    out.insert(i, x);
    proof {
        let after = views(out@);
        assert(after =~= before.insert(i as int, x@));
        assert forall|a: int, b: int| 0 <= a < b < after.len() implies #[trigger] tree_order(after[a], after[b]) == -1 by {
            if b < i {
                assert(tree_order(before[a], before[b]) == -1);
            } else if b == i {
                assert(tree_order(before[a], x@) == -1);
            } else if a == i {
                if b > i + 1 {
                    assert(tree_order(before[i as int], before[b - 1]) == -1);
                    lemma_tree_order_trans(x@, before[i as int], before[b - 1]);
                }
            } else if a < i {
                assert(tree_order(before[a], before[b - 1]) == -1);
            } else {
                assert(tree_order(before[a - 1], before[b - 1]) == -1);
            }
        }
        assert forall|y: GameTree| #[trigger] after.contains(y) <==> (y == x@ || before.contains(y)) by {
            if after.contains(y) {
                let k = choose|k: int| 0 <= k < after.len() && after[k] == y;
                if k < i {
                    assert(before[k] == y);
                } else if k > i {
                    assert(before[k - 1] == y);
                }
            }
            if y == x@ {
                assert(after[i as int] == y);
            }
            if before.contains(y) {
                let k = choose|k: int| 0 <= k < before.len() && before[k] == y;
                if k < i {
                    assert(after[k] == y);
                } else {
                    assert(after[k + 1] == y);
                }
            }
        }
    }
}

/// Put a list of forms in canonical order, dropping repeated forms.
fn canonicalize(v: Vec<StandardForm>) -> (r: Vec<StandardForm>)
    ensures
        views(r@) == canonical_seq(views(v@)),
{
    let ghost orig = views(v@);
    let mut v = v;
    let mut out: Vec<StandardForm> = Vec::new();
    assert(views(out@) =~= Seq::<GameTree>::empty());
    while v.len() > 0
        invariant
            strictly_sorted(views(out@)),
            forall|y: GameTree| orig.contains(y) <==> (views(v@).contains(y) || views(out@).contains(y)),
        decreases v.len(),
    {
        let ghost prev = views(v@);
        let x = v.pop().unwrap();
        proof {
            assert(prev =~= views(v@).push(x@));
            assert forall|y: GameTree| prev.contains(y) <==> (views(v@).contains(y) || y == x@) by {
                if prev.contains(y) {
                    let k = choose|k: int| 0 <= k < prev.len() && prev[k] == y;
                    if k < views(v@).len() {
                        assert(views(v@)[k] == y);
                    }
                }
                if views(v@).contains(y) {
                    let k = choose|k: int| 0 <= k < views(v@).len() && views(v@)[k] == y;
                    assert(prev[k] == y);
                }
                if y == x@ {
                    assert(prev[prev.len() - 1] == y);
                }
            }
        }
        insert_form(&mut out, x);
    }
    proof {
        lemma_canonical_seq(orig);
        lemma_sorted_unique(views(out@), canonical_seq(orig));
    }
    out
}

/// Every form in a list is canonical
fn lemma_all_canonical(v: &Vec<StandardForm>)
    ensures
        forall|j: int| 0 <= j < v@.len() ==> canonical(#[trigger] views(v@)[j]),
{
    let mut k: usize = 0;
    while k < v.len()
        invariant
            k <= v@.len(),
            forall|j: int| 0 <= j < k ==> canonical(#[trigger] views(v@)[j]),
        decreases v.len() - k,
    {
        let g = &v[k];
        proof {
            use_type_invariant(g);
        }
        k += 1;
    }
}

proof fn lemma_canonical_children(s: Seq<GameTree>)
    requires
        forall|j: int| 0 <= j < s.len() ==> canonical(#[trigger] s[j]),
    ensures
        strictly_sorted(canonical_seq(s)),
        forall|j: int| 0 <= j < canonical_seq(s).len() ==> canonical(#[trigger] canonical_seq(s)[j]),
{
    lemma_canonical_seq(s);
    let c = canonical_seq(s);
    assert forall|j: int| 0 <= j < c.len() implies canonical(#[trigger] c[j]) by {
        assert(c.contains(c[j]));
        assert(s.contains(c[j]));
    }
}

impl StandardForm {
    /// Build a form from lists of Left and Right options; the options are put
    /// in canonical order and repetitions are dropped.
    pub fn new(left: Vec<StandardForm>, right: Vec<StandardForm>) -> (r: StandardForm)
        ensures
            r@ == node(views(left@), views(right@)),
    {
        lemma_all_canonical(&left);
        lemma_all_canonical(&right);
        proof {
            lemma_canonical_children(views(left@));
            lemma_canonical_children(views(right@));
        }
        let l = canonicalize(left);
        let r = canonicalize(right);
        proof {
            let ghost g = StandardForm { left: l, right: r };
            g.lemma_tree_views();
        }
        StandardForm { left: l, right: r }
    }

    /// Options of `player`
    pub fn moves(&self, player: Player) -> (r: &[StandardForm])
        ensures
            views(r@) == self@.moves(player),
            canonical(self@),
    {
        proof {
            use_type_invariant(self);
            self.lemma_tree_views();
        }
        match player {
            Player::Left => self.left.as_slice(),
            Player::Right => self.right.as_slice(),
        }
    }
}

} // verus!
