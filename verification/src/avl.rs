//! Balance: what the rotations make of a tree whose subtrees are balanced,
//! and how low a balanced tree must be.

use crate::order::lt;
use crate::prune::lemma_left_spine;
use crate::prune::lemma_right_spine;
use crate::prune::lemma_without_first_rebuild;
use crate::prune::lemma_without_last_rebuild;
use crate::shape::graft;
use crate::shape::lemma_height;
use crate::shape::lemma_node;
use crate::shape::lemma_rebalance_height;
use crate::shape::lemma_turn_left;
use crate::shape::lemma_turn_left_right;
use crate::shape::lemma_turn_right;
use crate::shape::lemma_turn_right_left;
use crate::shape::rebuild;
use crate::shape::Shape;
use crate::sorted::lemma_grow_rebuild;
use crate::sorted::lemma_trail_within;
use crate::without::lemma_search_step;
use crate::without::lemma_without_rebuild;
use vstd::prelude::*;

verus! {

/// A single right rotation of a left-heavy tree whose left child does not
/// lean inwards restores the balance.
proof fn lemma_single_right<T>(t: Shape<T>)
    requires
        t.lhs().balanced(),
        t.rhs().balanced(),
        t.factor() == -2,
        t.lhs().factor() <= 0,
    ensures
        t.rot_right().balanced(),
{
    let l = t.lhs();
    lemma_height(l);
    lemma_height(t.rhs());
    lemma_turn_right(t);
    lemma_node(l->slot, l->value, l.lhs(), l.rhs());
    lemma_node(t->slot, t->value, l.rhs(), t.rhs());
    lemma_node(
        l->slot,
        l->value,
        l.lhs(),
        Shape::node(t->slot, t->value, l.rhs(), t.rhs()),
    );
}

/// A single left rotation of a right-heavy tree whose right child does not
/// lean inwards restores the balance.
proof fn lemma_single_left<T>(t: Shape<T>)
    requires
        t.lhs().balanced(),
        t.rhs().balanced(),
        t.factor() == 2,
        t.rhs().factor() >= 0,
    ensures
        t.rot_left().balanced(),
{
    let r = t.rhs();
    lemma_height(r);
    lemma_height(t.lhs());
    lemma_turn_left(t);
    lemma_node(r->slot, r->value, r.lhs(), r.rhs());
    lemma_node(t->slot, t->value, t.lhs(), r.lhs());
    lemma_node(
        r->slot,
        r->value,
        Shape::node(t->slot, t->value, t.lhs(), r.lhs()),
        r.rhs(),
    );
}

/// A double rotation of a left-heavy tree whose left child is right-heavy
/// restores the balance.
proof fn lemma_double_right<T>(t: Shape<T>)
    requires
        t.lhs().balanced(),
        t.rhs().balanced(),
        t.factor() == -2,
        t.lhs().factor() > 0,
    ensures
        t.rot_left_right().balanced(),
{
    let l = t.lhs();
    let c = l.rhs();
    lemma_height(l.lhs());
    lemma_height(c);
    lemma_turn_left_right(t);
    lemma_node(l->slot, l->value, l.lhs(), c);
    lemma_node(c->slot, c->value, c.lhs(), c.rhs());
    lemma_node(l->slot, l->value, l.lhs(), c.lhs());
    lemma_node(t->slot, t->value, c.rhs(), t.rhs());
    lemma_node(
        c->slot,
        c->value,
        Shape::node(l->slot, l->value, l.lhs(), c.lhs()),
        Shape::node(t->slot, t->value, c.rhs(), t.rhs()),
    );
}

/// A double rotation of a right-heavy tree whose right child is left-heavy
/// restores the balance.
proof fn lemma_double_left<T>(t: Shape<T>)
    requires
        t.lhs().balanced(),
        t.rhs().balanced(),
        t.factor() == 2,
        t.rhs().factor() < 0,
    ensures
        t.rot_right_left().balanced(),
{
    let r = t.rhs();
    let c = r.lhs();
    lemma_height(r.rhs());
    lemma_height(c);
    lemma_turn_right_left(t);
    lemma_node(r->slot, r->value, c, r.rhs());
    lemma_node(c->slot, c->value, c.lhs(), c.rhs());
    lemma_node(r->slot, r->value, c.rhs(), r.rhs());
    lemma_node(t->slot, t->value, t.lhs(), c.lhs());
    lemma_node(
        c->slot,
        c->value,
        Shape::node(t->slot, t->value, t.lhs(), c.lhs()),
        Shape::node(r->slot, r->value, c.rhs(), r.rhs()),
    );
}

/// A tree with balanced subtrees and a factor between -2 and 2 comes out of
/// the balancer balanced.
pub proof fn lemma_rebalance_balanced<T>(t: Shape<T>)
    requires
        t.lhs().balanced(),
        t.rhs().balanced(),
        -2 <= t.factor() <= 2,
    ensures
        t.rebalance().balanced(),
{
    lemma_height(t.lhs());
    lemma_height(t.rhs());
    if t.factor() == -2 {
        if t.lhs().factor() <= 0 {
            lemma_single_right(t);
        } else {
            lemma_double_right(t);
        }
    } else if t.factor() == 2 {
        if t.rhs().factor() >= 0 {
            lemma_single_left(t);
        } else {
            lemma_double_left(t);
        }
    } else {
        if t is Branch {
            lemma_node(t->slot, t->value, t.lhs(), t.rhs());
        }
    }
}

/// Whether going up the path `p` can mend the tree: everything off the path
/// is balanced, and each node on the path has a factor between -2 and 2
/// once the path below it has been gone up.
#[verifier::opaque]
pub open spec fn mends<T>(t: Shape<T>, p: Seq<usize>) -> bool
    decreases t,
{
    match t {
        Shape::Empty => true,
        Shape::Branch { slot, value, left, right } => if p.len() == 0 {
            t.balanced()
        } else if p.len() == 1 {
            left.balanced() && right.balanced() && -2 <= t.factor() <= 2
        } else if left.link() == Some(p[1]) {
            &&& mends(*left, p.drop_first())
            &&& right.balanced()
            &&& -2 <= Shape::node(slot, value, rebuild(*left, p.drop_first()), *right).factor()
                <= 2
        } else {
            &&& left.balanced()
            &&& mends(*right, p.drop_first())
            &&& -2 <= Shape::node(slot, value, *left, rebuild(*right, p.drop_first())).factor()
                <= 2
        },
    }
}

/// Going up a path that can mend the tree leaves every node balanced.
pub proof fn lemma_rebuild_balanced<T>(t: Shape<T>, p: Seq<usize>)
    requires
        mends(t, p),
    ensures
        rebuild(t, p).balanced(),
    decreases t,
{
    reveal(mends);
    match t {
        Shape::Empty => {},
        Shape::Branch { slot, value, left, right } => {
            if p.len() == 0 {
            } else if p.len() == 1 {
                lemma_rebalance_balanced(t);
            } else if left.link() == Some(p[1]) {
                lemma_rebuild_balanced(*left, p.drop_first());
                lemma_rebalance_balanced(
                    Shape::node(slot, value, rebuild(*left, p.drop_first()), *right),
                );
            } else {
                lemma_rebuild_balanced(*right, p.drop_first());
                lemma_rebalance_balanced(
                    Shape::node(slot, value, *left, rebuild(*right, p.drop_first())),
                );
            }
        },
    }
}

/// Insertion into a balanced tree that lacks the value gives a balanced
/// tree, of the same height or one more.
pub proof fn lemma_grow_balanced<T: Ord>(t: Shape<T>, v: T, s: usize)
    requires
        t.balanced(),
        t.find(v) is None,
    ensures
        t.grow(v, s).balanced(),
        t.height() <= t.grow(v, s).height() <= t.height() + 1,
    decreases t,
{
    match t {
        Shape::Empty => {
            reveal_with_fuel(Shape::height, 2);
            reveal_with_fuel(Shape::balanced, 2);
        },
        Shape::Branch { slot, value, left, right } => {
            lemma_height(*left);
            lemma_height(*right);
            if lt(v, value) {
                lemma_grow_balanced(*left, v, s);
                let u = Shape::node(slot, value, left.grow(v, s), *right);
                lemma_height(left.grow(v, s));
                lemma_rebalance_balanced(u);
                lemma_rebalance_height(u);
            } else {
                lemma_grow_balanced(*right, v, s);
                let u = Shape::node(slot, value, *left, right.grow(v, s));
                lemma_height(right.grow(v, s));
                lemma_rebalance_balanced(u);
                lemma_rebalance_height(u);
            }
        },
    }
}

/// A balanced node one of whose subtrees has been replaced by a balanced
/// one of the same height or one less comes out of the balancer balanced,
/// and no more than one lower than it was.
proof fn lemma_shrunk_node<T>(t: Shape<T>, u: Shape<T>)
    requires
        t is Branch,
        u is Branch,
        t.balanced(),
        u.lhs().balanced(),
        u.rhs().balanced(),
        u.lhs() == t.lhs() && t.rhs().height() - 1 <= u.rhs().height() <= t.rhs().height()
            || u.rhs() == t.rhs() && t.lhs().height() - 1 <= u.lhs().height()
            <= t.lhs().height(),
    ensures
        u.rebalance().balanced(),
        t.height() - 1 <= u.rebalance().height() <= t.height(),
{
    lemma_node(t->slot, t->value, t.lhs(), t.rhs());
    lemma_node(u->slot, u->value, u.lhs(), u.rhs());
    assert(t == Shape::node(t->slot, t->value, t.lhs(), t.rhs()));
    assert(u == Shape::node(u->slot, u->value, u.lhs(), u.rhs()));
    lemma_rebalance_balanced(u);
    lemma_rebalance_height(u);
}

/// Taking the last node out of a balanced tree leaves a balanced tree, of
/// the same height or one less.
pub proof fn lemma_without_last_balanced<T>(t: Shape<T>)
    requires
        t is Branch,
        t.balanced(),
    ensures
        t.without_last().balanced(),
        t.height() - 1 <= t.without_last().height() <= t.height(),
    decreases t,
{
    match t {
        Shape::Empty => {},
        Shape::Branch { slot, value, left, right } => {
            lemma_node(slot, value, *left, *right);
            if *right is Empty {
                match *left {
                    Shape::Empty => {},
                    Shape::Branch { slot: ls, value: lv, left: ll, right: lr } => {
                        lemma_node(ls, lv, *ll, *lr);
                        lemma_node(slot, lv, *ll, *lr);
                        assert(left.moved_to(slot) == Shape::node(slot, lv, *ll, *lr));
                    },
                }
            } else {
                lemma_without_last_balanced(*right);
                lemma_shrunk_node(t, Shape::node(slot, value, *left, right.without_last()));
            }
        },
    }
}

/// Taking the first node out of a balanced tree leaves a balanced tree, of
/// the same height or one less.
pub proof fn lemma_without_first_balanced<T>(t: Shape<T>)
    requires
        t is Branch,
        t.balanced(),
    ensures
        t.without_first().balanced(),
        t.height() - 1 <= t.without_first().height() <= t.height(),
    decreases t,
{
    match t {
        Shape::Empty => {},
        Shape::Branch { slot, value, left, right } => {
            lemma_node(slot, value, *left, *right);
            if *left is Empty {
                match *right {
                    Shape::Empty => {},
                    Shape::Branch { slot: rs, value: rv, left: rl, right: rr } => {
                        lemma_node(rs, rv, *rl, *rr);
                        lemma_node(slot, rv, *rl, *rr);
                        assert(right.moved_to(slot) == Shape::node(slot, rv, *rl, *rr));
                    },
                }
            } else {
                lemma_without_first_balanced(*left);
                lemma_shrunk_node(t, Shape::node(slot, value, left.without_first(), *right));
            }
        },
    }
}

/// Pruning the root of a balanced tree leaves a balanced tree, of the same
/// height or one less.
pub proof fn lemma_pruned_balanced<T>(t: Shape<T>)
    requires
        t is Branch,
        t.balanced(),
    ensures
        t.pruned().balanced(),
        t.height() - 1 <= t.pruned().height() <= t.height(),
{
    match t {
        Shape::Empty => {},
        Shape::Branch { slot, value, left, right } => {
            lemma_node(slot, value, *left, *right);
            if *left is Empty {
            } else if *right is Empty {
            } else if t.heir_on_left() {
                lemma_without_last_balanced(*left);
                let u = Shape::node(slot, left.last()->value, left.without_last(), *right);
                let same = Shape::node(slot, left.last()->value, *left, *right);
                lemma_node(slot, left.last()->value, *left, *right);
                lemma_shrunk_node(same, u);
            } else {
                lemma_without_first_balanced(*right);
                let u = Shape::node(slot, right.first()->value, *left, right.without_first());
                let same = Shape::node(slot, right.first()->value, *left, *right);
                lemma_node(slot, right.first()->value, *left, *right);
                lemma_shrunk_node(same, u);
            }
        },
    }
}

/// Removal from a balanced tree that holds the value leaves a balanced
/// tree, of the same height or one less.
pub proof fn lemma_without_balanced<T: Ord>(t: Shape<T>, v: T)
    requires
        t.balanced(),
        t.find(v) is Some,
    ensures
        t.without(v).balanced(),
        t.height() - 1 <= t.without(v).height() <= t.height(),
    decreases t,
{
    match t {
        Shape::Empty => {},
        Shape::Branch { slot, value, left, right } => {
            if v == value {
                lemma_pruned_balanced(t);
            } else if lt(v, value) {
                lemma_without_balanced(*left, v);
                lemma_shrunk_node(t, Shape::node(slot, value, left.without(v), *right));
            } else {
                lemma_without_balanced(*right, v);
                lemma_shrunk_node(t, Shape::node(slot, value, *left, right.without(v)));
            }
        },
    }
}

/// The fewest nodes that a balanced tree of height `h` can have.
pub open spec fn fewest(h: int) -> nat
    decreases h + 2,
{
    if h < 0 {
        0
    } else {
        1 + fewest(h - 1) + fewest(h - 2)
    }
}

/// A higher balanced tree needs no fewer nodes.
pub proof fn lemma_fewest_rises(a: int, b: int)
    requires
        a <= b,
    ensures
        fewest(a) <= fewest(b),
    decreases b - a,
{
    if a < b {
        lemma_fewest_rises(a, b - 1);
    }
}

/// A balanced tree has at least the fewest nodes that its height allows.
pub proof fn lemma_balanced_size<T>(t: Shape<T>)
    requires
        t.balanced(),
    ensures
        t.size() >= fewest(t.height()),
    decreases t,
{
    match t {
        Shape::Empty => {},
        Shape::Branch { left, right, .. } => {
            lemma_balanced_size(*left);
            lemma_balanced_size(*right);
            lemma_height(*left);
            lemma_height(*right);
            let h = t.height();
            if left.height() >= right.height() {
                lemma_fewest_rises(h - 2, right.height());
            } else {
                lemma_fewest_rises(h - 2, left.height());
            }
        },
    }
}

/// Two more in height at least double the fewest nodes: a balanced tree of
/// height `2 * k` has at least `3 * 2^k - 2` nodes.
pub proof fn lemma_fewest_doubles(k: nat)
    ensures
        fewest((2 * k) as int) + 2 >= 3 * vstd::arithmetic::power2::pow2(k),
    decreases k,
{
    if k == 0 {
        vstd::arithmetic::power2::lemma2_to64();
        assert(fewest(0) == 1) by {
            reveal_with_fuel(fewest, 2);
        }
    } else {
        lemma_fewest_doubles((k - 1) as nat);
        vstd::arithmetic::power2::lemma_pow2_unfold(k);
        let h = (2 * k) as int;
        assert(fewest(h) == 1 + fewest(h - 1) + fewest(h - 2));
        assert(fewest(h - 1) == 1 + fewest(h - 2) + fewest(h - 3));
        assert(2 * (k - 1) == h - 2);
    }
}

/// A balanced tree with no more nodes than a `usize` counts is lower than
/// 126: so it is low enough for an insertion.
pub proof fn lemma_balanced_height<T>(t: Shape<T>)
    requires
        t.balanced(),
        t.size() <= usize::MAX,
    ensures
        t.height() < 126,
{
    if t.height() >= 126 {
        lemma_balanced_size(t);
        lemma_fewest_rises(126, t.height());
        lemma_fewest_doubles(63);
        vstd::arithmetic::power2::lemma2_to64();
        vstd::arithmetic::power2::lemma_pow2_unfold(64);
        assert(vstd::arithmetic::power2::pow2(63) == 0x8000000000000000);
        assert(usize::MAX <= 0xffffffffffffffff);
    }
}

/// Hanging a new leaf into a balanced tree leaves a tree that going up the
/// search path mends.
pub proof fn lemma_attach_mends<T: Ord>(t: Shape<T>, v: T, s: usize)
    requires
        t is Branch,
        t.balanced(),
        t.distinct(),
        t.find(v) is None,
        !t.slots().contains(s),
    ensures
        mends(t.attach(v, s), t.trail(v)),
    decreases t,
{
    reveal(mends);
    match t {
        Shape::Empty => {},
        Shape::Branch { slot, value, left, right } => {
            let p = t.trail(v);
            let below = if lt(v, value) {
                *left
            } else {
                *right
            };
            lemma_node(slot, value, *left, *right);
            lemma_trail_within(t, v);
            assert(p.drop_first() =~= below.trail(v));
            assert(below.find(v) is None);
            match below {
                Shape::Empty => {
                    assert(below.trail(v) =~= Seq::empty());
                    assert(p.len() == 1);
                    let leaf = Shape::leaf(s, v);
                    lemma_node(s, v, Shape::Empty, Shape::Empty);
                    if lt(v, value) {
                        lemma_node(slot, value, leaf, *right);
                    } else {
                        lemma_node(slot, value, *left, leaf);
                    }
                },
                Shape::Branch { slot: bs, .. } => {
                    lemma_trail_within(below, v);
                    assert(p[1] == bs);
                    assert(below.slots().contains(bs));
                    if !lt(v, value) && left.link() == Some(bs) {
                        assert(left.slots().contains(bs));
                    }
                    lemma_attach_mends(below, v, s);
                    lemma_grow_rebuild(below, v, s);
                    lemma_grow_balanced(below, v, s);
                    assert(below.attach(v, s).link() == Some(bs));
                    if lt(v, value) {
                        lemma_node(slot, value, below.grow(v, s), *right);
                    } else {
                        lemma_node(slot, value, *left, below.grow(v, s));
                    }
                },
            }
        },
    }
}

/// A balanced tree needs no mending.
pub proof fn lemma_mends_whole<T>(t: Shape<T>)
    requires
        t.balanced(),
    ensures
        mends(t, Seq::empty()),
{
    reveal(mends);
}

/// The subtree that holds a value in a balanced tree is balanced.
pub proof fn lemma_target_balanced<T: Ord>(t: Shape<T>, v: T)
    requires
        t.balanced(),
    ensures
        t.target(v).balanced(),
    decreases t,
{
    match t {
        Shape::Empty => {},
        Shape::Branch { left, right, .. } => {
            lemma_target_balanced(*left, v);
            lemma_target_balanced(*right, v);
        },
    }
}

/// Taking the last node out of a balanced tree leaves a tree that going up
/// the right spine from the node's parent mends.
pub proof fn lemma_cut_last_mends<T>(t: Shape<T>)
    requires
        t.rhs() is Branch,
        t.balanced(),
        t.distinct(),
    ensures
        mends(graft(t, t.right_spine(), t.last_heir()), t.right_spine().drop_last()),
    decreases t,
{
    reveal(mends);
    let fs = t.right_spine();
    let q = fs.drop_last();
    let heir = t.last_heir();
    let r = t.rhs();
    lemma_right_spine(t);
    lemma_right_spine(r);
    lemma_node(t->slot, t->value, t.lhs(), r);
    assert(t == Shape::node(t->slot, t->value, t.lhs(), r));
    assert(fs.drop_first() =~= r.right_spine());
    assert(fs[1] == r->slot);
    assert(r.slots().contains(r->slot));
    if t.lhs().link() == Some(r->slot) {
        assert(t.lhs().slots().contains(r->slot));
    }
    assert(r.last_heir() == heir);
    lemma_without_last_rebuild(r);
    lemma_without_last_balanced(r);
    assert(graft(t, fs, heir) == Shape::node(
        t->slot,
        t->value,
        t.lhs(),
        graft(r, fs.drop_first(), heir),
    ));
    if r.rhs() is Empty {
        assert(q.len() == 1);
        assert(graft(r, fs.drop_first(), heir) == heir);
        lemma_node(t->slot, t->value, t.lhs(), heir);
    } else {
        assert(q.len() >= 2);
        assert(q[1] == r->slot);
        assert(q.drop_first() =~= r.right_spine().drop_last());
        lemma_cut_last_mends(r);
        lemma_node(t->slot, t->value, t.lhs(), r.without_last());
    }
}

/// Taking the first node out of a balanced tree leaves a tree that going
/// up the left spine from the node's parent mends.
pub proof fn lemma_cut_first_mends<T>(t: Shape<T>)
    requires
        t.lhs() is Branch,
        t.balanced(),
        t.distinct(),
    ensures
        mends(graft(t, t.left_spine(), t.first_heir()), t.left_spine().drop_last()),
    decreases t,
{
    reveal(mends);
    let fs = t.left_spine();
    let q = fs.drop_last();
    let heir = t.first_heir();
    let l = t.lhs();
    lemma_left_spine(t);
    lemma_left_spine(l);
    lemma_node(t->slot, t->value, l, t.rhs());
    assert(t == Shape::node(t->slot, t->value, l, t.rhs()));
    assert(fs.drop_first() =~= l.left_spine());
    assert(fs[1] == l->slot);
    assert(l.first_heir() == heir);
    lemma_without_first_rebuild(l);
    lemma_without_first_balanced(l);
    assert(graft(t, fs, heir) == Shape::node(
        t->slot,
        t->value,
        graft(l, fs.drop_first(), heir),
        t.rhs(),
    ));
    if l.lhs() is Empty {
        assert(q.len() == 1);
        assert(graft(l, fs.drop_first(), heir) == heir);
        lemma_node(t->slot, t->value, heir, t.rhs());
    } else {
        assert(q.len() >= 2);
        assert(q[1] == l->slot);
        assert(q.drop_first() =~= l.left_spine().drop_last());
        lemma_cut_first_mends(l);
        lemma_node(t->slot, t->value, l.without_first(), t.rhs());
    }
}

/// A balanced root with two children that has taken over its neighbour's
/// value is mended by going up from the neighbour's parent.
pub proof fn lemma_pruned_raw_mends<T>(t: Shape<T>)
    requires
        t.full(),
        t.balanced(),
        t.distinct(),
    ensures
        mends(t.pruned_raw(), t.pruned_path()),
{
    reveal(mends);
    let l = t.lhs();
    let r = t.rhs();
    let path = t.pruned_path();
    lemma_node(t->slot, t->value, l, r);
    assert(t == Shape::node(t->slot, t->value, l, r));
    if t.heir_on_left() {
        let fs = l.right_spine();
        let raw = graft(l, fs, l.last_heir());
        lemma_right_spine(l);
        lemma_without_last_rebuild(l);
        lemma_without_last_balanced(l);
        assert(t.pruned_raw() == Shape::node(t->slot, l.last()->value, raw, r));
        if l.rhs() is Empty {
            assert(path =~= seq![t->slot]);
            assert(raw == l.last_heir());
            lemma_node(t->slot, l.last()->value, raw, r);
        } else {
            assert(path.drop_first() =~= fs.drop_last());
            assert(path[1] == l->slot);
            lemma_cut_last_mends(l);
            lemma_node(t->slot, l.last()->value, l.without_last(), r);
        }
    } else {
        let fs = r.left_spine();
        let raw = graft(r, fs, r.first_heir());
        lemma_left_spine(r);
        lemma_without_first_rebuild(r);
        lemma_without_first_balanced(r);
        assert(t.pruned_raw() == Shape::node(t->slot, r.first()->value, l, raw));
        if r.lhs() is Empty {
            assert(path =~= seq![t->slot]);
            assert(raw == r.first_heir());
            lemma_node(t->slot, r.first()->value, l, raw);
        } else {
            assert(path.drop_first() =~= fs.drop_last());
            assert(path[1] == r->slot);
            assert(r.slots().contains(r->slot));
            if l.link() == Some(r->slot) {
                assert(l.slots().contains(r->slot));
            }
            lemma_cut_first_mends(r);
            lemma_node(t->slot, r.first()->value, l, r.without_first());
        }
    }
}

/// Putting `r` in the place of the node that holds `v` in a balanced tree
/// leaves a tree that going up `px` inside `r` and then the search path of
/// `v` mends, where going up `px` mends `r` and makes of it what pruning
/// makes of that node.
pub proof fn lemma_graft_mends<T: Ord>(t: Shape<T>, v: T, r: Shape<T>, px: Seq<usize>)
    requires
        t.balanced(),
        t.distinct(),
        t.find(v) is Some,
        mends(r, px),
        rebuild(r, px) == t.target(v).pruned(),
        px.len() > 0 ==> r.link() == t.target(v).link() && px[0] == t.target(v)->slot,
    ensures
        mends(graft(t, t.trail(v).push(t.target(v)->slot), r), t.trail(v) + px),
    decreases t,
{
    reveal(mends);
    match t {
        Shape::Empty => {},
        Shape::Branch { slot, value, left, right } => {
            let x = t.target(v);
            let p = t.trail(v).push(x->slot);
            let path = t.trail(v) + px;
            if v == value {
                assert(t.trail(v) =~= Seq::empty());
                assert(path =~= px);
                assert(p =~= seq![slot]);
                assert(graft(t, p, r) == r);
            } else {
                let below = if lt(v, value) {
                    *left
                } else {
                    *right
                };
                let bp = below.trail(v).push(x->slot);
                let bpath = below.trail(v) + px;
                lemma_node(slot, value, *left, *right);
                lemma_search_step(t, v, px);
                lemma_graft_mends(below, v, r, px);
                lemma_without_rebuild(below, v, r, px);
                lemma_without_balanced(below, v);
                let g = graft(below, bp, r);
                if lt(v, value) {
                    assert(graft(t, p, r) == Shape::node(slot, value, g, *right));
                    lemma_node(slot, value, below.without(v), *right);
                } else {
                    assert(graft(t, p, r) == Shape::node(slot, value, *left, g));
                    lemma_node(slot, value, *left, below.without(v));
                }
                if path.len() >= 2 {
                    assert(g.link() == Some(below->slot)) by {
                        if bp.len() == 1 {
                            assert(g == r);
                        }
                    }
                } else {
                    assert(bpath.len() == 0);
                    assert(g == r);
                    assert(rebuild(r, px) == r) by {
                        if r is Branch {
                        }
                    }
                }
            }
        },
    }
}

} // verus!
