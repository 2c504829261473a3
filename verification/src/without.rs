//! What removal makes of a search tree.

use crate::order::lemma_transitive;
use crate::order::lemma_trichotomy;
use crate::order::lt;
use crate::order::total_order;
use crate::prune::lemma_left_spine;
use crate::prune::lemma_pruned_keeps;
use crate::prune::lemma_right_spine;
use crate::prune::lemma_without_first_keeps;
use crate::prune::lemma_without_last_keeps;
use crate::shape::descend;
use crate::shape::graft;
use crate::shape::lemma_height;
use crate::shape::lemma_rebuild_down;
use crate::shape::lemma_rebalance_height;
use crate::shape::lemma_rebalance_keeps;
use crate::shape::on_path;
use crate::shape::rebuild;
use crate::shape::Shape;
use crate::sorted::lemma_rebalance_sorted;
use vstd::prelude::*;

verus! {

impl<T: Ord> Shape<T> {
    /// The subtree at whose root the search finds `v`; empty where it does
    /// not find it.
    pub open spec fn target(self, v: T) -> Shape<T>
        decreases self,
    {
        match self {
            Shape::Empty => self,
            Shape::Branch { value, left, right, .. } => if v == value {
                self
            } else if lt(v, value) {
                left.target(v)
            } else {
                right.target(v)
            },
        }
    }

    /// The tree after the removal of `v`, which it holds: the node that
    /// holds `v` is pruned, and every node on the way back to the root is
    /// rebalanced.
    pub open spec fn without(self, v: T) -> Shape<T>
        decreases self,
    {
        match self {
            Shape::Empty => self,
            Shape::Branch { slot, value, left, right } => if v == value {
                self.pruned()
            } else if lt(v, value) {
                Shape::node(slot, value, left.without(v), *right).rebalance()
            } else {
                Shape::node(slot, value, *left, right.without(v)).rebalance()
            },
        }
    }

    /// The slot that the removal of `v` vacates.
    pub open spec fn vacated(self, v: T) -> usize {
        self.target(v).pruned_vacated()
    }
}

/// Where the search finds `v`: at the end of the search path, in a subtree
/// of the tree.
pub proof fn lemma_target<T: Ord>(t: Shape<T>, v: T)
    requires
        t.find(v) is Some,
        t.distinct(),
    ensures
        t.target(v) is Branch,
        t.target(v)->value == v,
        t.find(v) == Some(t.target(v)->slot),
        on_path(t, t.trail(v).push(t.target(v)->slot)),
        descend(t, t.trail(v).push(t.target(v)->slot)) == t.target(v),
        t.target(v).slots().subset_of(t.slots()),
        t.target(v).distinct(),
        t.target(v).height() <= t.height(),
        t.trail(v).len() == 0 <==> t.target(v) == t,
        t.trail(v).len() > 0 ==> t.trail(v)[0] == t->slot && t.slots().contains(t.trail(v).last())
            && !t.target(v).slots().contains(t.trail(v).last()),
    decreases t,
{
    match t {
        Shape::Empty => {},
        Shape::Branch { slot, value, left, right } => {
            let x = t.target(v);
            let p = t.trail(v).push(x->slot);
            if v == value {
                assert(t.trail(v) =~= Seq::empty());
                assert(p =~= seq![slot]);
            } else if lt(v, value) {
                lemma_target(*left, v);
                lemma_height(t);
                let lp = left.trail(v).push(x->slot);
                assert(p.drop_first() =~= lp);
                assert(lp[0] == left->slot) by {
                    if left.trail(v).len() == 0 {
                    } else {
                        assert(lp[0] == left.trail(v)[0]);
                    }
                }
                assert(p[1] == left->slot);
                assert(p.len() >= 2);
                if left.trail(v).len() > 0 {
                    assert(t.trail(v).last() == left.trail(v).last());
                } else {
                    assert(t.trail(v) =~= seq![slot]);
                }
            } else {
                lemma_target(*right, v);
                lemma_height(t);
                let rp = right.trail(v).push(x->slot);
                assert(p.drop_first() =~= rp);
                assert(rp[0] == right->slot) by {
                    if right.trail(v).len() == 0 {
                    } else {
                        assert(rp[0] == right.trail(v)[0]);
                    }
                }
                assert(p[1] == right->slot);
                assert(right.slots().contains(right->slot));
                assert(left.link() != Some(right->slot)) by {
                    if left.link() == Some(right->slot) {
                        assert(left.slots().contains(right->slot));
                    }
                }
                if right.trail(v).len() > 0 {
                    assert(t.trail(v).last() == right.trail(v).last());
                } else {
                    assert(t.trail(v) =~= seq![slot]);
                }
            }
        },
    }
}

/// How the search path of `v` through a tree whose root does not hold it
/// continues in the subtree on `v`'s side.
pub proof fn lemma_search_step<T: Ord>(t: Shape<T>, v: T, px: Seq<usize>)
    requires
        t is Branch,
        t.find(v) is Some,
        t.distinct(),
        v != t->value,
    ensures
        ({
            let below = if lt(v, t->value) {
                t.lhs()
            } else {
                t.rhs()
            };
            let x = t.target(v);
            let p = t.trail(v).push(x->slot);
            let path = t.trail(v) + px;
            let bp = below.trail(v).push(x->slot);
            let bpath = below.trail(v) + px;
            &&& below is Branch
            &&& below.find(v) is Some
            &&& below.distinct()
            &&& below.target(v) == x
            &&& x is Branch
            &&& p.len() >= 2
            &&& path.len() >= 1
            &&& p.drop_first() == bp
            &&& path.drop_first() == bpath
            &&& p[1] == below->slot
            &&& bp.len() == 1 <==> below == x
            &&& bp.len() == 1 ==> bpath == px
            &&& bp.len() >= 2 ==> bpath.len() >= 1 && bpath[0] == below->slot
            &&& path.len() >= 2 ==> path[1] == bpath[0]
            &&& lt(v, t->value) <==> t.lhs().link() == Some(p[1])
        }),
{
    let below = if lt(v, t->value) {
        t.lhs()
    } else {
        t.rhs()
    };
    let x = t.target(v);
    let p = t.trail(v).push(x->slot);
    let path = t.trail(v) + px;
    let bp = below.trail(v).push(x->slot);
    let bpath = below.trail(v) + px;
    lemma_target(below, v);
    assert(p.drop_first() =~= bp);
    assert(path.drop_first() =~= bpath);
    assert(p[1] == bp[0]);
    if below.trail(v).len() > 0 {
        assert(bp[0] == below.trail(v)[0]);
        assert(bpath[0] == below.trail(v)[0]);
    } else {
        assert(bpath =~= px);
    }
    if path.len() >= 2 {
        assert(path[1] == bpath[0]);
    }
    assert(below.slots().contains(below->slot));
    if !lt(v, t->value) && t.lhs().link() == Some(below->slot) {
        assert(t.lhs().slots().contains(below->slot));
    }
}

/// Putting `r` in the place of the node that holds `v` and going up the path
/// `px` inside `r` and then the search path of `v` gives the tree without
/// `v`, where going up `px` alone makes of `r` what pruning makes of that
/// node.
pub proof fn lemma_without_rebuild<T: Ord>(t: Shape<T>, v: T, r: Shape<T>, px: Seq<usize>)
    requires
        t.find(v) is Some,
        t.distinct(),
        rebuild(r, px) == t.target(v).pruned(),
        px.len() > 0 ==> r.link() == t.target(v).link() && px[0] == t.target(v)->slot,
    ensures
        rebuild(graft(t, t.trail(v).push(t.target(v)->slot), r), t.trail(v) + px) == t.without(v),
    decreases t,
{
    match t {
        Shape::Empty => {},
        Shape::Branch { slot, value, left, right } => {
            let x = t.target(v);
            let p = t.trail(v).push(x->slot);
            let path = t.trail(v) + px;
            if v == value {
                assert(t.trail(v) =~= Seq::empty());
                assert(path =~= px);
                assert(p =~= seq![slot]);
                assert(graft(t, p, r) == r);
            } else {
                let below = if lt(v, value) {
                    *left
                } else {
                    *right
                };
                let bp = below.trail(v).push(x->slot);
                lemma_search_step(t, v, px);
                lemma_without_rebuild(below, v, r, px);
                if path.len() >= 2 {
                    assert(graft(below, bp, r).link() == Some(below->slot)) by {
                        if bp.len() == 1 {
                            assert(graft(below, bp, r) == r);
                        }
                    }
                }
                lemma_rebuild_down(t, p, path, r);
            }
        },
    }
}

/// The last node of a search tree holds its greatest value, and the tree
/// without that node is a search tree of the other values.
pub proof fn lemma_without_last_sorted<T: Ord>(t: Shape<T>)
    requires
        total_order::<T>(),
        t is Branch,
        t.sorted(),
        t.distinct(),
    ensures
        t.without_last().sorted(),
        t.without_last().values() == t.values().remove(t.last()->value),
        t.values().contains(t.last()->value),
        forall|y: T| #[trigger] t.without_last().values().contains(y) ==> lt(y, t.last()->value),
    decreases t,
{
    lemma_right_spine(t);
    lemma_without_last_keeps(t);
    match t {
        Shape::Empty => {},
        Shape::Branch { slot, value, left, right } => {
            match *right {
                Shape::Empty => {
                    assert(t.without_last() == left.moved_to(slot));
                    assert(left.moved_to(slot).values() == left.values()) by {
                        crate::prune::lemma_moved_to(*left, slot);
                    }
                    assert(left.moved_to(slot).sorted()) by {
                        match *left {
                            Shape::Empty => {},
                            Shape::Branch { slot: ls, value: lv, left: ll, right: lr } => {
                                assert(left.sorted());
                                assert(left.moved_to(slot) == Shape::node(slot, lv, *ll, *lr));
                            },
                        }
                    }
                    assert(!left.values().contains(value)) by {
                        if left.values().contains(value) {
                            lemma_trichotomy(value, value);
                        }
                    }
                    assert(t.without_last().values() =~= t.values().remove(value));
                },
                Shape::Branch { .. } => {
                    lemma_without_last_sorted(*right);
                    let m = t.last()->value;
                    assert(t.last() == right.last());
                    let u = Shape::node(slot, value, *left, right.without_last());
                    assert(right.values().contains(m));
                    assert(lt(value, m));
                    assert forall|y: T| #[trigger] u.values().contains(y) implies lt(y, m) by {
                        if left.values().contains(y) {
                            lemma_transitive(y, value, m);
                        }
                    }
                    assert(u.sorted());
                    assert(!u.values().contains(m)) by {
                        if u.values().contains(m) {
                            lemma_trichotomy(m, m);
                        }
                    }
                    assert(u.values() =~= t.values().remove(m));
                    lemma_rebalance_keeps(u);
                    lemma_rebalance_sorted(u);
                },
            }
        },
    }
}

/// The first node of a search tree holds its least value, and the tree
/// without that node is a search tree of the other values.
pub proof fn lemma_without_first_sorted<T: Ord>(t: Shape<T>)
    requires
        total_order::<T>(),
        t is Branch,
        t.sorted(),
        t.distinct(),
    ensures
        t.without_first().sorted(),
        t.without_first().values() == t.values().remove(t.first()->value),
        t.values().contains(t.first()->value),
        forall|y: T| #[trigger] t.without_first().values().contains(y) ==> lt(t.first()->value, y),
    decreases t,
{
    lemma_left_spine(t);
    lemma_without_first_keeps(t);
    match t {
        Shape::Empty => {},
        Shape::Branch { slot, value, left, right } => {
            match *left {
                Shape::Empty => {
                    assert(t.without_first() == right.moved_to(slot));
                    assert(right.moved_to(slot).values() == right.values()) by {
                        crate::prune::lemma_moved_to(*right, slot);
                    }
                    assert(right.moved_to(slot).sorted()) by {
                        match *right {
                            Shape::Empty => {},
                            Shape::Branch { slot: rs, value: rv, left: rl, right: rr } => {
                                assert(right.sorted());
                                assert(right.moved_to(slot) == Shape::node(slot, rv, *rl, *rr));
                            },
                        }
                    }
                    assert(!right.values().contains(value)) by {
                        if right.values().contains(value) {
                            lemma_trichotomy(value, value);
                        }
                    }
                    assert(t.without_first().values() =~= t.values().remove(value));
                },
                Shape::Branch { .. } => {
                    lemma_without_first_sorted(*left);
                    let m = t.first()->value;
                    assert(t.first() == left.first());
                    let u = Shape::node(slot, value, left.without_first(), *right);
                    assert(left.values().contains(m));
                    assert(lt(m, value));
                    assert forall|y: T| #[trigger] u.values().contains(y) implies lt(m, y) by {
                        if right.values().contains(y) {
                            lemma_transitive(m, value, y);
                        }
                    }
                    assert(u.sorted());
                    assert(!u.values().contains(m)) by {
                        if u.values().contains(m) {
                            lemma_trichotomy(m, m);
                        }
                    }
                    assert(u.values() =~= t.values().remove(m));
                    lemma_rebalance_keeps(u);
                    lemma_rebalance_sorted(u);
                },
            }
        },
    }
}

/// Pruning the root of a search tree leaves a search tree of the other
/// values.
pub proof fn lemma_pruned_sorted<T: Ord>(t: Shape<T>)
    requires
        total_order::<T>(),
        t is Branch,
        t.sorted(),
        t.distinct(),
    ensures
        t.pruned().sorted(),
        t.pruned().values() == t.values().remove(t->value),
{
    match t {
        Shape::Empty => {},
        Shape::Branch { slot, value, left, right } => {
            lemma_trichotomy(value, value);
            assert(!left.values().contains(value));
            assert(!right.values().contains(value));
            if *left is Empty {
                assert(t.pruned().values() =~= t.values().remove(value));
            } else if *right is Empty {
                assert(t.pruned().values() =~= t.values().remove(value));
            } else if t.heir_on_left() {
                lemma_without_last_sorted(*left);
                let m = left.last()->value;
                let u = Shape::node(slot, m, left.without_last(), *right);
                assert(lt(m, value));
                assert forall|y: T| #[trigger] right.values().contains(y) implies lt(m, y) by {
                    lemma_transitive(m, value, y);
                }
                assert(u.sorted());
                assert(u.values() =~= t.values().remove(value));
                lemma_rebalance_keeps(u);
                lemma_rebalance_sorted(u);
            } else {
                lemma_without_first_sorted(*right);
                let m = right.first()->value;
                let u = Shape::node(slot, m, *left, right.without_first());
                assert(lt(value, m));
                assert forall|y: T| #[trigger] left.values().contains(y) implies lt(y, m) by {
                    lemma_transitive(y, value, m);
                }
                assert(u.sorted());
                assert(u.values() =~= t.values().remove(value));
                lemma_rebalance_keeps(u);
                lemma_rebalance_sorted(u);
            }
        },
    }
}

/// What removal does to a search tree that holds the value: the value and
/// the vacated slot leave, the order is kept, and the tree grows no taller.
pub proof fn lemma_without<T: Ord>(t: Shape<T>, v: T)
    requires
        total_order::<T>(),
        t.sorted(),
        t.distinct(),
        t.values().contains(v),
    ensures
        t.without(v).values() == t.values().remove(v),
        t.slots().contains(t.vacated(v)),
        t.without(v).slots() == t.slots().remove(t.vacated(v)),
        t.without(v).size() + 1 == t.size(),
        t.without(v).sorted(),
        t.without(v).distinct(),
        t.without(v).height() <= t.height(),
    decreases t,
{
    match t {
        Shape::Empty => {},
        Shape::Branch { slot, value, left, right } => {
            lemma_trichotomy(v, value);
            if v == value {
                lemma_pruned_keeps(t);
                lemma_pruned_sorted(t);
            } else if lt(v, value) {
                assert(!right.values().contains(v)) by {
                    if right.values().contains(v) {
                        assert(lt(value, v));
                    }
                }
                lemma_without(*left, v);
                let u = Shape::node(slot, value, left.without(v), *right);
                assert(t.vacated(v) == left.vacated(v));
                assert(u.values() =~= t.values().remove(v));
                assert(u.slots() =~= t.slots().remove(t.vacated(v)));
                assert(u.sorted());
                assert(u.distinct());
                assert(u.size() + 1 == t.size());
                lemma_height(t);
                lemma_rebalance_keeps(u);
                lemma_rebalance_sorted(u);
                lemma_rebalance_height(u);
            } else {
                assert(!left.values().contains(v)) by {
                    if left.values().contains(v) {
                        assert(lt(v, value));
                    }
                }
                lemma_without(*right, v);
                let u = Shape::node(slot, value, *left, right.without(v));
                assert(t.vacated(v) == right.vacated(v));
                assert(u.values() =~= t.values().remove(v));
                assert(u.slots() =~= t.slots().remove(t.vacated(v)));
                assert(u.sorted());
                assert(u.distinct());
                assert(u.size() + 1 == t.size());
                lemma_height(t);
                lemma_rebalance_keeps(u);
                lemma_rebalance_sorted(u);
                lemma_rebalance_height(u);
            }
        },
    }
}

} // verus!
