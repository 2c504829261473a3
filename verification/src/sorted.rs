//! Search order: what it means for a shape to be a search tree, where a
//! value is found in one, and what insertion makes of one.

use crate::order::lemma_transitive;
use crate::order::lemma_trichotomy;
use crate::order::lt;
use crate::order::total_order;
use crate::shape::lemma_rebalance_height;
use crate::shape::lemma_rebalance_keeps;
use crate::shape::lemma_rot_left_keeps;
use crate::shape::lemma_rot_right_keeps;
use crate::shape::rebuild;
use crate::shape::Shape;
use vstd::prelude::*;

verus! {

impl<T: Ord> Shape<T> {
    /// Search-tree order: at every node the values to the left are smaller
    /// than the node's value and the values to the right are greater.
    pub open spec fn sorted(self) -> bool
        decreases self,
    {
        match self {
            Shape::Empty => true,
            Shape::Branch { value, left, right, .. } => {
                &&& forall|x: T| #[trigger] left.values().contains(x) ==> lt(x, value)
                &&& forall|x: T| #[trigger] right.values().contains(x) ==> lt(value, x)
                &&& left.sorted()
                &&& right.sorted()
            },
        }
    }

    /// The slot in which the search for `v` ends, if it finds `v`.
    pub open spec fn find(self, v: T) -> Option<usize>
        decreases self,
    {
        match self {
            Shape::Empty => None,
            Shape::Branch { slot, value, left, right } => if v == value {
                Some(slot)
            } else if lt(v, value) {
                left.find(v)
            } else {
                right.find(v)
            },
        }
    }

    /// The slots that the search for `v` passes: every node it examines that
    /// does not hold `v`, from the root down.
    pub open spec fn trail(self, v: T) -> Seq<usize>
        decreases self,
    {
        match self {
            Shape::Empty => Seq::empty(),
            Shape::Branch { slot, value, left, right } => if v == value {
                Seq::empty()
            } else if lt(v, value) {
                seq![slot] + left.trail(v)
            } else {
                seq![slot] + right.trail(v)
            },
        }
    }

    /// The tree with `v` hung as a new leaf in slot `s` where the search for
    /// it ended, before anything is rebalanced.
    pub open spec fn attach(self, v: T, s: usize) -> Shape<T>
        decreases self,
    {
        match self {
            Shape::Empty => Shape::leaf(s, v),
            Shape::Branch { slot, value, left, right } => if v == value {
                self
            } else if lt(v, value) {
                Shape::node(slot, value, left.attach(v, s), *right)
            } else {
                Shape::node(slot, value, *left, right.attach(v, s))
            },
        }
    }

    /// The tree after the insertion of `v`, which it lacks, into slot `s`:
    /// `v` becomes a leaf where the search for it ended, and every node on
    /// the way back to the root is rebalanced.
    pub open spec fn grow(self, v: T, s: usize) -> Shape<T>
        decreases self,
    {
        match self {
            Shape::Empty => Shape::leaf(s, v),
            Shape::Branch { slot, value, left, right } => if v == value {
                self
            } else if lt(v, value) {
                Shape::node(slot, value, left.grow(v, s), *right).rebalance()
            } else {
                Shape::node(slot, value, *left, right.grow(v, s)).rebalance()
            },
        }
    }
}

/// In a search tree the search finds exactly the values that the tree holds,
/// each in the slot that holds it.
pub proof fn lemma_find<T: Ord>(t: Shape<T>, v: T)
    requires
        total_order::<T>(),
        t.sorted(),
    ensures
        t.find(v) is Some <==> t.values().contains(v),
        t.find(v) matches Some(s) ==> t.slots().contains(s) && t.slot_map().contains_key(s),
        t.find(v) matches Some(s) ==> t.distinct() ==> t.slot_map()[s] == v,
    decreases t,
{
    match t {
        Shape::Empty => {},
        Shape::Branch { slot, value, left, right } => {
            lemma_trichotomy(v, value);
            lemma_find(*left, v);
            lemma_find(*right, v);
            crate::shape::lemma_slot_map_dom(*left);
            crate::shape::lemma_slot_map_dom(*right);
            if left.values().contains(v) {
                assert(lt(v, value));
            }
            if right.values().contains(v) {
                assert(lt(value, v));
            }
        },
    }
}

/// A right rotation keeps search-tree order.
pub proof fn lemma_rot_right_sorted<T: Ord>(t: Shape<T>)
    requires
        total_order::<T>(),
        t.sorted(),
    ensures
        t.rot_right().sorted(),
{
    match t {
        Shape::Empty => {},
        Shape::Branch { slot, value, left, right } => match *left {
            Shape::Empty => {},
            Shape::Branch { slot: ls, value: lv, left: ll, right: lr } => {
                let inner = Shape::node(slot, value, *lr, *right);
                assert(left.values().contains(lv));
                assert(lt(lv, value));
                assert(left.sorted());
                assert(left.values() =~= ll.values().union(lr.values()).insert(lv));
                assert forall|x: T| #[trigger] lr.values().contains(x) implies lt(x, value) by {
                    assert(left.values().contains(x));
                }
                assert(inner.sorted());
                assert forall|x: T| #[trigger] inner.values().contains(x) implies lt(lv, x) by {
                    if right.values().contains(x) {
                        lemma_transitive(lv, value, x);
                    }
                }
                assert(t.rot_right().sorted());
            },
        },
    }
}

/// A left rotation keeps search-tree order.
pub proof fn lemma_rot_left_sorted<T: Ord>(t: Shape<T>)
    requires
        total_order::<T>(),
        t.sorted(),
    ensures
        t.rot_left().sorted(),
{
    match t {
        Shape::Empty => {},
        Shape::Branch { slot, value, left, right } => match *right {
            Shape::Empty => {},
            Shape::Branch { slot: rs, value: rv, left: rl, right: rr } => {
                let inner = Shape::node(slot, value, *left, *rl);
                assert(right.values().contains(rv));
                assert(lt(value, rv));
                assert(right.sorted());
                assert(right.values() =~= rl.values().union(rr.values()).insert(rv));
                assert forall|x: T| #[trigger] rl.values().contains(x) implies lt(value, x) by {
                    assert(right.values().contains(x));
                }
                assert(inner.sorted());
                assert forall|x: T| #[trigger] inner.values().contains(x) implies lt(x, rv) by {
                    if left.values().contains(x) {
                        lemma_transitive(x, value, rv);
                    }
                }
                assert(t.rot_left().sorted());
            },
        },
    }
}

/// Rebalancing keeps search-tree order.
pub proof fn lemma_rebalance_sorted<T: Ord>(t: Shape<T>)
    requires
        total_order::<T>(),
        t.sorted(),
    ensures
        t.rebalance().sorted(),
{
    lemma_rot_right_sorted(t);
    lemma_rot_left_sorted(t);
    match t {
        Shape::Empty => {},
        Shape::Branch { slot, value, left, right } => {
            lemma_rot_left_sorted(*left);
            lemma_rot_left_keeps(*left);
            lemma_rot_right_sorted(Shape::node(slot, value, left.rot_left(), *right));
            lemma_rot_right_sorted(*right);
            lemma_rot_right_keeps(*right);
            lemma_rot_left_sorted(Shape::node(slot, value, *left, right.rot_right()));
        },
    }
}

/// What insertion does to a search tree that lacks the value: the value and
/// its slot are added, the order is kept, and the tree grows by at most one
/// in height.
pub proof fn lemma_grow<T: Ord>(t: Shape<T>, v: T, s: usize)
    requires
        total_order::<T>(),
        t.sorted(),
        t.distinct(),
        !t.values().contains(v),
        !t.slots().contains(s),
    ensures
        t.grow(v, s).values() == t.values().insert(v),
        t.grow(v, s).slots() == t.slots().insert(s),
        t.grow(v, s).size() == t.size() + 1,
        t.grow(v, s).sorted(),
        t.grow(v, s).distinct(),
        t.grow(v, s) is Branch,
        t.grow(v, s).height() <= t.height() + 1,
    decreases t,
{
    match t {
        Shape::Empty => {
            assert(Shape::leaf(s, v).values() =~= Set::empty().insert(v));
            assert(Shape::leaf(s, v).slots() =~= Set::empty().insert(s));
            reveal_with_fuel(Shape::height, 2);
            reveal_with_fuel(Shape::size, 2);
            reveal_with_fuel(Shape::distinct, 2);
        },
        Shape::Branch { slot, value, left, right } => {
            lemma_trichotomy(v, value);
            if lt(v, value) {
                lemma_grow(*left, v, s);
                let u = Shape::node(slot, value, left.grow(v, s), *right);
                assert(u.values() =~= t.values().insert(v));
                assert(u.slots() =~= t.slots().insert(s));
                assert(u.sorted());
                assert(u.distinct());
                lemma_rebalance_keeps(u);
                lemma_rebalance_sorted(u);
                lemma_rebalance_height(u);
            } else {
                lemma_grow(*right, v, s);
                let u = Shape::node(slot, value, *left, right.grow(v, s));
                assert(u.values() =~= t.values().insert(v));
                assert(u.slots() =~= t.slots().insert(s));
                assert(u.sorted());
                assert(u.distinct());
                lemma_rebalance_keeps(u);
                lemma_rebalance_sorted(u);
                lemma_rebalance_height(u);
            }
        },
    }
}

/// Going up the search path of `v` after hanging it as a leaf gives the tree
/// that insertion is defined to give.
pub proof fn lemma_grow_rebuild<T: Ord>(t: Shape<T>, v: T, s: usize)
    requires
        t is Branch,
        t.find(v) is None,
        t.distinct(),
        !t.slots().contains(s),
    ensures
        rebuild(t.attach(v, s), t.trail(v)) == t.grow(v, s),
    decreases t,
{
    match t {
        Shape::Empty => {},
        Shape::Branch { slot, value, left, right } => {
            let p = t.trail(v);
            if lt(v, value) {
                assert(p.drop_first() =~= left.trail(v));
                assert(left.find(v) is None);
                match *left {
                    Shape::Empty => {
                        assert(p.len() == 1);
                    },
                    Shape::Branch { slot: ls, .. } => {
                        assert(left.trail(v)[0] == ls);
                        assert(p[1] == ls);
                        lemma_grow_rebuild(*left, v, s);
                    },
                }
            } else {
                assert(p.drop_first() =~= right.trail(v));
                assert(right.find(v) is None);
                match *right {
                    Shape::Empty => {
                        assert(p.len() == 1);
                    },
                    Shape::Branch { slot: rs, .. } => {
                        assert(right.trail(v)[0] == rs);
                        assert(p[1] == rs);
                        assert(right.slots().contains(rs));
                        assert(left.link() != Some(rs)) by {
                            if left.link() == Some(rs) {
                                assert(left.slots().contains(rs));
                            }
                        }
                        lemma_grow_rebuild(*right, v, s);
                    },
                }
            }
        },
    }
}

/// The search path of a value that the tree lacks stays inside the tree.
pub proof fn lemma_trail_within<T: Ord>(t: Shape<T>, v: T)
    requires
        t is Branch,
        t.find(v) is None,
    ensures
        t.trail(v).len() >= 1,
        t.trail(v)[0] == t->slot,
        t.slots().contains(t.trail(v).last()),
    decreases t,
{
    match t {
        Shape::Empty => {},
        Shape::Branch { slot, value, left, right } => {
            if lt(v, value) {
                assert(left.find(v) is None);
                if *left is Branch {
                    lemma_trail_within(*left, v);
                    assert(t.trail(v).last() == left.trail(v).last());
                } else {
                    assert(left.trail(v) =~= Seq::empty());
                    assert(t.trail(v) =~= seq![slot]);
                }
            } else {
                assert(right.find(v) is None);
                if *right is Branch {
                    lemma_trail_within(*right, v);
                    assert(t.trail(v).last() == right.trail(v).last());
                } else {
                    assert(right.trail(v) =~= Seq::empty());
                    assert(t.trail(v) =~= seq![slot]);
                }
            }
        },
    }
}

} // verus!
