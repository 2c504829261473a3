//! What removal makes of a shape, as far as it is independent of the order
//! on the values: taking out the last or the first node of a subtree, and
//! taking out a root.

use crate::shape::descend;
use crate::shape::graft;
use crate::shape::lemma_graft_keeps;
use crate::shape::lemma_height;
use crate::shape::lemma_rebalance_height;
use crate::shape::lemma_rebalance_keeps;
use crate::shape::on_path;
use crate::shape::rebuild;
use crate::shape::Shape;
use vstd::prelude::*;

verus! {

impl<T> Shape<T> {
    /// The last node in order, with what hangs below it: the end of the
    /// right spine.
    pub open spec fn last(self) -> Shape<T>
        decreases self,
    {
        match self {
            Shape::Empty => self,
            Shape::Branch { right, .. } => if *right is Empty {
                self
            } else {
                right.last()
            },
        }
    }

    /// The first node in order, with what hangs below it: the end of the
    /// left spine.
    pub open spec fn first(self) -> Shape<T>
        decreases self,
    {
        match self {
            Shape::Empty => self,
            Shape::Branch { left, .. } => if *left is Empty {
                self
            } else {
                left.first()
            },
        }
    }

    /// The slots from the root down to the last node.
    pub open spec fn right_spine(self) -> Seq<usize>
        decreases self,
    {
        match self {
            Shape::Empty => Seq::empty(),
            Shape::Branch { slot, right, .. } => seq![slot] + right.right_spine(),
        }
    }

    /// The slots from the root down to the first node.
    pub open spec fn left_spine(self) -> Seq<usize>
        decreases self,
    {
        match self {
            Shape::Empty => Seq::empty(),
            Shape::Branch { slot, left, .. } => seq![slot] + left.left_spine(),
        }
    }

    /// What takes the place of the last node when it leaves: its left
    /// subtree, with the root moved into the slot of the node.
    pub open spec fn last_heir(self) -> Shape<T> {
        self.last().lhs().moved_to(self.last()->slot)
    }

    /// What takes the place of the first node when it leaves: its right
    /// subtree, with the root moved into the slot of the node.
    pub open spec fn first_heir(self) -> Shape<T> {
        self.first().rhs().moved_to(self.first()->slot)
    }

    /// The slot that becomes vacant when the last node leaves: the slot of
    /// its left child where it has one, which moves up into the node's own
    /// slot, and else the node's own.
    pub open spec fn last_vacated(self) -> usize {
        if self.last().lhs() is Branch {
            self.last().lhs()->slot
        } else {
            self.last()->slot
        }
    }

    /// The slot that becomes vacant when the first node leaves.
    pub open spec fn first_vacated(self) -> usize {
        if self.first().rhs() is Branch {
            self.first().rhs()->slot
        } else {
            self.first()->slot
        }
    }

    /// The tree without its last node: the node's left subtree takes its
    /// place, and every node above it on the right spine is rebalanced.
    pub open spec fn without_last(self) -> Shape<T>
        decreases self,
    {
        match self {
            Shape::Empty => self,
            Shape::Branch { slot, value, left, right } => if *right is Empty {
                left.moved_to(slot)
            } else {
                Shape::node(slot, value, *left, right.without_last()).rebalance()
            },
        }
    }

    /// The tree without its first node, the mirror image of `without_last`.
    pub open spec fn without_first(self) -> Shape<T>
        decreases self,
    {
        match self {
            Shape::Empty => self,
            Shape::Branch { slot, value, left, right } => if *left is Empty {
                right.moved_to(slot)
            } else {
                Shape::node(slot, value, left.without_first(), *right).rebalance()
            },
        }
    }

    /// Whether the root has a child on each side.
    pub open spec fn full(self) -> bool {
        self.lhs() is Branch && self.rhs() is Branch
    }

    /// Whether the value that replaces the root's comes from the left
    /// subtree: it does where that subtree is the taller one.
    pub open spec fn heir_on_left(self) -> bool {
        self.lhs().height() > self.rhs().height()
    }

    /// The tree without the value at its root. A root with at most one child
    /// gives way to that child. A root with two children stays where it is
    /// and takes over the value of its neighbour in order from the taller
    /// subtree, from the right one where both are of one height; the
    /// neighbour leaves that subtree, and the root is rebalanced.
    pub open spec fn pruned(self) -> Shape<T> {
        match self {
            Shape::Empty => self,
            Shape::Branch { slot, value, left, right } => if *left is Empty {
                *right
            } else if *right is Empty {
                *left
            } else if self.heir_on_left() {
                Shape::node(slot, left.last()->value, left.without_last(), *right).rebalance()
            } else {
                Shape::node(slot, right.first()->value, *left, right.without_first()).rebalance()
            },
        }
    }

    /// The slot that becomes vacant when the root's value leaves.
    pub open spec fn pruned_vacated(self) -> usize {
        if !self.full() {
            self->slot
        } else if self.heir_on_left() {
            self.lhs().last_vacated()
        } else {
            self.rhs().first_vacated()
        }
    }

    /// The root with its neighbour's value and the neighbour's subtree
    /// without the neighbour, before anything is rebalanced.
    pub open spec fn pruned_raw(self) -> Shape<T> {
        match self {
            Shape::Empty => self,
            Shape::Branch { slot, value, left, right } => if self.heir_on_left() {
                Shape::node(
                    slot,
                    left.last()->value,
                    graft(*left, left.right_spine(), left.last_heir()),
                    *right,
                )
            } else {
                Shape::node(
                    slot,
                    right.first()->value,
                    *left,
                    graft(*right, right.left_spine(), right.first_heir()),
                )
            },
        }
    }

    /// The path from the root down to the parent of the neighbour whose
    /// value the root takes over.
    pub open spec fn pruned_path(self) -> Seq<usize> {
        if self.heir_on_left() {
            seq![self->slot] + self.lhs().right_spine().drop_last()
        } else {
            seq![self->slot] + self.rhs().left_spine().drop_last()
        }
    }
}

/// The right spine is a path that ends at the last node, which has no right
/// child.
pub proof fn lemma_right_spine<T>(t: Shape<T>)
    requires
        t is Branch,
        t.distinct(),
    ensures
        on_path(t, t.right_spine()),
        descend(t, t.right_spine()) == t.last(),
        t.right_spine().len() >= 1,
        t.right_spine()[0] == t->slot,
        t.right_spine().last() == t.last()->slot,
        t.right_spine().len() == 1 <==> t.rhs() is Empty,
        t.rhs() is Empty ==> t.last() == t,
        t.last() is Branch,
        t.last().rhs() is Empty,
        t.last().slots().subset_of(t.slots()),
        t.last().distinct(),
        t.values().contains(t.last()->value),
    decreases t,
{
    match t {
        Shape::Empty => {},
        Shape::Branch { slot, left, right, .. } => {
            let p = t.right_spine();
            match *right {
                Shape::Empty => {
                    assert(right.right_spine() =~= Seq::empty());
                    assert(p =~= seq![slot]);
                },
                Shape::Branch { slot: rs, .. } => {
                    lemma_right_spine(*right);
                    assert(p.drop_first() =~= right.right_spine());
                    assert(p[1] == rs);
                    assert(right.slots().contains(rs));
                    assert(left.link() != Some(rs)) by {
                        if left.link() == Some(rs) {
                            assert(left.slots().contains(rs));
                        }
                    }
                    assert(p.last() == right.right_spine().last());
                },
            }
        },
    }
}

/// The left spine is a path that ends at the first node, which has no left
/// child.
pub proof fn lemma_left_spine<T>(t: Shape<T>)
    requires
        t is Branch,
        t.distinct(),
    ensures
        on_path(t, t.left_spine()),
        descend(t, t.left_spine()) == t.first(),
        t.left_spine().len() >= 1,
        t.left_spine()[0] == t->slot,
        t.left_spine().last() == t.first()->slot,
        t.left_spine().len() == 1 <==> t.lhs() is Empty,
        t.lhs() is Empty ==> t.first() == t,
        t.first() is Branch,
        t.first().lhs() is Empty,
        t.first().slots().subset_of(t.slots()),
        t.first().distinct(),
        t.values().contains(t.first()->value),
    decreases t,
{
    match t {
        Shape::Empty => {},
        Shape::Branch { slot, left, right, .. } => {
            let p = t.left_spine();
            match *left {
                Shape::Empty => {
                    assert(left.left_spine() =~= Seq::empty());
                    assert(p =~= seq![slot]);
                },
                Shape::Branch { slot: ls, .. } => {
                    lemma_left_spine(*left);
                    assert(p.drop_first() =~= left.left_spine());
                    assert(p[1] == ls);
                    assert(p.last() == left.left_spine().last());
                },
            }
        },
    }
}

/// Taking the last node out of the arena and going up the right spine from
/// its parent gives the tree without its last node.
pub proof fn lemma_without_last_rebuild<T>(t: Shape<T>)
    requires
        t is Branch,
        t.distinct(),
    ensures
        t.rhs() is Empty ==> t.without_last() == t.last_heir(),
        t.rhs() is Branch ==> rebuild(
            graft(t, t.right_spine(), t.last_heir()),
            t.right_spine().drop_last(),
        ) == t.without_last(),
        t.rhs() is Branch ==> graft(t, t.right_spine(), t.last_heir()).link() == t.link(),
    decreases t,
{
    lemma_right_spine(t);
    match t {
        Shape::Empty => {},
        Shape::Branch { slot, value, left, right } => {
            let p = t.right_spine();
            let r = t.last_heir();
            match *right {
                Shape::Empty => {},
                Shape::Branch { slot: rs, right: rr, .. } => {
                    lemma_right_spine(*right);
                    lemma_without_last_rebuild(*right);
                    assert(p.drop_first() =~= right.right_spine());
                    assert(p[1] == rs);
                    assert(right.slots().contains(rs));
                    assert(left.link() != Some(rs)) by {
                        if left.link() == Some(rs) {
                            assert(left.slots().contains(rs));
                        }
                    }
                    assert(right.last_heir() == r);
                    let q = p.drop_last();
                    if *rr is Empty {
                        assert(p.len() == 2);
                        assert(q.len() == 1);
                        assert(graft(*right, p.drop_first(), r) == r);
                    } else {
                        assert(q.len() >= 2);
                        assert(q[1] == rs);
                        assert(q.drop_first() =~= right.right_spine().drop_last());
                    }
                },
            }
        },
    }
}

/// Taking the first node out of the arena and going up the left spine from
/// its parent gives the tree without its first node.
pub proof fn lemma_without_first_rebuild<T>(t: Shape<T>)
    requires
        t is Branch,
        t.distinct(),
    ensures
        t.lhs() is Empty ==> t.without_first() == t.first_heir(),
        t.lhs() is Branch ==> rebuild(
            graft(t, t.left_spine(), t.first_heir()),
            t.left_spine().drop_last(),
        ) == t.without_first(),
        t.lhs() is Branch ==> graft(t, t.left_spine(), t.first_heir()).link() == t.link(),
    decreases t,
{
    lemma_left_spine(t);
    match t {
        Shape::Empty => {},
        Shape::Branch { slot, value, left, right } => {
            let p = t.left_spine();
            let r = t.first_heir();
            match *left {
                Shape::Empty => {},
                Shape::Branch { slot: ls, left: ll, .. } => {
                    lemma_left_spine(*left);
                    lemma_without_first_rebuild(*left);
                    assert(p.drop_first() =~= left.left_spine());
                    assert(p[1] == ls);
                    assert(left.first_heir() == r);
                    let q = p.drop_last();
                    if *ll is Empty {
                        assert(p.len() == 2);
                        assert(q.len() == 1);
                        assert(graft(*left, p.drop_first(), r) == r);
                    } else {
                        assert(q.len() >= 2);
                        assert(q[1] == ls);
                        assert(q.drop_first() =~= left.left_spine().drop_last());
                    }
                },
            }
        },
    }
}

/// Moving the root into a slot that the tree does not use keeps everything
/// but the root's slot.
pub proof fn lemma_moved_to<T>(t: Shape<T>, to: usize)
    requires
        t.distinct(),
        !t.lhs().slots().contains(to),
        !t.rhs().slots().contains(to),
    ensures
        t.moved_to(to).distinct(),
        t.moved_to(to).height() == t.height(),
        t.moved_to(to).size() == t.size(),
        t.moved_to(to).values() == t.values(),
        t is Branch ==> t.moved_to(to).slots() == t.slots().remove(t->slot).insert(to),
        t is Branch ==> t.moved_to(to).link() == Some(to),
        t is Empty ==> t.moved_to(to) is Empty,
{
    match t {
        Shape::Empty => {},
        Shape::Branch { slot, left, right, .. } => {
            assert(t.moved_to(to).slots() =~= t.slots().remove(slot).insert(to));
        },
    }
}

/// What the tree without its last node keeps: all slots but the vacated
/// one, all values but the last node's, and its height or less.
pub proof fn lemma_without_last_keeps<T>(t: Shape<T>)
    requires
        t is Branch,
        t.distinct(),
    ensures
        t.slots().contains(t.last_vacated()),
        t.without_last().slots() == t.slots().remove(t.last_vacated()),
        t.without_last().distinct(),
        t.without_last().size() + 1 == t.size(),
        t.without_last().height() <= t.height(),
        t.values() == t.without_last().values().insert(t.last()->value),
        t.last_heir().distinct(),
        t.last_heir().slots() == t.last().slots().remove(t.last_vacated()),
        t.last_heir().height() < t.last().height(),
    decreases t,
{
    lemma_right_spine(t);
    match t {
        Shape::Empty => {},
        Shape::Branch { slot, value, left, right } => {
            match *right {
                Shape::Empty => {
                    lemma_moved_to(*left, slot);
                    lemma_height(*left);
                    assert(t.without_last() == left.moved_to(slot));
                    assert(right.values() =~= Set::empty());
                    assert(right.size() == 0);
                    assert(t.without_last().slots() =~= t.slots().remove(t.last_vacated()));
                    assert(t.values() =~= left.values().insert(value));
                    assert(t.values() =~= t.without_last().values().insert(value));
                },
                Shape::Branch { .. } => {
                    lemma_without_last_keeps(*right);
                    let u = Shape::node(slot, value, *left, right.without_last());
                    assert(t.last() == right.last());
                    assert(u.slots() =~= t.slots().remove(t.last_vacated()));
                    assert(u.distinct());
                    assert(t.values() =~= u.values().insert(t.last()->value));
                    lemma_rebalance_keeps(u);
                    lemma_rebalance_height(u);
                },
            }
        },
    }
}

/// What the tree without its first node keeps.
pub proof fn lemma_without_first_keeps<T>(t: Shape<T>)
    requires
        t is Branch,
        t.distinct(),
    ensures
        t.slots().contains(t.first_vacated()),
        t.without_first().slots() == t.slots().remove(t.first_vacated()),
        t.without_first().distinct(),
        t.without_first().size() + 1 == t.size(),
        t.without_first().height() <= t.height(),
        t.values() == t.without_first().values().insert(t.first()->value),
        t.first_heir().distinct(),
        t.first_heir().slots() == t.first().slots().remove(t.first_vacated()),
        t.first_heir().height() < t.first().height(),
    decreases t,
{
    lemma_left_spine(t);
    match t {
        Shape::Empty => {},
        Shape::Branch { slot, value, left, right } => {
            match *left {
                Shape::Empty => {
                    lemma_moved_to(*right, slot);
                    lemma_height(*right);
                    assert(t.without_first() == right.moved_to(slot));
                    assert(left.values() =~= Set::empty());
                    assert(left.size() == 0);
                    assert(t.without_first().slots() =~= t.slots().remove(t.first_vacated()));
                    assert(t.values() =~= right.values().insert(value));
                    assert(t.values() =~= t.without_first().values().insert(value));
                },
                Shape::Branch { .. } => {
                    lemma_without_first_keeps(*left);
                    let u = Shape::node(slot, value, left.without_first(), *right);
                    assert(t.first() == left.first());
                    assert(u.slots() =~= t.slots().remove(t.first_vacated()));
                    assert(u.distinct());
                    assert(t.values() =~= u.values().insert(t.first()->value));
                    lemma_rebalance_keeps(u);
                    lemma_rebalance_height(u);
                },
            }
        },
    }
}

/// What the tree without the value at its root keeps: all slots but the
/// vacated one, and its height or less.
pub proof fn lemma_pruned_keeps<T>(t: Shape<T>)
    requires
        t is Branch,
        t.distinct(),
    ensures
        t.slots().contains(t.pruned_vacated()),
        t.pruned().slots() == t.slots().remove(t.pruned_vacated()),
        t.pruned().distinct(),
        t.pruned().size() + 1 == t.size(),
        t.pruned().height() <= t.height(),
{
    match t {
        Shape::Empty => {},
        Shape::Branch { slot, value, left, right } => {
            lemma_height(*left);
            lemma_height(*right);
            if *left is Empty {
                assert(left.size() == 0);
                assert(t.pruned().slots() =~= t.slots().remove(slot));
            } else if *right is Empty {
                assert(right.size() == 0);
                assert(t.pruned().slots() =~= t.slots().remove(slot));
            } else if t.heir_on_left() {
                lemma_without_last_keeps(*left);
                let u = Shape::node(slot, left.last()->value, left.without_last(), *right);
                assert(u.slots() =~= t.slots().remove(t.pruned_vacated()));
                assert(u.distinct());
                assert(u.size() + 1 == t.size());
                lemma_rebalance_keeps(u);
                lemma_rebalance_height(u);
            } else {
                lemma_without_first_keeps(*right);
                let u = Shape::node(slot, right.first()->value, *left, right.without_first());
                assert(u.slots() =~= t.slots().remove(t.pruned_vacated()));
                assert(u.distinct());
                assert(u.size() + 1 == t.size());
                lemma_rebalance_keeps(u);
                lemma_rebalance_height(u);
            }
        },
    }
}

/// Going up from the neighbour's parent to a root that has taken over its
/// neighbour's value gives the tree without the old value of the root.
pub proof fn lemma_pruned_rebuild<T>(t: Shape<T>)
    requires
        t.full(),
        t.distinct(),
    ensures
        rebuild(t.pruned_raw(), t.pruned_path()) == t.pruned(),
        t.pruned_raw().link() == t.link(),
        t.pruned_raw().distinct(),
        t.pruned_raw().slots().subset_of(t.slots()),
        t.pruned_raw().height() <= t.height(),
        t.pruned_path().len() >= 1,
        t.pruned_path()[0] == t->slot,
{
    match t {
        Shape::Empty => {},
        Shape::Branch { slot, value, left, right } => {
            let path = t.pruned_path();
            if t.heir_on_left() {
                let fs = left.right_spine();
                lemma_right_spine(*left);
                lemma_without_last_rebuild(*left);
                lemma_without_last_keeps(*left);
                lemma_graft_keeps(*left, fs, left.last_heir());
                if left.rhs() is Empty {
                    assert(path =~= seq![slot]);
                    assert(graft(*left, fs, left.last_heir()) == left.last_heir());
                } else {
                    assert(path.drop_first() =~= fs.drop_last());
                    assert(path[1] == left->slot);
                }
            } else {
                let fs = right.left_spine();
                lemma_left_spine(*right);
                lemma_without_first_rebuild(*right);
                lemma_without_first_keeps(*right);
                lemma_graft_keeps(*right, fs, right.first_heir());
                if right.lhs() is Empty {
                    assert(path =~= seq![slot]);
                    assert(graft(*right, fs, right.first_heir()) == right.first_heir());
                } else {
                    assert(path.drop_first() =~= fs.drop_last());
                    assert(path[1] == right->slot);
                    assert(right.slots().contains(right->slot));
                    assert(left.link() != Some(right->slot)) by {
                        if left.link() == Some(right->slot) {
                            assert(left.slots().contains(right->slot));
                        }
                    }
                }
            }
        },
    }
}

} // verus!
