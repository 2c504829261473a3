//! The tree as a mathematical value: which value sits in which slot and how
//! the nodes hang together. Everything here is independent of the order on
//! the values.

use vstd::prelude::*;

verus! {

/// A binary tree whose nodes carry a value and the arena slot that holds it.
pub enum Shape<T> {
    Empty,
    Branch { slot: usize, value: T, left: Box<Shape<T>>, right: Box<Shape<T>> },
}

impl<T> Shape<T> {
    /// A node built from its parts.
    pub open spec fn node(slot: usize, value: T, left: Shape<T>, right: Shape<T>) -> Shape<T> {
        Shape::Branch { slot, value, left: Box::new(left), right: Box::new(right) }
    }

    /// A node without children.
    pub open spec fn leaf(slot: usize, value: T) -> Shape<T> {
        Shape::node(slot, value, Shape::Empty, Shape::Empty)
    }

    /// The slot of the root, as a parent's link holds it.
    pub open spec fn link(self) -> Option<usize> {
        match self {
            Shape::Empty => None,
            Shape::Branch { slot, .. } => Some(slot),
        }
    }

    /// The left subtree; empty for an empty tree.
    pub open spec fn lhs(self) -> Shape<T> {
        match self {
            Shape::Empty => Shape::Empty,
            Shape::Branch { left, .. } => *left,
        }
    }

    /// The right subtree; empty for an empty tree.
    pub open spec fn rhs(self) -> Shape<T> {
        match self {
            Shape::Empty => Shape::Empty,
            Shape::Branch { right, .. } => *right,
        }
    }

    /// The height: -1 for an empty tree, 0 for a leaf.
    pub open spec fn height(self) -> int
        decreases self,
    {
        match self {
            Shape::Empty => -1,
            Shape::Branch { left, right, .. } => {
                let l = left.height();
                let r = right.height();
                if l >= r {
                    1 + l
                } else {
                    1 + r
                }
            },
        }
    }

    /// The number of nodes.
    pub open spec fn size(self) -> nat
        decreases self,
    {
        match self {
            Shape::Empty => 0,
            Shape::Branch { left, right, .. } => 1 + left.size() + right.size(),
        }
    }

    /// The slots that the nodes occupy.
    pub open spec fn slots(self) -> Set<usize>
        decreases self,
    {
        match self {
            Shape::Empty => Set::empty(),
            Shape::Branch { slot, left, right, .. } => left.slots().union(right.slots()).insert(
                slot,
            ),
        }
    }

    /// The values that the nodes carry.
    pub open spec fn values(self) -> Set<T>
        decreases self,
    {
        match self {
            Shape::Empty => Set::empty(),
            Shape::Branch { value, left, right, .. } => left.values().union(
                right.values(),
            ).insert(value),
        }
    }

    /// The value in each occupied slot.
    pub open spec fn slot_map(self) -> Map<usize, T>
        decreases self,
    {
        match self {
            Shape::Empty => Map::empty(),
            Shape::Branch { slot, value, left, right } => left.slot_map().union_prefer_right(
                right.slot_map(),
            ).insert(slot, value),
        }
    }

    /// No slot is used by two nodes.
    pub open spec fn distinct(self) -> bool
        decreases self,
    {
        match self {
            Shape::Empty => true,
            Shape::Branch { slot, left, right, .. } => {
                &&& !left.slots().contains(slot)
                &&& !right.slots().contains(slot)
                &&& left.slots().disjoint(right.slots())
                &&& left.distinct()
                &&& right.distinct()
            },
        }
    }

    /// The balance factor of the root: height of the right subtree minus
    /// height of the left.
    pub open spec fn factor(self) -> int {
        self.rhs().height() - self.lhs().height()
    }

    /// Every node's balance factor is -1, 0 or 1.
    pub open spec fn balanced(self) -> bool
        decreases self,
    {
        match self {
            Shape::Empty => true,
            Shape::Branch { left, right, .. } => {
                &&& -1 <= right.height() - left.height() <= 1
                &&& left.balanced()
                &&& right.balanced()
            },
        }
    }

    /// Whether `part` is this tree or one of the subtrees in it.
    pub open spec fn has_part(self, part: Shape<T>) -> bool
        decreases self,
    {
        self == part || match self {
            Shape::Empty => false,
            Shape::Branch { left, right, .. } => left.has_part(part) || right.has_part(part),
        }
    }

    /// The same tree with its root moved to another slot.
    pub open spec fn moved_to(self, to: usize) -> Shape<T> {
        match self {
            Shape::Empty => Shape::Empty,
            Shape::Branch { value, left, right, .. } => Shape::Branch {
                slot: to,
                value,
                left,
                right,
            },
        }
    }

    /// Right rotation: the left child becomes the root, the old root its
    /// right child, and the left child's right subtree changes sides.
    pub open spec fn rot_right(self) -> Shape<T> {
        match self {
            Shape::Empty => self,
            Shape::Branch { slot, value, left, right } => match *left {
                Shape::Empty => self,
                Shape::Branch { slot: ls, value: lv, left: ll, right: lr } => Shape::node(
                    ls,
                    lv,
                    *ll,
                    Shape::node(slot, value, *lr, *right),
                ),
            },
        }
    }

    /// Left rotation, the mirror image of `rot_right`.
    pub open spec fn rot_left(self) -> Shape<T> {
        match self {
            Shape::Empty => self,
            Shape::Branch { slot, value, left, right } => match *right {
                Shape::Empty => self,
                Shape::Branch { slot: rs, value: rv, left: rl, right: rr } => Shape::node(
                    rs,
                    rv,
                    Shape::node(slot, value, *left, *rl),
                    *rr,
                ),
            },
        }
    }

    /// Left rotation of the left child, then right rotation of the root.
    pub open spec fn rot_left_right(self) -> Shape<T> {
        match self {
            Shape::Empty => self,
            Shape::Branch { slot, value, left, right } => Shape::node(
                slot,
                value,
                left.rot_left(),
                *right,
            ).rot_right(),
        }
    }

    /// Right rotation of the right child, then left rotation of the root.
    pub open spec fn rot_right_left(self) -> Shape<T> {
        match self {
            Shape::Empty => self,
            Shape::Branch { slot, value, left, right } => Shape::node(
                slot,
                value,
                *left,
                right.rot_right(),
            ).rot_left(),
        }
    }

    /// What the balancer makes of a tree. At a factor of -2 it rotates
    /// right: singly where the left child is left-heavy or balanced, and
    /// doubly, left then right, where the left child is right-heavy. At +2
    /// it does the mirror image; at any other factor it leaves the tree as
    /// it is.
    pub open spec fn rebalance(self) -> Shape<T> {
        if self.factor() == -2 {
            if self.lhs().factor() <= 0 {
                self.rot_right()
            } else {
                self.rot_left_right()
            }
        } else if self.factor() == 2 {
            if self.rhs().factor() >= 0 {
                self.rot_left()
            } else {
                self.rot_right_left()
            }
        } else {
            self
        }
    }
}

/// `p` is a path of `t`: it starts at the root's slot and goes from parent to
/// child.
pub open spec fn on_path<T>(t: Shape<T>, p: Seq<usize>) -> bool
    decreases t,
{
    match t {
        Shape::Empty => false,
        Shape::Branch { slot, left, right, .. } => {
            &&& p.len() >= 1
            &&& p[0] == slot
            &&& if p.len() == 1 {
                true
            } else if left.link() == Some(p[1]) {
                on_path(*left, p.drop_first())
            } else {
                right.link() == Some(p[1]) && on_path(*right, p.drop_first())
            }
        },
    }
}

/// The subtree at the end of the path `p`, which starts at the root's slot and
/// goes from parent to child.
pub open spec fn descend<T>(t: Shape<T>, p: Seq<usize>) -> Shape<T>
    decreases t,
{
    match t {
        Shape::Empty => t,
        Shape::Branch { left, right, .. } => if p.len() <= 1 {
            t
        } else if left.link() == Some(p[1]) {
            descend(*left, p.drop_first())
        } else {
            descend(*right, p.drop_first())
        },
    }
}

/// The tree with the subtree at the end of the path `p` replaced by `r`.
pub open spec fn graft<T>(t: Shape<T>, p: Seq<usize>, r: Shape<T>) -> Shape<T>
    decreases t,
{
    match t {
        Shape::Empty => t,
        Shape::Branch { slot, value, left, right } => if p.len() <= 1 {
            r
        } else if left.link() == Some(p[1]) {
            Shape::node(slot, value, graft(*left, p.drop_first(), r), *right)
        } else {
            Shape::node(slot, value, *left, graft(*right, p.drop_first(), r))
        },
    }
}

/// The tree after the balancer has gone up the path `p` from its last node
/// to the root, rebalancing each node on it.
pub open spec fn rebuild<T>(t: Shape<T>, p: Seq<usize>) -> Shape<T>
    decreases t,
{
    match t {
        Shape::Empty => t,
        Shape::Branch { slot, value, left, right } => if p.len() == 0 {
            t
        } else if p.len() == 1 {
            t.rebalance()
        } else if left.link() == Some(p[1]) {
            Shape::node(slot, value, rebuild(*left, p.drop_first()), *right).rebalance()
        } else {
            Shape::node(slot, value, *left, rebuild(*right, p.drop_first())).rebalance()
        },
    }
}

/// A tree of height `h >= 0` has a root, and one of its subtrees has height
/// `h - 1`.
pub proof fn lemma_height<T>(t: Shape<T>)
    ensures
        t.height() >= -1,
        t is Empty <==> t.height() == -1,
        t is Branch ==> t.height() > t.lhs().height() && t.height() > t.rhs().height(),
        t is Branch ==> t.height() == 1 + t.lhs().height() || t.height() == 1 + t.rhs().height(),
    decreases t,
{
    match t {
        Shape::Empty => {},
        Shape::Branch { left, right, .. } => {
            lemma_height(*left);
            lemma_height(*right);
        },
    }
}

/// Rotations and rebalancing move nodes about and lose none: slots, values,
/// size and distinctness stay.
pub proof fn lemma_rebalance_keeps<T>(t: Shape<T>)
    ensures
        t.rebalance().slots() == t.slots(),
        t.rebalance().values() == t.values(),
        t.rebalance().size() == t.size(),
        t.distinct() ==> t.rebalance().distinct(),
        t is Branch <==> t.rebalance() is Branch,
{
    lemma_rot_right_keeps(t);
    lemma_rot_left_keeps(t);
    match t {
        Shape::Empty => {},
        Shape::Branch { slot, value, left, right } => {
            let a = Shape::node(slot, value, left.rot_left(), *right);
            lemma_rot_left_keeps(*left);
            lemma_rot_right_keeps(a);
            assert(a.slots() == t.slots());
            assert(a.values() == t.values());
            let b = Shape::node(slot, value, *left, right.rot_right());
            lemma_rot_right_keeps(*right);
            lemma_rot_left_keeps(b);
            assert(b.slots() == t.slots());
            assert(b.values() == t.values());
        },
    }
}

/// A right rotation keeps slots, values, size and distinctness.
pub proof fn lemma_rot_right_keeps<T>(t: Shape<T>)
    ensures
        t.rot_right().slots() =~= t.slots(),
        t.rot_right().values() =~= t.values(),
        t.rot_right().size() == t.size(),
        t.distinct() ==> t.rot_right().distinct(),
        t is Branch <==> t.rot_right() is Branch,
{
    match t {
        Shape::Empty => {},
        Shape::Branch { slot, value, left, right } => match *left {
            Shape::Empty => {},
            Shape::Branch { slot: ls, value: lv, left: ll, right: lr } => {
                let inner = Shape::node(slot, value, *lr, *right);
                assert(inner.slots() =~= lr.slots().union(right.slots()).insert(slot));
                assert(left.slots() =~= ll.slots().union(lr.slots()).insert(ls));
                assert(inner.values() =~= lr.values().union(right.values()).insert(value));
                assert(left.values() =~= ll.values().union(lr.values()).insert(lv));
                assert(inner.size() == 1 + lr.size() + right.size());
                assert(left.size() == 1 + ll.size() + lr.size());
                if t.distinct() {
                    assert(left.distinct());
                    assert(inner.distinct());
                    assert(ll.slots().disjoint(inner.slots()));
                    assert(t.rot_right().distinct());
                }
            },
        },
    }
}

/// A left rotation keeps slots, values, size and distinctness.
pub proof fn lemma_rot_left_keeps<T>(t: Shape<T>)
    ensures
        t.rot_left().slots() =~= t.slots(),
        t.rot_left().values() =~= t.values(),
        t.rot_left().size() == t.size(),
        t.distinct() ==> t.rot_left().distinct(),
        t is Branch <==> t.rot_left() is Branch,
{
    match t {
        Shape::Empty => {},
        Shape::Branch { slot, value, left, right } => match *right {
            Shape::Empty => {},
            Shape::Branch { slot: rs, value: rv, left: rl, right: rr } => {
                let inner = Shape::node(slot, value, *left, *rl);
                assert(inner.slots() =~= left.slots().union(rl.slots()).insert(slot));
                assert(right.slots() =~= rl.slots().union(rr.slots()).insert(rs));
                assert(inner.values() =~= left.values().union(rl.values()).insert(value));
                assert(right.values() =~= rl.values().union(rr.values()).insert(rv));
                assert(inner.size() == 1 + left.size() + rl.size());
                assert(right.size() == 1 + rl.size() + rr.size());
                if t.distinct() {
                    assert(right.distinct());
                    assert(inner.distinct());
                    assert(inner.slots().disjoint(rr.slots()));
                    assert(t.rot_left().distinct());
                }
            },
        },
    }
}

/// The height and the balance of a node, from those of its subtrees.
pub proof fn lemma_node<T>(slot: usize, value: T, l: Shape<T>, r: Shape<T>)
    ensures
        Shape::node(slot, value, l, r).height() == if l.height() >= r.height() {
            1 + l.height()
        } else {
            1 + r.height()
        },
        Shape::node(slot, value, l, r).balanced() == (-1 <= r.height() - l.height() <= 1
            && l.balanced() && r.balanced()),
        Shape::node(slot, value, l, r).factor() == r.height() - l.height(),
        l.height() >= -1,
        r.height() >= -1,
        l.height() == -1 <==> l is Empty,
        r.height() == -1 <==> r is Empty,
{
    lemma_height(l);
    lemma_height(r);
}

/// The right rotation of a tree with the parts given: what it is, and how
/// high and how balanced the tree was.
pub proof fn lemma_turn_right<T>(t: Shape<T>)
    requires
        t.lhs() is Branch,
    ensures
        t.rot_right() == Shape::node(
            t.lhs()->slot,
            t.lhs()->value,
            t.lhs().lhs(),
            Shape::node(t->slot, t->value, t.lhs().rhs(), t.rhs()),
        ),
        t.lhs() == Shape::node(t.lhs()->slot, t.lhs()->value, t.lhs().lhs(), t.lhs().rhs()),
        t == Shape::node(t->slot, t->value, t.lhs(), t.rhs()),
{
}

/// The left rotation of a tree with the parts given.
pub proof fn lemma_turn_left<T>(t: Shape<T>)
    requires
        t.rhs() is Branch,
    ensures
        t.rot_left() == Shape::node(
            t.rhs()->slot,
            t.rhs()->value,
            Shape::node(t->slot, t->value, t.lhs(), t.rhs().lhs()),
            t.rhs().rhs(),
        ),
        t.rhs() == Shape::node(t.rhs()->slot, t.rhs()->value, t.rhs().lhs(), t.rhs().rhs()),
        t == Shape::node(t->slot, t->value, t.lhs(), t.rhs()),
{
}

/// The double rotation to the right of a tree with the parts given.
pub proof fn lemma_turn_left_right<T>(t: Shape<T>)
    requires
        t.lhs().rhs() is Branch,
    ensures
        t.rot_left_right() == Shape::node(
            t.lhs().rhs()->slot,
            t.lhs().rhs()->value,
            Shape::node(t.lhs()->slot, t.lhs()->value, t.lhs().lhs(), t.lhs().rhs().lhs()),
            Shape::node(t->slot, t->value, t.lhs().rhs().rhs(), t.rhs()),
        ),
        t.lhs().rot_left() == Shape::node(
            t.lhs().rhs()->slot,
            t.lhs().rhs()->value,
            Shape::node(t.lhs()->slot, t.lhs()->value, t.lhs().lhs(), t.lhs().rhs().lhs()),
            t.lhs().rhs().rhs(),
        ),
        t.lhs().rhs() == Shape::node(
            t.lhs().rhs()->slot,
            t.lhs().rhs()->value,
            t.lhs().rhs().lhs(),
            t.lhs().rhs().rhs(),
        ),
        t.lhs() == Shape::node(t.lhs()->slot, t.lhs()->value, t.lhs().lhs(), t.lhs().rhs()),
        t == Shape::node(t->slot, t->value, t.lhs(), t.rhs()),
{
    let l = t.lhs();
    lemma_turn_left(l);
    lemma_turn_right(Shape::node(t->slot, t->value, l.rot_left(), t.rhs()));
}

/// The double rotation to the left of a tree with the parts given.
pub proof fn lemma_turn_right_left<T>(t: Shape<T>)
    requires
        t.rhs().lhs() is Branch,
    ensures
        t.rot_right_left() == Shape::node(
            t.rhs().lhs()->slot,
            t.rhs().lhs()->value,
            Shape::node(t->slot, t->value, t.lhs(), t.rhs().lhs().lhs()),
            Shape::node(t.rhs()->slot, t.rhs()->value, t.rhs().lhs().rhs(), t.rhs().rhs()),
        ),
        t.rhs().rot_right() == Shape::node(
            t.rhs().lhs()->slot,
            t.rhs().lhs()->value,
            t.rhs().lhs().lhs(),
            Shape::node(t.rhs()->slot, t.rhs()->value, t.rhs().lhs().rhs(), t.rhs().rhs()),
        ),
        t.rhs().lhs() == Shape::node(
            t.rhs().lhs()->slot,
            t.rhs().lhs()->value,
            t.rhs().lhs().lhs(),
            t.rhs().lhs().rhs(),
        ),
        t.rhs() == Shape::node(t.rhs()->slot, t.rhs()->value, t.rhs().lhs(), t.rhs().rhs()),
        t == Shape::node(t->slot, t->value, t.lhs(), t.rhs()),
{
    let r = t.rhs();
    lemma_turn_right(r);
    lemma_turn_left(Shape::node(t->slot, t->value, t.lhs(), r.rot_right()));
}

/// Where the balancer rotates, the nodes that the rotation turns about are
/// there, and no tree on the way is taller than the one it started from,
/// nor the last more than one lower.
pub proof fn lemma_rebalance_cases<T>(t: Shape<T>)
    ensures
        t.factor() == -2 ==> t.lhs() is Branch,
        t.factor() == -2 && t.lhs().factor() <= 0 ==> t.height() - 1 <= t.rot_right().height()
            <= t.height(),
        t.factor() == -2 && t.lhs().factor() > 0 ==> t.lhs().rhs() is Branch
            && t.lhs().rot_left().height() <= t.height() && t.height() - 1
            <= t.rot_left_right().height() <= t.height(),
        t.factor() == 2 ==> t.rhs() is Branch,
        t.factor() == 2 && t.rhs().factor() >= 0 ==> t.height() - 1 <= t.rot_left().height()
            <= t.height(),
        t.factor() == 2 && t.rhs().factor() < 0 ==> t.rhs().lhs() is Branch
            && t.rhs().rot_right().height() <= t.height() && t.height() - 1
            <= t.rot_right_left().height() <= t.height(),
{
    lemma_height(t);
    lemma_height(t.lhs());
    lemma_height(t.rhs());
    if t.factor() == -2 {
        let l = t.lhs();
        lemma_height(l.lhs());
        lemma_height(l.rhs());
        lemma_turn_right(t);
        lemma_node(t->slot, t->value, l, t.rhs());
        lemma_node(l->slot, l->value, l.lhs(), l.rhs());
        if l.factor() <= 0 {
            lemma_node(t->slot, t->value, l.rhs(), t.rhs());
            lemma_node(
                l->slot,
                l->value,
                l.lhs(),
                Shape::node(t->slot, t->value, l.rhs(), t.rhs()),
            );
        } else {
            let c = l.rhs();
            lemma_height(c.lhs());
            lemma_height(c.rhs());
            lemma_turn_left_right(t);
            lemma_node(c->slot, c->value, c.lhs(), c.rhs());
            let low = Shape::node(l->slot, l->value, l.lhs(), c.lhs());
            let high = Shape::node(t->slot, t->value, c.rhs(), t.rhs());
            lemma_node(l->slot, l->value, l.lhs(), c.lhs());
            lemma_node(t->slot, t->value, c.rhs(), t.rhs());
            lemma_node(c->slot, c->value, low, c.rhs());
            lemma_node(c->slot, c->value, low, high);
        }
    } else if t.factor() == 2 {
        let r = t.rhs();
        lemma_height(r.lhs());
        lemma_height(r.rhs());
        lemma_turn_left(t);
        lemma_node(t->slot, t->value, t.lhs(), r);
        lemma_node(r->slot, r->value, r.lhs(), r.rhs());
        if r.factor() >= 0 {
            lemma_node(t->slot, t->value, t.lhs(), r.lhs());
            lemma_node(
                r->slot,
                r->value,
                Shape::node(t->slot, t->value, t.lhs(), r.lhs()),
                r.rhs(),
            );
        } else {
            let c = r.lhs();
            lemma_height(c.lhs());
            lemma_height(c.rhs());
            lemma_turn_right_left(t);
            lemma_node(c->slot, c->value, c.lhs(), c.rhs());
            let low = Shape::node(r->slot, r->value, c.rhs(), r.rhs());
            let high = Shape::node(t->slot, t->value, t.lhs(), c.lhs());
            lemma_node(r->slot, r->value, c.rhs(), r.rhs());
            lemma_node(t->slot, t->value, t.lhs(), c.lhs());
            lemma_node(c->slot, c->value, c.lhs(), low);
            lemma_node(c->slot, c->value, high, low);
        }
    }
}

/// Rebalancing never makes a tree taller, and makes it at most one shorter.
pub proof fn lemma_rebalance_height<T>(t: Shape<T>)
    ensures
        t.height() - 1 <= t.rebalance().height() <= t.height(),
{
    lemma_rebalance_cases(t);
}

/// Rebalancing the last node of a path and then going up the rest of the
/// path is going up the whole path.
pub proof fn lemma_rebuild_step<T>(t: Shape<T>, p: Seq<usize>)
    requires
        p.len() >= 2,
    ensures
        rebuild(t, p) == rebuild(graft(t, p, descend(t, p).rebalance()), p.drop_last()),
    decreases t,
{
    let q = p.drop_last();
    let r = descend(t, p).rebalance();
    match t {
        Shape::Empty => {},
        Shape::Branch { slot, value, left, right } => {
            assert(q.len() >= 1 && q[0] == p[0]);
            if p.len() == 2 {
                assert(p.drop_first().len() == 1);
                assert(q.len() == 1);
                if left.link() == Some(p[1]) {
                    assert(descend(*left, p.drop_first()) == *left);
                    assert(descend(t, p) == *left);
                    assert(rebuild(*left, p.drop_first()) == left.rebalance());
                } else {
                    assert(descend(*right, p.drop_first()) == *right);
                    assert(descend(t, p) == *right);
                    assert(rebuild(*right, p.drop_first()) == right.rebalance());
                }
            } else {
                assert(q[1] == p[1]);
                assert(q.drop_first() =~= p.drop_first().drop_last());
                if left.link() == Some(p[1]) {
                    lemma_rebuild_step(*left, p.drop_first());
                    assert(graft(*left, p.drop_first(), r).link() == left.link());
                } else {
                    lemma_rebuild_step(*right, p.drop_first());
                }
            }
        },
    }
}

/// Replacing the subtree at the end of a path by one within the same slots
/// that is no taller keeps the slots of the whole distinct and within those
/// it had, and makes it no taller.
pub proof fn lemma_graft_keeps<T>(t: Shape<T>, p: Seq<usize>, r: Shape<T>)
    requires
        t.distinct(),
        r.distinct(),
        r.slots().subset_of(descend(t, p).slots()),
        r.height() <= descend(t, p).height(),
    ensures
        graft(t, p, r).slots().subset_of(t.slots()),
        r.slots() == descend(t, p).slots() ==> graft(t, p, r).slots() == t.slots(),
        graft(t, p, r).distinct(),
        graft(t, p, r).height() <= t.height(),
        p.len() >= 2 ==> graft(t, p, r).link() == t.link(),
    decreases t,
{
    match t {
        Shape::Empty => {},
        Shape::Branch { slot, value, left, right } => {
            if p.len() <= 1 {
            } else if left.link() == Some(p[1]) {
                lemma_graft_keeps(*left, p.drop_first(), r);
            } else {
                lemma_graft_keeps(*right, p.drop_first(), r);
            }
        },
    }
}

/// The slots of a grafted tree: those of the tree outside the subtree at the
/// end of the path, and those of what was put in its place.
pub proof fn lemma_graft_slots<T>(t: Shape<T>, p: Seq<usize>, r: Shape<T>)
    requires
        t.distinct(),
        on_path(t, p),
    ensures
        graft(t, p, r).slots() == t.slots().difference(descend(t, p).slots()).union(r.slots()),
    decreases t,
{
    match t {
        Shape::Empty => {},
        Shape::Branch { slot, value, left, right } => {
            if p.len() <= 1 {
                assert(graft(t, p, r).slots() =~= t.slots().difference(
                    descend(t, p).slots(),
                ).union(r.slots()));
            } else if left.link() == Some(p[1]) {
                lemma_graft_slots(*left, p.drop_first(), r);
                lemma_descend_within(*left, p.drop_first());
                assert(graft(t, p, r).slots() =~= t.slots().difference(
                    descend(t, p).slots(),
                ).union(r.slots()));
            } else {
                lemma_graft_slots(*right, p.drop_first(), r);
                lemma_descend_within(*right, p.drop_first());
                assert(graft(t, p, r).slots() =~= t.slots().difference(
                    descend(t, p).slots(),
                ).union(r.slots()));
            }
        },
    }
}

/// Going up a path after a graft, seen from the root: the child on the path
/// is grafted and gone up first, then the root is rebalanced.
pub proof fn lemma_rebuild_down<T>(t: Shape<T>, p: Seq<usize>, path: Seq<usize>, r: Shape<T>)
    requires
        t is Branch,
        p.len() >= 2,
        path.len() >= 1,
        path.len() >= 2 ==> path[1] == p[1],
        path.len() >= 2 && t.lhs().link() == Some(p[1]) ==> graft(t.lhs(), p.drop_first(), r).link()
            == Some(p[1]),
    ensures
        t.lhs().link() == Some(p[1]) ==> rebuild(graft(t, p, r), path) == Shape::node(
            t->slot,
            t->value,
            rebuild(graft(t.lhs(), p.drop_first(), r), path.drop_first()),
            t.rhs(),
        ).rebalance(),
        t.lhs().link() != Some(p[1]) ==> rebuild(graft(t, p, r), path) == Shape::node(
            t->slot,
            t->value,
            t.lhs(),
            rebuild(graft(t.rhs(), p.drop_first(), r), path.drop_first()),
        ).rebalance(),
{
    let q = p.drop_first();
    if path.len() == 1 {
        assert(path.drop_first().len() == 0);
        let gl = graft(t.lhs(), q, r);
        let gr = graft(t.rhs(), q, r);
        assert(rebuild(gl, path.drop_first()) == gl) by {
            if gl is Branch {
            }
        }
        assert(rebuild(gr, path.drop_first()) == gr) by {
            if gr is Branch {
            }
        }
    }
}

/// The subtree at the end of a path is part of the tree.
pub proof fn lemma_descend_within<T>(t: Shape<T>, p: Seq<usize>)
    requires
        t.distinct(),
    ensures
        descend(t, p).slots().subset_of(t.slots()),
        descend(t, p).distinct(),
        descend(t, p).height() <= t.height(),
    decreases t,
{
    match t {
        Shape::Empty => {},
        Shape::Branch { slot, value, left, right } => {
            if p.len() <= 1 {
            } else if left.link() == Some(p[1]) {
                lemma_descend_within(*left, p.drop_first());
            } else {
                lemma_descend_within(*right, p.drop_first());
            }
        },
    }
}

/// The slot map is defined on the slots.
pub proof fn lemma_slot_map_dom<T>(t: Shape<T>)
    ensures
        t.slot_map().dom() =~= t.slots(),
    decreases t,
{
    match t {
        Shape::Empty => {},
        Shape::Branch { slot, left, right, .. } => {
            lemma_slot_map_dom(*left);
            lemma_slot_map_dom(*right);
        },
    }
}

/// The slots below `n`.
pub open spec fn slots_below(n: nat) -> Set<usize> {
    Set::new(|i: usize| i < n)
}

/// There are `n` slots below `n`.
pub proof fn lemma_slots_below(n: nat)
    requires
        n <= usize::MAX + 1,
    ensures
        slots_below(n).finite(),
        slots_below(n).len() == n,
    decreases n,
{
    if n == 0 {
        assert(slots_below(n) =~= Set::empty());
    } else {
        lemma_slots_below((n - 1) as nat);
        assert(slots_below(n) =~= slots_below((n - 1) as nat).insert((n - 1) as usize));
    }
}

/// A shape without a slot used twice has as many slots as nodes.
pub proof fn lemma_size_slots<T>(t: Shape<T>)
    requires
        t.distinct(),
    ensures
        t.slots().finite(),
        t.slots().len() == t.size(),
    decreases t,
{
    match t {
        Shape::Empty => {},
        Shape::Branch { slot, left, right, .. } => {
            lemma_size_slots(*left);
            lemma_size_slots(*right);
            vstd::set_lib::lemma_set_disjoint_lens(left.slots(), right.slots());
        },
    }
}

/// A shape without a slot used twice, all of whose slots are below `n`, has
/// at most `n` nodes.
pub proof fn lemma_size_bound<T>(t: Shape<T>, n: nat)
    requires
        t.distinct(),
        n <= usize::MAX + 1,
        forall|i: usize| t.slots().contains(i) ==> i < n,
    ensures
        t.size() <= n,
{
    lemma_size_slots(t);
    lemma_slots_below(n);
    assert(t.slots().subset_of(slots_below(n)));
    vstd::set_lib::lemma_len_subset(t.slots(), slots_below(n));
}

} // verus!
