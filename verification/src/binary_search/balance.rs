//! Height bookkeeping and the rotations.

use super::layout::agree;
use super::layout::hangs;
use super::layout::lemma_descend_hangs;
use super::layout::lemma_changes;
use super::layout::lemma_frame;
use super::layout::lemma_graft_stored;
use super::layout::same_payload;
use super::layout::stored;
use super::layout::stored_along;
use super::Tree;
use crate::avl::lemma_rebalance_balanced;
use crate::avl::lemma_rebuild_balanced;
use crate::avl::mends;
use crate::shape::descend;
use crate::shape::graft;
use crate::shape::lemma_descend_within;
use crate::shape::lemma_graft_keeps;
use crate::shape::lemma_height;
use crate::shape::lemma_rebalance_cases;
use crate::shape::lemma_rebalance_height;
use crate::shape::lemma_rebalance_keeps;
use crate::shape::lemma_rebuild_step;
use crate::shape::lemma_rot_left_keeps;
use crate::shape::lemma_rot_right_keeps;
use crate::shape::rebuild;
use crate::shape::Shape;
use vstd::prelude::*;

verus! {

impl<T> Tree<T> {
    /// Sets the height of the node at `index` from the heights of its
    /// children and returns its balance factor.
    pub(super) fn update_height(&mut self, index: usize, Ghost(t): Ghost<Shape<T>>) -> (factor:
        i8)
        requires
            hangs(old(self).data@, t),
            t.link() == Some(index),
            t.distinct(),
            t.height() <= 127,
        ensures
            stored(final(self).data@, t),
            factor == t.factor(),
            agree(old(self).data@, final(self).data@, set![index]),
            same_payload(old(self).data@, final(self).data@),
            final(self).free == old(self).free,
            final(self).root == old(self).root,
            final(self).size == old(self).size,
    {
        let node_data = self.data[index].as_ref().unwrap();
        let left_height: i8 = match node_data.left {
            Some(n) => self.data[n].as_ref().unwrap().height,
            None => -1,
        };
        let right_height: i8 = match node_data.right {
            Some(n) => self.data[n].as_ref().unwrap().height,
            None => -1,
        };
        proof {
            lemma_height(t);
            lemma_height(t.lhs());
            lemma_height(t.rhs());
            assert(left_height == t.lhs().height());
            assert(right_height == t.rhs().height());
        }
        let taller: i8 = if left_height >= right_height {
            left_height
        } else {
            right_height
        };
        self.data[index].as_mut().unwrap().height = 1 + taller;
        proof {
            lemma_frame(old(self).data@, self.data@, set![index], t.lhs());
            lemma_frame(old(self).data@, self.data@, set![index], t.rhs());
        }
        right_height - left_height
    }

    /// Rotates the node at `index` to the right: its left child comes up in
    /// its place. Returns the slot of that child, the new root of the
    /// subtree.
    pub(super) fn rotate_right(&mut self, index: usize, Ghost(t): Ghost<Shape<T>>) -> (top: usize)
        requires
            hangs(old(self).data@, t),
            t.link() == Some(index),
            t.lhs() is Branch,
            t.distinct(),
            t.rot_right().height() <= 127,
        ensures
            stored(final(self).data@, t.rot_right()),
            t.rot_right().link() == Some(top),
            agree(old(self).data@, final(self).data@, t.slots()),
            same_payload(old(self).data@, final(self).data@),
            final(self).free == old(self).free,
            final(self).root == old(self).root,
            final(self).size == old(self).size,
    {
        let left_index = self.data[index].as_ref().unwrap().left.unwrap();
        let left_right_index = self.data[left_index].as_ref().unwrap().right;

        self.data[index].as_mut().unwrap().left = left_right_index;
        self.data[left_index].as_mut().unwrap().right = Some(index);

        let ghost low = Shape::node(index, t->value, t.lhs().rhs(), t.rhs());
        let ghost changed = set![index, left_index];
        proof {
            reveal_with_fuel(Shape::height, 3);
            assert(agree(old(self).data@, self.data@, changed));
            assert(t.lhs().slots().contains(left_index));
            assert(t.lhs().distinct());
            assert(stored(old(self).data@, t.lhs().lhs()));
            assert(stored(old(self).data@, t.lhs().rhs()));
            assert(changed.disjoint(t.lhs().lhs().slots()));
            assert(changed.disjoint(t.lhs().rhs().slots()));
            assert(changed.disjoint(t.rhs().slots()));
            lemma_frame(old(self).data@, self.data@, changed, t.lhs().lhs());
            lemma_frame(old(self).data@, self.data@, changed, t.lhs().rhs());
            lemma_frame(old(self).data@, self.data@, changed, t.rhs());
            lemma_height(t.lhs().lhs());
            assert(low.slots() =~= t.lhs().rhs().slots().union(t.rhs().slots()).insert(index));
            assert(low.distinct());
        }
        let ghost mid = self.data@;
        self.update_height(index, Ghost(low));
        proof {
            lemma_frame(mid, self.data@, set![index], t.lhs().lhs());
            assert(t.rot_right().distinct()) by {
                lemma_rot_right_keeps(t);
            }
        }
        self.update_height(left_index, Ghost(t.rot_right()));

        left_index
    }

    /// Rotates the node at `index` to the left: its right child comes up in
    /// its place. Returns the slot of that child, the new root of the
    /// subtree.
    pub(super) fn rotate_left(&mut self, index: usize, Ghost(t): Ghost<Shape<T>>) -> (top: usize)
        requires
            hangs(old(self).data@, t),
            t.link() == Some(index),
            t.rhs() is Branch,
            t.distinct(),
            t.rot_left().height() <= 127,
        ensures
            stored(final(self).data@, t.rot_left()),
            t.rot_left().link() == Some(top),
            agree(old(self).data@, final(self).data@, t.slots()),
            same_payload(old(self).data@, final(self).data@),
            final(self).free == old(self).free,
            final(self).root == old(self).root,
            final(self).size == old(self).size,
    {
        let right_index = self.data[index].as_ref().unwrap().right.unwrap();
        let right_left_index = self.data[right_index].as_ref().unwrap().left;

        self.data[index].as_mut().unwrap().right = right_left_index;
        self.data[right_index].as_mut().unwrap().left = Some(index);

        let ghost low = Shape::node(index, t->value, t.lhs(), t.rhs().lhs());
        let ghost changed = set![index, right_index];
        proof {
            reveal_with_fuel(Shape::height, 3);
            assert(agree(old(self).data@, self.data@, changed));
            assert(t.rhs().slots().contains(right_index));
            assert(t.rhs().distinct());
            assert(stored(old(self).data@, t.rhs().lhs()));
            assert(stored(old(self).data@, t.rhs().rhs()));
            assert(changed.disjoint(t.rhs().lhs().slots()));
            assert(changed.disjoint(t.rhs().rhs().slots()));
            assert(changed.disjoint(t.lhs().slots()));
            lemma_frame(old(self).data@, self.data@, changed, t.rhs().rhs());
            lemma_frame(old(self).data@, self.data@, changed, t.rhs().lhs());
            lemma_frame(old(self).data@, self.data@, changed, t.lhs());
            lemma_height(t.rhs().rhs());
            assert(low.slots() =~= t.lhs().slots().union(t.rhs().lhs().slots()).insert(index));
            assert(low.distinct());
        }
        let ghost mid = self.data@;
        self.update_height(index, Ghost(low));
        proof {
            lemma_frame(mid, self.data@, set![index], t.rhs().rhs());
            assert(t.rot_left().distinct()) by {
                lemma_rot_left_keeps(t);
            }
        }
        self.update_height(right_index, Ghost(t.rot_left()));

        right_index
    }

    /// Rotates the left child of the node at `index` to the left, then the
    /// node itself to the right. Returns the slot of the new root of the
    /// subtree.
    pub(super) fn rotate_left_right(&mut self, index: usize, Ghost(t): Ghost<Shape<T>>) -> (top:
        usize)
        requires
            hangs(old(self).data@, t),
            t.link() == Some(index),
            t.lhs().rhs() is Branch,
            t.distinct(),
            t.lhs().rot_left().height() <= 127,
            t.rot_left_right().height() <= 127,
        ensures
            stored(final(self).data@, t.rot_left_right()),
            t.rot_left_right().link() == Some(top),
            agree(old(self).data@, final(self).data@, t.slots()),
            same_payload(old(self).data@, final(self).data@),
            final(self).free == old(self).free,
            final(self).root == old(self).root,
            final(self).size == old(self).size,
    {
        let left_index = self.data[index].as_ref().unwrap().left.unwrap();

        let new_left = self.rotate_left(left_index, Ghost(t.lhs()));
        let ghost mid = self.data@;
        self.data[index].as_mut().unwrap().left = Some(new_left);
        let ghost turned = Shape::node(index, t->value, t.lhs().rot_left(), t.rhs());
        proof {
            lemma_rot_left_keeps(t.lhs());
            lemma_frame(old(self).data@, mid, t.lhs().slots(), t.rhs());
            lemma_frame(mid, self.data@, set![index], t.rhs());
            lemma_frame(mid, self.data@, set![index], t.lhs().rot_left());
            assert(turned.distinct());
            assert(turned.slots() == t.slots());
            assert(agree(mid, self.data@, t.slots()));
            assert(same_payload(mid, self.data@));
            lemma_changes(old(self).data@, mid, self.data@, t.slots());
        }
        let ghost linked = self.data@;
        let top = self.rotate_right(index, Ghost(turned));
        proof {
            lemma_changes(old(self).data@, linked, self.data@, t.slots());
        }
        top
    }

    /// Rotates the right child of the node at `index` to the right, then the
    /// node itself to the left. Returns the slot of the new root of the
    /// subtree.
    pub(super) fn rotate_right_left(&mut self, index: usize, Ghost(t): Ghost<Shape<T>>) -> (top:
        usize)
        requires
            hangs(old(self).data@, t),
            t.link() == Some(index),
            t.rhs().lhs() is Branch,
            t.distinct(),
            t.rhs().rot_right().height() <= 127,
            t.rot_right_left().height() <= 127,
        ensures
            stored(final(self).data@, t.rot_right_left()),
            t.rot_right_left().link() == Some(top),
            agree(old(self).data@, final(self).data@, t.slots()),
            same_payload(old(self).data@, final(self).data@),
            final(self).free == old(self).free,
            final(self).root == old(self).root,
            final(self).size == old(self).size,
    {
        let right_index = self.data[index].as_ref().unwrap().right.unwrap();

        let new_right = self.rotate_right(right_index, Ghost(t.rhs()));
        let ghost mid = self.data@;
        self.data[index].as_mut().unwrap().right = Some(new_right);
        let ghost turned = Shape::node(index, t->value, t.lhs(), t.rhs().rot_right());
        proof {
            lemma_rot_right_keeps(t.rhs());
            lemma_frame(old(self).data@, mid, t.rhs().slots(), t.lhs());
            lemma_frame(mid, self.data@, set![index], t.lhs());
            lemma_frame(mid, self.data@, set![index], t.rhs().rot_right());
            assert(turned.distinct());
            assert(turned.slots() == t.slots());
            assert(agree(mid, self.data@, t.slots()));
            assert(same_payload(mid, self.data@));
            lemma_changes(old(self).data@, mid, self.data@, t.slots());
        }
        let ghost linked = self.data@;
        let top = self.rotate_left(index, Ghost(turned));
        proof {
            lemma_changes(old(self).data@, linked, self.data@, t.slots());
        }
        top
    }

    /// Restores the balance of the node at `index`, whose height has just
    /// been set and whose balance factor is `balance_factor`: at -2 by a
    /// right rotation, single where the left child is left-heavy or
    /// balanced and double where it is right-heavy, at 2 by the mirror
    /// image. Returns the slot of the root of the subtree afterwards.
    pub(super) fn balance_node(
        &mut self,
        index: usize,
        balance_factor: i8,
        Ghost(t): Ghost<Shape<T>>,
    ) -> (top: usize)
        requires
            stored(old(self).data@, t),
            t.link() == Some(index),
            t.distinct(),
            balance_factor == t.factor(),
        ensures
            stored(final(self).data@, t.rebalance()),
            t.rebalance().link() == Some(top),
            t.lhs().balanced() && t.rhs().balanced() && -2 <= t.factor() <= 2
                ==> t.rebalance().balanced(),
            agree(old(self).data@, final(self).data@, t.slots()),
            same_payload(old(self).data@, final(self).data@),
            final(self).free == old(self).free,
            final(self).root == old(self).root,
            final(self).size == old(self).size,
    {
        proof {
            lemma_rebalance_cases(t);
            assert(stored(self.data@, t.lhs()));
            assert(stored(self.data@, t.rhs()));
            if t.lhs().balanced() && t.rhs().balanced() && -2 <= t.factor() <= 2 {
                lemma_rebalance_balanced(t);
            }
        }
        if balance_factor == -2 {
            let left_index = self.data[index].as_ref().unwrap().left.unwrap();
            let lean = self.lean(left_index, Ghost(t.lhs()));
            if lean <= 0 {
                self.rotate_right(index, Ghost(t))
            } else {
                self.rotate_left_right(index, Ghost(t))
            }
        } else if balance_factor == 2 {
            let right_index = self.data[index].as_ref().unwrap().right.unwrap();
            let lean = self.lean(right_index, Ghost(t.rhs()));
            if lean >= 0 {
                self.rotate_left(index, Ghost(t))
            } else {
                self.rotate_right_left(index, Ghost(t))
            }
        } else {
            index
        }
    }

    /// The balance factor of the node at `index`, from the heights that its
    /// children have on record.
    pub(super) fn lean(&self, index: usize, Ghost(t): Ghost<Shape<T>>) -> (factor: i8)
        requires
            stored(self.data@, t),
            t.link() == Some(index),
        ensures
            factor == t.factor(),
    {
        proof {
            assert(super::layout::linked_at(self.data@, t));
            assert(stored(self.data@, t.lhs()));
            assert(stored(self.data@, t.rhs()));
        }
        let node_data = self.data[index].as_ref().unwrap();
        let left_height: i8 = match node_data.left {
            Some(n) => self.data[n].as_ref().unwrap().height,
            None => -1,
        };
        let right_height: i8 = match node_data.right {
            Some(n) => self.data[n].as_ref().unwrap().height,
            None => -1,
        };
        proof {
            lemma_height(t);
            lemma_height(t.lhs());
            lemma_height(t.rhs());
            assert(left_height == t.lhs().height());
            assert(right_height == t.rhs().height());
        }
        right_height - left_height
    }

    /// Goes up the path `visited_indices` from its last node to the root:
    /// sets each node's height, restores its balance, and links its parent,
    /// or the tree's root, to what has become of it.
    pub(super) fn update_and_balance(
        &mut self,
        visited_indices: Vec<usize>,
        Ghost(t): Ghost<Shape<T>>,
    )
        requires
            stored_along(old(self).data@, t, visited_indices@),
            t.distinct(),
            t.height() <= 127,
        ensures
            stored(final(self).data@, rebuild(t, visited_indices@)),
            rebuild(t, visited_indices@).link() == Some(final(self).root),
            mends(t, visited_indices@) ==> rebuild(t, visited_indices@).balanced(),
            agree(old(self).data@, final(self).data@, t.slots()),
            same_payload(old(self).data@, final(self).data@),
            final(self).free == old(self).free,
            final(self).size == old(self).size,
    {
        let mut visited_indices = visited_indices;
        let ghost goal = rebuild(t, visited_indices@);
        proof {
            if mends(t, visited_indices@) {
                lemma_rebuild_balanced(t, visited_indices@);
            }
        }
        let ghost mut cur = t;
        while visited_indices.len() > 0
            invariant
                cur.distinct(),
                cur.height() <= 127,
                cur.slots() == t.slots(),
                cur is Branch,
                visited_indices@.len() > 0 ==> stored_along(self.data@, cur, visited_indices@)
                    && rebuild(cur, visited_indices@) == goal,
                visited_indices@.len() == 0 ==> stored(self.data@, cur) && cur == goal
                    && cur.link() == Some(self.root),
                agree(old(self).data@, self.data@, t.slots()),
                same_payload(old(self).data@, self.data@),
                self.free == old(self).free,
                self.size == old(self).size,
            decreases visited_indices.len(),
        {
            let ghost p = visited_indices@;
            let ghost before = self.data@;
            let index = visited_indices.pop().unwrap();
            let ghost sub = descend(cur, p);
            proof {
                lemma_descend_hangs(before, cur, p);
                lemma_descend_within(cur, p);
            }
            let balance_factor = self.update_height(index, Ghost(sub));
            let new_parent = self.balance_node(index, balance_factor, Ghost(sub));
            let ghost fixed = sub.rebalance();
            proof {
                lemma_rebalance_keeps(sub);
                lemma_rebalance_height(sub);
                lemma_graft_keeps(cur, p, fixed);
                assert(agree(before, self.data@, sub.slots()));
            }

            // Set the parent to point to the subtree's new root.
            if visited_indices.len() > 0 {
                let n = visited_indices[visited_indices.len() - 1];
                let ghost mid = self.data@;
                let child_is_left = match self.data[n].as_ref().unwrap().left {
                    Some(left) => index == left,
                    None => false,
                };
                if child_is_left {
                    self.data[n].as_mut().unwrap().left = Some(new_parent);
                } else {
                    self.data[n].as_mut().unwrap().right = Some(new_parent);
                }
                proof {
                    assert(n == p[p.len() - 2]);
                    assert(mid[n as int] == before[n as int]);
                    lemma_frame(mid, self.data@, set![n], fixed);
                    assert(agree(before, self.data@, sub.slots().insert(n)));
                    lemma_graft_stored(before, self.data@, cur, p, fixed, Seq::empty());
                    assert(p.drop_last() + Seq::<usize>::empty() =~= p.drop_last());
                    lemma_rebuild_step(cur, p);
                    assert(visited_indices@ == p.drop_last());
                    cur = graft(cur, p, fixed);
                }
            } else {
                self.root = new_parent;
                proof {
                    assert(p.len() == 1);
                    assert(sub == cur);
                    cur = fixed;
                }
            }
        }
    }
}

} // verus!
