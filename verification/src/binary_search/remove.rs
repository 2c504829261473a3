//! Removal.

use super::below;
use super::layout::agree;
use super::layout::lemma_descend_hangs;
use super::layout::lemma_frame;
use super::layout::lemma_frame_along;
use super::layout::lemma_frame_on;
use super::layout::lemma_graft_stored;
use super::layout::lemma_stored_along;
use super::layout::lemma_stored_occupied;
use super::layout::lemma_stored_root;
use super::layout::stored;
use super::layout::stored_along;
use super::lemma_below;
use super::Node;
use super::Tree;
use crate::avl::lemma_graft_mends;
use crate::avl::lemma_mends_whole;
use crate::avl::lemma_pruned_raw_mends;
use crate::avl::lemma_target_balanced;
use crate::avl::lemma_without_balanced;
use crate::lists::lemma_pushed;
use crate::lists::lemma_pushed_fresh;
use crate::order::compare;
use crate::order::lemma_trichotomy;
use crate::order::total_order;
use crate::order::Rel;
use crate::prune::lemma_left_spine;
use crate::prune::lemma_pruned_rebuild;
use crate::prune::lemma_right_spine;
use crate::prune::lemma_without_first_keeps;
use crate::prune::lemma_without_first_rebuild;
use crate::prune::lemma_without_last_keeps;
use crate::prune::lemma_without_last_rebuild;
use crate::shape::graft;
use crate::shape::lemma_graft_keeps;
use crate::shape::lemma_graft_slots;
use crate::shape::lemma_height;
use crate::shape::rebuild;
use crate::shape::Shape;
use crate::sorted::lemma_find;
use crate::without::lemma_target;
use crate::without::lemma_without;
use crate::without::lemma_without_rebuild;
use vstd::prelude::*;

verus! {

impl<T> Tree<T> {
    /// Takes the vacant slots off the end of the arena, and their indices
    /// off the free list.
    pub(super) fn clean_tail(&mut self)
        ensures
            final(self).data@.len() <= old(self).data@.len(),
            final(self).data@ == old(self).data@.take(final(self).data@.len() as int),
            final(self).data@.len() > 0 ==> final(self).data@.last() is Some,
            forall|j: int|
                final(self).data@.len() <= j < old(self).data@.len() ==> (#[trigger] old(self).data@[j]) is None,
            final(self).free@ == below(old(self).free@, final(self).data@.len()),
            final(self).root == old(self).root,
            final(self).size == old(self).size,
    {
        while self.data.len() > 0 && self.data[self.data.len() - 1].is_none()
            invariant
                self.data@.len() <= old(self).data@.len(),
                self.data@ == old(self).data@.take(self.data@.len() as int),
                forall|j: int|
                    self.data@.len() <= j < old(self).data@.len() ==> (#[trigger] old(self).data@[j]) is None,
                self.free == old(self).free,
                self.root == old(self).root,
                self.size == old(self).size,
            decreases self.data.len(),
        {
            self.data.pop();
        }
        let mut kept: Vec<usize> = Vec::new();
        let mut i: usize = 0;
        while i < self.free.len()
            invariant
                i <= self.free.len(),
                kept@ == below(self.free@.take(i as int), self.data@.len()),
                self.data@.len() <= old(self).data@.len(),
                self.data@ == old(self).data@.take(self.data@.len() as int),
                self.data@.len() > 0 ==> self.data@.last() is Some,
                forall|j: int|
                    self.data@.len() <= j < old(self).data@.len() ==> (#[trigger] old(self).data@[j]) is None,
                self.free == old(self).free,
                self.root == old(self).root,
                self.size == old(self).size,
            decreases self.free.len() - i,
        {
            let slot = self.free[i];
            proof {
                assert(self.free@.take(i + 1).drop_last() =~= self.free@.take(i as int));
            }
            if slot < self.data.len() {
                kept.push(slot);
            }
            i += 1;
        }
        proof {
            assert(self.free@.take(i as int) =~= self.free@);
        }
        self.free = kept;
    }

    /// What holds once a removal has put the shape `w` into the arena
    /// `before`, put the vacated slot on the free list `free`, and cleaned
    /// the tail: the tree is well formed and has the shape `w`.
    pub(super) proof fn lemma_settled(&self, before: Seq<Option<Node<T>>>, free: Seq<usize>, w: Shape<T>)
        requires
            stored(before, w),
            w.distinct(),
            w.balanced(),
            w.link() == Some(self.root),
            w.size() == self.size,
            forall|i: usize|
                i < before.len() ==> (#[trigger] before[i as int] is Some <==> w.slots().contains(
                    i,
                )),
            free.no_duplicates(),
            forall|i: usize| #[trigger]
                free.contains(i) <==> i < before.len() && before[i as int] is None,
            self.data@.len() <= before.len(),
            self.data@ == before.take(self.data@.len() as int),
            self.data@.len() > 0 ==> self.data@.last() is Some,
            forall|j: int| self.data@.len() <= j < before.len() ==> (#[trigger] before[j]) is None,
            self.free@ == below(free, self.data@.len()),
        ensures
            self.wf(),
            self.shape() == w,
    {
        assert forall|j: usize| #[trigger] w.slots().contains(j) implies j < self.data@.len()
            && before[j as int] == self.data@[j as int] by {
            lemma_stored_occupied(before, w, j);
        }
        lemma_frame_on(before, self.data@, w);
        assert(w is Branch);
        assert(w.size() > 0);
        self.lemma_shape_is(w);
        lemma_below(free, self.data@.len());
        assert forall|i: usize| i < self.data@.len() implies (#[trigger] self.data@[i as int]
            is Some <==> w.slots().contains(i)) by {
            assert(before[i as int] is Some <==> w.slots().contains(i));
        }
        assert forall|i: usize| #[trigger]
            self.free@.contains(i) <==> i < self.data@.len() && self.data@[i as int] is None by {
            assert(free.contains(i) <==> i < before.len() && before[i as int] is None);
        }
    }

    /// Goes down the right spine from the node at `top`, recording every
    /// node above the last one, and unlinks the last node: where it has a
    /// left child, the two exchange their slots, so that the child stands in
    /// its place; where it has none, the link to it is cleared. Returns the
    /// slot that now holds the unlinked node.
    pub(super) fn unlink_last(
        &mut self,
        top: usize,
        visited_indices: &mut Vec<usize>,
        Ghost(sub): Ghost<Shape<T>>,
    ) -> (replace_index: usize)
        requires
            stored(old(self).data@, sub),
            sub.link() == Some(top),
            sub.distinct(),
            old(visited_indices)@.len() > 0,
            old(visited_indices)@.last() < old(self).data@.len(),
            old(self).data@[old(visited_indices)@.last() as int] is Some,
            !sub.slots().contains(old(visited_indices)@.last()),
        ensures
            final(visited_indices)@ == old(visited_indices)@ + sub.right_spine().drop_last(),
            replace_index == sub.last_vacated(),
            replace_index < final(self).data@.len(),
            final(self).data@[replace_index as int] matches Some(n) && n.value
                == sub.last()->value,
            if sub.rhs() is Branch {
                stored_along(
                    final(self).data@,
                    graft(sub, sub.right_spine(), sub.last_heir()),
                    sub.right_spine().drop_last(),
                )
            } else {
                stored(final(self).data@, graft(sub, sub.right_spine(), sub.last_heir()))
            },
            agree(
                old(self).data@,
                final(self).data@,
                sub.slots().insert(old(visited_indices)@.last()),
            ),
            final(self).data@.len() == old(self).data@.len(),
            forall|j: usize|
                j < final(self).data@.len() ==> (#[trigger] final(self).data@[j as int] is Some
                    <==> old(self).data@[j as int] is Some),
            final(self).data@[old(visited_indices)@.last() as int].unwrap().value == old(self).data@[old(visited_indices)@.last() as int].unwrap().value,
            final(self).free == old(self).free,
            final(self).root == old(self).root,
            final(self).size == old(self).size,
    {
        let ghost above = visited_indices@.last();
        let ghost fs = sub.right_spine();
        let ghost given = visited_indices@;
        let ghost a = self.data@;
        let mut current_index = top;
        let ghost mut cur = sub;
        proof {
            lemma_right_spine(sub);
        }
        let mut next = self.data[current_index].as_ref().unwrap().right;
        while next.is_some()
            invariant
                self.data@ == a,
                a == old(self).data@,
                stored(a, sub),
                sub.distinct(),
                sub is Branch,
                fs == sub.right_spine(),
                stored(a, cur),
                cur is Branch,
                cur.distinct(),
                cur.link() == Some(current_index),
                cur.slots().subset_of(sub.slots()),
                cur.last() == sub.last(),
                next == cur.rhs().link(),
                visited_indices@ + cur.right_spine() == given + fs,
                visited_indices@.len() >= given.len(),
                visited_indices@.len() == given.len() ==> cur == sub,
                visited_indices@.len() > given.len() ==> {
                    &&& sub.slots().contains(visited_indices@.last())
                    &&& !cur.slots().contains(visited_indices@.last())
                    &&& a[visited_indices@.last() as int] matches Some(n) && n.right == Some(
                        current_index,
                    ) && n.left != Some(current_index)
                },
                self.free == old(self).free,
                self.root == old(self).root,
                self.size == old(self).size,
            decreases cur.size(),
        {
            proof {
                assert(stored(a, cur.rhs()));
                assert(cur.rhs() is Branch);
                assert(super::layout::linked_at(a, cur.rhs()));
                assert(cur.rhs().distinct());
                assert(cur.rhs().last() == cur.last());
                assert(cur.right_spine() =~= seq![current_index] + cur.rhs().right_spine());
                assert(visited_indices@.push(current_index) + cur.rhs().right_spine()
                    =~= visited_indices@ + cur.right_spine());
                assert(cur.rhs().slots().contains(cur.rhs()->slot));
                assert(cur.slots().contains(current_index));
                if cur.lhs().link() == Some(cur.rhs()->slot) {
                    assert(cur.lhs().slots().contains(cur.rhs()->slot));
                }
            }
            visited_indices.push(current_index);
            current_index = next.unwrap();
            proof {
                cur = cur.rhs();
            }
            next = self.data[current_index].as_ref().unwrap().right;
        }
        proof {
            assert(cur.right_spine() =~= seq![current_index]) by {
                assert(cur.rhs().right_spine() =~= Seq::empty());
            }
            assert(visited_indices@ =~= given + fs.drop_last()) by {
                assert((visited_indices@ + seq![current_index]).drop_last() =~= visited_indices@);
                assert((given + fs).drop_last() =~= given + fs.drop_last());
            }
            assert(cur == sub.last());
            lemma_without_last_keeps(sub);
            lemma_stored_along(a, sub, fs);
        }
        let last = visited_indices[visited_indices.len() - 1];
        let ghost heir = sub.last_heir();
        proof {
            assert(super::layout::linked_at(a, cur));
            assert(stored(a, cur.lhs()));
            assert(cur.rhs() is Empty);
            assert(last < a.len() && a[last as int] is Some) by {
                if visited_indices@.len() > given.len() {
                    lemma_stored_occupied(a, sub, last);
                }
            }
            assert(last != current_index) by {
                assert(cur.slots().contains(current_index));
            }
        }
        let replace_index = match self.data[current_index].as_ref().unwrap().left {
            Some(n) => {
                let node = self.data[current_index].take();
                let child = self.data[n].take();
                self.data[current_index] = child;
                self.data[n] = node;
                proof {
                    let changed = set![current_index, n];
                    assert(cur.lhs().slots().contains(n));
                    assert(agree(a, self.data@, changed));
                    assert(cur.lhs().distinct());
                    assert(changed.disjoint(cur.lhs().lhs().slots()));
                    assert(changed.disjoint(cur.lhs().rhs().slots()));
                    lemma_frame(a, self.data@, changed, cur.lhs().lhs());
                    lemma_frame(a, self.data@, changed, cur.lhs().rhs());
                    assert(heir.height() == cur.lhs().height());
                    assert(stored(self.data@, heir));
                }
                n
            },
            None => {
                self.data[last].as_mut().unwrap().right = None;
                proof {
                    assert(heir is Empty);
                }
                current_index
            },
        };
        proof {
            if sub.rhs() is Branch {
                assert(fs.len() >= 2);
                assert(last == fs[fs.len() - 2]) by {
                    assert(visited_indices@.last() == fs.drop_last().last());
                }
                assert(agree(a, self.data@, cur.slots().insert(last)));
                lemma_graft_stored(a, self.data@, sub, fs, heir, Seq::empty());
                assert(fs.drop_last() + Seq::<usize>::empty() =~= fs.drop_last());
            } else {
                assert(fs.len() == 1);
                assert(last == above);
                assert(graft(sub, fs, heir) == heir);
            }
        }
        replace_index
    }

    /// Goes down the left spine from the node at `top`, recording every
    /// node above the first one, and unlinks the first node: where it has a
    /// right child, the two exchange their slots, so that the child stands
    /// in its place; where it has none, the link to it is cleared. Returns
    /// the slot that now holds the unlinked node.
    pub(super) fn unlink_first(
        &mut self,
        top: usize,
        visited_indices: &mut Vec<usize>,
        Ghost(sub): Ghost<Shape<T>>,
    ) -> (replace_index: usize)
        requires
            stored(old(self).data@, sub),
            sub.link() == Some(top),
            sub.distinct(),
            old(visited_indices)@.len() > 0,
            old(visited_indices)@.last() < old(self).data@.len(),
            old(self).data@[old(visited_indices)@.last() as int] is Some,
            !sub.slots().contains(old(visited_indices)@.last()),
        ensures
            final(visited_indices)@ == old(visited_indices)@ + sub.left_spine().drop_last(),
            replace_index == sub.first_vacated(),
            replace_index < final(self).data@.len(),
            final(self).data@[replace_index as int] matches Some(n) && n.value
                == sub.first()->value,
            if sub.lhs() is Branch {
                stored_along(
                    final(self).data@,
                    graft(sub, sub.left_spine(), sub.first_heir()),
                    sub.left_spine().drop_last(),
                )
            } else {
                stored(final(self).data@, graft(sub, sub.left_spine(), sub.first_heir()))
            },
            agree(
                old(self).data@,
                final(self).data@,
                sub.slots().insert(old(visited_indices)@.last()),
            ),
            final(self).data@.len() == old(self).data@.len(),
            forall|j: usize|
                j < final(self).data@.len() ==> (#[trigger] final(self).data@[j as int] is Some
                    <==> old(self).data@[j as int] is Some),
            final(self).data@[old(visited_indices)@.last() as int].unwrap().value == old(self).data@[old(visited_indices)@.last() as int].unwrap().value,
            final(self).free == old(self).free,
            final(self).root == old(self).root,
            final(self).size == old(self).size,
    {
        let ghost above = visited_indices@.last();
        let ghost fs = sub.left_spine();
        let ghost given = visited_indices@;
        let ghost a = self.data@;
        let mut current_index = top;
        let ghost mut cur = sub;
        proof {
            lemma_left_spine(sub);
        }
        let mut next = self.data[current_index].as_ref().unwrap().left;
        while next.is_some()
            invariant
                self.data@ == a,
                a == old(self).data@,
                stored(a, sub),
                sub.distinct(),
                sub is Branch,
                fs == sub.left_spine(),
                stored(a, cur),
                cur is Branch,
                cur.distinct(),
                cur.link() == Some(current_index),
                cur.slots().subset_of(sub.slots()),
                cur.first() == sub.first(),
                next == cur.lhs().link(),
                visited_indices@ + cur.left_spine() == given + fs,
                visited_indices@.len() >= given.len(),
                visited_indices@.len() == given.len() ==> cur == sub,
                visited_indices@.len() > given.len() ==> {
                    &&& sub.slots().contains(visited_indices@.last())
                    &&& !cur.slots().contains(visited_indices@.last())
                    &&& a[visited_indices@.last() as int] matches Some(n) && n.left == Some(
                        current_index,
                    ) && n.right != Some(current_index)
                },
                self.free == old(self).free,
                self.root == old(self).root,
                self.size == old(self).size,
            decreases cur.size(),
        {
            proof {
                assert(stored(a, cur.lhs()));
                assert(cur.lhs() is Branch);
                assert(super::layout::linked_at(a, cur.lhs()));
                assert(cur.lhs().distinct());
                assert(cur.lhs().first() == cur.first());
                assert(cur.left_spine() =~= seq![current_index] + cur.lhs().left_spine());
                assert(visited_indices@.push(current_index) + cur.lhs().left_spine()
                    =~= visited_indices@ + cur.left_spine());
                assert(cur.lhs().slots().contains(cur.lhs()->slot));
                assert(cur.slots().contains(current_index));
                if cur.rhs().link() == Some(cur.lhs()->slot) {
                    assert(cur.rhs().slots().contains(cur.lhs()->slot));
                }
            }
            visited_indices.push(current_index);
            current_index = next.unwrap();
            proof {
                cur = cur.lhs();
            }
            next = self.data[current_index].as_ref().unwrap().left;
        }
        proof {
            assert(cur.left_spine() =~= seq![current_index]) by {
                assert(cur.lhs().left_spine() =~= Seq::empty());
            }
            assert(visited_indices@ =~= given + fs.drop_last()) by {
                assert((visited_indices@ + seq![current_index]).drop_last() =~= visited_indices@);
                assert((given + fs).drop_last() =~= given + fs.drop_last());
            }
            assert(cur == sub.first());
            lemma_without_first_keeps(sub);
            lemma_stored_along(a, sub, fs);
        }
        let last = visited_indices[visited_indices.len() - 1];
        let ghost heir = sub.first_heir();
        proof {
            assert(super::layout::linked_at(a, cur));
            assert(stored(a, cur.rhs()));
            assert(cur.lhs() is Empty);
            assert(last < a.len() && a[last as int] is Some) by {
                if visited_indices@.len() > given.len() {
                    lemma_stored_occupied(a, sub, last);
                }
            }
            assert(last != current_index) by {
                assert(cur.slots().contains(current_index));
            }
        }
        let replace_index = match self.data[current_index].as_ref().unwrap().right {
            Some(n) => {
                let node = self.data[current_index].take();
                let child = self.data[n].take();
                self.data[current_index] = child;
                self.data[n] = node;
                proof {
                    let changed = set![current_index, n];
                    assert(cur.rhs().slots().contains(n));
                    assert(agree(a, self.data@, changed));
                    assert(cur.rhs().distinct());
                    assert(changed.disjoint(cur.rhs().rhs().slots()));
                    assert(changed.disjoint(cur.rhs().lhs().slots()));
                    lemma_frame(a, self.data@, changed, cur.rhs().rhs());
                    lemma_frame(a, self.data@, changed, cur.rhs().lhs());
                    assert(heir.height() == cur.rhs().height());
                    assert(stored(self.data@, heir));
                }
                n
            },
            None => {
                self.data[last].as_mut().unwrap().left = None;
                proof {
                    assert(heir is Empty);
                }
                current_index
            },
        };
        proof {
            if sub.lhs() is Branch {
                assert(fs.len() >= 2);
                assert(last == fs[fs.len() - 2]) by {
                    assert(visited_indices@.last() == fs.drop_last().last());
                }
                assert(agree(a, self.data@, cur.slots().insert(last)));
                lemma_graft_stored(a, self.data@, sub, fs, heir, Seq::empty());
                assert(fs.drop_last() + Seq::<usize>::empty() =~= fs.drop_last());
            } else {
                assert(fs.len() == 1);
                assert(last == above);
                assert(graft(sub, fs, heir) == heir);
            }
        }
        replace_index
    }

    /// Replaces the value of the node at `val_index`, which has two
    /// children, by the value of its neighbour in order from the taller
    /// subtree, from the right one where both are of one height, and takes
    /// the neighbour out of that subtree. Records the nodes from the
    /// neighbour's parent up to the node itself and returns the value that
    /// the node held.
    pub(super) fn replace_with_neighbour(
        &mut self,
        val_index: usize,
        visited_indices: &mut Vec<usize>,
        Ghost(x): Ghost<Shape<T>>,
    ) -> (value: T)
        requires
            stored(old(self).data@, x),
            x.link() == Some(val_index),
            x.full(),
            x.distinct(),
            old(visited_indices)@.len() > 0,
            old(visited_indices)@.last() == val_index,
        ensures
            value == x->value,
            final(visited_indices)@ == old(visited_indices)@.drop_last() + x.pruned_path(),
            stored_along(final(self).data@, x.pruned_raw(), x.pruned_path()),
            agree(old(self).data@, final(self).data@, x.slots()),
            final(self).data@.len() == old(self).data@.len(),
            forall|j: usize|
                j < final(self).data@.len() ==> (#[trigger] final(self).data@[j as int] is Some
                    <==> old(self).data@[j as int] is Some && j != x.pruned_vacated()),
            final(self).free@ == old(self).free@.push(x.pruned_vacated()),
            final(self).root == old(self).root,
            final(self).size == old(self).size,
    {
        let ghost a = self.data@;
        let ghost given = visited_indices@;
        let ghost l = x.lhs();
        let ghost r = x.rhs();
        proof {
            assert(super::layout::linked_at(a, x));
            assert(stored(a, l));
            assert(stored(a, r));
            assert(super::layout::linked_at(a, l));
            assert(super::layout::linked_at(a, r));
            assert(l.distinct() && r.distinct());
            assert(l.slots().contains(l->slot));
            assert(r.slots().contains(r->slot));
            assert(x.slots().contains(val_index));
        }
        let val_left = self.data[val_index].as_ref().unwrap().left.unwrap();
        let val_right = self.data[val_index].as_ref().unwrap().right.unwrap();
        let left_height = self.data[val_left].as_ref().unwrap().height;
        let right_height = self.data[val_right].as_ref().unwrap().height;

        // The neighbour comes from the taller side.
        let replace_index = if left_height > right_height {
            self.unlink_last(val_left, visited_indices, Ghost(l))
        } else {
            self.unlink_first(val_right, visited_indices, Ghost(r))
        };
        let ghost b = self.data@;
        let ghost vac = x.pruned_vacated();
        let ghost side = if x.heir_on_left() {
            l
        } else {
            r
        };
        let ghost spine = if x.heir_on_left() {
            l.right_spine()
        } else {
            r.left_spine()
        };
        let ghost heir = if x.heir_on_left() {
            l.last_heir()
        } else {
            r.first_heir()
        };
        let ghost raw_side = graft(side, spine, heir);
        proof {
            assert(replace_index == vac);
            if x.heir_on_left() {
                lemma_right_spine(l);
                lemma_without_last_keeps(l);
                lemma_without_last_rebuild(l);
            } else {
                lemma_left_spine(r);
                lemma_without_first_keeps(r);
                lemma_without_first_rebuild(r);
            }
            lemma_graft_slots(side, spine, heir);
            assert(raw_side.slots() =~= side.slots().remove(vac));
            assert(agree(a, b, x.slots()));
        }
        self.free.push(replace_index);
        let moved = self.data[replace_index].take().unwrap().value;
        proof {
            if raw_side is Branch {
                assert(raw_side.link() == side.link());
                lemma_stored_root(b, raw_side, spine.drop_last());
            } else {
                assert(side.slots().remove(vac) =~= Set::empty());
                assert(side->slot == vac);
            }
            if x.heir_on_left() {
                lemma_frame(a, b, l.slots().insert(val_index), r);
            } else {
                lemma_frame(a, b, r.slots().insert(val_index), l);
            }
        }
        let left = if self.data[val_left].is_some() {
            Some(val_left)
        } else {
            None
        };
        let right = if self.data[val_right].is_some() {
            Some(val_right)
        } else {
            None
        };
        let node = self.data[val_index].take().unwrap();
        // The height is set when the node is rebalanced.
        self.data[val_index] = Some(Node { value: moved, left, right, height: 0 });
        proof {
            let c = self.data@;
            let changed = set![vac, val_index];
            let raw = x.pruned_raw();
            let path = x.pruned_path();
            assert(agree(b, c, changed));
            assert(changed.disjoint(raw_side.slots()));
            if spine.len() >= 2 {
                lemma_frame_along(b, c, changed, raw_side, spine.drop_last());
                assert(path.drop_first() =~= spine.drop_last());
                assert(path[1] == side->slot);
            } else {
                lemma_frame(b, c, changed, raw_side);
                assert(path =~= seq![val_index]);
            }
            if x.heir_on_left() {
                lemma_frame(b, c, changed, r);
            } else {
                lemma_frame(b, c, changed, l);
                if l.link() == Some(r->slot) {
                    assert(l.slots().contains(r->slot));
                }
            }
            assert(super::layout::linked_at(c, raw));
            assert(stored_along(c, raw, path));
            assert(given.drop_last() + path =~= given + spine.drop_last());
        }
        node.value
    }
}

impl<T: Ord> Tree<T> {
    /// Removes `value`. Returns it where the tree held it, and nothing where
    /// it did not; then the tree is left as it was.
    pub fn remove(&mut self, value: T) -> (removed: Option<T>)
        requires
            total_order::<T>(),
            old(self).wf(),
            old(self).shape().sorted(),
        ensures
            final(self).wf(),
            final(self).shape().sorted(),
            final(self).shape().balanced(),
            !old(self)@.contains(value) ==> removed is None && *final(self) == *old(self),
            old(self)@.contains(value) ==> {
                &&& removed == Some(value)
                &&& final(self).shape() == old(self).shape().without(value)
                &&& final(self)@ == old(self)@.remove(value)
                &&& final(self).shape().size() + 1 == old(self).shape().size()
                &&& final(self).shape().height() <= old(self).shape().height()
                &&& final(self).slot_count() <= old(self).slot_count()
                &&& final(self).tight()
                &&& final(self).free_slots() == below(
                    old(self).free_slots().push(old(self).shape().vacated(value)),
                    final(self).slot_count(),
                )
            },
    {
        let ghost t = self.shape();
        let ghost a = self.data@;
        let ghost vac = t.vacated(value);
        proof {
            lemma_find(t, value);
        }
        if self.is_empty() {
            return None;
        }
        proof {
            assert(super::layout::linked_at(a, t));
            if t.values().contains(value) {
                lemma_without_balanced(t, value);
                lemma_without(t, value);
                lemma_target(t, value);
                lemma_stored_occupied(a, t, vac);
                assert(!self.free@.contains(vac));
                lemma_pushed_fresh(self.free@, vac);
                assert forall|i: usize| #[trigger]
                    self.free@.push(vac).contains(i) <==> self.free@.contains(i) || i == vac by {
                    lemma_pushed(self.free@, vac, i);
                }
            }
        }
        let mut is_root = false;

        // Handling trivial cases for value at root.
        let root_left = self.data[self.root].as_ref().unwrap().left;
        let root_right = self.data[self.root].as_ref().unwrap().right;
        let at_root = match compare(&value, &self.data[self.root].as_ref().unwrap().value) {
            Rel::Equal => true,
            _ => false,
        };
        if at_root {
            proof {
                assert(t.target(value) == t);
                assert(t.without(value) == t.pruned());
            }
            if self.size == 1 {
                proof {
                    assert(t.lhs() is Empty && t.rhs() is Empty);
                    assert(t.slots() =~= set![self.root]);
                    let last = (self.data.len() - 1) as usize;
                    assert(self.data@.last() == self.data@[last as int]);
                    assert(t.slots().contains(last));
                }
                let return_val = self.data.pop().unwrap().unwrap().value;
                self.free.clear();
                self.data.clear();
                self.size = 0;
                self.root = 0;
                proof {
                    self.lemma_shape_is(Shape::Empty);
                    lemma_below(old(self).free@.push(vac), 0);
                    assert(self.free@ =~= below(old(self).free@.push(vac), 0));
                    self.lemma_arena();
                }
                return Some(return_val);
            }
            let only_child = match (root_left, root_right) {
                (Some(c), None) => Some(c),
                (None, Some(c)) => Some(c),
                _ => None,
            };
            match only_child {
                Some(new_root) => {
                    let old_root = self.root;
                    let return_val = self.data[old_root].take().unwrap().value;
                    self.size -= 1;
                    self.free.push(old_root);
                    self.root = new_root;
                    let ghost before = self.data@;
                    let ghost free = self.free@;
                    self.clean_tail();
                    proof {
                        assert(vac == old_root);
                        lemma_frame(a, before, set![old_root], t.pruned());
                        self.lemma_settled(before, free, t.pruned());
                        self.lemma_arena();
                    }
                    return Some(return_val);
                },
                None => {},
            }
            is_root = true;
            proof {
                assert(t.full()) by {
                    if t.lhs() is Empty && t.rhs() is Empty {
                        assert(t.size() == 1);
                    }
                }
            }
        }
        let mut visited_indices = match self.contains_helper(&value) {
            (false, _) => {
                return None;
            },
            (true, None) => vec![self.root],
            (true, Some(n)) => n,
        };
        let ghost x = t.target(value);
        let ghost trail = t.trail(value);
        let ghost p = trail.push(x->slot);
        proof {
            lemma_stored_along(a, t, p);
            lemma_descend_hangs(a, t, p);
            lemma_stored_occupied(a, t, x->slot);
            assert(stored(a, x)) by {
                assert(super::layout::hangs(a, x));
                lemma_stored_occupied(a, t, x->slot);
                lemma_substored(a, t, value);
            }
            assert(is_root <==> trail.len() == 0);
        }
        let parent_index = visited_indices[visited_indices.len() - 1];
        proof {
            if !is_root {
                lemma_trichotomy(value, a[parent_index as int].unwrap().value);
            }
        }
        let child_is_left = match compare(
            &value,
            &self.data[parent_index].as_ref().unwrap().value,
        ) {
            Rel::Less => true,
            _ => false,
        };
        let val_index = if is_root {
            self.root
        } else if child_is_left {
            self.data[parent_index].as_ref().unwrap().left.unwrap()
        } else {
            self.data[parent_index].as_ref().unwrap().right.unwrap()
        };
        proof {
            assert(val_index == x->slot);
            assert(super::layout::linked_at(a, x));
        }
        let val_left = self.data[val_index].as_ref().unwrap().left;
        let val_right = self.data[val_index].as_ref().unwrap().right;
        let ghost mut raw = t;
        let return_val = if val_left.is_some() && val_right.is_some() {
            // The node being removed will have its child tree modified, so
            // it is rebalanced too, as is every node visited up to the
            // replacement. The root index was already added.
            if !is_root {
                visited_indices.push(val_index);
            }
            let held = self.replace_with_neighbour(val_index, &mut visited_indices, Ghost(x));
            proof {
                let raw_x = x.pruned_raw();
                let px = x.pruned_path();
                lemma_pruned_rebuild(x);
                lemma_target_balanced(t, value);
                lemma_pruned_raw_mends(x);
                if is_root {
                    assert(x == t);
                    raw = raw_x;
                    assert(visited_indices@ =~= px);
                } else {
                    assert(p.drop_last() =~= trail);
                    assert(parent_index == p[p.len() - 2]);
                    lemma_graft_stored(a, self.data@, t, p, raw_x, px);
                    lemma_graft_keeps(t, p, raw_x);
                    lemma_without_rebuild(t, value, raw_x, px);
                    lemma_graft_mends(t, value, raw_x, px);
                    raw = graft(t, p, raw_x);
                    assert(visited_indices@ =~= trail + px);
                }
            }
            held
        } else {
            let child = match val_left {
                Some(c) => Some(c),
                None => val_right,
            };
            if child_is_left {
                self.data[parent_index].as_mut().unwrap().left = child;
            } else {
                self.data[parent_index].as_mut().unwrap().right = child;
            }
            self.free.push(val_index);
            let held = self.data[val_index].take().unwrap().value;
            proof {
                let heir = x.pruned();
                assert(!is_root);
                assert(child == heir.link());
                assert(p.drop_last() =~= trail);
                assert(parent_index == p[p.len() - 2]);
                let changed = set![parent_index, val_index];
                assert(agree(a, self.data@, changed));
                assert(x.slots().contains(val_index));
                assert(changed.disjoint(heir.slots()));
                lemma_frame(a, self.data@, changed, heir);
                lemma_height(x);
                lemma_graft_stored(a, self.data@, t, p, heir, Seq::empty());
                lemma_graft_keeps(t, p, heir);
                assert(rebuild(heir, Seq::<usize>::empty()) == heir) by {
                    if heir is Branch {
                    }
                }
                lemma_without_rebuild(t, value, heir, Seq::empty());
                lemma_target_balanced(t, value);
                lemma_mends_whole(heir);
                lemma_graft_mends(t, value, heir, Seq::empty());
                raw = graft(t, p, heir);
                assert(trail + Seq::<usize>::empty() =~= trail);
                assert(vac == val_index);
            }
            held
        };
        let ghost edited = self.data@;
        proof {
            assert forall|i: usize| i < edited.len() implies (#[trigger] edited[i as int] is Some
                <==> a[i as int] is Some && i != vac) by {}
        }
        self.update_and_balance(visited_indices, Ghost(raw));
        let ghost before = self.data@;
        let ghost free = self.free@;
        self.clean_tail();
        self.size -= 1;
        proof {
            let w = t.without(value);
            assert forall|i: usize| i < before.len() implies (#[trigger] before[i as int] is Some
                <==> w.slots().contains(i)) by {
                assert(edited[i as int] is Some <==> a[i as int] is Some && i != vac);
                assert(a[i as int] is Some <==> t.slots().contains(i));
            }
            assert forall|i: usize| #[trigger]
                free.contains(i) <==> i < before.len() && before[i as int] is None by {
                assert(old(self).free@.contains(i) <==> i < a.len() && a[i as int] is None);
                if i < before.len() {
                    assert(edited[i as int] is Some <==> a[i as int] is Some && i != vac);
                    assert(before[i as int] is Some <==> edited[i as int] is Some);
                }
            }
            self.lemma_settled(before, free, w);
            self.lemma_arena();
        }
        Some(return_val)
    }
}

/// The subtree that holds a value is stored where the tree is.
proof fn lemma_substored<T: Ord>(data: Seq<Option<Node<T>>>, t: Shape<T>, v: T)
    requires
        stored(data, t),
    ensures
        stored(data, t.target(v)),
    decreases t,
{
    match t {
        Shape::Empty => {},
        Shape::Branch { left, right, .. } => {
            lemma_substored(data, *left, v);
            lemma_substored(data, *right, v);
        },
    }
}

} // verus!
