//! Insertion.

use super::layout::agree;
use super::layout::lemma_attach_stored;
use super::layout::lemma_stored_occupied;
use super::layout::stored;
use super::Node;
use super::Tree;
use crate::avl::lemma_attach_mends;
use crate::avl::lemma_balanced_height;
use crate::avl::lemma_grow_balanced;
use crate::lists::lemma_front_lacks_last;
use crate::lists::lemma_last_or_front;
use crate::order::compare;
use crate::order::lemma_trichotomy;
use crate::order::total_order;
use crate::order::Rel;
use crate::shape::lemma_size_bound;
use crate::shape::Shape;
use crate::sorted::lemma_find;
use crate::sorted::lemma_grow;
use crate::sorted::lemma_grow_rebuild;
use crate::sorted::lemma_trail_within;
use vstd::prelude::*;

verus! {

impl<T> Tree<T> {
    /// Puts a new leaf that holds `value` into the last slot of the free
    /// list, or into a new slot at the end of the arena where the list is
    /// empty. Returns the slot used.
    pub(super) fn insert_helper(&mut self, value: T) -> (slot: Option<usize>)
        requires
            forall|i: int|
                0 <= i < old(self).free@.len() ==> (#[trigger] old(self).free@[i]) < old(self).data@.len(),
        ensures
            slot == Some(old(self).next_slot()),
            old(self).free@.len() > 0 ==> final(self).free@ == old(self).free@.drop_last(),
            old(self).free@.len() > 0 ==> final(self).data@ == old(self).data@.update(
                old(self).next_slot() as int,
                Some(Node { value, left: None, right: None, height: 0 }),
            ),
            old(self).free@.len() == 0 ==> final(self).free@ == old(self).free@,
            old(self).free@.len() == 0 ==> final(self).data@ == old(self).data@.push(
                Some(Node { value, left: None, right: None, height: 0 }),
            ),
            final(self).root == old(self).root,
            final(self).size == old(self).size,
    {
        match self.free.pop() {
            Some(n) => {
                self.data[n] = Some(Node::new(value));
                Some(n)
            },
            None => {
                self.data.push(Some(Node::new(value)));
                Some(self.data.len() - 1)
            },
        }
    }
}

impl<T: Ord> Tree<T> {
    /// Inserts `value`. Returns the slot that holds it now, or nothing
    /// where the tree held it already; then the tree is left as it was.
    pub fn insert(&mut self, value: T) -> (slot: Option<usize>)
        requires
            total_order::<T>(),
            old(self).wf(),
            old(self).shape().sorted(),
        ensures
            final(self).wf(),
            final(self).shape().sorted(),
            final(self).shape().balanced(),
            old(self)@.contains(value) ==> slot is None && *final(self) == *old(self),
            !old(self)@.contains(value) ==> {
                &&& slot == Some(old(self).next_slot())
                &&& final(self).shape() == old(self).shape().grow(value, old(self).next_slot())
                &&& final(self)@ == old(self)@.insert(value)
                &&& final(self).slots() == old(self).slots().insert(old(self).next_slot(), value)
                &&& final(self).shape().size() == old(self).shape().size() + 1
                &&& final(self).shape().height() <= old(self).shape().height() + 1
                &&& final(self).free_slots() == if old(self).free_slots().len() > 0 {
                    old(self).free_slots().drop_last()
                } else {
                    old(self).free_slots()
                }
                &&& final(self).slot_count() == if old(self).free_slots().len() > 0 {
                    old(self).slot_count()
                } else {
                    old(self).slot_count() + 1
                }
            },
    {
        let ghost t = self.shape();
        let ghost s = self.next_slot();
        let ghost grown = t.grow(value, s);
        proof {
            lemma_find(t, value);
            self.lemma_slots();
            assert(self.slot_count() == self.data.len());
            if self.free@.len() > 0 {
                assert(self.free@.contains(self.free@.last()));
                assert(self.data@[s as int] is Some <==> t.slots().contains(s));
            } else if t.slots().contains(s) {
                lemma_stored_occupied(self.data@, t, s);
            }
            assert(!t.slots().contains(s));
            lemma_balanced_height(t);
            if !t.values().contains(value) {
                lemma_grow(t, value, s);
                if t is Empty {
                    lemma_grow_balanced(t, value, s);
                }
            }
        }
        if self.is_empty() {
            proof {
                self.lemma_empty();
            }
            self.data.push(Some(Node::new(value)));
            self.size = 1;
            proof {
                reveal_with_fuel(stored, 2);
                reveal_with_fuel(Shape::height, 2);
                assert(stored(self.data@, grown));
                self.lemma_shape_is(grown);
                assert(grown.slots() =~= set![0usize]);
                self.lemma_slots();
                assert(self.slots() =~= old(self).slots().insert(s, value));
            }
            return Some(0);
        }
        let visited_indices = match self.contains_helper(&value) {
            (false, Some(n)) => n,
            _ => {
                return None;
            },
        };
        let parent_index = visited_indices[visited_indices.len() - 1];
        let insert_index;
        let ghost before = self.data@;
        proof {
            lemma_trichotomy(value, self.data@[parent_index as int].unwrap().value);
            lemma_trail_within(t, value);
            assert forall|i: int| 0 <= i < self.free@.len() implies (#[trigger] self.free@[i])
                < self.data@.len() by {
                assert(self.free@.contains(self.free@[i]));
            }
        }
        match compare(&value, &self.data[parent_index].as_ref().unwrap().value) {
            Rel::Less => {
                insert_index = self.insert_helper(value);
                self.data[parent_index].as_mut().unwrap().left = insert_index;
            },
            _ => {
                insert_index = self.insert_helper(value);
                self.data[parent_index].as_mut().unwrap().right = insert_index;
            },
        }
        let ghost hung = self.data@;
        proof {
            lemma_stored_occupied(before, t, parent_index);
            assert(agree(before, hung, set![s, parent_index]));
            lemma_attach_stored(before, hung, t, value, s);
            lemma_grow_rebuild(t, value, s);
            lemma_attach_keeps(t, value, s);
            lemma_attach_mends(t, value, s);
        }
        self.update_and_balance(visited_indices, Ghost(t.attach(value, s)));
        proof {
            assert forall|i: usize| grown.slots().contains(i) implies i < self.data@.len() by {
                lemma_stored_occupied(self.data@, grown, i);
            }
            lemma_size_bound(grown, self.data.len() as nat);
        }
        self.size += 1;
        proof {
            self.lemma_shape_is(grown);
            assert forall|i: usize| i < self.data@.len() implies (#[trigger] self.data@[i as int]
                is Some <==> grown.slots().contains(i)) by {
                if i < before.len() {
                    assert(before[i as int] is Some <==> t.slots().contains(i));
                }
            }
            assert forall|i: usize| #[trigger]
                self.free@.contains(i) <==> i < self.data@.len() && self.data@[i as int] is None by {
                assert(old(self).free@.contains(i) <==> i < before.len() && before[i as int]
                    is None);
                if old(self).free@.len() > 0 {
                    lemma_last_or_front(old(self).free@, i);
                    lemma_front_lacks_last(old(self).free@);
                }
            }
            self.lemma_slots();
            assert(self.slots() =~= old(self).slots().insert(s, value));
        }
        insert_index
    }
}

/// Hanging a new leaf into a vacant slot keeps the slots distinct and adds
/// at most one to the height.
proof fn lemma_attach_keeps<T: Ord>(t: Shape<T>, v: T, s: usize)
    requires
        t.distinct(),
        !t.slots().contains(s),
    ensures
        t.attach(v, s).distinct(),
        t.attach(v, s).slots().subset_of(t.slots().insert(s)),
        t.attach(v, s).height() <= t.height() + 1,
        t.attach(v, s) is Branch,
    decreases t,
{
    match t {
        Shape::Empty => {
            reveal_with_fuel(Shape::height, 2);
            reveal_with_fuel(Shape::distinct, 2);
            reveal_with_fuel(Shape::slots, 2);
        },
        Shape::Branch { slot, value, left, right } => {
            lemma_attach_keeps(*left, v, s);
            lemma_attach_keeps(*right, v, s);
        },
    }
}

} // verus!
