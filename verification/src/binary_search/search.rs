//! The search descent.

use super::layout::stored;
use super::Tree;
use crate::order::compare;
use crate::order::lemma_trichotomy;
use crate::order::lt;
use crate::order::total_order;
use crate::order::Rel;
use crate::sorted::lemma_find;
use vstd::prelude::*;

verus! {

impl<T: Ord> Tree<T> {
    /// Whether the slot `parent` holds a node that is not `value`'s and
    /// whose link on `value`'s side, and on that side only, is `link`.
    pub(super) open spec fn leads(&self, parent: usize, value: T, link: Option<usize>) -> bool {
        &&& parent < self.data@.len()
        &&& self.data@[parent as int] matches Some(n)
        &&& n.value != value
        &&& lt(value, n.value) ==> n.left == link && (link is Some ==> n.right != link)
        &&& lt(n.value, value) ==> n.right == link && (link is Some ==> n.left != link)
    }

    /// Searches for `value` from the root. Returns whether it is there,
    /// and the slots of the nodes passed on the way that do not hold it:
    /// none where the root holds it, else all of them down to the node that
    /// holds it as a child, or lacks the child that would hold it.
    pub(super) fn contains_helper(&self, value: &T) -> (found: (bool, Option<Vec<usize>>))
        requires
            total_order::<T>(),
            self.wf(),
            self.size > 0,
        ensures
            found.0 == (self.shape().find(*value) is Some),
            match found.1 {
                None => self.shape().find(*value) == Some(self.root) && self.shape().trail(
                    *value,
                ).len() == 0,
                Some(path) => {
                    &&& path@ == self.shape().trail(*value)
                    &&& path@.len() > 0
                    &&& self.leads(path@.last(), *value, self.shape().find(*value))
                },
            },
    {
        let mut visited_indices: Vec<usize> = Vec::new();
        let mut current_index = self.root;
        let ghost whole = self.shape();
        let ghost mut cur = whole;
        loop
            invariant
                total_order::<T>(),
                whole == self.shape(),
                cur is Branch,
                cur.distinct(),
                cur.link() == Some(current_index),
                stored(self.data@, cur),
                whole.find(*value) == cur.find(*value),
                whole.trail(*value) == visited_indices@ + cur.trail(*value),
                visited_indices@.len() == 0 ==> current_index == self.root,
                visited_indices@.len() > 0 ==> self.leads(
                    visited_indices@.last(),
                    *value,
                    Some(current_index),
                ),
            decreases cur.size(),
        {
            let current_data = self.data[current_index].as_ref().unwrap();
            proof {
                lemma_trichotomy(*value, current_data.value);
            }
            let next = match compare(value, &current_data.value) {
                Rel::Equal => {
                    proof {
                        assert(cur.trail(*value) =~= Seq::empty());
                        assert(visited_indices@ + cur.trail(*value) =~= visited_indices@);
                    }
                    if visited_indices.len() == 0 {
                        return (true, None);
                    }
                    return (true, Some(visited_indices));
                },
                Rel::Less => current_data.left,
                Rel::Greater => current_data.right,
            };
            let ghost below = if lt(*value, current_data.value) {
                cur.lhs()
            } else {
                cur.rhs()
            };
            proof {
                if below is Branch {
                    assert(below.slots().contains(below->slot));
                    assert(cur.lhs().slots().disjoint(cur.rhs().slots()));
                }
                assert(cur.trail(*value) =~= seq![current_index] + below.trail(*value));
                assert(visited_indices@.push(current_index) + below.trail(*value)
                    =~= visited_indices@ + cur.trail(*value));
            }
            visited_indices.push(current_index);
            match next {
                Some(n) => {
                    current_index = n;
                    proof {
                        cur = below;
                    }
                },
                None => {
                    proof {
                        assert(below.trail(*value) =~= Seq::empty());
                        assert(visited_indices@ + below.trail(*value) =~= visited_indices@);
                    }
                    return (false, Some(visited_indices));
                },
            }
        }
    }

    /// The slot that holds `value`, if the tree holds it.
    pub fn contains(&self, value: T) -> (slot: Option<usize>)
        requires
            total_order::<T>(),
            self.wf(),
            self.shape().sorted(),
        ensures
            slot == self.shape().find(value),
            slot is Some <==> self@.contains(value),
            slot matches Some(i) ==> self.slots().contains_key(i) && self.slots()[i] == value,
    {
        proof {
            lemma_find(self.shape(), value);
        }
        if self.is_empty() {
            return None;
        }
        let parent_index = match self.contains_helper(&value) {
            (true, Some(n)) => n[n.len() - 1],
            (true, None) => {
                return Some(self.root);
            },
            (false, _) => {
                return None;
            },
        };
        let parent_data = self.data[parent_index].as_ref().unwrap();
        proof {
            lemma_trichotomy(value, parent_data.value);
        }
        match compare(&value, &parent_data.value) {
            Rel::Less => parent_data.left,
            _ => parent_data.right,
        }
    }
}

} // verus!
