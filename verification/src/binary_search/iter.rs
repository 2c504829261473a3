//! Draining the tree breadth-first.

use super::layout::agree;
use super::layout::lemma_frame;
use super::layout::lemma_unique;
use super::layout::stored;
use super::Node;
use super::Tree;
use crate::breadth::children;
use crate::breadth::level_order;
use crate::shape::Shape;
use std::collections::VecDeque;
use vstd::prelude::*;

verus! {

/// What is left of a tree that is being drained: the arena, and the queue of
/// the roots whose subtrees are still to come.
pub struct Iter<T> {
    data: Vec<Option<Node<T>>>,
    queue: VecDeque<usize>,
}

impl<T> Tree<T> {
    /// Consumes the tree and hands out its values one by one, breadth-first.
    pub fn into_iter(self) -> (iter: Iter<T>)
        requires
            self.wf(),
        ensures
            iter.wf(),
            iter@ == self.shape().breadth_first(),
    {
        let ghost t = self.shape();
        let mut queue = VecDeque::new();
        if self.size > 0 {
            queue.push_back(self.root);
        }
        let iter = Iter { data: self.data, queue };
        proof {
            if self.size > 0 {
                iter.lemma_forest_is(seq![t]);
            } else {
                iter.lemma_forest_is(Seq::empty());
                assert(t is Empty);
                assert(seq![t].drop_first() =~= Seq::<Shape<T>>::empty());
                reveal_with_fuel(level_order, 2);
            }
        }
        iter
    }
}

impl<T> Iter<T> {
    /// The subtrees that are still to be drained, in the order of the queue.
    pub closed spec fn forest(&self) -> Seq<Shape<T>> {
        Seq::new(
            self.queue@.len(),
            |i: int|
                choose|t: Shape<T>| stored(self.data@, t) && t.link() == Some(self.queue@[i]),
        )
    }

    /// The queue holds the roots of subtrees that lie in the arena and share
    /// no slot.
    pub closed spec fn wf(&self) -> bool {
        let f = self.forest();
        &&& forall|i: int|
            0 <= i < f.len() ==> {
                &&& stored(self.data@, #[trigger] f[i])
                &&& f[i].link() == Some(self.queue@[i])
                &&& f[i].distinct()
            }
        &&& forall|i: int, j: int|
            0 <= i < j < f.len() ==> (#[trigger] f[i]).slots().disjoint((#[trigger] f[j]).slots())
    }

    /// The forest is the one whose trees the arena holds under the slots of
    /// the queue.
    proof fn lemma_forest_is(&self, f: Seq<Shape<T>>)
        requires
            f.len() == self.queue@.len(),
            forall|i: int|
                0 <= i < f.len() ==> stored(self.data@, #[trigger] f[i]) && f[i].link() == Some(
                    self.queue@[i],
                ),
        ensures
            self.forest() == f,
    {
        assert forall|i: int| 0 <= i < f.len() implies self.forest()[i] == f[i] by {
            let c = self.forest()[i];
            assert(stored(self.data@, f[i]) && f[i].link() == Some(self.queue@[i]));
            lemma_unique(self.data@, c, f[i]);
        }
        assert(self.forest() =~= f);
    }

    /// The next value in breadth-first order; nothing once all have been
    /// given out.
    pub fn next(&mut self) -> (value: Option<T>)
        requires
            old(self).wf(),
        ensures
            final(self).wf(),
            old(self)@.len() == 0 ==> value is None && final(self)@ == old(self)@,
            old(self)@.len() > 0 ==> value == Some(old(self)@[0]) && final(self)@ == old(self)@.drop_first(),
    {
        let ghost f = self.forest();
        let ghost a = self.data@;
        match self.queue.pop_front() {
            Some(current) => {
                let ghost t = f[0];
                let ghost rest = f.drop_first();
                let ghost kids = children(t);
                proof {
                    assert(stored(a, t) && t.link() == Some(current));
                    assert(t.distinct());
                    assert(super::layout::linked_at(a, t));
                }
                let node = self.data[current].take().unwrap();
                let ghost early = self.queue@;
                match node.left {
                    Some(n) => {
                        self.queue.push_back(n);
                    },
                    None => {},
                }
                match node.right {
                    Some(n) => {
                        self.queue.push_back(n);
                    },
                    None => {},
                }
                proof {
                    let b = self.data@;
                    let g = rest + kids;
                    let gone = set![current];
                    assert(agree(a, b, gone));
                    assert(t.slots().contains(current));
                    assert(early =~= old(self).queue@.drop_first());
                    assert(g.len() == self.queue@.len());
                    assert forall|i: int| 0 <= i < g.len() implies stored(b, #[trigger] g[i])
                        && g[i].link() == Some(self.queue@[i]) && g[i].distinct() && g[i].slots().subset_of(
                        if i < rest.len() {
                            f[i + 1].slots()
                        } else {
                            t.slots().remove(current)
                        },
                    ) by {
                        if i < rest.len() {
                            assert(g[i] == f[i + 1]);
                            assert(f[0].slots().disjoint(f[i + 1].slots()));
                            lemma_frame(a, b, gone, g[i]);
                        } else {
                            let k = i - rest.len();
                            assert(g[i] == kids[k]);
                            assert(kids[k] == t.lhs() || kids[k] == t.rhs());
                            lemma_frame(a, b, gone, g[i]);
                        }
                    }
                    self.lemma_forest_is(g);
                    assert forall|i: int, j: int| 0 <= i < j < g.len() implies (#[trigger] g[i]).slots().disjoint(
                        (#[trigger] g[j]).slots(),
                    ) by {
                        if j < rest.len() {
                            assert(f[i + 1].slots().disjoint(f[j + 1].slots()));
                        } else if i < rest.len() {
                            assert(f[0].slots().disjoint(f[i + 1].slots()));
                        } else {
                            assert(g[i] == kids[i - rest.len()]);
                            assert(g[j] == kids[j - rest.len()]);
                            assert(g[i] == t.lhs() && g[j] == t.rhs());
                        }
                    }
                    assert(level_order(f) == seq![node.value] + level_order(g));
                    assert((seq![node.value] + level_order(g)).drop_first() =~= level_order(g));
                }
                Some(node.value)
            },
            None => {
                proof {
                    assert(f.len() == 0);
                }
                None
            },
        }
    }
}

impl<T> View for Iter<T> {
    type V = Seq<T>;

    /// The values that are still to come, in the order in which they come.
    open spec fn view(&self) -> Seq<T> {
        level_order(self.forest())
    }
}

} // verus!
