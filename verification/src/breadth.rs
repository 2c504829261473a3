//! Breadth-first order: the order in which draining the tree gives out the
//! values.

use crate::shape::Shape;
use vstd::prelude::*;

verus! {

/// The number of nodes in all the trees of `q`.
pub open spec fn forest_size<T>(q: Seq<Shape<T>>) -> nat
    decreases q.len(),
{
    if q.len() == 0 {
        0
    } else {
        q[0].size() + forest_size(q.drop_first())
    }
}

/// The subtrees of the root that are not empty, left before right.
pub open spec fn children<T>(t: Shape<T>) -> Seq<Shape<T>> {
    let left = if t.lhs() is Branch {
        seq![t.lhs()]
    } else {
        Seq::empty()
    };
    let right = if t.rhs() is Branch {
        seq![t.rhs()]
    } else {
        Seq::empty()
    };
    left + right
}

/// The nodes of two queues together are those of the one and those of the
/// other.
pub proof fn lemma_forest_size_add<T>(a: Seq<Shape<T>>, b: Seq<Shape<T>>)
    ensures
        forest_size(a + b) == forest_size(a) + forest_size(b),
    decreases a.len(),
{
    if a.len() == 0 {
        assert(a + b =~= b);
    } else {
        lemma_forest_size_add(a.drop_first(), b);
        assert((a + b).drop_first() =~= a.drop_first() + b);
    }
}

/// The children of a root hold all its nodes but the root.
pub proof fn lemma_children_size<T>(t: Shape<T>)
    requires
        t is Branch,
    ensures
        forest_size(children(t)) + 1 == t.size(),
{
    let l = t.lhs();
    let r = t.rhs();
    reveal_with_fuel(forest_size, 3);
    assert(t.size() == 1 + l.size() + r.size());
    assert(l is Empty ==> l.size() == 0);
    assert(r is Empty ==> r.size() == 0);
    assert(forest_size(Seq::<Shape<T>>::empty()) == 0);
    assert(forest_size(seq![l]) == l.size()) by {
        assert(seq![l].drop_first() =~= Seq::<Shape<T>>::empty());
    }
    assert(forest_size(seq![r]) == r.size()) by {
        assert(seq![r].drop_first() =~= Seq::<Shape<T>>::empty());
    }
    assert(forest_size(seq![l, r]) == l.size() + r.size()) by {
        assert(seq![l, r].drop_first() =~= seq![r]);
    }
    if l is Branch {
        if r is Branch {
            assert(children(t) =~= seq![l, r]);
            assert(children(t).drop_first() =~= seq![r]);
            assert(seq![r].drop_first() =~= Seq::<Shape<T>>::empty());
        } else {
            assert(children(t) =~= seq![l]);
            assert(seq![l].drop_first() =~= Seq::<Shape<T>>::empty());
        }
    } else {
        if r is Branch {
            assert(children(t) =~= seq![r]);
            assert(seq![r].drop_first() =~= Seq::<Shape<T>>::empty());
        } else {
            assert(children(t) =~= Seq::<Shape<T>>::empty());
        }
    }
}

/// The values of the trees in the queue `q` in the order in which a
/// breadth-first drain gives them out: the root of the first tree, then
/// what follows when its children have joined the end of the queue.
pub open spec fn level_order<T>(q: Seq<Shape<T>>) -> Seq<T>
    decreases forest_size(q), q.len(),
{
    if q.len() == 0 {
        Seq::empty()
    } else {
        match q[0] {
            Shape::Empty => level_order(q.drop_first()),
            Shape::Branch { value, .. } => {
                proof {
                    lemma_forest_size_add(q.drop_first(), children(q[0]));
                    lemma_children_size(q[0]);
                }
                seq![value] + level_order(q.drop_first() + children(q[0]))
            },
        }
    }
}

impl<T> Shape<T> {
    /// The values of the tree in breadth-first order.
    pub open spec fn breadth_first(self) -> Seq<T> {
        level_order(seq![self])
    }
}

/// A breadth-first drain gives out as many values as the queue has nodes.
pub proof fn lemma_level_order_len<T>(q: Seq<Shape<T>>)
    ensures
        level_order(q).len() == forest_size(q),
    decreases forest_size(q), q.len(),
{
    if q.len() > 0 {
        match q[0] {
            Shape::Empty => {
                lemma_level_order_len(q.drop_first());
            },
            Shape::Branch { .. } => {
                lemma_forest_size_add(q.drop_first(), children(q[0]));
                lemma_children_size(q[0]);
                lemma_level_order_len(q.drop_first() + children(q[0]));
            },
        }
    }
}

/// Whether one of the trees in the queue holds `v`.
pub open spec fn forest_holds<T>(q: Seq<Shape<T>>, v: T) -> bool {
    exists|i: int| 0 <= i < q.len() && (#[trigger] q[i]).values().contains(v)
}

/// A breadth-first drain gives out exactly the values that the trees of the
/// queue hold.
pub proof fn lemma_level_order_values<T>(q: Seq<Shape<T>>, v: T)
    ensures
        level_order(q).contains(v) <==> forest_holds(q, v),
    decreases forest_size(q), q.len(),
{
    if q.len() > 0 {
        let rest = q.drop_first();
        match q[0] {
            Shape::Empty => {
                lemma_level_order_values(rest, v);
                if forest_holds(q, v) {
                    let i = choose|i: int| 0 <= i < q.len() && (#[trigger] q[i]).values().contains(v);
                    assert(rest[i - 1] == q[i]);
                }
                if forest_holds(rest, v) {
                    let i = choose|i: int|
                        0 <= i < rest.len() && (#[trigger] rest[i]).values().contains(v);
                    assert(q[i + 1] == rest[i]);
                }
            },
            Shape::Branch { value, left, right, .. } => {
                let kids = children(q[0]);
                let next = rest + kids;
                lemma_forest_size_add(rest, kids);
                lemma_children_size(q[0]);
                lemma_level_order_values(next, v);
                let out = level_order(q);
                let tail = level_order(next);
                assert(out == seq![value] + tail);
                assert(out.contains(v) <==> v == value || tail.contains(v)) by {
                    if out.contains(v) {
                        let k = choose|k: int| 0 <= k < out.len() && out[k] == v;
                        if k > 0 {
                            assert(tail[k - 1] == v);
                        }
                    }
                    if tail.contains(v) {
                        let k = choose|k: int| 0 <= k < tail.len() && tail[k] == v;
                        assert(out[k + 1] == v);
                    }
                    if v == value {
                        assert(out[0] == v);
                    }
                }
                if forest_holds(next, v) {
                    let i = choose|i: int|
                        0 <= i < next.len() && (#[trigger] next[i]).values().contains(v);
                    if i < rest.len() {
                        assert(q[i + 1] == next[i]);
                    } else {
                        assert(kids[i - rest.len()] == next[i]);
                        assert(left.values().contains(v) || right.values().contains(v));
                        assert(q[0].values().contains(v));
                    }
                }
                if forest_holds(q, v) && v != value {
                    let i = choose|i: int| 0 <= i < q.len() && (#[trigger] q[i]).values().contains(v);
                    if i > 0 {
                        assert(next[i - 1] == q[i]);
                    } else {
                        if left.values().contains(v) {
                            assert(*left is Branch);
                            assert(kids[0] == *left);
                            assert(next[rest.len() as int] == *left);
                        } else {
                            assert(right.values().contains(v));
                            assert(*right is Branch);
                            let k = kids.len() - 1;
                            assert(kids[k] == *right);
                            assert(next[rest.len() + k] == *right);
                        }
                    }
                }
                if v == value {
                    assert(q[0].values().contains(v));
                }
            },
        }
    }
}

} // verus!
