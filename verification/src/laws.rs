//! What holds of the tree across operations: whole runs of insertions,
//! insertions followed by removals, and the drain.

use crate::avl::lemma_grow_balanced;
use crate::avl::lemma_without_balanced;
use crate::breadth::forest_size;
use crate::breadth::lemma_level_order_len;
use crate::breadth::lemma_level_order_values;
use crate::lists::lemma_front_lacks_last;
use crate::lists::lemma_last_or_front;
use crate::order::total_order;
use crate::shape::slots_below;
use crate::shape::Shape;
use crate::sorted::lemma_find;
use crate::sorted::lemma_grow;
use crate::without::lemma_without;
use vstd::prelude::*;

verus! {

/// The tree that the insertion of the values of `vs`, one after the other,
/// makes of the empty tree. The arena is then filled from slot 0 upwards, so
/// that each new value goes into the slot numbered by the count of values
/// before it.
pub open spec fn inserted<T: Ord>(vs: Seq<T>) -> Shape<T>
    decreases vs.len(),
{
    if vs.len() == 0 {
        Shape::Empty
    } else {
        let t = inserted(vs.drop_last());
        if t.values().contains(vs.last()) {
            t
        } else {
            t.grow(vs.last(), t.size() as usize)
        }
    }
}

/// The tree that the removal of the values of `vs`, one after the other,
/// makes of `t`.
pub open spec fn removed<T: Ord>(t: Shape<T>, vs: Seq<T>) -> Shape<T>
    decreases vs.len(),
{
    if vs.len() == 0 {
        t
    } else {
        let u = removed(t, vs.drop_last());
        if u.values().contains(vs.last()) {
            u.without(vs.last())
        } else {
            u
        }
    }
}

/// After each of a run of insertions of distinct values the tree is a
/// balanced search tree that holds exactly the values inserted so far, one
/// node for each.
pub proof fn lemma_insertions<T: Ord>(vs: Seq<T>)
    requires
        total_order::<T>(),
        vs.no_duplicates(),
        vs.len() <= usize::MAX,
    ensures
        inserted(vs).sorted(),
        inserted(vs).balanced(),
        inserted(vs).distinct(),
        inserted(vs).size() == vs.len(),
        inserted(vs).values() == vs.to_set(),
        inserted(vs).slots() == slots_below(vs.len()),
    decreases vs.len(),
{
    if vs.len() == 0 {
        assert(vs.to_set() =~= Set::empty());
        assert(slots_below(0) =~= Set::empty());
    } else {
        let rest = vs.drop_last();
        let v = vs.last();
        let t = inserted(rest);
        lemma_front_lacks_last(vs);
        lemma_insertions(rest);
        let s = t.size() as usize;
        assert(!t.slots().contains(s));
        lemma_grow(t, v, s);
        lemma_find(t, v);
        lemma_grow_balanced(t, v, s);
        assert forall|x: T| vs.to_set().contains(x) <==> rest.to_set().insert(v).contains(x) by {
            lemma_last_or_front(vs, x);
        }
        assert(vs.to_set() =~= rest.to_set().insert(v));
        assert(slots_below(vs.len()) =~= slots_below(rest.len()).insert(s));
    }
}

/// A removed value is gone: the search no longer finds it, and the tree has
/// one node less.
pub proof fn lemma_removed_is_gone<T: Ord>(t: Shape<T>, v: T)
    requires
        total_order::<T>(),
        t.sorted(),
        t.distinct(),
        t.values().contains(v),
    ensures
        t.without(v).find(v) is None,
        !t.without(v).values().contains(v),
        t.without(v).size() == t.size() - 1,
{
    lemma_without(t, v);
    lemma_find(t.without(v), v);
}

/// What a run of removals leaves of a balanced search tree: a balanced
/// search tree of the values that were not removed.
pub proof fn lemma_removals<T: Ord>(t: Shape<T>, vs: Seq<T>)
    requires
        total_order::<T>(),
        t.sorted(),
        t.balanced(),
        t.distinct(),
    ensures
        removed(t, vs).sorted(),
        removed(t, vs).balanced(),
        removed(t, vs).distinct(),
        removed(t, vs).values() == t.values().difference(vs.to_set()),
    decreases vs.len(),
{
    if vs.len() == 0 {
        assert(vs.to_set() =~= Set::empty());
        assert(t.values().difference(vs.to_set()) =~= t.values());
    } else {
        let rest = vs.drop_last();
        let v = vs.last();
        let u = removed(t, rest);
        lemma_removals(t, rest);
        if u.values().contains(v) {
            lemma_without(u, v);
            lemma_find(u, v);
            lemma_without_balanced(u, v);
        }
        assert forall|x: T| vs.to_set().contains(x) <==> rest.to_set().contains(x) || x == v by {
            lemma_last_or_front(vs, x);
        }
        assert(removed(t, vs).values() =~= t.values().difference(vs.to_set()));
    }
}

/// Inserting values into the empty tree and then removing all of them, in
/// any order, leaves the empty tree.
pub proof fn lemma_round_trip<T: Ord>(vs: Seq<T>, order: Seq<T>)
    requires
        total_order::<T>(),
        vs.no_duplicates(),
        vs.len() <= usize::MAX,
        forall|x: T| vs.contains(x) ==> order.contains(x),
    ensures
        removed(inserted(vs), order) is Empty,
        removed(inserted(vs), order).size() == 0,
{
    let t = inserted(vs);
    lemma_insertions(vs);
    lemma_removals(t, order);
    let left = removed(t, order);
    assert(left.values() =~= Set::empty());
    if left is Branch {
        assert(left.values().contains(left->value));
    }
}

/// Draining a tree gives out every value that it holds, and as many values
/// as it has nodes: each value of a search tree once.
pub proof fn lemma_drained<T>(t: Shape<T>, v: T)
    ensures
        t.breadth_first().len() == t.size(),
        t.breadth_first().contains(v) <==> t.values().contains(v),
{
    let q = seq![t];
    lemma_level_order_len(q);
    lemma_level_order_values(q, v);
    assert(q.drop_first() =~= Seq::<Shape<T>>::empty());
    reveal_with_fuel(forest_size, 2);
    if t.values().contains(v) {
        assert(q[0].values().contains(v));
    }
}

} // verus!
