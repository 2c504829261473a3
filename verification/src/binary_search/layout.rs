//! How a shape lies in the arena.

use super::Node;
use crate::shape::descend;
use crate::shape::graft;
use crate::shape::lemma_descend_within;
use crate::shape::lemma_slot_map_dom;
use crate::shape::on_path;
use crate::order::lt;
use crate::shape::Shape;
use crate::sorted::lemma_trail_within;
use vstd::prelude::*;

verus! {

/// The root of `t` sits in its slot with its value and links; its height
/// field may be stale.
pub(super) open spec fn linked_at<T>(data: Seq<Option<Node<T>>>, t: Shape<T>) -> bool {
    match t {
        Shape::Empty => false,
        Shape::Branch { slot, value, left, right } => {
            &&& slot < data.len()
            &&& data[slot as int] matches Some(n)
            &&& n.value == value
            &&& n.left == left.link()
            &&& n.right == right.link()
        },
    }
}

/// Every node of `t` sits in its slot with its value, links and height.
pub(super) open spec fn stored<T>(data: Seq<Option<Node<T>>>, t: Shape<T>) -> bool
    decreases t,
{
    match t {
        Shape::Empty => true,
        Shape::Branch { slot, left, right, .. } => {
            &&& linked_at(data, t)
            &&& data[slot as int].unwrap().height == t.height()
            &&& stored(data, *left)
            &&& stored(data, *right)
        },
    }
}

/// The root of `t` is linked and both its subtrees are stored; only the
/// root's height field may be stale.
pub(super) open spec fn hangs<T>(data: Seq<Option<Node<T>>>, t: Shape<T>) -> bool {
    &&& linked_at(data, t)
    &&& stored(data, t.lhs())
    &&& stored(data, t.rhs())
}

/// `p` is a path of `t` from the root down, the nodes on it are linked, and
/// everything off the path is stored; the height fields on the path may be
/// stale.
pub(super) open spec fn stored_along<T>(data: Seq<Option<Node<T>>>, t: Shape<T>, p: Seq<usize>) -> bool
    decreases t,
{
    match t {
        Shape::Empty => false,
        Shape::Branch { slot, left, right, .. } => {
            &&& p.len() >= 1
            &&& p[0] == slot
            &&& linked_at(data, t)
            &&& if p.len() == 1 {
                stored(data, *left) && stored(data, *right)
            } else if left.link() == Some(p[1]) {
                stored_along(data, *left, p.drop_first()) && stored(data, *right)
            } else {
                &&& right.link() == Some(p[1])
                &&& stored(data, *left)
                &&& stored_along(data, *right, p.drop_first())
            }
        },
    }
}

/// Every slot of the first arena that is not in `s` is there in the second
/// and holds the same.
pub(super) open spec fn agree<T>(a: Seq<Option<Node<T>>>, b: Seq<Option<Node<T>>>, s: Set<usize>) -> bool {
    forall|j: usize|
        j < a.len() && !s.contains(j) ==> j < b.len() && #[trigger] a[j as int] == b[j as int]
}

/// The two arenas have the same slots occupied, with the same values.
pub(super) open spec fn same_payload<T>(a: Seq<Option<Node<T>>>, b: Seq<Option<Node<T>>>) -> bool {
    &&& a.len() == b.len()
    &&& forall|j: usize|
        j < a.len() ==> {
            &&& (#[trigger] a[j as int] is Some <==> b[j as int] is Some)
            &&& a[j as int] is Some ==> a[j as int].unwrap().value == b[j as int].unwrap().value
        }
}

/// Two changes in a row, each within `s` and each keeping the payload, make
/// one such change.
pub(super) proof fn lemma_changes<T>(
    a: Seq<Option<Node<T>>>,
    b: Seq<Option<Node<T>>>,
    c: Seq<Option<Node<T>>>,
    s: Set<usize>,
)
    requires
        agree(a, b, s),
        same_payload(a, b),
        agree(b, c, s),
        same_payload(b, c),
    ensures
        agree(a, c, s),
        same_payload(a, c),
{
    assert forall|j: usize| j < a.len() && !s.contains(j) implies j < c.len() && #[trigger] a[j as int]
        == c[j as int] by {
        assert(a[j as int] == b[j as int]);
        assert(b[j as int] == c[j as int]);
    }
    assert forall|j: usize| j < a.len() implies (#[trigger] a[j as int] is Some <==> c[j as int]
        is Some) && (a[j as int] is Some ==> a[j as int].unwrap().value
        == c[j as int].unwrap().value) by {
        assert(a[j as int] is Some <==> b[j as int] is Some);
        assert(b[j as int] is Some <==> c[j as int] is Some);
    }
}

/// A stored shape stays stored when the arena changes only outside its slots.
pub(super) proof fn lemma_frame<T>(
    a: Seq<Option<Node<T>>>,
    b: Seq<Option<Node<T>>>,
    s: Set<usize>,
    t: Shape<T>,
)
    requires
        stored(a, t),
        agree(a, b, s),
        s.disjoint(t.slots()),
    ensures
        stored(b, t),
    decreases t,
{
    match t {
        Shape::Empty => {},
        Shape::Branch { slot, left, right, .. } => {
            assert(t.slots().contains(slot));
            assert(a[slot as int] == b[slot as int]);
            lemma_frame(a, b, s, *left);
            lemma_frame(a, b, s, *right);
        },
    }
}

/// A stored shape stays stored in an arena that holds the same in each of
/// its slots.
pub(super) proof fn lemma_frame_on<T>(a: Seq<Option<Node<T>>>, b: Seq<Option<Node<T>>>, t: Shape<T>)
    requires
        stored(a, t),
        forall|j: usize| #[trigger]
            t.slots().contains(j) ==> j < b.len() && a[j as int] == b[j as int],
    ensures
        stored(b, t),
    decreases t,
{
    match t {
        Shape::Empty => {},
        Shape::Branch { slot, left, right, .. } => {
            assert(t.slots().contains(slot));
            assert(a[slot as int] == b[slot as int]);
            assert forall|j: usize| #[trigger] left.slots().contains(j) implies j < b.len() && a[j as int]
                == b[j as int] by {
                assert(t.slots().contains(j));
            }
            assert forall|j: usize| #[trigger] right.slots().contains(j) implies j < b.len()
                && a[j as int] == b[j as int] by {
                assert(t.slots().contains(j));
            }
            lemma_frame_on(a, b, *left);
            lemma_frame_on(a, b, *right);
        },
    }
}

/// A shape stored along a path stays so when the arena changes only outside
/// its slots.
pub(super) proof fn lemma_frame_along<T>(
    a: Seq<Option<Node<T>>>,
    b: Seq<Option<Node<T>>>,
    s: Set<usize>,
    t: Shape<T>,
    p: Seq<usize>,
)
    requires
        stored_along(a, t, p),
        agree(a, b, s),
        s.disjoint(t.slots()),
    ensures
        stored_along(b, t, p),
    decreases t,
{
    match t {
        Shape::Empty => {},
        Shape::Branch { slot, left, right, .. } => {
            assert(t.slots().contains(slot));
            assert(a[slot as int] == b[slot as int]);
            if p.len() == 1 {
                lemma_frame(a, b, s, *left);
                lemma_frame(a, b, s, *right);
            } else if left.link() == Some(p[1]) {
                lemma_frame_along(a, b, s, *left, p.drop_first());
                lemma_frame(a, b, s, *right);
            } else {
                lemma_frame(a, b, s, *left);
                lemma_frame_along(a, b, s, *right, p.drop_first());
            }
        },
    }
}

/// The root of a shape that is stored, or stored along a path, is occupied.
pub(super) proof fn lemma_stored_root<T>(data: Seq<Option<Node<T>>>, t: Shape<T>, p: Seq<usize>)
    requires
        t is Branch,
        if p.len() == 0 {
            stored(data, t)
        } else {
            stored_along(data, t, p)
        },
    ensures
        t->slot < data.len(),
        data[t->slot as int] is Some,
{
}

/// Every part of a stored shape is stored.
pub(super) proof fn lemma_part_stored<T>(data: Seq<Option<Node<T>>>, t: Shape<T>, part: Shape<T>)
    requires
        stored(data, t),
        t.has_part(part),
    ensures
        stored(data, part),
    decreases t,
{
    if t != part {
        match t {
            Shape::Empty => {},
            Shape::Branch { left, right, .. } => {
                if left.has_part(part) {
                    lemma_part_stored(data, *left, part);
                } else {
                    lemma_part_stored(data, *right, part);
                }
            },
        }
    }
}

/// The arena holds at most one shape under a given link.
pub(super) proof fn lemma_unique<T>(data: Seq<Option<Node<T>>>, t: Shape<T>, u: Shape<T>)
    requires
        stored(data, t),
        stored(data, u),
        t.link() == u.link(),
    ensures
        t == u,
    decreases t,
{
    match t {
        Shape::Empty => {},
        Shape::Branch { slot, value, left, right } => {
            match u {
                Shape::Empty => {},
                Shape::Branch { slot: s2, value: v2, left: l2, right: r2 } => {
                    lemma_unique(data, *left, *l2);
                    lemma_unique(data, *right, *r2);
                },
            }
        },
    }
}

/// Every slot of a stored shape is occupied.
pub(super) proof fn lemma_stored_occupied<T>(data: Seq<Option<Node<T>>>, t: Shape<T>, i: usize)
    requires
        stored(data, t),
        t.slots().contains(i),
    ensures
        i < data.len(),
        data[i as int] is Some,
        t.slot_map().contains_key(i),
        t.distinct() ==> data[i as int].unwrap().value == t.slot_map()[i],
    decreases t,
{
    match t {
        Shape::Empty => {},
        Shape::Branch { slot, left, right, .. } => {
            if i == slot {
            } else if right.slots().contains(i) {
                lemma_stored_occupied(data, *right, i);
            } else {
                lemma_stored_occupied(data, *left, i);
                lemma_slot_map_dom(*right);
            }
        },
    }
}

/// Where a shape is stored along a path, the subtree at the end of the path
/// hangs in the arena under the path's last slot.
pub(super) proof fn lemma_descend_hangs<T>(data: Seq<Option<Node<T>>>, t: Shape<T>, p: Seq<usize>)
    requires
        stored_along(data, t, p),
    ensures
        hangs(data, descend(t, p)),
        descend(t, p).link() == Some(p.last()),
        p.len() >= 2 ==> p[p.len() - 2] < data.len() && data[p[p.len() - 2] as int] is Some,
        p.len() >= 2 ==> t.slots().contains(p[p.len() - 2]),
        p.len() >= 2 && t.distinct() ==> !descend(t, p).slots().contains(p[p.len() - 2]),
    decreases t,
{
    match t {
        Shape::Empty => {},
        Shape::Branch { slot, left, right, .. } => {
            if p.len() == 1 {
            } else {
                let q = p.drop_first();
                assert(q.last() == p.last());
                if t.distinct() {
                    lemma_descend_within(*left, q);
                    lemma_descend_within(*right, q);
                }
                if q.len() >= 2 {
                    assert(q[q.len() - 2] == p[p.len() - 2]);
                }
                if left.link() == Some(p[1]) {
                    lemma_descend_hangs(data, *left, q);
                } else {
                    lemma_descend_hangs(data, *right, q);
                }
            }
        },
    }
}

/// A stored shape is stored along each of its paths.
pub(super) proof fn lemma_stored_along<T>(data: Seq<Option<Node<T>>>, t: Shape<T>, p: Seq<usize>)
    requires
        stored(data, t),
        on_path(t, p),
    ensures
        stored_along(data, t, p),
    decreases t,
{
    match t {
        Shape::Empty => {},
        Shape::Branch { slot, left, right, .. } => {
            if p.len() == 1 {
            } else if left.link() == Some(p[1]) {
                lemma_stored_along(data, *left, p.drop_first());
            } else {
                lemma_stored_along(data, *right, p.drop_first());
            }
        },
    }
}

/// What becomes of a shape stored along the path `p` when the subtree at
/// the end of `p` has been replaced in the arena by `r`, within the same
/// slots, and the parent's link to it rewritten: the grafted shape is stored
/// along the rest of `p`, continued by the path `px` along which `r` is
/// stored.
pub(super) proof fn lemma_graft_stored<T>(
    a: Seq<Option<Node<T>>>,
    b: Seq<Option<Node<T>>>,
    t: Shape<T>,
    p: Seq<usize>,
    r: Shape<T>,
    px: Seq<usize>,
)
    requires
        p.len() >= 2,
        stored_along(a, t, p),
        t.distinct(),
        if px.len() == 0 {
            stored(b, r)
        } else {
            stored_along(b, r, px)
        },
        p[p.len() - 2] < b.len(),
        r.slots().subset_of(descend(t, p).slots()),
        agree(a, b, descend(t, p).slots().insert(p[p.len() - 2])),
        b[p[p.len() - 2] as int] matches Some(n) && n.value == a[p[p.len() - 2] as int].unwrap().value
            && (if a[p[p.len() - 2] as int].unwrap().left == Some(p.last()) {
            n.left == r.link() && n.right == a[p[p.len() - 2] as int].unwrap().right
        } else {
            n.left == a[p[p.len() - 2] as int].unwrap().left && n.right == r.link()
        }),
    ensures
        stored_along(b, graft(t, p, r), p.drop_last() + px),
    decreases t,
{
    let q = p.drop_first();
    let g = p[p.len() - 2];
    let u = descend(t, p);
    let changed = u.slots().insert(g);
    let path = p.drop_last() + px;
    match t {
        Shape::Empty => {},
        Shape::Branch { slot, value, left, right } => {
            assert(path[0] == p[0]);
            lemma_descend_within(*left, q);
            lemma_descend_within(*right, q);
            if p.len() == 2 {
                assert(q.len() == 1);
                assert(path.drop_first() =~= px);
                assert(g == slot);
                if px.len() > 0 {
                    assert(path[1] == px[0]);
                    assert(r.slots().contains(px[0]));
                }
                if left.link() == Some(p[1]) {
                    assert(descend(*left, q) == *left);
                    assert(changed.disjoint(right.slots()));
                    lemma_frame(a, b, changed, *right);
                } else {
                    assert(descend(*right, q) == *right);
                    assert(changed.disjoint(left.slots()));
                    lemma_frame(a, b, changed, *left);
                    if px.len() > 0 && left.link() == Some(px[0]) {
                        assert(left.slots().contains(px[0]));
                        assert(right.slots().contains(px[0]));
                    }
                }
            } else {
                assert(q[q.len() - 2] == g);
                assert(q.last() == p.last());
                assert(path.drop_first() =~= q.drop_last() + px);
                assert(path[1] == p[1]);
                if left.link() == Some(p[1]) {
                    lemma_descend_hangs(a, *left, q);
                    assert(left.slots().contains(g));
                    assert(changed.disjoint(right.slots()));
                    lemma_frame(a, b, changed, *right);
                    lemma_graft_stored(a, b, *left, q, r, px);
                    assert(graft(*left, q, r).link() == left.link());
                    assert(a[slot as int] == b[slot as int]);
                } else {
                    lemma_descend_hangs(a, *right, q);
                    assert(right.slots().contains(g));
                    assert(changed.disjoint(left.slots()));
                    lemma_frame(a, b, changed, *left);
                    lemma_graft_stored(a, b, *right, q, r, px);
                    assert(graft(*right, q, r).link() == right.link());
                    assert(a[slot as int] == b[slot as int]);
                }
            }
        },
    }
}

/// The value in each occupied slot of the arena.
pub(super) open spec fn payload<T>(data: Seq<Option<Node<T>>>) -> Map<usize, T> {
    Map::new(
        |i: usize| i < data.len() && data[i as int] is Some,
        |i: usize| data[i as int].unwrap().value,
    )
}

/// Where the occupied slots are those of a stored shape, the arena holds in
/// each the value that the shape says.
pub(super) proof fn lemma_payload<T>(data: Seq<Option<Node<T>>>, t: Shape<T>)
    requires
        stored(data, t),
        t.distinct(),
        forall|i: usize|
            i < data.len() ==> (#[trigger] data[i as int] is Some <==> t.slots().contains(i)),
    ensures
        payload(data) == t.slot_map(),
{
    lemma_slot_map_dom(t);
    assert forall|i: usize| t.slots().contains(i) implies i < data.len() && data[i as int] is Some
        && data[i as int].unwrap().value == t.slot_map()[i] by {
        lemma_stored_occupied(data, t, i);
    }
    assert(payload(data) =~= t.slot_map());
}

/// What the arena holds after a new leaf has been put into the vacant slot
/// `s` and linked to the node at which the search for its value ended: the
/// shape with the leaf attached, stored along the search path.
pub(super) proof fn lemma_attach_stored<T: Ord>(
    a: Seq<Option<Node<T>>>,
    b: Seq<Option<Node<T>>>,
    t: Shape<T>,
    v: T,
    s: usize,
)
    requires
        stored(a, t),
        t is Branch,
        t.distinct(),
        t.find(v) is None,
        !t.slots().contains(s),
        s < b.len(),
        b[s as int] == Some(Node { value: v, left: None, right: None, height: 0 }),
        agree(a, b, set![s, t.trail(v).last()]),
        t.trail(v).len() >= 1,
        t.trail(v).last() < a.len(),
        t.trail(v).last() < b.len(),
        a[t.trail(v).last() as int] is Some,
        b[t.trail(v).last() as int] matches Some(n) && n.value == a[t.trail(v).last() as int].unwrap().value
            && (if lt(v, n.value) {
            n.left == Some(s) && n.right == a[t.trail(v).last() as int].unwrap().right
        } else {
            n.right == Some(s) && n.left == a[t.trail(v).last() as int].unwrap().left
        }),
    ensures
        stored_along(b, t.attach(v, s), t.trail(v)),
    decreases t,
{
    let p = t.trail(v);
    let g = p.last();
    let changed = set![s, g];
    lemma_trail_within(t, v);
    match t {
        Shape::Empty => {},
        Shape::Branch { slot, value, left, right } => {
            reveal_with_fuel(Shape::height, 2);
            if lt(v, value) {
                assert(p.drop_first() =~= left.trail(v));
                assert(left.find(v) is None);
                match *left {
                    Shape::Empty => {
                        assert(left.trail(v) =~= Seq::empty());
                        assert(p =~= seq![slot]);
                        assert(changed.disjoint(right.slots()));
                        lemma_frame(a, b, changed, *right);
                        assert(stored(b, Shape::leaf(s, v))) by {
                            reveal_with_fuel(stored, 2);
                        }
                        assert(linked_at(b, t.attach(v, s)));
                    },
                    Shape::Branch { slot: ls, .. } => {
                        lemma_trail_within(*left, v);
                        assert(left.trail(v).last() == g);
                        assert(p[1] == ls);
                        assert(changed.disjoint(right.slots()));
                        lemma_frame(a, b, changed, *right);
                        lemma_stored_occupied(a, *left, g);
                        lemma_attach_stored(a, b, *left, v, s);
                        assert(a[slot as int] == b[slot as int]);
                        assert(left.attach(v, s).link() == left.link());
                        assert(linked_at(b, t.attach(v, s)));
                    },
                }
            } else {
                assert(p.drop_first() =~= right.trail(v));
                assert(right.find(v) is None);
                match *right {
                    Shape::Empty => {
                        assert(right.trail(v) =~= Seq::empty());
                        assert(p =~= seq![slot]);
                        assert(changed.disjoint(left.slots()));
                        lemma_frame(a, b, changed, *left);
                        assert(stored(b, Shape::leaf(s, v))) by {
                            reveal_with_fuel(stored, 2);
                        }
                        assert(linked_at(b, t.attach(v, s)));
                    },
                    Shape::Branch { slot: rs, .. } => {
                        lemma_trail_within(*right, v);
                        assert(right.trail(v).last() == g);
                        assert(p[1] == rs);
                        assert(right.slots().contains(rs));
                        assert(left.link() != Some(rs)) by {
                            if left.link() == Some(rs) {
                                assert(left.slots().contains(rs));
                            }
                        }
                        assert(changed.disjoint(left.slots()));
                        lemma_frame(a, b, changed, *left);
                        lemma_stored_occupied(a, *right, g);
                        lemma_attach_stored(a, b, *right, v, s);
                        assert(a[slot as int] == b[slot as int]);
                        assert(right.attach(v, s).link() == right.link());
                        assert(linked_at(b, t.attach(v, s)));
                    },
                }
            }
        },
    }
}

} // verus!
