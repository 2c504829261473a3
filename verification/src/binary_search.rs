//! The tree itself: nodes in an arena of slots, linked by slot index.

use crate::lists::lemma_front_lacks_last;
use crate::lists::lemma_last_or_front;
use crate::lists::lemma_pushed;
use crate::lists::lemma_pushed_fresh;
use crate::shape::Shape;
use vstd::prelude::*;

mod balance;
mod insert;
mod iter;
mod layout;
mod remove;
mod search;

pub use iter::Iter;

use layout::lemma_payload;
use layout::lemma_unique;
use layout::payload;
use layout::stored;

verus! {

/// One node of the tree, as a slot of the arena holds it.
#[derive(Clone)]
pub struct Node<T> {
    value: T,
    left: Option<usize>,
    right: Option<usize>,
    height: i8,
}

impl<T> Node<T> {
    fn new(value: T) -> (node: Self)
        ensures
            node == (Node { value, left: None, right: None, height: 0 }),
    {
        Self { value, left: None, right: None, height: 0 }
    }
}

/// A set of unique values, kept as a height-balanced search tree in an arena.
#[derive(Clone)]
pub struct Tree<T> {
    data: Vec<Option<Node<T>>>,
    free: Vec<usize>,
    root: usize,
    size: usize,
}

/// The slots of `s` that are below `n`, in their order.
pub open spec fn below(s: Seq<usize>, n: nat) -> Seq<usize>
    decreases s.len(),
{
    if s.len() == 0 {
        s
    } else if s.last() < n {
        below(s.drop_last(), n).push(s.last())
    } else {
        below(s.drop_last(), n)
    }
}

/// `below` keeps exactly the slots below `n`, and adds none twice.
pub proof fn lemma_below(s: Seq<usize>, n: nat)
    ensures
        forall|x: usize| #[trigger] below(s, n).contains(x) <==> s.contains(x) && x < n,
        s.no_duplicates() ==> below(s, n).no_duplicates(),
        n == 0 ==> below(s, n).len() == 0,
    decreases s.len(),
{
    if s.len() > 0 {
        let rest = s.drop_last();
        let b = below(rest, n);
        lemma_below(rest, n);
        assert forall|x: usize| #[trigger] below(s, n).contains(x) <==> s.contains(x) && x < n by {
            lemma_last_or_front(s, x);
            lemma_pushed(b, s.last(), x);
        }
        if s.no_duplicates() {
            lemma_front_lacks_last(s);
            if s.last() < n {
                lemma_pushed_fresh(b, s.last());
            }
        }
    }
}

impl<T> Tree<T> {
    /// The link that leads to the root: none while the tree is empty.
    spec fn root_link(&self) -> Option<usize> {
        if self.size == 0 {
            None
        } else {
            Some(self.root)
        }
    }

    /// The tree as a mathematical value.
    pub closed spec fn shape(&self) -> Shape<T> {
        choose|t: Shape<T>| stored(self.data@, t) && t.link() == self.root_link()
    }

    /// The vacant slots inside the arena, in the order in which they will be
    /// used again, last first.
    pub closed spec fn free_slots(&self) -> Seq<usize> {
        self.free@
    }

    /// The number of slots in the arena, occupied or vacant.
    pub closed spec fn slot_count(&self) -> nat {
        self.data@.len()
    }

    /// The value in each occupied slot.
    pub open spec fn slots(&self) -> Map<usize, T> {
        self.shape().slot_map()
    }

    /// The slot that the next insertion will use: the last one on the free
    /// list, or a new one at the end of the arena.
    pub open spec fn next_slot(&self) -> usize {
        if self.free_slots().len() > 0 {
            self.free_slots().last()
        } else {
            self.slot_count() as usize
        }
    }

    /// The arena ends with its last occupied slot: every value sits in a
    /// slot of the arena, and the last slot of the arena holds one.
    pub open spec fn tight(&self) -> bool {
        &&& forall|i: usize| self.slots().contains_key(i) ==> i < self.slot_count()
        &&& self.slot_count() > 0 ==> self.slots().contains_key((self.slot_count() - 1) as usize)
    }

    /// The tree is balanced, and the arena is laid out as the shape says:
    /// every node of the shape sits in its slot with its links and its
    /// height, no slot holds two nodes, every other slot is vacant and on
    /// the free list, and the last slot of the arena is occupied.
    pub closed spec fn wf(&self) -> bool {
        let t = self.shape();
        &&& stored(self.data@, t)
        &&& t.link() == self.root_link()
        &&& t.distinct()
        &&& t.balanced()
        &&& t.size() == self.size
        &&& forall|i: usize|
            i < self.data@.len() ==> (#[trigger] self.data@[i as int] is Some
                <==> t.slots().contains(i))
        &&& self.free@.no_duplicates()
        &&& forall|i: usize|
            #[trigger] self.free@.contains(i) <==> i < self.data@.len()
                && self.data@[i as int] is None
        &&& self.data@.len() > 0 ==> self.data@.last() is Some
        &&& self.size == 0 ==> self.root == 0
    }

    /// The shape of the tree is the one that the arena holds under the root.
    proof fn lemma_shape_is(&self, t: Shape<T>)
        requires
            stored(self.data@, t),
            t.link() == self.root_link(),
        ensures
            self.shape() == t,
    {
        lemma_unique(self.data@, self.shape(), t);
    }

    /// An empty tree has an empty arena and an empty free list.
    proof fn lemma_empty(&self)
        requires
            self.wf(),
            self.size == 0,
        ensures
            self.shape() is Empty,
            self.data@.len() == 0,
            self.free@.len() == 0,
            self.root == 0,
    {
        if self.data@.len() > 0 {
            let last = (self.data.len() - 1) as usize;
            assert(self.data@.last() == self.data@[last as int]);
            assert(self.shape().slots().contains(last));
        }
        if self.free@.len() > 0 {
            assert(self.free@.contains(self.free@[0]));
        }
    }

    /// In a well-formed tree the occupied slots are those of the shape, each
    /// with the value that the shape gives it.
    proof fn lemma_slots(&self)
        requires
            self.wf(),
        ensures
            self.slots() == payload(self.data@),
    {
        lemma_payload(self.data@, self.shape());
    }

    /// The height that the node in `slot` has on record.
    pub closed spec fn recorded_height(&self, slot: usize) -> int {
        self.data@[slot as int].unwrap().height as int
    }

    /// Every node has on record the height of the subtree below it: one
    /// more than the greater of the heights of its two subtrees, an empty
    /// one counting as -1.
    pub proof fn lemma_recorded_heights(&self, part: Shape<T>)
        requires
            self.wf(),
            self.shape().has_part(part),
            part is Branch,
        ensures
            self.recorded_height(part->slot) == part.height(),
            part.height() == 1 + if part.lhs().height() >= part.rhs().height() {
                part.lhs().height()
            } else {
                part.rhs().height()
            },
            part.height() <= 127,
    {
        layout::lemma_part_stored(self.data@, self.shape(), part);
    }

    /// What a well-formed tree says of itself and of the arena: every
    /// node's balance factor is -1, 0 or 1, no slot holds two nodes, the
    /// nodes lie within the arena, its last slot is occupied, and the free
    /// list holds each vacant slot once.
    pub proof fn lemma_arena(&self)
        requires
            self.wf(),
        ensures
            self.shape().balanced(),
            self.shape().distinct(),
            self.shape().height() < 126,
            self.shape().size() <= usize::MAX,
            self.tight(),
            self.slot_count() <= usize::MAX,
            self.free_slots().no_duplicates(),
            forall|i: usize| #[trigger]
                self.free_slots().contains(i) <==> i < self.slot_count()
                    && !self.slots().contains_key(i),
            self.shape() is Empty ==> self.slot_count() == 0 && self.free_slots().len() == 0,
    {
        let t = self.shape();
        self.lemma_slots();
        crate::shape::lemma_slot_map_dom(t);
        assert(self.data@.len() == self.data.len());
        if self.data@.len() > 0 {
            let last = (self.data.len() - 1) as usize;
            assert(self.data@.last() == self.data@[last as int]);
            assert(t.slots().contains(last));
        }
        crate::avl::lemma_balanced_height(t);
        if t is Empty {
            self.lemma_empty();
        }
        assert forall|i: usize| #[trigger]
            self.free_slots().contains(i) <==> i < self.slot_count() && !self.slots().contains_key(
                i,
            ) by {
            assert(self.free@.contains(i) <==> i < self.data@.len() && self.data@[i as int]
                is None);
            if i < self.data@.len() {
                assert(self.data@[i as int] is Some <==> t.slots().contains(i));
            }
        }
    }

    /// An empty tree.
    pub fn new() -> (tree: Self)
        ensures
            tree.wf(),
            tree.shape() == Shape::<T>::Empty,
            tree.free_slots() == Seq::<usize>::empty(),
            tree.slot_count() == 0,
    {
        let tree = Self { data: Vec::new(), free: Vec::new(), root: 0, size: 0 };
        proof {
            tree.lemma_shape_is(Shape::Empty);
        }
        tree
    }

    /// The number of values in the tree.
    pub fn len(&self) -> (n: usize)
        requires
            self.wf(),
        ensures
            n == self.shape().size(),
    {
        self.size
    }

    /// Whether the tree holds no value.
    pub fn is_empty(&self) -> (b: bool)
        requires
            self.wf(),
        ensures
            b == (self.shape() is Empty),
    {
        self.size == 0
    }

    /// The height of the tree: -1 where it is empty, 0 where it is a
    /// single node.
    pub fn height(&self) -> (h: i8)
        requires
            self.wf(),
        ensures
            h == self.shape().height(),
    {
        if self.size == 0 {
            -1
        } else {
            self.data[self.root].as_ref().unwrap().height
        }
    }

    /// The value in the slot `index`; nothing where the slot is vacant or
    /// beyond the end of the arena.
    pub fn get(&self, index: usize) -> (value: Option<&T>)
        requires
            self.wf(),
        ensures
            match value {
                Some(v) => self.slots().contains_key(index) && *v == self.slots()[index],
                None => !self.slots().contains_key(index),
            },
    {
        proof {
            self.lemma_slots();
        }
        if index < self.data.len() {
            match &self.data[index] {
                Some(n) => Some(&n.value),
                None => None,
            }
        } else {
            None
        }
    }
}

impl<T> View for Tree<T> {
    type V = Set<T>;

    /// The values in the tree.
    open spec fn view(&self) -> Set<T> {
        self.shape().values()
    }
}

impl<T> Default for Tree<T> {
    fn default() -> (tree: Self)
        ensures
            tree.wf(),
            tree.shape() == Shape::<T>::Empty,
            tree.free_slots() == Seq::<usize>::empty(),
            tree.slot_count() == 0,
    {
        Self::new()
    }
}

} // verus!
