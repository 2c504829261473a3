//! The total order that the tree relies on, stated over `Ord`.

use std::cmp::Ordering;
use vstd::std_specs::cmp::OrdSpec;
use vstd::std_specs::cmp::PartialOrdSpec;
use vstd::prelude::*;

verus! {

/// How one value stands to another.
#[derive(Clone, Copy, PartialEq, Eq, Structural, Debug)]
pub enum Rel {
    Less,
    Equal,
    Greater,
}

/// `T`'s comparison is a total order whose equality is equality of values.
pub open spec fn total_order<T: Ord>() -> bool {
    &&& vstd::laws_cmp::obeys_cmp::<T>()
    &&& vstd::laws_eq::obeys_concrete_eq::<T>()
}

/// `a` comes strictly before `b`.
pub open spec fn lt<T: Ord>(a: T, b: T) -> bool {
    a.cmp_spec(&b) == Ordering::Less
}

/// Exactly one of `a < b`, `a == b`, `b < a` holds.
pub proof fn lemma_trichotomy<T: Ord>(a: T, b: T)
    requires
        total_order::<T>(),
    ensures
        lt(a, b) || a == b || lt(b, a),
        !(lt(a, b) && a == b),
        !(lt(b, a) && a == b),
        !(lt(a, b) && lt(b, a)),
{
    reveal(vstd::laws_cmp::obeys_partial_cmp_spec_properties);
    reveal(vstd::laws_cmp::obeys_cmp_partial_ord);
    reveal(vstd::laws_cmp::obeys_cmp_ord);
    reveal(vstd::laws_eq::obeys_concrete_eq);
    reveal(vstd::laws_eq::obeys_eq_spec_properties);
    let ab = a.partial_cmp_spec(&b);
    let ba = b.partial_cmp_spec(&a);
    assert(ab == Some(a.cmp_spec(&b)));
    assert(ba == Some(b.cmp_spec(&a)));
}

/// The order is transitive.
pub proof fn lemma_transitive<T: Ord>(a: T, b: T, c: T)
    requires
        total_order::<T>(),
        lt(a, b),
        lt(b, c),
    ensures
        lt(a, c),
{
    reveal(vstd::laws_cmp::obeys_partial_cmp_spec_properties);
    reveal(vstd::laws_cmp::obeys_cmp_partial_ord);
    reveal(vstd::laws_cmp::obeys_cmp_ord);
    assert(a.partial_cmp_spec(&b) == Some(a.cmp_spec(&b)));
    assert(b.partial_cmp_spec(&c) == Some(b.cmp_spec(&c)));
    assert(a.partial_cmp_spec(&c) == Some(a.cmp_spec(&c)));
}

/// Compares two values.
pub fn compare<T: Ord>(a: &T, b: &T) -> (r: Rel)
    requires
        total_order::<T>(),
    ensures
        r == Rel::Less <==> lt(*a, *b),
        r == Rel::Equal <==> *a == *b,
        r == Rel::Greater <==> lt(*b, *a),
{
    proof {
        lemma_trichotomy(*a, *b);
        reveal(vstd::laws_cmp::obeys_partial_cmp_spec_properties);
        reveal(vstd::laws_cmp::obeys_cmp_partial_ord);
        reveal(vstd::laws_cmp::obeys_cmp_ord);
        reveal(vstd::laws_eq::obeys_concrete_eq);
        assert(a.partial_cmp_spec(b) == Some(a.cmp_spec(b)));
        assert(b.partial_cmp_spec(a) == Some(b.cmp_spec(a)));
    }
    match a.cmp(b) {
        Ordering::Less => Rel::Less,
        Ordering::Equal => Rel::Equal,
        Ordering::Greater => Rel::Greater,
    }
}

} // verus!
