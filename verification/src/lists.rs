//! Facts about lists that the proofs of the tree use more than once.

use vstd::prelude::*;

verus! {

/// A list holds `x` where its front holds `x` or `x` is its last.
pub proof fn lemma_last_or_front<A>(s: Seq<A>, x: A)
    requires
        s.len() > 0,
    ensures
        s.contains(x) <==> s.drop_last().contains(x) || x == s.last(),
{
    let front = s.drop_last();
    if s.contains(x) {
        let k = choose|k: int| 0 <= k < s.len() && s[k] == x;
        if k < front.len() {
            assert(front[k] == x);
        }
    }
    if front.contains(x) {
        let k = choose|k: int| 0 <= k < front.len() && front[k] == x;
        assert(s[k] == x);
    }
    if x == s.last() {
        assert(s[s.len() - 1] == x);
    }
}

/// A list with `x` put on its end holds what it held, and `x`.
pub proof fn lemma_pushed<A>(s: Seq<A>, x: A, y: A)
    ensures
        s.push(x).contains(y) <==> s.contains(y) || y == x,
{
    assert(s.push(x).drop_last() =~= s);
    lemma_last_or_front(s.push(x), y);
}

/// The front of a list without duplicates has none either and lacks the
/// last.
pub proof fn lemma_front_lacks_last<A>(s: Seq<A>)
    requires
        s.len() > 0,
        s.no_duplicates(),
    ensures
        s.drop_last().no_duplicates(),
        !s.drop_last().contains(s.last()),
{
    let front = s.drop_last();
    if front.contains(s.last()) {
        let k = choose|k: int| 0 <= k < front.len() && front[k] == s.last();
        assert(s[k] == s[s.len() - 1]);
    }
}

/// A list without duplicates stays so when something that it lacks is put
/// on its end.
pub proof fn lemma_pushed_fresh<A>(s: Seq<A>, x: A)
    requires
        s.no_duplicates(),
        !s.contains(x),
    ensures
        s.push(x).no_duplicates(),
{
    let c = s.push(x);
    assert forall|i: int, j: int| 0 <= i < c.len() && 0 <= j < c.len() && i != j implies c[i]
        != c[j] by {
        if i < s.len() && j < s.len() {
        } else if i < s.len() {
            assert(s.contains(s[i]));
        } else {
            assert(s.contains(s[j]));
        }
    }
}

} // verus!
