use vstd::prelude::*;
use crate::interface::{all_below, is_lower_bound, SSet};

verus! {

/// A lookup has one answer: two lower bounds of the same key in the same set
/// are equal. With the contracts of `SSet`, whose results are stated over the
/// set of keys alone, any two engines holding the same keys answer every
/// `add`, `remove` and `find` alike.
pub proof fn lemma_lower_bound_unique(s: Set<int>, k: int, y1: int, y2: int)
    requires
        is_lower_bound(s, k, y1),
        is_lower_bound(s, k, y2),
    ensures
        y1 == y2,
{
}

/// Adding an element right after adding it successfully reports `false` and
/// leaves the keys, and so the size, unchanged.
pub proof fn lemma_add_twice<T, S: SSet<T>>(s0: S, s1: S, s2: S, x: T, r1: bool, r2: bool)
    requires
        r1 == !s0.contents().contains(S::key(&x)),
        s1.contents() == s0.contents().insert(S::key(&x)),
        r1,
        r2 == !s1.contents().contains(S::key(&x)),
        s2.contents() == s1.contents().insert(S::key(&x)),
    ensures
        !r2,
        s2.contents() == s1.contents(),
        s2.contents().len() == s1.contents().len(),
{
    assert(s2.contents() =~= s1.contents());
}

/// Removing a present element and adding it back restores the keys, hence the
/// size, and a lookup of the element then finds it.
pub proof fn lemma_remove_then_add<T, S: SSet<T>>(s0: S, s1: S, s2: S, x: T, removed: bool)
    requires
        removed == s0.contents().contains(S::key(&x)),
        s1.contents() == s0.contents().remove(S::key(&x)),
        removed,
        s2.contents() == s1.contents().insert(S::key(&x)),
    ensures
        s2.contents() == s0.contents(),
        s2.contents().len() == s0.contents().len(),
        is_lower_bound(s2.contents(), S::key(&x), S::key(&x)),
        forall|y: int| is_lower_bound(s2.contents(), S::key(&x), y) ==> y == S::key(&x),
{
    assert(s2.contents() =~= s0.contents());
}

/// For a key that is not held, the lower bound is the smallest held key
/// greater than it, and there is none exactly when every held key is smaller.
pub proof fn lemma_lower_bound_of_absent(s: Set<int>, k: int, y: int)
    requires
        !s.contains(k),
    ensures
        is_lower_bound(s, k, y) <==> (s.contains(y) && k < y && forall|z: int|
            #[trigger] s.contains(z) && k < z ==> y <= z),
        all_below(s, k) <==> forall|z: int| #[trigger] s.contains(z) ==> z < k,
{
}

} // verus!
