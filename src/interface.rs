use vstd::prelude::*;

verus! {

/// `y` is the smallest element of `s` that is at least `k`.
pub open spec fn is_lower_bound(s: Set<int>, k: int, y: int) -> bool {
    &&& s.contains(y)
    &&& k <= y
    &&& forall|z: int| #[trigger] s.contains(z) && k <= z ==> y <= z
}

/// No element of `s` is at least `k`.
pub open spec fn all_below(s: Set<int>, k: int) -> bool {
    forall|z: int| #[trigger] s.contains(z) ==> z < k
}

/// The sequence is strictly increasing.
pub open spec fn strictly_increasing(s: Seq<int>) -> bool {
    forall|i: int, j: int| 0 <= i < j < s.len() ==> s[i] < s[j]
}

/// A sorted set: insert-if-absent, remove-if-present and lower-bound lookup.
///
/// Elements are compared by `key`; the abstract state is the set of keys held.
pub trait SSet<T>: Sized {
    /// The structure's internal invariant.
    spec fn wf(&self) -> bool;

    /// The keys held.
    spec fn contents(&self) -> Set<int>;

    /// The keys in the order in which the structure links them.
    spec fn traversal(&self) -> Seq<int>;

    /// The key under which an element is stored.
    spec fn key(x: &T) -> int;

    /// The traversal of a well-formed structure is strictly increasing and holds
    /// exactly the keys of the set.
    proof fn lemma_traversal_sorted(&self)
        requires
            self.wf(),
        ensures
            strictly_increasing(self.traversal()),
            self.traversal().to_set() == self.contents(),
            self.contents().finite(),
    ;

    /// Number of elements held.
    fn size(&self) -> (r: usize)
        requires
            self.wf(),
        ensures
            r == self.contents().len(),
    ;

    /// Inserts `x` unless an element with its key is present; reports whether it did.
    fn add(&mut self, x: T) -> (r: bool)
        requires
            old(self).wf(),
            old(self).contents().len() < usize::MAX,
        ensures
            final(self).wf(),
            r == !old(self).contents().contains(Self::key(&x)),
            final(self).contents() == old(self).contents().insert(Self::key(&x)),
    ;

    /// Deletes the element with the key of `x`, if any; reports whether it did.
    fn remove(&mut self, x: &T) -> (r: bool)
        requires
            old(self).wf(),
        ensures
            final(self).wf(),
            r == old(self).contents().contains(Self::key(x)),
            final(self).contents() == old(self).contents().remove(Self::key(x)),
    ;

    /// The smallest element whose key is at least that of `x`, if any.
    fn find(&self, x: &T) -> (r: Option<&T>)
        requires
            self.wf(),
        ensures
            r.is_some() ==> is_lower_bound(self.contents(), Self::key(x), Self::key(r.unwrap())),
            r.is_none() ==> all_below(self.contents(), Self::key(x)),
    ;
}


/// A first-in first-out queue.
pub trait Queue<T>: Sized {
    /// The queued elements, the next to leave first.
    spec fn queue_items(&self) -> Seq<T>;

    /// Appends `x` at the back.
    fn add(&mut self, x: T)
        ensures
            final(self).queue_items() == old(self).queue_items().push(x),
    ;

    /// Takes the element at the front, if any.
    fn remove(&mut self) -> (r: Option<T>)
        ensures
            old(self).queue_items().len() == 0 ==> r.is_none() && final(self).queue_items()
                == old(self).queue_items(),
            old(self).queue_items().len() > 0 ==> r == Some(old(self).queue_items()[0])
                && final(self).queue_items() == old(self).queue_items().drop_first(),
    ;
}

/// A last-in first-out stack.
pub trait Stack<T>: Sized {
    /// The stacked elements, the top first.
    spec fn stack_items(&self) -> Seq<T>;

    /// Puts `x` on top.
    fn push(&mut self, x: T)
        ensures
            final(self).stack_items() == seq![x] + old(self).stack_items(),
    ;

    /// Takes the top element, if any.
    fn pop(&mut self) -> (r: Option<T>)
        ensures
            old(self).stack_items().len() == 0 ==> r.is_none() && final(self).stack_items()
                == old(self).stack_items(),
            old(self).stack_items().len() > 0 ==> r == Some(old(self).stack_items()[0])
                && final(self).stack_items() == old(self).stack_items().drop_first(),
    ;
}

/// A positional list: elements addressed by index `0..size()`.
pub trait List<T>: Sized {
    /// The elements in order.
    spec fn list_items(&self) -> Seq<T>;

    /// Number of elements.
    fn size(&self) -> (r: usize)
        ensures
            r == self.list_items().len(),
    ;

    /// The element at `i`, or none when `i` is out of range.
    fn get(&self, i: usize) -> (r: Option<&T>)
        ensures
            i < self.list_items().len() ==> r.is_some() && *r.unwrap() == self.list_items()[i as int],
            i >= self.list_items().len() ==> r.is_none(),
    ;

    /// Replaces the element at `i` by `x` and returns the one it held.
    fn set(&mut self, i: usize, x: T) -> (r: T)
        requires
            i < old(self).list_items().len(),
        ensures
            r == old(self).list_items()[i as int],
            final(self).list_items() == old(self).list_items().update(i as int, x),
    ;

    /// Inserts `x` at `i`, shifting later elements up; `i == size()` appends.
    fn add(&mut self, i: usize, x: T)
        requires
            i <= old(self).list_items().len(),
        ensures
            final(self).list_items() == old(self).list_items().insert(i as int, x),
    ;

    /// Removes and returns the element at `i`, shifting later elements down.
    fn remove(&mut self, i: usize) -> (r: T)
        requires
            i < old(self).list_items().len(),
        ensures
            r == old(self).list_items()[i as int],
            final(self).list_items() == old(self).list_items().remove(i as int),
    ;
}

} // verus!
