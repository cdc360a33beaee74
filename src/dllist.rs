use vstd::prelude::*;
use std::collections::VecDeque;
use crate::interface::List;

verus! {

/// A positional list whose insertions and removals cost O(min(i, n - i)):
/// elements are reached from whichever end is nearer.
pub struct DLList<T> {
    items: VecDeque<T>,
}

impl<T> DLList<T> {
    /// An empty list.
    pub fn new() -> (r: Self)
        ensures
            r.list_items() == Seq::<T>::empty(),
    {
        DLList { items: VecDeque::new() }
    }
}

impl<T> List<T> for DLList<T> {
    closed spec fn list_items(&self) -> Seq<T> {
        self.items@
    }

    fn size(&self) -> (r: usize) {
        self.items.len()
    }

    fn get(&self, i: usize) -> (r: Option<&T>) {
        if i < self.items.len() {
            Some(&self.items[i])
        } else {
            None
        }
    }

    fn set(&mut self, i: usize, x: T) -> (r: T) {
        let ghost before = self.items@;
        let y = self.items.remove(i).unwrap();
        self.items.insert(i, x);
        assert(self.items@ =~= before.update(i as int, x));
        y
    }

    fn add(&mut self, i: usize, x: T) {
        self.items.insert(i, x);
    }

    fn remove(&mut self, i: usize) -> (r: T) {
        self.items.remove(i).unwrap()
    }
}

} // verus!
