use vstd::prelude::*;
use std::collections::VecDeque;
use crate::interface::{Queue, Stack};

verus! {

/// A sequence that serves both as a stack (push and pop at the head) and as a
/// queue (add at the tail, remove at the head), each operation O(1).
pub struct SLList<T> {
    items: VecDeque<T>,
}

impl<T> SLList<T> {
    /// An empty list.
    pub fn new() -> (r: Self)
        ensures
            r.stack_items() == Seq::<T>::empty(),
            r.queue_items() == Seq::<T>::empty(),
    {
        SLList { items: VecDeque::new() }
    }

    /// Takes the head element, if any.
    fn take_head(&mut self) -> (r: Option<T>)
        ensures
            old(self).items@.len() == 0 ==> r.is_none() && final(self).items@ == old(self).items@,
            old(self).items@.len() > 0 ==> r == Some(old(self).items@[0]) && final(self).items@
                == old(self).items@.drop_first(),
    {
        let r = self.items.pop_front();
        proof {
            if old(self).items@.len() > 0 {
                assert(old(self).items@.subrange(1, old(self).items@.len() as int)
                    =~= old(self).items@.drop_first());
            }
        }
        r
    }
}

impl<T> Stack<T> for SLList<T> {
    closed spec fn stack_items(&self) -> Seq<T> {
        self.items@
    }

    fn push(&mut self, x: T) {
        self.items.push_front(x);
    }

    fn pop(&mut self) -> (r: Option<T>) {
        self.take_head()
    }
}

impl<T> Queue<T> for SLList<T> {
    closed spec fn queue_items(&self) -> Seq<T> {
        self.items@
    }

    fn add(&mut self, x: T) {
        self.items.push_back(x);
    }

    fn remove(&mut self) -> (r: Option<T>) {
        self.take_head()
    }
}

} // verus!
