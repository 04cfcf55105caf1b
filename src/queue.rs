//! A first-in, first-out queue.

use std::collections::VecDeque;
use vstd::prelude::*;

verus! {

/// Items leave in the order they arrived.
pub struct Queue<T> {
    pub items: VecDeque<T>,
}

impl<T> View for Queue<T> {
    type V = Seq<T>;

    /// The queued items, front first.
    open spec fn view(&self) -> Seq<T> {
        self.items@
    }
}

impl<T> Queue<T> {
    /// An empty queue.
    pub fn new() -> (q: Queue<T>)
        ensures
            q@ == Seq::<T>::empty(),
    {
        Queue { items: VecDeque::new() }
    }

    /// Puts `v` at the back.
    pub fn enqueue(&mut self, v: T)
        ensures
            final(self)@ == old(self)@.push(v),
    {
        self.items.push_back(v);
    }

    /// Takes the front item; the queue must not be empty.
    pub fn dequeue(&mut self) -> (v: T)
        requires
            old(self)@.len() > 0,
        ensures
            v == old(self)@[0],
            final(self)@ == old(self)@.drop_first(),
    {
        self.items.pop_front().expect("Cannot dequeue from an empty queue")
    }

    /// Whether nothing is queued.
    pub fn is_empty(&self) -> (b: bool)
        ensures
            b == (self@.len() == 0),
    {
        self.items.len() == 0
    }
}

} // verus!
