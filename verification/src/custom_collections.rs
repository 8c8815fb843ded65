//! The two orderings the renderer relies on: last-in-first-out and
//! first-in-first-out.

use std::collections::VecDeque;
use vstd::prelude::*;

verus! {

/// The items in the opposite order.
pub fn reversed<T>(items: Vec<T>) -> (turned: Vec<T>)
    ensures
        turned@ == items@.reverse(),
{
    let ghost all = items@;
    let mut rest = items;
    let mut turned: Vec<T> = Vec::new();
    assert(turned@ =~= all.skip(all.len() as int).reverse());
    while rest.len() > 0
        invariant
            rest@.len() <= all.len(),
            rest@ == all.take(rest@.len() as int),
            turned@ == all.skip(rest@.len() as int).reverse(),
        decreases rest@.len(),
    {
        let ghost n = rest@.len() as int;
        let item = rest.pop().unwrap();
        turned.push(item);
        assert(rest@ =~= all.take(n - 1));
        assert(turned@ =~= all.skip(n - 1).reverse());
    }
    assert(all.skip(0) =~= all);
    turned
}

/// Last-in, first-out. The view lists the items from the bottom to the top.
pub struct Stack<T>(Vec<T>);

impl<T> View for Stack<T> {
    type V = Seq<T>;

    closed spec fn view(&self) -> Seq<T> {
        self.0@
    }
}

impl<T> Stack<T> {
    pub fn new() -> (stack: Stack<T>)
        ensures
            stack@ == Seq::<T>::empty(),
    {
        Stack(Vec::new())
    }

    /// Puts `item` on top.
    pub fn push(&mut self, item: T)
        ensures
            final(self)@ == old(self)@.push(item),
    {
        self.0.push(item);
    }

    /// Takes the top item off, if there is one.
    pub fn pop(&mut self) -> (top: Option<T>)
        ensures
            old(self)@.len() == 0 ==> top is None && final(self)@ == old(self)@,
            old(self)@.len() > 0 ==> top == Some(old(self)@.last()) && final(self)@ == old(
                self,
            )@.drop_last(),
    {
        self.0.pop()
    }

    /// The top item, left in place.
    pub fn peek(&self) -> (top: Option<&T>)
        ensures
            self@.len() == 0 ==> top is None,
            self@.len() > 0 ==> top == Some(&self@.last()),
    {
        let n: usize = self.0.len();
        if n == 0 {
            None
        } else {
            Some(&self.0[n - 1])
        }
    }

    pub fn len(&self) -> (n: usize)
        ensures
            n == self@.len(),
    {
        self.0.len()
    }

    /// A stack holding `items`, pushed in their order: the last is on top.
    pub fn from_iter(items: Vec<T>) -> (stack: Stack<T>)
        ensures
            stack@ == items@,
    {
        Stack(items)
    }
}

/// First-in, first-out. The view lists the items from the front to the back.
pub struct Queue<T>(pub VecDeque<T>);

impl<T> View for Queue<T> {
    type V = Seq<T>;

    open spec fn view(&self) -> Seq<T> {
        self.0@
    }
}

impl<T> Queue<T> {
    pub fn new() -> (queue: Queue<T>)
        ensures
            queue@ == Seq::<T>::empty(),
    {
        Queue(VecDeque::new())
    }

    /// Appends `item` at the back.
    pub fn enqueue(&mut self, item: T)
        ensures
            final(self)@ == old(self)@.push(item),
    {
        self.0.push_back(item);
    }

    /// Takes the front item off, if there is one.
    pub fn dequeue(&mut self) -> (front: Option<T>)
        ensures
            old(self)@.len() == 0 ==> front is None && final(self)@ == old(self)@,
            old(self)@.len() > 0 ==> front == Some(old(self)@.first()) && final(self)@ == old(
                self,
            )@.drop_first(),
    {
        self.0.pop_front()
    }

    /// The front item, left in place.
    pub fn peek(&self) -> (front: Option<&T>)
        ensures
            self@.len() == 0 ==> front is None,
            self@.len() > 0 ==> front == Some(&self@.first()),
    {
        if self.0.len() == 0 {
            None
        } else {
            Some(&self.0[0])
        }
    }

    pub fn len(&self) -> (n: usize)
        ensures
            n == self@.len(),
    {
        self.0.len()
    }

    /// A queue holding `items`, enqueued in their order: the first is at the
    /// front.
    pub fn from_iter(items: Vec<T>) -> (queue: Queue<T>)
        ensures
            queue@ == items@,
    {
        let ghost all = items@;
        let mut back = reversed(items);
        assert(all.skip(0) =~= all);
        let mut queue: Queue<T> = Queue::new();
        while back.len() > 0
            invariant
                back@.len() <= all.len(),
                back@ == all.skip(all.len() - back@.len()).reverse(),
                queue@ == all.take(all.len() - back@.len()),
            decreases back@.len(),
        {
            let ghost n = back@.len() as int;
            let item = back.pop().unwrap();
            queue.enqueue(item);
            assert(back@ =~= all.skip(all.len() - (n - 1)).reverse());
            assert(queue@ =~= all.take(all.len() - (n - 1)));
        }
        assert(all.take(all.len() as int) =~= all);
        queue
    }
}

} // verus!
