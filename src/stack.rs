use vstd::prelude::*;

use crate::sums::swapped_out;

verus! {

/// A last-in first-out stack that never holds more than `T` values: `push` asks for room.
/// Its storage is reserved once, when it is made.
pub struct Stack<V, const T: usize> {
    stack: Vec<V>,
}

impl<V, const T: usize> View for Stack<V, T> {
    type V = Seq<V>;

    closed spec fn view(&self) -> Seq<V> {
        self.stack@
    }
}

impl<V, const T: usize> Stack<V, T> {
    pub fn new() -> (r: Self)
        ensures
            r@ == Seq::<V>::empty(),
    {
        Stack { stack: Vec::with_capacity(T) }
    }

    /// Pushes `value` on top. There must be room for it.
    pub fn push(&mut self, value: V)
        requires
            old(self)@.len() < T,
        ensures
            final(self)@ == old(self)@.push(value),
    {
        self.stack.push(value);
    }

    pub fn pop(&mut self) -> (r: Option<V>)
        ensures
            old(self)@.len() == 0 ==> r is None && final(self)@ == old(self)@,
            old(self)@.len() > 0 ==> r == Some(old(self)@.last()) && final(self)@ == old(
                self,
            )@.drop_last(),
    {
        self.stack.pop()
    }

    pub fn get(&self, index: usize) -> (r: Option<&V>)
        ensures
            index < self@.len() ==> r == Some(&self@[index as int]),
            index >= self@.len() ==> r is None,
    {
        if index < self.stack.len() {
            Some(&self.stack[index])
        } else {
            None
        }
    }

    /// The values from bottom to top.
    pub fn as_slice(&self) -> (r: &[V])
        ensures
            r@ == self@,
    {
        self.stack.as_slice()
    }

    pub fn len(&self) -> (r: usize)
        ensures
            r == self@.len(),
    {
        self.stack.len()
    }

    /// Removes the value at `index`, moving the top value into its place.
    pub fn swap_remove(&mut self, index: usize) -> (r: V)
        requires
            index < old(self)@.len(),
        ensures
            r == old(self)@[index as int],
            final(self)@ == swapped_out(old(self)@, index as int),
    {
        self.stack.swap_remove(index)
    }

    /// Hands the values out in pop order.
    pub fn into_iter(self) -> (r: StackIntoIter<V, T>)
        ensures
            r.0@ == self@,
    {
        StackIntoIter(self)
    }
}

/// The values of a stack, handed out from the top down.
pub struct StackIntoIter<V, const T: usize>(pub Stack<V, T>);

impl<V, const T: usize> StackIntoIter<V, T> {
    pub fn next(&mut self) -> (r: Option<V>)
        ensures
            old(self).0@.len() == 0 ==> r is None && final(self).0@ == old(self).0@,
            old(self).0@.len() > 0 ==> r == Some(old(self).0@.last()) && final(self).0@ == old(
                self,
            ).0@.drop_last(),
    {
        self.0.pop()
    }
}

} // verus!
