//! The bounded evaluation stack of the virtual CPU.

use vstd::prelude::*;
use crate::error::{MiniVmError, Result};
use crate::text::{dec_nat, push_dec_u64, push_str};

verus! {

pub open spec fn msg_overflow(capacity: nat) -> Seq<char> {
    "Runtime Error: Stack Overflow. Attempted to exceed maximum bounds capacity threshold of "@
        + dec_nat(capacity) + " elements."@
}

pub open spec fn msg_pop_underflow() -> Seq<char> {
    "Runtime Error: Stack Underflow. Attempted to pop an evaluation element from an empty stack frame."@
}

pub open spec fn msg_peek_underflow() -> Seq<char> {
    "Runtime Error: Stack Underflow. Attempted to peek at an element on an empty stack frame."@
}

pub open spec fn msg_depth() -> Seq<char> {
    "Bounds Error"@
}

/// Pushing `v` onto the items `items` of a stack that holds at most `capacity` items.
pub open spec fn spec_push(items: Seq<i64>, capacity: nat, v: i64) -> std::result::Result<
    Seq<i64>,
    Seq<char>,
> {
    if items.len() >= capacity {
        Err(msg_overflow(capacity))
    } else {
        Ok(items.push(v))
    }
}

/// Popping from the items `items`: the top item and what stays.
pub open spec fn spec_pop(items: Seq<i64>) -> std::result::Result<(i64, Seq<i64>), Seq<char>> {
    if items.len() == 0 {
        Err(msg_pop_underflow())
    } else {
        Ok((items.last(), items.drop_last()))
    }
}

/// A stack of `i64` values that refuses to grow past its capacity.
#[derive(Debug)]
pub struct Stack {
    data: Vec<i64>,
    capacity: usize,
}

impl Stack {
    /// The stack holds no more items than its capacity; every operation keeps this.
    pub open spec fn wf(&self) -> bool {
        self.items().len() <= self.capacity()
    }

    /// The items, bottom first.
    pub closed spec fn items(&self) -> Seq<i64> {
        self.data@
    }

    /// The most items the stack holds.
    pub closed spec fn capacity(&self) -> usize {
        self.capacity
    }

    pub fn new(capacity: usize) -> (s: Self)
        ensures
            s.items() == Seq::<i64>::empty(),
            s.capacity() == capacity,
            s.wf(),
    {
        Stack { data: Vec::with_capacity(capacity), capacity }
    }

    /// The item `depth` places below the top.
    pub fn peek_at_depth(&self, depth: usize) -> (r: Result<i64>)
        ensures
            depth >= self.items().len() ==> (r matches Err(e) && e.is_generic(msg_depth())),
            depth < self.items().len() ==> r == Ok::<i64, MiniVmError>(
                self.items()[self.items().len() - 1 - depth],
            ),
    {
        if depth >= self.data.len() {
            return Err(MiniVmError::Generic(String::from_str("Bounds Error")));
        }
        Ok(self.data[self.data.len() - 1 - depth])
    }

    pub fn push(&mut self, value: i64) -> (r: Result<()>)
        ensures
            final(self).capacity() == old(self).capacity(),
            old(self).wf() ==> final(self).wf(),
            match spec_push(old(self).items(), old(self).capacity() as nat, value) {
                Ok(items) => r is Ok && final(self).items() == items,
                Err(m) => r matches Err(e) && e.is_generic(m) && final(self).items() == old(
                    self,
                ).items(),
            },
    {
        if self.data.len() >= self.capacity {
            let mut m = String::from_str(
                "Runtime Error: Stack Overflow. Attempted to exceed maximum bounds capacity threshold of ",
            );
            push_dec_u64(&mut m, self.capacity as u64);
            push_str(&mut m, " elements.");
            return Err(MiniVmError::Generic(m));
        }
        self.data.push(value);
        Ok(())
    }

    pub fn pop(&mut self) -> (r: Result<i64>)
        ensures
            final(self).capacity() == old(self).capacity(),
            old(self).wf() ==> final(self).wf(),
            match spec_pop(old(self).items()) {
                Ok((v, items)) => r == Ok::<i64, MiniVmError>(v) && final(self).items() == items,
                Err(m) => r matches Err(e) && e.is_generic(m) && final(self).items() == old(
                    self,
                ).items(),
            },
    {
        match self.data.pop() {
            Some(v) => Ok(v),
            None => Err(
                MiniVmError::Generic(
                    String::from_str(
                        "Runtime Error: Stack Underflow. Attempted to pop an evaluation element from an empty stack frame.",
                    ),
                ),
            ),
        }
    }

    pub fn peek(&self) -> (r: Result<i64>)
        ensures
            self.items().len() == 0 ==> (r matches Err(e) && e.is_generic(msg_peek_underflow())),
            self.items().len() > 0 ==> r == Ok::<i64, MiniVmError>(self.items().last()),
    {
        if self.data.len() == 0 {
            return Err(
                MiniVmError::Generic(
                    String::from_str(
                        "Runtime Error: Stack Underflow. Attempted to peek at an element on an empty stack frame.",
                    ),
                ),
            );
        }
        Ok(self.data[self.data.len() - 1])
    }

    pub fn clear(&mut self)
        ensures
            final(self).items() == Seq::<i64>::empty(),
            final(self).capacity() == old(self).capacity(),
            final(self).wf(),
    {
        self.data.clear();
    }

    pub fn len(&self) -> (n: usize)
        ensures
            n == self.items().len(),
    {
        self.data.len()
    }

    pub fn is_empty(&self) -> (b: bool)
        ensures
            b == (self.items().len() == 0),
    {
        self.data.len() == 0
    }
}

/// The stack is last-in first-out: popping right after a successful push
/// gives back the pushed value and the items as they were before the push.
pub proof fn law_stack_push_pop(items: Seq<i64>, capacity: nat, v: i64)
    requires
        spec_push(items, capacity, v) is Ok,
    ensures
        spec_pop(spec_push(items, capacity, v)->Ok_0) == Ok::<(i64, Seq<i64>), Seq<char>>((v, items)),
{
    assert(items.push(v).drop_last() =~= items);
}

/// A push is refused exactly when the stack already holds as many items as its capacity.
pub proof fn law_stack_push_full(items: Seq<i64>, capacity: nat, v: i64)
    ensures
        spec_push(items, capacity, v) is Err <==> items.len() >= capacity,
{
}

} // verus!
