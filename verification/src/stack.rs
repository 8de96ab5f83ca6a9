//! A lock-free stack.
//!
//! This is the Treiber stack, the simplest lock-free data structure:
//! its whole state is one head pointer, and every operation linearizes
//! at a single load or compare-and-swap on it. Here the linearized
//! behaviour is what is specified and proved: the stack's contents are
//! viewed as a sequence whose last element is the top, `push` appends
//! to it, and `pop` removes and returns its last element.

use vstd::prelude::*;

verus! {

/// A single node in a stack: the payload and the list below it.
struct Node<T> {
    /// The payload.
    value: T,
    /// The next node in the stack.
    next: Link<T>,
}

/// A link to the rest of a stack: a node, or null at the bottom.
type Link<T> = Option<Box<Node<T>>>;

/// The contents hanging off a link, bottom first, top last.
spec fn link_view<T>(l: Link<T>) -> Seq<T>
    decreases l,
{
    match l {
        None => Seq::empty(),
        Some(node) => link_view(node.next).push(node.value),
    }
}

/// What a pop returns on a stack holding `s`: the top, if any.
pub open spec fn pop_result<T>(s: Seq<T>) -> Option<T> {
    if s.len() == 0 {
        None
    } else {
        Some(s.last())
    }
}

/// What a pop leaves behind on a stack holding `s`.
pub open spec fn pop_rest<T>(s: Seq<T>) -> Seq<T> {
    if s.len() == 0 {
        s
    } else {
        s.drop_last()
    }
}

/// A stack for multiple producers and multiple consumers.
///
/// Its linked nodes are owned through the head link, so a node is
/// reachable in exactly one way and teardown frees each exactly once.
pub struct Stack<T> {
    head: Link<T>,
}

impl<T> View for Stack<T> {
    type V = Seq<T>;

    closed spec fn view(&self) -> Seq<T> {
        link_view(self.head)
    }
}

impl<T> Stack<T> {
    /// Returns a new, empty stack.
    pub fn new() -> (s: Self)
        ensures
            s@ == Seq::<T>::empty(),
    {
        Stack { head: None }
    }

    /// Returns `true` if the stack is empty, deciding at one read of
    /// the head: empty exactly when the head link is null.
    pub fn is_empty(&self) -> (r: bool)
        ensures
            r == (self@.len() == 0),
    {
        match &self.head {
            None => true,
            Some(_) => false,
        }
    }

    /// Pushes a new value onto the stack.
    ///
    /// The new node is linked above the previous head, so the value
    /// becomes the top of the stack.
    pub fn push(&mut self, value: T)
        ensures
            final(self)@ == old(self)@.push(value),
    {
        let node = Box::new(Node { value, next: self.head.take() });
        self.head = Some(node);
    }

    /// Attempts to pop a value from the stack.
    ///
    /// Returns `None` if the stack is empty; otherwise detaches the
    /// head node and returns the top value.
    pub fn pop(&mut self) -> (r: Option<T>)
        ensures
            r == pop_result(old(self)@),
            final(self)@ == pop_rest(old(self)@),
    {
        match self.head.take() {
            None => None,
            Some(node) => {
                let Node { value, next } = *node;
                self.head = next;
                proof {
                    assert(old(self)@.drop_last() =~= link_view(next));
                }
                Some(value)
            }
        }
    }

    /// Tears the stack down: detaches the nodes one at a time, top
    /// first, so that each remaining value is freed exactly once and
    /// no walk of the list happens twice.
    pub fn clear(&mut self)
        ensures
            final(self)@ == Seq::<T>::empty(),
    {
        let mut done = false;
        while !done
            invariant
                done ==> self@.len() == 0,
            decreases self@.len() + if done {
                0int
            } else {
                1int
            },
        {
            if self.pop().is_none() {
                done = true;
            }
        }
        proof {
            assert(self@ =~= Seq::<T>::empty());
        }
    }
}

/// The emptiness check agrees with what a pop of the same state would
/// do: a stack reads as empty exactly when popping it returns nothing.
pub proof fn lemma_is_empty_agrees_with_pop<T>(s: Seq<T>)
    ensures
        (s.len() == 0) <==> (pop_result(s) is None),
{
}

} // verus!
