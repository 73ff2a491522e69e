//! The stack itself: a chain of boxed nodes, each owned by the one above it,
//! and the operations that hand ownership along the chain.

use crate::model;
use vstd::prelude::*;

verus! {

/// What the stack or a node owns next: nothing, or exactly one boxed node.
enum Link {
    Empty,
    More(Box<Node>),
}

/// One stored value together with the rest of the chain, which it owns.
struct Node {
    elem: i32,
    next: Link,
}

/// A last-in-first-out stack of `i32` values.
///
/// Its view is the sequence of stored values from the top down: index 0 is
/// the value pushed most recently, the last index the one pushed longest ago.
pub struct List {
    head: Link,
}

impl Link {
    /// The values along the chain, nearest node at index 0.
    spec fn elems(self) -> Seq<i32>
        decreases self,
    {
        match self {
            Link::Empty => Seq::empty(),
            Link::More(node) => model::push(node.next.elems(), node.elem),
        }
    }

    /// Moves the chain out of its place and leaves `Empty` there, so that the
    /// place holds a whole value at every moment.
    fn take(&mut self) -> (chain: Link)
        ensures
            *final(self) == Link::Empty,
            chain == *old(self),
    {
        let mut chain = Link::Empty;
        std::mem::swap(self, &mut chain);
        chain
    }
}

impl View for List {
    type V = Seq<i32>;

    closed spec fn view(&self) -> Seq<i32> {
        self.head.elems()
    }
}

impl List {
    /// A stack that holds nothing.
    pub fn new() -> (list: Self)
        ensures
            list@ == Seq::<i32>::empty(),
    {
        List { head: Link::Empty }
    }

    /// Puts `elem` on top. Everything stored before stays below it, unchanged
    /// and in the same order.
    pub fn push(&mut self, elem: i32)
        ensures
            final(self)@ == model::push(old(self)@, elem),
    {
        let next = self.head.take();
        self.head = Link::More(Box::new(Node { elem, next }));
    }

    /// Takes the top value off and returns it. On an empty stack there is
    /// nothing to take: the result is `None` and the stack stays empty.
    pub fn pop(&mut self) -> (popped: Option<i32>)
        ensures
            popped == model::top(old(self)@),
            final(self)@ == model::rest(old(self)@),
            old(self)@.len() == 0 ==> popped.is_none() && final(self)@.len() == 0,
    {
        match self.head.take() {
            Link::Empty => None,
            Link::More(node) => {
                self.head = node.next;
                Some(node.elem)
            },
        }
    }
}

impl Drop for List {
    /// Releases the chain node by node, from the top down.
    ///
    /// Each turn of the loop detaches one node from the chain below it before
    /// that node is released, so releasing a node never reaches into the next
    /// one and the depth of the call stack does not grow with the length of
    /// the chain. The loop takes one turn per stored value.
    fn drop(&mut self)
        ensures
            final(self)@ == Seq::<i32>::empty(),
        opens_invariants none
        no_unwind
    {
        let ghost stored = self@;
        let ghost mut released: int = 0;
        // The moves are written out with `swap` here: inside `drop` the
        // verifier takes calls of std's functions only.
        let mut cursor = Link::Empty;
        std::mem::swap(&mut self.head, &mut cursor);
        loop
            invariant
                self.head == Link::Empty,
                0 <= released <= stored.len(),
                cursor.elems() == stored.skip(released),
            ensures
                released == stored.len(),
            decreases cursor.elems().len(),
        {
            match cursor {
                Link::Empty => {
                    break ;
                },
                Link::More(mut node) => {
                    let mut below = Link::Empty;
                    std::mem::swap(&mut node.next, &mut below);
                    assert(node.next == Link::Empty);
                    proof {
                        assert(below.elems() =~= stored.skip(released).skip(1));
                        assert(stored.skip(released).skip(1) =~= stored.skip(released + 1));
                        released = released + 1;
                    }
                    cursor = below;
                },
            }
        }
    }
}

} // verus!
