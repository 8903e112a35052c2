//! Containers of node ids under one interface: a queue hands its elements
//! out first-in first-out, a stack last-in first-out.

use crate::NodeId;
use std::collections::VecDeque;
use vstd::prelude::*;

verus! {

/// A container of node ids that differs from its siblings only in which
/// element comes out next.
pub trait Collection: Sized {
    /// The elements held, in the order in which they were pushed.
    spec fn elements(&self) -> Seq<NodeId>;

    /// Where, among `len` elements, the one stands that `peek` shows and
    /// `pop` removes.
    spec fn next_index(len: nat) -> int;

    /// The next element is one of those held.
    proof fn next_index_in_range(len: nat)
        requires
            len > 0,
        ensures
            0 <= Self::next_index(len) < len,
    ;

    fn new() -> (c: Self)
        ensures
            c.elements() == Seq::<NodeId>::empty(),
    ;

    fn with_capacity(init_cap: usize) -> (c: Self)
        ensures
            c.elements() == Seq::<NodeId>::empty(),
    ;

    fn push(&mut self, element: NodeId)
        ensures
            final(self).elements() == old(self).elements().push(element),
    ;

    fn pop(&mut self) -> (r: Option<NodeId>)
        ensures
            old(self).elements().len() == 0 ==> r.is_none() && final(self).elements() == old(
                self,
            ).elements(),
            old(self).elements().len() > 0 ==> r == Some(
                old(self).elements()[Self::next_index(old(self).elements().len())],
            ) && final(self).elements() == old(self).elements().remove(
                Self::next_index(old(self).elements().len()),
            ),
    ;

    fn peek(&self) -> (r: Option<&NodeId>)
        ensures
            self.elements().len() == 0 ==> r.is_none(),
            self.elements().len() > 0 ==> r == Some(
                &self.elements()[Self::next_index(self.elements().len())],
            ),
    ;

    fn is_empty(&self) -> (b: bool)
        ensures
            b == (self.elements().len() == 0),
    ;
}

/// First in, first out.
pub struct Queue {
    data: VecDeque<NodeId>,
}

/// Last in, first out.
pub struct Stack {
    data: VecDeque<NodeId>,
}

impl Collection for Queue {
    closed spec fn elements(&self) -> Seq<NodeId> {
        self.data@
    }

    open spec fn next_index(len: nat) -> int {
        0
    }

    proof fn next_index_in_range(len: nat) {
    }

    fn new() -> (c: Queue) {
        Queue { data: VecDeque::new() }
    }

    fn with_capacity(init_cap: usize) -> (c: Queue) {
        Queue { data: VecDeque::with_capacity(init_cap) }
    }

    fn push(&mut self, element: NodeId) {
        self.data.push_back(element)
    }

    fn pop(&mut self) -> (r: Option<NodeId>) {
        let r = self.data.pop_front();
        proof {
            if old(self).data@.len() > 0 {
                assert(self.data@ =~= old(self).data@.remove(0));
            }
        }
        r
    }

    fn peek(&self) -> (r: Option<&NodeId>) {
        if self.data.len() == 0 {
            None
        } else {
            Some(&self.data[0])
        }
    }

    fn is_empty(&self) -> (b: bool) {
        self.data.len() == 0
    }
}

impl Collection for Stack {
    closed spec fn elements(&self) -> Seq<NodeId> {
        self.data@
    }

    open spec fn next_index(len: nat) -> int {
        len - 1
    }

    proof fn next_index_in_range(len: nat) {
    }

    fn new() -> (c: Stack) {
        Stack { data: VecDeque::new() }
    }

    fn with_capacity(init_cap: usize) -> (c: Stack) {
        Stack { data: VecDeque::with_capacity(init_cap) }
    }

    fn push(&mut self, element: NodeId) {
        self.data.push_back(element)
    }

    fn pop(&mut self) -> (r: Option<NodeId>) {
        let r = self.data.pop_back();
        proof {
            if old(self).data@.len() > 0 {
                assert(self.data@ =~= old(self).data@.remove(old(self).data@.len() - 1));
            }
        }
        r
    }

    fn peek(&self) -> (r: Option<&NodeId>) {
        let n = self.data.len();
        if n == 0 {
            None
        } else {
            Some(&self.data[n - 1])
        }
    }

    fn is_empty(&self) -> (b: bool) {
        self.data.len() == 0
    }
}

} // verus!
