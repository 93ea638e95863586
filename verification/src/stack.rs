//! A singly linked stack.
//!
//! The stack is modeled as a sequence of its items, oldest first, so the
//! top of the stack is the last element of the view.

use vstd::prelude::*;

verus! {

struct Node<T> {
    pub data: T,
    pub next: Option<Box<Node<T>>>,
}

pub struct Stack<T> {
    top: Option<Box<Node<T>>>,
    size: usize,
}

impl<T> Node<T> {
    /// The items of the chain starting at this node, newest (top) last.
    spec fn chain(node_opt: Option<Box<Node<T>>>) -> Seq<T>
        decreases node_opt,
    {
        match node_opt {
            None => Seq::empty(),
            Some(node) => Node::chain(node.next).push(node.data),
        }
    }
}

impl<T> Stack<T> {
    /// The stack as a sequence of items, with the top of the stack last.
    pub closed spec fn view(self) -> Seq<T> {
        Node::chain(self.top)
    }

    /// The stored size matches the number of items.
    pub closed spec fn well_formed(self) -> bool {
        self.size == self.view().len()
    }

    /// Constructs a new empty stack
    pub fn new() -> (stack: Self)
        ensures
            stack.well_formed(),
            stack@ == Seq::<T>::empty(),
    {
        Stack { top: None, size: 0 }
    }

    /// checks to see if the stack is empty or not
    pub fn is_empty(&self) -> (r: bool)
        requires
            self.well_formed(),
        ensures
            r <==> self@.len() == 0,
    {
        match self.top {
            Some(_) => false,
            None => {
                assert(self.size == 0);
                true
            },
        }
    }

    /// Add items to the top of the stack
    pub fn push(&mut self, item: T)
        requires
            old(self).well_formed(),
            old(self)@.len() < usize::MAX,
        ensures
            final(self).well_formed(),
            final(self)@ == old(self)@.push(item),
    {
        let prev_top = self.top.take();
        self.top = Some(Box::new(Node { data: item, next: prev_top }));
        self.size = self.size + 1;
    }

    /// Remove items from the top of the stack
    /// Returns None if the stack is empty
    pub fn pop(&mut self) -> (r: Option<T>)
        requires
            old(self).well_formed(),
        ensures
            final(self).well_formed(),
            old(self)@.len() == 0 ==> r is None && final(self)@ == old(self)@,
            old(self)@.len() > 0 ==> r == Some(old(self)@.last()) && final(self)@ == old(self)@.drop_last(),
    {
        let ret = self.top.take();
        if let Some(node) = ret {
            self.top = node.next;
            self.size = self.size - 1;
            Some(node.data)
        } else {
            None
        }
    }

    /// returns number of items in the stack
    pub fn depth(&self) -> (r: usize)
        requires
            self.well_formed(),
        ensures
            r == self@.len(),
    {
        self.size
    }

    /// returns a reference to the top item without removing it
    /// returns None if the stack is empty
    pub fn peek(&self) -> (r: Option<&T>)
        requires
            self.well_formed(),
        ensures
            self@.len() == 0 ==> r is None,
            self@.len() > 0 ==> r == Some(&self@.last()),
    {
        match &self.top {
            Some(node) => Some(&node.data),
            None => None,
        }
    }
}

} // verus!
