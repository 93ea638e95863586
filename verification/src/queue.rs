//! A singly linked FIFO queue.
//!
//! The queue is modeled as the sequence of its items, front first:
//! `push` appends at the back, `pop` takes from the front.

use vstd::prelude::*;

verus! {

struct Node<T> {
    data: T,
    next: Option<Box<Node<T>>>,
}

pub struct Queue<T> {
    front: Option<Box<Node<T>>>,
    size: usize,
}

impl<T> Node<T> {
    /// The items of the chain starting at this node, front first.
    spec fn chain(node_opt: Option<Box<Node<T>>>) -> Seq<T>
        decreases node_opt,
    {
        match node_opt {
            None => Seq::empty(),
            Some(node) => seq![node.data] + Node::chain(node.next),
        }
    }

    fn new(data: T) -> (r: Self)
        ensures
            r == (Node { data, next: None::<Box<Node<T>>> }),
    {
        Node { data, next: None }
    }

    /// Walks to the back of the chain and attaches a new node there.
    fn append(node: Box<Node<T>>, data: T) -> (r: Box<Node<T>>)
        ensures
            Node::chain(Some(r)) == Node::chain(Some(node)).push(data),
        decreases node,
    {
        let Node { data: d, next } = *node;
        let ghost g_next = next;
        match next {
            Some(n) => {
                let ghost g_n = n;
                let rest = Node::append(n, data);
                let r = Box::new(Node { data: d, next: Some(rest) });
                proof {
                    assert(Node::chain(Some(rest)) == Node::chain(Some(g_n)).push(data));
                    assert(Node::chain(Some(r)) =~= Node::chain(Some(node)).push(data));
                }
                r
            },
            None => {
                let tail = Box::new(Node::new(data));
                let r = Box::new(Node { data: d, next: Some(tail) });
                proof {
                    assert(Node::chain(tail.next) =~= Seq::<T>::empty());
                    assert(Node::chain(Some(tail)) =~= seq![data]);
                    assert(Node::chain(Some(r)) =~= Node::chain(Some(node)).push(data));
                }
                r
            },
        }
    }
}

impl<T> Queue<T> {
    /// The queue as a sequence of items, front of the queue first.
    pub closed spec fn view(self) -> Seq<T> {
        Node::chain(self.front)
    }

    /// The stored size matches the number of items.
    pub closed spec fn well_formed(self) -> bool {
        self.size == self.view().len()
    }

    pub fn new() -> (queue: Self)
        ensures
            queue.well_formed(),
            queue@ == Seq::<T>::empty(),
    {
        Queue { front: None, size: 0 }
    }

    /// Adds an item at the back of the queue.
    pub fn push(&mut self, data: T)
        requires
            old(self).well_formed(),
            old(self)@.len() < usize::MAX,
        ensures
            final(self).well_formed(),
            final(self)@ == old(self)@.push(data),
    {
        match self.front.take() {
            Some(node) => {
                self.front = Some(Node::append(node, data));
            },
            None => {
                self.front = Some(Box::new(Node::new(data)));
                proof {
                    assert(self@ =~= old(self)@.push(data));
                }
            },
        }
        self.size = self.size + 1;
    }

    /// Removes and returns the item at the front of the queue, or `None`
    /// when the queue is empty.
    pub fn pop(&mut self) -> (r: Option<T>)
        requires
            old(self).well_formed(),
        ensures
            final(self).well_formed(),
            old(self)@.len() == 0 ==> r is None && final(self)@ == old(self)@,
            old(self)@.len() > 0 ==> r == Some(old(self)@[0]) && final(self)@ == old(
                self,
            )@.drop_first(),
    {
        if let Some(val) = self.front.take() {
            let Node { data, next } = *val;
            proof {
                assert(old(self)@[0] == data);
                assert(Node::chain(next) =~= old(self)@.drop_first());
            }
            self.front = next;
            self.size = self.size - 1;
            Some(data)
        } else {
            None
        }
    }
}

} // verus!
