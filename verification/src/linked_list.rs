//! A singly linked chain of owned nodes.
//!
//! A chain is modelled by the sequence of its elements, front first. Elements
//! enter and leave at the front; the three traversals hand the elements out
//! front to back, by shared reference, by mutable reference or by value.

use vstd::prelude::*;

verus! {

type Link<T> = Option<Box<Node<T>>>;

/// One cell of a chain: an element and the link to the cell behind it.
#[derive(Debug)]
pub struct Node<T> {
    element: T,
    next: Link<T>,
}

/// A chain of nodes reachable from `head`, with a count of its elements.
#[derive(Debug)]
pub struct LinkedList<T> {
    head: Link<T>,
    size: usize,
}

impl<T> Node<T> {
    /// The elements reachable from this node, its own element first.
    pub closed spec fn elements(self) -> Seq<T>
        decreases self,
    {
        match self.next {
            None => seq![self.element],
            Some(rest) => seq![self.element] + rest.elements(),
        }
    }

    fn new(el: T) -> (node: Self)
        ensures
            node.elements() == seq![el],
    {
        Self { element: el, next: None }
    }
}

/// The elements reachable through a link, front first; none where the link is
/// empty.
pub closed spec fn link_elements<T>(link: Option<Box<Node<T>>>) -> Seq<T> {
    match link {
        None => Seq::empty(),
        Some(node) => node.elements(),
    }
}

impl<T> View for LinkedList<T> {
    type V = Seq<T>;

    /// The elements of the chain, front first.
    closed spec fn view(&self) -> Seq<T> {
        link_elements(self.head)
    }
}

impl<T> LinkedList<T> {
    /// The stored count is the number of reachable nodes.
    pub closed spec fn wf(&self) -> bool {
        self.size == self@.len()
    }

    /// An empty chain.
    pub fn new() -> (list: Self)
        ensures
            list.wf(),
            list@ == Seq::<T>::empty(),
    {
        Self { head: None, size: 0 }
    }

    /// Puts `el` in front of all other elements.
    pub fn push(&mut self, el: T)
        requires
            old(self).wf(),
            old(self)@.len() < usize::MAX,
        ensures
            final(self).wf(),
            final(self)@ == seq![el] + old(self)@,
    {
        let mut new_node = Box::new(Node::new(el));
        new_node.next = self.head.take();
        self.head = Some(new_node);
        self.size += 1;
    }

    /// Takes the front element out, if there is one.
    pub fn pop(&mut self) -> (front: Option<T>)
        requires
            old(self).wf(),
        ensures
            final(self).wf(),
            old(self)@.len() == 0 ==> front is None && final(self)@ == old(self)@,
            old(self)@.len() > 0 ==> front == Some(old(self)@[0])
                && final(self)@ == old(self)@.skip(1),
    {
        match self.head.take() {
            None => None,
            Some(node) => {
                let node = *node;
                self.head = node.next;
                if self.size > 0 {
                    self.size -= 1;
                }
                Some(node.element)
            },
        }
    }

    /// The front element, left in place.
    pub fn peek(&self) -> (front: Option<&T>)
        ensures
            self@.len() == 0 ==> front is None,
            self@.len() > 0 ==> front == Some(&self@[0]),
    {
        match &self.head {
            None => None,
            Some(node) => Some(&node.element),
        }
    }

    /// The front element, lent out for change: what the borrower leaves in it
    /// is the front element afterwards, and nothing else changes.
    pub fn peek_mut(&mut self) -> (front: Option<&mut T>)
        ensures
            old(self)@.len() == 0 ==> front is None && final(self)@ == old(self)@,
            old(self)@.len() > 0 ==> front is Some && *front->Some_0 == old(self)@[0]
                && final(self)@ == old(self)@.update(0, *final(front->Some_0)),
            final(self).wf() == old(self).wf(),
    {
        match &mut self.head {
            None => None,
            Some(node) => Some(&mut node.element),
        }
    }

    /// The number of elements.
    pub fn size(&self) -> (n: usize)
        requires
            self.wf(),
        ensures
            n == self@.len(),
    {
        self.size
    }

    /// A traversal that takes the chain over and hands its elements out by
    /// value.
    pub fn into_iter(self) -> (it: IntoIter<T>)
        requires
            self.wf(),
        ensures
            it.wf(),
            it@ == self@,
    {
        IntoIter(self)
    }

    /// A traversal by shared reference; it can be started as often as wanted.
    pub fn iter(&self) -> (it: Iter<'_, T>)
        ensures
            it@ == self@,
    {
        Iter {
            next: match &self.head {
                None => None,
                Some(node) => Some(&**node),
            },
        }
    }

    /// A traversal that lends each element out for change. The chain holds
    /// afterwards what the traversal leaves behind its cursor.
    pub fn iter_mut(&mut self) -> (it: IterMut<'_, T>)
        ensures
            it@ == old(self)@,
            it.cursor() is None <==> old(self)@.len() == 0,
            match it.cursor() {
                None => final(self)@ == old(self)@,
                Some(node) => final(self)@ == final(node).elements(),
            },
            final(self)@.len() == old(self)@.len() ==> final(self).wf() == old(self).wf(),
    {
        IterMut {
            next: match &mut self.head {
                None => None,
                Some(node) => Some(&mut **node),
            },
        }
    }
}

/// A consuming traversal: it owns what is left of the chain.
pub struct IntoIter<T>(LinkedList<T>);

impl<T> View for IntoIter<T> {
    type V = Seq<T>;

    /// The elements still to come, next one first.
    closed spec fn view(&self) -> Seq<T> {
        self.0@
    }
}

impl<T> IntoIter<T> {
    /// The chain that is left is well formed.
    pub closed spec fn wf(&self) -> bool {
        self.0.wf()
    }

    /// Hands out the next element, or nothing once the chain is used up.
    pub fn next(&mut self) -> (item: Option<T>)
        requires
            old(self).wf(),
        ensures
            final(self).wf(),
            old(self)@.len() == 0 ==> item is None && final(self)@ == old(self)@,
            old(self)@.len() > 0 ==> item == Some(old(self)@[0])
                && final(self)@ == old(self)@.skip(1),
    {
        self.0.pop()
    }
}

/// A borrowing traversal: a cursor on the node that comes next.
pub struct Iter<'a, T> {
    next: Option<&'a Node<T>>,
}

impl<'a, T> View for Iter<'a, T> {
    type V = Seq<T>;

    /// The elements still to come, next one first.
    closed spec fn view(&self) -> Seq<T> {
        match self.next {
            None => Seq::empty(),
            Some(node) => node.elements(),
        }
    }
}

impl<'a, T> Iter<'a, T> {
    /// Hands out the next element, or nothing at the end of the chain.
    pub fn next(&mut self) -> (item: Option<&'a T>)
        ensures
            old(self)@.len() == 0 ==> item is None && final(self)@ == old(self)@,
            old(self)@.len() > 0 ==> item == Some(&old(self)@[0])
                && final(self)@ == old(self)@.skip(1),
    {
        match self.next {
            None => None,
            Some(node) => {
                self.next =
                match &node.next {
                    None => None,
                    Some(rest) => Some(&**rest),
                };
                Some(&node.element)
            },
        }
    }
}

/// A mutating traversal: a loan on the node that comes next.
pub struct IterMut<'a, T> {
    next: Option<&'a mut Node<T>>,
}

impl<'a, T> View for IterMut<'a, T> {
    type V = Seq<T>;

    /// The elements still to come as they are now, next one first.
    closed spec fn view(&self) -> Seq<T> {
        match self.next {
            None => Seq::empty(),
            Some(node) => node.elements(),
        }
    }
}

impl<'a, T> IterMut<'a, T> {
    /// The loan on the node that comes next; none at the end of the chain.
    pub closed spec fn cursor(&self) -> Option<&'a mut Node<T>> {
        self.next
    }

    /// There is a loan exactly as long as elements are still to come, and it
    /// is a loan on those elements.
    pub proof fn lemma_cursor(&self)
        ensures
            self.cursor() is None <==> self@.len() == 0,
            self.cursor() matches Some(node) ==> node.elements() == self@,
    {
    }

    /// A traversal that is given up leaves the elements behind its cursor as
    /// they are.
    pub proof fn lemma_given_up(self)
        requires
            has_resolved(self),
        ensures
            self.cursor() matches Some(node) ==> final(node).elements() == self@,
    {
    }

    /// Lends out the next element, or nothing at the end of the chain. What
    /// the node under the old cursor holds in the end is what the borrower
    /// leaves in the element, followed by what the rest of the traversal
    /// leaves behind the new cursor.
    pub fn next(&mut self) -> (item: Option<&'a mut T>)
        ensures
            old(self)@.len() == 0 ==> item is None && final(self)@ == old(self)@,
            old(self)@.len() > 0 ==> item is Some && *item->Some_0 == old(self)@[0]
                && final(self)@ == old(self)@.skip(1),
            final(self).cursor() is None <==> final(self)@.len() == 0,
            old(self).cursor() matches Some(node) ==> item matches Some(element)
                && final(node).elements() == seq![*final(element)] + (match final(self).cursor() {
                None => Seq::empty(),
                Some(rest) => final(rest).elements(),
            }),
    {
        match self.next.take() {
            None => None,
            Some(node) => {
                self.next =
                match &mut node.next {
                    None => None,
                    Some(rest) => Some(&mut **rest),
                };
                Some(&mut node.element)
            },
        }
    }
}

impl<T> Drop for LinkedList<T> {
    /// Releases the nodes one by one from the front, so that a long chain
    /// does not nest one release inside the other.
    fn drop(&mut self)
        opens_invariants none
        no_unwind
    {
        let mut cur_link: Link<T> = None;
        core::mem::swap(&mut cur_link, &mut self.head);
        loop
            decreases link_elements(cur_link).len(),
        {
            match cur_link {
                None => {
                    break ;
                },
                Some(mut boxed_node) => {
                    let mut rest: Link<T> = None;
                    core::mem::swap(&mut rest, &mut boxed_node.next);
                    cur_link = rest;
                },
            }
        }
    }
}

} // verus!
