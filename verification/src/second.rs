//! A generic stack on a chain of boxed nodes. Every node is owned by the
//! link that leads to it, the first one by the list.

use crate::model::{
    elementwise_eq, front, lemma_elementwise_eq_front, push_back, push_front, rest,
};
use vstd::prelude::*;
use vstd::std_specs::cmp::{PartialEqSpec, PartialEqSpecImpl};

verus! {

/// A singly-linked stack. Its view is the sequence of its elements, front
/// element first.
#[derive(Debug)]
pub struct List<T> {
    head: Link<T>,
}

/// One element of a list together with the chain behind it. Its view is
/// the sequence of the elements from this one on, which is never empty.
#[derive(Debug)]
pub struct Node<T> {
    elem: T,
    next: Link<T>,
}

type Link<T> = Option<Box<Node<T>>>;

/// The elements reachable from `link`, nearest first.
spec fn elems<T>(link: Link<T>) -> Seq<T>
    decreases link,
{
    match link {
        None => Seq::empty(),
        Some(node) => push_front(elems(node.next), node.elem),
    }
}

impl<T> View for List<T> {
    type V = Seq<T>;

    closed spec fn view(&self) -> Seq<T> {
        elems(self.head)
    }
}

impl<T> View for Node<T> {
    type V = Seq<T>;

    closed spec fn view(&self) -> Seq<T> {
        push_front(elems(self.next), self.elem)
    }
}

impl<T> List<T> {
    /// Creates an empty list.
    pub fn new() -> (list: Self)
        ensures
            list@ == Seq::<T>::empty(),
    {
        List { head: None }
    }

    /// Borrows the front element, or returns `None` when there is none.
    /// The list stays as it is.
    pub fn peek(&mut self) -> (peeked: Option<&T>)
        ensures
            final(self)@ == old(self)@,
            match peeked {
                Some(elem) => front(old(self)@) == Some(*elem),
                None => front(old(self)@) is None,
            },
    {
        match &self.head {
            None => None,
            Some(node) => Some(&node.elem),
        }
    }

    /// Borrows the front element for mutation, or returns `None` when
    /// there is none. What the borrow holds when it ends is the front
    /// element from then on; the elements behind it stay as they are.
    pub fn peek_mut(&mut self) -> (peeked: Option<&mut T>)
        ensures
            match peeked {
                Some(elem) => front(old(self)@) == Some(*elem) && final(self)@ == push_front(
                    rest(old(self)@),
                    *final(elem),
                ),
                None => front(old(self)@) is None && final(self)@ == old(self)@,
            },
    {
        match &mut self.head {
            None => None,
            Some(node) => Some(&mut node.elem),
        }
    }

    /// Puts `elem` in front of all other elements.
    pub fn push(&mut self, elem: T)
        ensures
            final(self)@ == push_front(old(self)@, elem),
    {
        let behind = self.head.take();
        self.head = Some(Box::new(Node { elem, next: behind }));
    }

    /// Removes the front element and returns it. Returns `None`, and
    /// leaves the list as it is, when there is no element.
    pub fn pop(&mut self) -> (popped: Option<T>)
        ensures
            popped == front(old(self)@),
            final(self)@ == rest(old(self)@),
    {
        match self.head.take() {
            None => None,
            Some(node) => {
                let node = *node;
                self.head = node.next;
                assert(self@ =~= rest(old(self)@));
                Some(node.elem)
            },
        }
    }

    /// Puts `elem` behind all other elements.
    pub fn push_back(&mut self, elem: T)
        ensures
            final(self)@ == push_back(old(self)@, elem),
    {
        let link = Some(Box::new(Node { elem, next: None }));
        // The elements that the walk has passed.
        let ghost mut passed: Seq<T> = Seq::empty();
        let mut tail = &mut self.head;
        assert(passed + elems(*tail) =~= old(self)@);
        loop
            invariant
                passed + elems(*tail) == old(self)@,
                elems(after_borrow(self.head)) == passed + elems(*final(tail)),
            ensures
                *tail is None,
            decreases elems(*tail).len(),
        {
            match tail {
                None => break ,
                Some(more) => {
                    proof {
                        passed = passed.push(more.elem);
                    }
                    tail = &mut more.next;
                },
            }
        }
        *tail = link;
    }

    /// One step of consuming the list front to back: the same as `pop`.
    pub fn next(&mut self) -> (item: Option<T>)
        ensures
            item == front(old(self)@),
            final(self)@ == rest(old(self)@),
    {
        self.pop()
    }

    /// Starts a traversal at the front element. The cursor's view is the
    /// view of the list.
    pub fn iter<'a>(&'a self) -> (cursor: Iter<'a, T>)
        ensures
            cursor@ == self@,
    {
        Iter {
            next: match &self.head {
                None => None,
                Some(node) => Some(&**node),
            },
        }
    }

    /// Starts a traversal at the front element that lends each element
    /// out for mutation. The cursor borrows the whole chain: once every
    /// borrow has ended, the list holds what the chain then holds.
    pub fn iter_mut<'a>(&'a mut self) -> (cursor: IterMut<'a, T>)
        ensures
            cursor@ == old(self)@,
            cursor.next is Some <==> cursor@.len() > 0,
            final(self)@ == (match cursor.next {
                Some(node) => final(node)@,
                None => Seq::empty(),
            }),
    {
        IterMut {
            next: match &mut self.head {
                None => None,
                Some(node) => Some(&mut **node),
            },
        }
    }
}

/// A cursor over the elements of a list, front to back. Its view is the
/// sequence of the elements still to come.
pub struct Iter<'a, T> {
    next: Option<&'a Node<T>>,
}

impl<'a, T> View for Iter<'a, T> {
    type V = Seq<T>;

    closed spec fn view(&self) -> Seq<T> {
        match self.next {
            None => Seq::empty(),
            Some(node) => node@,
        }
    }
}

impl<'a, T> Iter<'a, T> {
    /// Yields the element that the cursor stands on and steps past it.
    /// Returns `None`, and stays where it is, when no element is left.
    pub fn next(&mut self) -> (item: Option<&'a T>)
        ensures
            final(self)@ == rest(old(self)@),
            match item {
                Some(elem) => front(old(self)@) == Some(*elem),
                None => front(old(self)@) is None,
            },
    {
        match self.next {
            None => None,
            Some(node) => {
                self.next = match &node.next {
                    None => None,
                    Some(after) => Some(&**after),
                };
                assert(self@ =~= rest(old(self)@));
                Some(&node.elem)
            },
        }
    }
}

/// A cursor that lends out the elements of a list for mutation, front to
/// back. Its view is the sequence of the elements still to come, as they
/// are now.
pub struct IterMut<'a, T> {
    /// The borrow of the node that the cursor stands on, if one is left.
    pub next: Option<&'a mut Node<T>>,
}

impl<'a, T> View for IterMut<'a, T> {
    type V = Seq<T>;

    open spec fn view(&self) -> Seq<T> {
        match self.next {
            Some(node) => node@,
            None => Seq::empty(),
        }
    }
}

impl<'a, T> IterMut<'a, T> {
    /// Lends out the element that the cursor stands on and steps past
    /// it. Returns `None`, and stays where it is, when no element is left.
    ///
    /// The chain that the cursor stood on ends up as what the borrow of
    /// the element holds when it ends, followed by what the chain that the
    /// cursor now stands on ends up as.
    pub fn next(&mut self) -> (item: Option<&'a mut T>)
        ensures
            final(self)@ == rest(old(self)@),
            final(self).next is Some <==> final(self)@.len() > 0,
            match item {
                Some(elem) => front(old(self)@) == Some(*elem) && old(self).next is Some
                    && final(old(self).next.unwrap())@ == push_front(
                    match final(self).next {
                        Some(node) => final(node)@,
                        None => Seq::empty(),
                    },
                    *final(elem),
                ),
                None => front(old(self)@) is None && old(self).next is None,
            },
    {
        match self.next.take() {
            None => None,
            Some(node) => {
                self.next = match &mut node.next {
                    None => None,
                    Some(after) => Some(&mut **after),
                };
                assert(self@ =~= rest(old(self)@));
                Some(&mut node.elem)
            },
        }
    }
}

impl<T: PartialEq> PartialEq for List<T> {
    /// Two lists are equal when they are equally long and their elements
    /// compare equal position by position.
    fn eq(&self, other: &Self) -> (equal: bool) {
        let mut ours = &self.head;
        let mut theirs = &other.head;
        loop
            invariant
                T::obeys_eq_spec() ==> elementwise_eq(elems(*ours), elems(*theirs))
                    == elementwise_eq(self@, other@),
            decreases elems(*ours).len(),
        {
            match (ours, theirs) {
                (None, None) => {
                    return true;
                },
                (Some(a), Some(b)) => {
                    proof {
                        lemma_compare_step(ours, theirs);
                    }
                    if !(a.elem == b.elem) {
                        return false;
                    }
                    ours = &a.next;
                    theirs = &b.next;
                },
                _ => {
                    return false;
                },
            }
        }
    }
}

impl<T: PartialEq> PartialEqSpecImpl for List<T> {
    open spec fn obeys_eq_spec() -> bool {
        T::obeys_eq_spec()
    }

    open spec fn eq_spec(&self, other: &Self) -> bool {
        elementwise_eq(self@, other@)
    }
}

impl<T> Drop for List<T> {
    /// Releases the nodes one at a time, front to back, so that the depth
    /// of the call stack does not grow with the length of the list.
    fn drop(&mut self)
        ensures
            final(self)@ == Seq::<T>::empty(),
        opens_invariants none
        no_unwind
    {
        let mut link: Link<T> = None;
        std::mem::swap(&mut self.head, &mut link);
        loop
            decreases elems(link).len(),
        {
            match link {
                None => break ,
                Some(mut node) => {
                    let mut behind: Link<T> = None;
                    std::mem::swap(&mut node.next, &mut behind);
                    link = behind;
                    // The node goes with no chain behind it.
                    assert(node.next is None);
                },
            }
        }
    }
}

/// How the comparison of two chains that both have a node in front comes
/// down to the comparison of the front elements and of the chains behind.
proof fn lemma_compare_step<T: PartialEq>(ours: &Link<T>, theirs: &Link<T>)
    requires
        ours is Some,
        theirs is Some,
    ensures
        elementwise_eq(elems(*ours), elems(*theirs)) == (ours.unwrap().elem.eq_spec(
            &theirs.unwrap().elem,
        ) && elementwise_eq(elems(ours.unwrap().next), elems(theirs.unwrap().next))),
{
    let a = ours.unwrap();
    let b = theirs.unwrap();
    lemma_elementwise_eq_front(elems(a.next), a.elem, elems(b.next), b.elem);
}

} // verus!
