//! An immutable list on a chain of reference-counted nodes. Lists that were
//! built from one another share the nodes of their common suffix; a node
//! lives as long as some list or some node in front of it holds it.

use crate::model::{elementwise_eq, front, lemma_elementwise_eq_front, push_front, rest};
use std::rc::Rc;
use vstd::prelude::*;
use vstd::std_specs::cmp::{PartialEqSpec, PartialEqSpecImpl};

verus! {

/// A persistent singly-linked list. Its view is the sequence of its
/// elements, first element first. No operation changes a list: each one
/// that builds a list returns a new value.
#[derive(Debug)]
pub struct List<T> {
    head: Link<T>,
}

type Link<T> = Option<Rc<Node<T>>>;

#[derive(Debug)]
struct Node<T> {
    elem: T,
    next: Link<T>,
}

/// The elements reachable from `link`, nearest first.
spec fn elems<T>(link: Link<T>) -> Seq<T>
    decreases link,
{
    match link {
        None => Seq::empty(),
        Some(node) => push_front(elems(node.next), node.elem),
    }
}

/// The node that `rc` points at.
spec fn pointee<T>(rc: Rc<Node<T>>) -> Node<T> {
    *rc
}

impl<T> View for List<T> {
    type V = Seq<T>;

    closed spec fn view(&self) -> Seq<T> {
        elems(self.head)
    }
}

/// `Rc::clone`: the handle that it returns points at the allocation that
/// `rc` points at, so both stand for the same value.
#[verifier::external_body]
fn share<T>(rc: &Rc<T>) -> (shared: Rc<T>)
    ensures
        shared == *rc,
{
    Rc::clone(rc)
}

/// `Rc::try_unwrap`: gives the value back when `rc` is the only handle to
/// it, and `rc` itself when the value is still shared. Either way it
/// returns without unwinding, which a destructor has to rely on.
#[verifier::external_body]
fn sole_owner<T>(rc: Rc<T>) -> (outcome: Result<T, Rc<T>>)
    ensures
        match outcome {
            Ok(value) => value == *rc,
            Err(same) => same == rc,
        },
    opens_invariants none
    no_unwind
{
    Rc::try_unwrap(rc)
}

impl<T> List<T> {
    /// Creates an empty list.
    pub fn new() -> (list: Self)
        ensures
            list@ == Seq::<T>::empty(),
    {
        List { head: None }
    }

    /// Returns the list of `elem` followed by the elements of this list.
    /// The new list shares every node of this one.
    pub fn prepend(&self, elem: T) -> (list: Self)
        ensures
            list@ == push_front(self@, elem),
    {
        let next = match &self.head {
            None => None,
            Some(node) => Some(share(node)),
        };
        List { head: Some(Rc::new(Node { elem, next })) }
    }

    /// Borrows the first element, or returns `None` when there is none.
    pub fn head(&self) -> (first: Option<&T>)
        ensures
            match first {
                Some(elem) => front(self@) == Some(*elem),
                None => front(self@) is None,
            },
    {
        match &self.head {
            None => None,
            Some(node) => Some(&node.elem),
        }
    }

    /// Returns the list of all elements but the first; of an empty list,
    /// an empty list. The new list shares every node that it has.
    pub fn tail(&self) -> (list: Self)
        ensures
            list@ == rest(self@),
    {
        let next = match &self.head {
            None => None,
            Some(node) => match &node.next {
                None => None,
                Some(after) => Some(share(after)),
            },
        };
        assert(elems(next) =~= rest(self@));
        List { head: next }
    }
}

impl<T: PartialEq> PartialEq for List<T> {
    /// Two lists are equal when they are equally long and their elements
    /// compare equal position by position.
    fn eq(&self, other: &Self) -> (equal: bool) {
        let mut ours = &self.head;
        let mut theirs = &other.head;
        loop
            invariant
                T::obeys_eq_spec() ==> elementwise_eq(elems(*ours), elems(*theirs))
                    == elementwise_eq(self@, other@),
            decreases elems(*ours).len(),
        {
            match (ours, theirs) {
                (None, None) => {
                    return true;
                },
                (Some(a), Some(b)) => {
                    proof {
                        lemma_compare_step(ours, theirs);
                    }
                    if !(a.elem == b.elem) {
                        return false;
                    }
                    ours = &a.next;
                    theirs = &b.next;
                },
                _ => {
                    return false;
                },
            }
        }
    }
}

impl<T: PartialEq> PartialEqSpecImpl for List<T> {
    open spec fn obeys_eq_spec() -> bool {
        T::obeys_eq_spec()
    }

    open spec fn eq_spec(&self, other: &Self) -> bool {
        elementwise_eq(self@, other@)
    }
}

impl<T> Drop for List<T> {
    /// Releases the nodes that no other list holds, front to back and one
    /// at a time, and stops at the first node that something else still
    /// holds. The depth of the call stack does not grow with the length
    /// of the list.
    fn drop(&mut self)
        ensures
            final(self)@ == Seq::<T>::empty(),
        opens_invariants none
        no_unwind
    {
        let mut link: Link<T> = None;
        std::mem::swap(&mut self.head, &mut link);
        loop
            decreases elems(link).len(),
        {
            match link {
                None => break ,
                Some(rc) => match sole_owner(rc) {
                    Ok(mut node) => {
                        let mut behind: Link<T> = None;
                        std::mem::swap(&mut node.next, &mut behind);
                        link = behind;
                        // The node goes with no chain behind it.
                        assert(node.next is None);
                    },
                    Err(_) => break ,
                },
            }
        }
    }
}

/// How the comparison of two chains that both have a node in front comes
/// down to the comparison of the front elements and of the chains behind.
proof fn lemma_compare_step<T: PartialEq>(ours: &Link<T>, theirs: &Link<T>)
    requires
        ours is Some,
        theirs is Some,
    ensures
        elementwise_eq(elems(*ours), elems(*theirs)) == (ours.unwrap().elem.eq_spec(
            &theirs.unwrap().elem,
        ) && elementwise_eq(elems(ours.unwrap().next), elems(theirs.unwrap().next))),
{
    let a = pointee(ours.unwrap());
    let b = pointee(theirs.unwrap());
    lemma_elementwise_eq_front(elems(a.next), a.elem, elems(b.next), b.elem);
}

} // verus!
