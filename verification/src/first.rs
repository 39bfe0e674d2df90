//! A stack of `i32` values on a chain of boxed nodes. Every node is owned
//! by the link that leads to it, the first one by the list.

use crate::model::{front, push_back, push_front, rest};
use vstd::prelude::*;
use vstd::std_specs::cmp::PartialEqSpecImpl;

verus! {

/// A singly-linked stack of `i32`. Its view is the sequence of its
/// elements, front element first.
#[derive(Debug)]
pub struct List {
    head: Link,
}

#[derive(Debug)]
struct Node {
    elem: i32,
    next: Link,
}

#[derive(Debug)]
enum Link {
    Empty,
    More(Box<Node>),
}

impl Link {
    /// The elements reachable from this link, nearest first.
    spec fn elems(self) -> Seq<i32>
        decreases self,
    {
        match self {
            Link::Empty => Seq::empty(),
            Link::More(node) => push_front(node.next.elems(), node.elem),
        }
    }
}

impl View for List {
    type V = Seq<i32>;

    closed spec fn view(&self) -> Seq<i32> {
        self.head.elems()
    }
}

impl List {
    /// Creates an empty list.
    pub fn new() -> (list: Self)
        ensures
            list@ == Seq::<i32>::empty(),
    {
        List { head: Link::Empty }
    }

    /// Puts `elem` in front of all other elements.
    pub fn push(&mut self, elem: i32)
        ensures
            final(self)@ == push_front(old(self)@, elem),
    {
        let mut behind = Link::Empty;
        std::mem::swap(&mut self.head, &mut behind);
        self.head = Link::More(Box::new(Node { elem, next: behind }));
    }

    /// Removes the front element and returns it. Returns `None`, and
    /// leaves the list as it is, when there is no element.
    pub fn pop(&mut self) -> (popped: Option<i32>)
        ensures
            popped == front(old(self)@),
            final(self)@ == rest(old(self)@),
    {
        let mut taken = Link::Empty;
        std::mem::swap(&mut self.head, &mut taken);
        match taken {
            Link::Empty => None,
            Link::More(node) => {
                let node = *node;
                self.head = node.next;
                assert(self@ =~= rest(old(self)@));
                Some(node.elem)
            },
        }
    }

    /// Puts `elem` behind all other elements.
    pub fn push_back(&mut self, elem: i32)
        ensures
            final(self)@ == push_back(old(self)@, elem),
    {
        let link = Link::More(Box::new(Node { elem, next: Link::Empty }));
        // The elements that the walk has passed.
        let ghost mut passed: Seq<i32> = Seq::empty();
        let mut tail = &mut self.head;
        assert(passed + tail.elems() =~= old(self)@);
        loop
            invariant
                passed + tail.elems() == old(self)@,
                after_borrow(self.head).elems() == passed + final(tail).elems(),
            ensures
                *tail is Empty,
            decreases tail.elems().len(),
        {
            match tail {
                Link::Empty => break ,
                Link::More(more) => {
                    proof {
                        passed = passed.push(more.elem);
                    }
                    tail = &mut more.next;
                },
            }
        }
        *tail = link;
    }
}

impl PartialEq for List {
    /// Two lists are equal when they hold the same elements in the same
    /// order.
    fn eq(&self, other: &Self) -> (equal: bool) {
        let mut ours = &self.head;
        let mut theirs = &other.head;
        loop
            invariant
                (ours.elems() == theirs.elems()) == (self@ == other@),
            decreases ours.elems().len(),
        {
            match (ours, theirs) {
                (Link::Empty, Link::Empty) => {
                    return true;
                },
                (Link::More(a), Link::More(b)) => {
                    proof {
                        lemma_same_front(a.next.elems(), a.elem, b.next.elems(), b.elem);
                    }
                    if a.elem != b.elem {
                        return false;
                    }
                    ours = &a.next;
                    theirs = &b.next;
                },
                _ => {
                    assert(ours.elems().len() != theirs.elems().len());
                    return false;
                },
            }
        }
    }
}

impl PartialEqSpecImpl for List {
    open spec fn obeys_eq_spec() -> bool {
        true
    }

    open spec fn eq_spec(&self, other: &Self) -> bool {
        self@ == other@
    }
}

impl Drop for List {
    /// Releases the nodes one at a time, front to back, so that the depth
    /// of the call stack does not grow with the length of the list.
    fn drop(&mut self)
        ensures
            final(self)@ == Seq::<i32>::empty(),
        opens_invariants none
        no_unwind
    {
        let mut link = Link::Empty;
        std::mem::swap(&mut self.head, &mut link);
        loop
            decreases link.elems().len(),
        {
            match link {
                Link::Empty => break ,
                Link::More(mut node) => {
                    let mut behind = Link::Empty;
                    std::mem::swap(&mut node.next, &mut behind);
                    link = behind;
                    // The node goes with no chain behind it.
                    assert(node.next is Empty);
                },
            }
        }
    }
}

/// Two sequences with an element in front are equal exactly when the
/// front elements are equal and so is what stands behind them.
proof fn lemma_same_front(s: Seq<i32>, a: i32, t: Seq<i32>, b: i32)
    ensures
        (push_front(s, a) == push_front(t, b)) == (a == b && s == t),
{
    if push_front(s, a) == push_front(t, b) {
        assert(push_front(s, a)[0] == a);
        assert(push_front(t, b)[0] == b);
        assert(push_front(s, a).drop_first() =~= s);
        assert(push_front(t, b).drop_first() =~= t);
    }
}

} // verus!
