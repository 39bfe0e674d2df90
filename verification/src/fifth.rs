//! A queue on a chain of nodes that live in the slots of one vector. A link
//! is the index of a slot, so the list can keep a second link, to its last
//! node, beside the chain that starts at its first: putting an element
//! behind all others takes no walk. Slots that a removal has emptied form
//! a chain of their own and are used again before the vector grows.

use crate::model::{elementwise_eq, front, push_back, rest};
use vstd::prelude::*;
use vstd::std_specs::cmp::{PartialEqSpec, PartialEqSpecImpl};

verus! {

/// One node of a chain.
#[derive(Debug)]
struct Slot<T> {
    /// The element, for as long as the slot is part of the queue.
    elem: Option<T>,
    /// The slot that follows this one in the chain that it is part of.
    next: Option<usize>,
}

/// A singly-linked queue. Its view is the sequence of its elements, front
/// element first.
#[derive(Debug)]
pub struct List<T> {
    slots: Vec<Slot<T>>,
    /// The first slot of the queue.
    head: Option<usize>,
    /// The last slot of the queue: `None` exactly when `head` is.
    tail: Option<usize>,
    /// The first of the slots that hold no element.
    free: Option<usize>,
}

/// The first index of `path`, if it has one.
spec fn first_of(path: Seq<usize>) -> Option<usize> {
    if path.len() > 0 {
        Some(path[0])
    } else {
        None
    }
}

/// The last index of `path`, if it has one.
spec fn last_of(path: Seq<usize>) -> Option<usize> {
    if path.len() > 0 {
        Some(path[path.len() - 1])
    } else {
        None
    }
}

/// The slot at position `k` of `path` exists, and its link leads to the
/// slot at the next position, or nowhere from the last position.
spec fn linked<T>(slots: Seq<Slot<T>>, path: Seq<usize>, k: int) -> bool {
    &&& path[k] < slots.len()
    &&& slots[path[k] as int].next == (if k + 1 < path.len() {
        Some(path[k + 1])
    } else {
        None
    })
}

/// `path` lists, in order, the slots of the chain that starts at `start`.
spec fn is_chain<T>(slots: Seq<Slot<T>>, start: Option<usize>, path: Seq<usize>) -> bool {
    &&& start == first_of(path)
    &&& forall|k: int| 0 <= k < path.len() ==> #[trigger] linked(slots, path, k)
}

/// The elements in the slots of `path`, in its order.
spec fn elems_at<T>(slots: Seq<Slot<T>>, path: Seq<usize>) -> Seq<T> {
    Seq::new(path.len(), |k: int| slots[path[k] as int].elem.unwrap())
}

/// The chain that starts at `start`.
spec fn chain_from<T>(slots: Seq<Slot<T>>, start: Option<usize>) -> Seq<usize> {
    choose|path: Seq<usize>| is_chain(slots, start, path)
}

/// Every slot of `path` holds an element.
spec fn all_filled<T>(slots: Seq<Slot<T>>, path: Seq<usize>) -> bool {
    forall|k: int| 0 <= k < path.len() ==> slots[#[trigger] path[k] as int].elem is Some
}

/// Slot `i` is part of one of the two chains.
spec fn placed(queue: Seq<usize>, spare: Seq<usize>, i: usize) -> bool {
    queue.contains(i) || spare.contains(i)
}

/// The parts of a list fit together, with `queue` as the chain of the
/// slots that hold the elements and `spare` as the chain of the others.
spec fn shaped<T>(
    slots: Seq<Slot<T>>,
    head: Option<usize>,
    tail: Option<usize>,
    free: Option<usize>,
    queue: Seq<usize>,
    spare: Seq<usize>,
) -> bool {
    &&& is_chain(slots, head, queue)
    &&& is_chain(slots, free, spare)
    &&& tail == last_of(queue)
    &&& queue.no_duplicates()
    &&& spare.no_duplicates()
    &&& forall|i: int, j: int|
        0 <= i < queue.len() && 0 <= j < spare.len() ==> queue[i] != spare[j]
    &&& all_filled(slots, queue)
    &&& forall|k: int| 0 <= k < spare.len() ==> slots[#[trigger] spare[k] as int].elem is None
    &&& forall|i: usize| i < slots.len() ==> #[trigger] placed(queue, spare, i)
}

/// The parts of a list fit together.
spec fn fitting<T>(
    slots: Seq<Slot<T>>,
    head: Option<usize>,
    tail: Option<usize>,
    free: Option<usize>,
) -> bool {
    exists|queue: Seq<usize>, spare: Seq<usize>| #[trigger]
        shaped(slots, head, tail, free, queue, spare)
}

/// The two chains of a list whose parts fit together.
spec fn chains<T>(
    slots: Seq<Slot<T>>,
    head: Option<usize>,
    tail: Option<usize>,
    free: Option<usize>,
) -> (Seq<usize>, Seq<usize>) {
    choose|queue: Seq<usize>, spare: Seq<usize>| #[trigger]
        shaped(slots, head, tail, free, queue, spare)
}

/// From one start the links lead along one path only.
proof fn lemma_chain_unique<T>(
    slots: Seq<Slot<T>>,
    start: Option<usize>,
    p: Seq<usize>,
    q: Seq<usize>,
)
    requires
        is_chain(slots, start, p),
        is_chain(slots, start, q),
    ensures
        p == q,
{
    lemma_chain_agree(slots, p, q, p.len());
    lemma_chain_agree(slots, q, p, q.len());
    assert(p =~= q);
}

/// Where the parts of a list fit together, the chain that starts at `head`
/// is the queue, and each of its slots holds an element.
proof fn lemma_queue<T>(
    slots: Seq<Slot<T>>,
    head: Option<usize>,
    tail: Option<usize>,
    free: Option<usize>,
)
    requires
        fitting(slots, head, tail, free),
    ensures
        is_chain(slots, head, chain_from(slots, head)),
        all_filled(slots, chain_from(slots, head)),
        chains(slots, head, tail, free).0 == chain_from(slots, head),
{
    let (queue, spare) = chains(slots, head, tail, free);
    lemma_chain_unique(slots, head, chain_from(slots, head), queue);
}

/// Two paths along the links from one start agree on the first `n`
/// positions of the one, which the other has too.
proof fn lemma_chain_agree<T>(slots: Seq<Slot<T>>, p: Seq<usize>, q: Seq<usize>, n: nat)
    requires
        first_of(p) == first_of(q),
        forall|k: int| 0 <= k < p.len() ==> #[trigger] linked(slots, p, k),
        forall|k: int| 0 <= k < q.len() ==> #[trigger] linked(slots, q, k),
        n <= p.len(),
    ensures
        n <= q.len(),
        forall|k: int| 0 <= k < n ==> p[k] == q[k],
    decreases n,
{
    if n > 1 {
        lemma_chain_agree(slots, p, q, (n - 1) as nat);
        assert(linked(slots, p, n - 2));
        assert(linked(slots, q, n - 2));
    }
}

impl<T> View for List<T> {
    type V = Seq<T>;

    closed spec fn view(&self) -> Seq<T> {
        elems_at(self.slots@, chain_from(self.slots@, self.head))
    }
}

impl<T> List<T> {
    /// Every slot is part of exactly one of two chains: the queue, which
    /// starts at `head`, ends at `tail` and holds one element in each slot,
    /// and the chain of the empty slots, which starts at `free`.
    #[verifier::type_invariant]
    spec fn well_formed(self) -> bool {
        fitting(self.slots@, self.head, self.tail, self.free)
    }

    /// Creates an empty list.
    pub fn new() -> (list: Self)
        ensures
            list@ == Seq::<T>::empty(),
    {
        let slots: Vec<Slot<T>> = Vec::new();
        proof {
            let none = Seq::<usize>::empty();
            assert(shaped(slots@, None, None, None, none, none));
            lemma_chain_unique(slots@, None, chain_from(slots@, None), none);
        }
        List { slots, head: None, tail: None, free: None }
    }

    /// Moves the list out of `self` and leaves an empty one in its place,
    /// so that the parts can be worked on one after the other.
    fn take(&mut self) -> (taken: Self)
        ensures
            taken == *old(self),
            fitting(taken.slots@, taken.head, taken.tail, taken.free),
    {
        let mut taken = Self::new();
        proof {
            use_type_invariant(&*self);
            use_type_invariant(&taken);
        }
        std::mem::swap(self, &mut taken);
        taken
    }

    /// Puts `elem` behind all other elements.
    pub fn push(&mut self, elem: T)
        ensures
            final(self)@ == push_back(old(self)@, elem),
    {
        let List { mut slots, mut head, mut tail, mut free } = self.take();
        let ghost before = (slots@, head, tail, free);
        proof {
            let (queue, spare) = chains(slots@, head, tail, free);
            assert(spare.len() > 0 ==> linked(slots@, spare, 0));
            assert(queue.len() > 0 ==> linked(slots@, queue, queue.len() - 1));
        }
        // The slot for the new element: an empty one, or else a new one.
        let at = match free {
            Some(at) => {
                free = slots[at].next;
                slots[at].elem = Some(elem);
                slots[at].next = None;
                at
            },
            None => {
                let at = slots.len();
                slots.push(Slot { elem: Some(elem), next: None });
                at
            },
        };
        match tail {
            Some(last) => {
                slots[last].next = Some(at);
            },
            None => {
                head = Some(at);
            },
        }
        tail = Some(at);
        proof {
            assert(slots@.len() == slots.len());
            lemma_push(before.0, before.1, before.2, before.3, slots@, elem);
        }
        *self = List { slots, head, tail, free };
    }

    /// Removes the front element and returns it. Returns `None`, and
    /// leaves the list as it is, when there is no element.
    pub fn pop(&mut self) -> (popped: Option<T>)
        ensures
            popped == front(old(self)@),
            final(self)@ == rest(old(self)@),
    {
        proof {
            use_type_invariant(&*self);
            lemma_queue(self.slots@, self.head, self.tail, self.free);
        }
        if self.head.is_none() {
            return None;
        }
        let List { mut slots, mut head, mut tail, mut free } = self.take();
        let ghost before = (slots@, head, tail, free);
        proof {
            assert(linked(slots@, chain_from(slots@, head), 0));
        }
        let at = head.unwrap();
        let popped = slots[at].elem.take();
        head = slots[at].next;
        if head.is_none() {
            tail = None;
        }
        slots[at].next = free;
        free = Some(at);
        proof {
            lemma_pop(before.0, before.1, before.2, before.3, slots@);
        }
        *self = List { slots, head, tail, free };
        popped
    }
}

impl<T: PartialEq> PartialEq for List<T> {
    /// Two lists are equal when they are equally long and their elements
    /// compare equal position by position.
    fn eq(&self, other: &Self) -> (equal: bool) {
        let ghost ours = chain_from(self.slots@, self.head);
        let ghost theirs = chain_from(other.slots@, other.head);
        proof {
            use_type_invariant(self);
            use_type_invariant(other);
            lemma_queue(self.slots@, self.head, self.tail, self.free);
            lemma_queue(other.slots@, other.head, other.tail, other.free);
        }
        let mut a = self.head;
        let mut b = other.head;
        // How many elements of each list have been compared.
        let ghost mut done: int = 0;
        loop
            invariant
                is_chain(self.slots@, self.head, ours),
                is_chain(other.slots@, other.head, theirs),
                all_filled(self.slots@, ours),
                all_filled(other.slots@, theirs),
                self@ == elems_at(self.slots@, ours),
                other@ == elems_at(other.slots@, theirs),
                0 <= done <= ours.len(),
                done <= theirs.len(),
                a == (if done < ours.len() {
                    Some(ours[done])
                } else {
                    None
                }),
                b == (if done < theirs.len() {
                    Some(theirs[done])
                } else {
                    None
                }),
                T::obeys_eq_spec() ==> forall|k: int|
                    0 <= k < done ==> (#[trigger] self@[k]).eq_spec(&other@[k]),
            decreases ours.len() - done,
        {
            match (a, b) {
                (None, None) => {
                    return true;
                },
                (Some(x), Some(y)) => {
                    assert(linked(self.slots@, ours, done));
                    assert(linked(other.slots@, theirs, done));
                    let same = self.slots[x].elem == other.slots[y].elem;
                    assert(T::obeys_eq_spec() ==> same == self@[done].eq_spec(&other@[done]));
                    if !same {
                        return false;
                    }
                    a = self.slots[x].next;
                    b = other.slots[y].next;
                    proof {
                        done = done + 1;
                    }
                },
                _ => {
                    return false;
                },
            }
        }
    }
}

impl<T: PartialEq> PartialEqSpecImpl for List<T> {
    open spec fn obeys_eq_spec() -> bool {
        T::obeys_eq_spec()
    }

    open spec fn eq_spec(&self, other: &Self) -> bool {
        elementwise_eq(self@, other@)
    }
}

/// The slot that takes the next element: the first empty one, or else a
/// new one behind all others.
spec fn slot_to_fill<T>(slots: Seq<Slot<T>>, free: Option<usize>) -> usize {
    match free {
        Some(at) => at,
        None => slots.len() as usize,
    }
}

/// `after` is `before` with `elem` in the slot to fill and that slot
/// linked behind the slot `tail`.
spec fn appended<T>(
    before: Seq<Slot<T>>,
    tail: Option<usize>,
    free: Option<usize>,
    after: Seq<Slot<T>>,
    elem: T,
) -> bool {
    let at = slot_to_fill(before, free);
    &&& after.len() == (if free is Some {
        before.len()
    } else {
        before.len() + 1
    })
    &&& after[at as int] == (Slot { elem: Some(elem), next: None })
    &&& forall|i: int|
        0 <= i < before.len() && i != at ==> #[trigger] after[i] == (if tail == Some(i as usize) {
            Slot { elem: before[i].elem, next: Some(at) }
        } else {
            before[i]
        })
}

/// Filling a slot and linking it behind the last one puts the element
/// behind all others and keeps the parts fitting together.
proof fn lemma_push<T>(
    before: Seq<Slot<T>>,
    head: Option<usize>,
    tail: Option<usize>,
    free: Option<usize>,
    after: Seq<Slot<T>>,
    elem: T,
)
    requires
        fitting(before, head, tail, free),
        after.len() <= usize::MAX,
        appended(before, tail, free, after, elem),
    ensures
        ({
            let at = slot_to_fill(before, free);
            let head_after = if tail is Some { head } else { Some(at) };
            let free_after = if free is Some { before[at as int].next } else { None };
            &&& fitting(after, head_after, Some(at), free_after)
            &&& elems_at(after, chain_from(after, head_after)) == push_back(
                elems_at(before, chain_from(before, head)),
                elem,
            )
        }),
{
    let (queue, spare) = chains(before, head, tail, free);
    let at = slot_to_fill(before, free);
    let head_after = if tail is Some { head } else { Some(at) };
    let free_after = if free is Some { before[at as int].next } else { None };
    let queue_after = queue.push(at);
    let spare_after = if spare.len() > 0 { spare.drop_first() } else { spare };
    if spare.len() > 0 {
        assert(linked(before, spare, 0));
    }
    assert forall|k: int| 0 <= k < queue.len() implies queue[k] < before.len() && queue[k] != at by {
        assert(linked(before, queue, k));
    }
    assert forall|k: int| 0 <= k < queue_after.len() implies #[trigger] linked(
        after,
        queue_after,
        k,
    ) by {
        if k < queue.len() {
            assert(linked(before, queue, k));
            assert(queue[k] != at);
            if k + 1 < queue.len() {
                assert(queue[k] != queue[queue.len() - 1]);
            }
        }
    }
    assert forall|k: int| 0 <= k < spare_after.len() implies #[trigger] linked(
        after,
        spare_after,
        k,
    ) by {
        assert(linked(before, spare, k + 1));
        assert(spare[k + 1] != spare[0]);
        assert(spare_after[k] == spare[k + 1]);
    }
    assert forall|k: int| 0 <= k < queue_after.len() implies after[#[trigger] queue_after[k] as int].elem
        == (if k < queue.len() {
        before[queue[k] as int].elem
    } else {
        Some(elem)
    }) by {
        if k < queue.len() {
            assert(linked(before, queue, k));
            assert(queue[k] != at);
        }
    }
    assert forall|k: int| 0 <= k < spare_after.len() implies after[#[trigger] spare_after[k] as int].elem is None by {
        assert(linked(before, spare, k + 1));
        assert(spare[k + 1] != spare[0]);
        assert(spare_after[k] == spare[k + 1]);
    }
    assert forall|i: usize| i < after.len() implies #[trigger] placed(
        queue_after,
        spare_after,
        i,
    ) by {
        if i == at {
            assert(queue_after[queue.len() as int] == at);
        } else {
            assert(placed(queue, spare, i));
            if queue.contains(i) {
                let k = choose|k: int| 0 <= k < queue.len() && queue[k] == i;
                assert(queue_after[k] == i);
            } else {
                let k = choose|k: int| 0 <= k < spare.len() && spare[k] == i;
                assert(spare_after[k - 1] == i);
            }
        }
    }
    assert(shaped(after, head_after, Some(at), free_after, queue_after, spare_after));
    lemma_chain_unique(before, head, chain_from(before, head), queue);
    lemma_chain_unique(after, head_after, chain_from(after, head_after), queue_after);
    assert(elems_at(after, queue_after) =~= push_back(elems_at(before, queue), elem));
}

/// `after` is `before` with the first slot of the queue emptied and
/// linked in front of the slot `free`.
spec fn removed<T>(
    before: Seq<Slot<T>>,
    head: Option<usize>,
    free: Option<usize>,
    after: Seq<Slot<T>>,
) -> bool {
    let at = head.unwrap();
    &&& head is Some
    &&& after.len() == before.len()
    &&& after[at as int] == (Slot { elem: None::<T>, next: free })
    &&& forall|i: int| 0 <= i < before.len() && i != at ==> #[trigger] after[i] == before[i]
}

/// Emptying the first slot of the queue and linking it in front of the
/// empty ones takes the front element away and keeps the parts fitting
/// together.
proof fn lemma_pop<T>(
    before: Seq<Slot<T>>,
    head: Option<usize>,
    tail: Option<usize>,
    free: Option<usize>,
    after: Seq<Slot<T>>,
)
    requires
        fitting(before, head, tail, free),
        removed(before, head, free, after),
    ensures
        ({
            let at = head.unwrap();
            let head_after = before[at as int].next;
            let tail_after = if head_after is Some { tail } else { None };
            &&& fitting(after, head_after, tail_after, Some(at))
            &&& before[at as int].elem == front(elems_at(before, chain_from(before, head)))
            &&& elems_at(after, chain_from(after, head_after)) == rest(
                elems_at(before, chain_from(before, head)),
            )
        }),
{
    let at = head.unwrap();
    let head_after = before[at as int].next;
    let tail_after = if head_after is Some { tail } else { None };
    let (queue, spare) = chains(before, head, tail, free);
    let queue_after = queue.drop_first();
    let spare_after = seq![at] + spare;
    assert(linked(before, queue, 0));
    assert forall|k: int| 0 <= k < queue_after.len() implies #[trigger] linked(
        after,
        queue_after,
        k,
    ) by {
        assert(linked(before, queue, k + 1));
        assert(queue[k + 1] != queue[0]);
        assert(queue_after[k] == queue[k + 1]);
    }
    assert forall|k: int| 0 <= k < spare_after.len() implies #[trigger] linked(
        after,
        spare_after,
        k,
    ) by {
        if k > 0 {
            assert(linked(before, spare, k - 1));
            assert(spare[k - 1] != queue[0]);
            assert(spare_after[k] == spare[k - 1]);
        }
    }
    assert forall|k: int| 0 <= k < queue_after.len() implies after[#[trigger] queue_after[k] as int].elem
        == before[queue[k + 1] as int].elem by {
        assert(linked(before, queue, k + 1));
        assert(queue[k + 1] != queue[0]);
    }
    assert forall|k: int| 0 <= k < spare_after.len() implies after[#[trigger] spare_after[k] as int].elem is None by {
        if k > 0 {
            assert(linked(before, spare, k - 1));
            assert(spare[k - 1] != queue[0]);
            assert(spare_after[k] == spare[k - 1]);
        }
    }
    assert forall|i: usize| i < after.len() implies #[trigger] placed(
        queue_after,
        spare_after,
        i,
    ) by {
        if i == at {
            assert(spare_after[0] == at);
        } else {
            assert(placed(queue, spare, i));
            if queue.contains(i) {
                let k = choose|k: int| 0 <= k < queue.len() && queue[k] == i;
                assert(queue_after[k - 1] == i);
            } else {
                let k = choose|k: int| 0 <= k < spare.len() && spare[k] == i;
                assert(spare_after[k + 1] == i);
            }
        }
    }
    assert(spare_after.no_duplicates()) by {
        assert forall|i: int, j: int|
            0 <= i < spare_after.len() && 0 <= j < spare_after.len() && i != j implies spare_after[i]
            != spare_after[j] by {
            if i > 0 && j > 0 {
                assert(spare[i - 1] != spare[j - 1]);
            } else if i > 0 {
                assert(queue[0] != spare[i - 1]);
            } else {
                assert(queue[0] != spare[j - 1]);
            }
        }
    }
    assert(queue_after.no_duplicates()) by {
        assert forall|i: int, j: int|
            0 <= i < queue_after.len() && 0 <= j < queue_after.len() && i != j implies queue_after[i]
            != queue_after[j] by {
            assert(queue[i + 1] != queue[j + 1]);
        }
    }
    assert forall|i: int, j: int|
        0 <= i < queue_after.len() && 0 <= j < spare_after.len() implies queue_after[i]
        != spare_after[j] by {
        if j > 0 {
            assert(queue[i + 1] != spare[j - 1]);
        } else {
            assert(queue[i + 1] != queue[0]);
        }
    }
    assert(shaped(after, head_after, tail_after, Some(at), queue_after, spare_after));
    lemma_chain_unique(before, head, chain_from(before, head), queue);
    lemma_chain_unique(after, head_after, chain_from(after, head_after), queue_after);
    assert(elems_at(after, queue_after) =~= rest(elems_at(before, queue)));
}

} // verus!
