//! The model that the lists are specified against. A list stands for the
//! sequence of its elements, front element first. The functions here say
//! what one operation does to that sequence; the lemmas say what follows
//! for runs of operations.

use vstd::prelude::*;
use vstd::std_specs::cmp::PartialEqSpec;

verus! {

/// `s` with `elem` put in front of it.
pub open spec fn push_front<T>(s: Seq<T>, elem: T) -> Seq<T> {
    seq![elem] + s
}

/// `s` with `elem` put behind it.
pub open spec fn push_back<T>(s: Seq<T>, elem: T) -> Seq<T> {
    s.push(elem)
}

/// The front element of `s`, or `None` when `s` is empty.
pub open spec fn front<T>(s: Seq<T>) -> Option<T> {
    if s.len() > 0 {
        Some(s[0])
    } else {
        None
    }
}

/// `s` without its front element; an empty `s` stays as it is.
pub open spec fn rest<T>(s: Seq<T>) -> Seq<T> {
    if s.len() > 0 {
        s.drop_first()
    } else {
        s
    }
}

/// `s` after each element of `elems`, first to last, has been put in
/// front of it.
pub open spec fn push_front_all<T>(s: Seq<T>, elems: Seq<T>) -> Seq<T>
    decreases elems.len(),
{
    if elems.len() == 0 {
        s
    } else {
        push_front_all(push_front(s, elems[0]), elems.drop_first())
    }
}

/// `s` after each element of `elems`, first to last, has been put
/// behind it.
pub open spec fn push_back_all<T>(s: Seq<T>, elems: Seq<T>) -> Seq<T>
    decreases elems.len(),
{
    if elems.len() == 0 {
        s
    } else {
        push_back_all(push_back(s, elems[0]), elems.drop_first())
    }
}

/// What `n` removals at the front of `s` return, in the order in which
/// they return it.
pub open spec fn popped<T>(s: Seq<T>, n: nat) -> Seq<Option<T>>
    decreases n,
{
    if n == 0 {
        Seq::empty()
    } else {
        seq![front(s)] + popped(rest(s), (n - 1) as nat)
    }
}

/// What `n` removals at the front of `s` leave.
pub open spec fn rest_after<T>(s: Seq<T>, n: nat) -> Seq<T>
    decreases n,
{
    if n == 0 {
        s
    } else {
        rest_after(rest(s), (n - 1) as nat)
    }
}

/// Two sequences are equal element by element when they are equally long
/// and the elements at each position compare equal.
pub open spec fn elementwise_eq<T: PartialEq>(a: Seq<T>, b: Seq<T>) -> bool {
    &&& a.len() == b.len()
    &&& forall|k: int| 0 <= k < a.len() ==> (#[trigger] a[k]).eq_spec(&b[k])
}

/// Putting elements in front one by one stacks them in reverse order on
/// top of what was there.
pub proof fn lemma_push_front_all<T>(s: Seq<T>, elems: Seq<T>)
    ensures
        push_front_all(s, elems) == elems.reverse() + s,
    decreases elems.len(),
{
    if elems.len() == 0 {
        assert(elems.reverse() + s =~= s);
    } else {
        let tail = elems.drop_first();
        lemma_push_front_all(push_front(s, elems[0]), tail);
        assert(tail.reverse() + push_front(s, elems[0]) =~= elems.reverse() + s);
    }
}

/// Putting elements behind one by one lines them up, in their order,
/// behind what was there.
pub proof fn lemma_push_back_all<T>(s: Seq<T>, elems: Seq<T>)
    ensures
        push_back_all(s, elems) == s + elems,
    decreases elems.len(),
{
    if elems.len() == 0 {
        assert(s + elems =~= s);
    } else {
        let tail = elems.drop_first();
        lemma_push_back_all(push_back(s, elems[0]), tail);
        assert(push_back(s, elems[0]) + tail =~= s + elems);
    }
}

/// Removals at the front return the elements in their order, one each,
/// and `None` from then on.
pub proof fn lemma_popped<T>(s: Seq<T>, n: nat)
    ensures
        popped(s, n).len() == n,
        forall|k: int|
            0 <= k < n ==> #[trigger] popped(s, n)[k] == (if k < s.len() {
                Some(s[k])
            } else {
                None
            }),
    decreases n,
{
    if n > 0 {
        lemma_popped(rest(s), (n - 1) as nat);
        assert forall|k: int| 0 <= k < n implies #[trigger] popped(s, n)[k] == (if k < s.len() {
            Some(s[k])
        } else {
            None
        }) by {
            if k > 0 {
                assert(popped(s, n)[k] == popped(rest(s), (n - 1) as nat)[k - 1]);
            }
        }
    }
}

/// `n` removals at the front leave what stands behind the first `n`
/// elements, and nothing once `n` reaches the length.
pub proof fn lemma_rest_after<T>(s: Seq<T>, n: nat)
    ensures
        n <= s.len() ==> rest_after(s, n) == s.skip(n as int),
        n >= s.len() ==> rest_after(s, n) == Seq::<T>::empty(),
    decreases n,
{
    if n == 0 {
        assert(s.skip(0) =~= s);
        if s.len() == 0 {
            assert(s =~= Seq::<T>::empty());
        }
    } else {
        lemma_rest_after(rest(s), (n - 1) as nat);
        if n <= s.len() {
            assert(rest(s).skip(n - 1) =~= s.skip(n as int));
        }
    }
}

/// Last in, first out: after `elems` have been put in front of `s` one by
/// one, as many removals return them last to first and leave `s`.
pub proof fn lemma_lifo<T>(s: Seq<T>, elems: Seq<T>)
    ensures
        popped(push_front_all(s, elems), elems.len()) == elems.reverse().map_values(
            |e: T| Some(e),
        ),
        rest_after(push_front_all(s, elems), elems.len()) == s,
{
    let stacked = push_front_all(s, elems);
    lemma_push_front_all(s, elems);
    lemma_popped(stacked, elems.len());
    lemma_rest_after(stacked, elems.len());
    assert(popped(stacked, elems.len()) =~= elems.reverse().map_values(|e: T| Some(e)));
    assert(stacked.skip(elems.len() as int) =~= s);
}

/// First in, first out: after `elems` have been put behind `s` one by
/// one, removals return the elements of `s` and then `elems`, each in its
/// order, and leave nothing.
pub proof fn lemma_fifo<T>(s: Seq<T>, elems: Seq<T>)
    ensures
        popped(push_back_all(s, elems), s.len() + elems.len()) == (s + elems).map_values(
            |e: T| Some(e),
        ),
        rest_after(push_back_all(s, elems), s.len() + elems.len()) == Seq::<T>::empty(),
{
    let queued = push_back_all(s, elems);
    lemma_push_back_all(s, elems);
    lemma_popped(queued, s.len() + elems.len());
    lemma_rest_after(queued, s.len() + elems.len());
    assert(popped(queued, s.len() + elems.len()) =~= (s + elems).map_values(|e: T| Some(e)));
}

/// Once as many elements have been removed as there were, the list has no
/// front element, and an element put in front of it or behind it is its
/// only one.
pub proof fn lemma_drained<T>(s: Seq<T>, n: nat, elem: T)
    requires
        n >= s.len(),
    ensures
        rest_after(s, n) == Seq::<T>::empty(),
        front(rest_after(s, n)) is None,
        rest(rest_after(s, n)) == Seq::<T>::empty(),
        push_back(rest_after(s, n), elem) == seq![elem],
        push_front(rest_after(s, n), elem) == seq![elem],
{
    lemma_rest_after(s, n);
    assert(push_back(Seq::<T>::empty(), elem) =~= seq![elem]);
    assert(push_front(Seq::<T>::empty(), elem) =~= seq![elem]);
}

/// What has been put in front is the front element, and removing it
/// gives back the sequence as it was.
pub proof fn lemma_push_front_undone<T>(s: Seq<T>, elem: T)
    ensures
        front(push_front(s, elem)) == Some(elem),
        rest(push_front(s, elem)) == s,
{
    assert(push_front(s, elem).drop_first() =~= s);
}

/// A new value for the front element is what the front then holds, and
/// the elements behind it stay as they were.
pub proof fn lemma_front_replaced<T>(s: Seq<T>, elem: T)
    requires
        s.len() > 0,
    ensures
        front(s.update(0, elem)) == Some(elem),
        rest(s.update(0, elem)) == rest(s),
        s.update(0, elem) == push_front(rest(s), elem),
{
    assert(s.update(0, elem).drop_first() =~= s.drop_first());
    assert(s.update(0, elem) =~= push_front(s.drop_first(), elem));
}

/// Two sequences with an element in front are equal element by element
/// exactly when the front elements compare equal and what stands behind
/// them is equal element by element.
pub proof fn lemma_elementwise_eq_front<T: PartialEq>(s: Seq<T>, a: T, t: Seq<T>, b: T)
    ensures
        elementwise_eq(push_front(s, a), push_front(t, b)) == (a.eq_spec(&b) && elementwise_eq(
            s,
            t,
        )),
{
    let sa = push_front(s, a);
    let tb = push_front(t, b);
    if elementwise_eq(sa, tb) {
        assert(sa[0].eq_spec(&tb[0]));
        assert forall|k: int| 0 <= k < s.len() implies (#[trigger] s[k]).eq_spec(&t[k]) by {
            assert(sa[k + 1].eq_spec(&tb[k + 1]));
        }
    }
    if a.eq_spec(&b) && elementwise_eq(s, t) {
        assert forall|k: int| 0 <= k < sa.len() implies (#[trigger] sa[k]).eq_spec(&tb[k]) by {
            if k > 0 {
                assert(s[k - 1].eq_spec(&t[k - 1]));
            }
        }
    }
}

} // verus!
