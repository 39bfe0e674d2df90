use linked_lists::third::List;
use std::rc::Rc;

#[test]
fn third_basics() {
    let list = List::new();
    assert_eq!(list.head(), None);

    let list = list.prepend(1).prepend(2).prepend(3);
    assert_eq!(list.head(), Some(&3));

    let list = list.tail();
    assert_eq!(list.head(), Some(&2));

    let list = list.tail();
    assert_eq!(list.head(), Some(&1));

    let list = list.tail();
    assert_eq!(list.head(), None);

    // Make sure empty tail works
    let list = list.tail();
    assert_eq!(list.head(), None);
}

#[test]
fn third_break_the_stack() {
    {
        let mut list = List::new();

        for i in 1..100000 {
            list = list.prepend(i);
        }
        println!("Leaving, call dtor");
    }

    println!("Still alive!");
}

#[test]
fn third_lists_share_and_stay_apart() {
    let a = List::new().prepend(1).prepend(2).prepend(3);
    assert_eq!(a.head(), Some(&3));
    let b = a.tail();
    assert_eq!(b.head(), Some(&2));
    let c = b.tail();
    assert_eq!(c.head(), Some(&1));
    assert_eq!(c.tail().head(), None);
    assert_eq!(c.tail().tail().head(), None);

    // Building on `b` leaves `a` and `b` as they were.
    let d = b.prepend(7);
    assert_eq!(d, List::new().prepend(1).prepend(2).prepend(7));
    assert_eq!(a, List::new().prepend(1).prepend(2).prepend(3));
    assert_eq!(b, List::new().prepend(1).prepend(2));
    assert_eq!(d.tail(), b);
}

#[test]
fn third_prepend_then_tail_gives_the_list_back() {
    let list = List::new().prepend(1).prepend(2);
    let longer = list.prepend(9);
    assert_eq!(longer.head(), Some(&9));
    assert_eq!(longer.tail(), list);
}

#[test]
fn third_dropping_a_list_keeps_the_nodes_that_others_hold() {
    let marker = Rc::new(());
    let a = List::new().prepend(Rc::clone(&marker)).prepend(Rc::clone(&marker));
    assert_eq!(Rc::strong_count(&marker), 3);
    let b = a.tail();
    // The tail shares the node: no element was copied.
    assert_eq!(Rc::strong_count(&marker), 3);
    drop(a);
    // The first node went; the second is still held by `b`.
    assert_eq!(Rc::strong_count(&marker), 2);
    assert!(b.head().is_some());
    drop(b);
    assert_eq!(Rc::strong_count(&marker), 1);
}

#[test]
fn third_dropping_the_longer_list_first_or_last_releases_all() {
    let marker = Rc::new(());
    let short = List::new().prepend(Rc::clone(&marker));
    let long = short.prepend(Rc::clone(&marker)).prepend(Rc::clone(&marker));
    assert_eq!(Rc::strong_count(&marker), 4);
    drop(short);
    assert_eq!(Rc::strong_count(&marker), 4);
    drop(long);
    assert_eq!(Rc::strong_count(&marker), 1);
}

#[test]
fn third_shared_long_suffix_is_torn_down() {
    let mut list = List::new();
    for i in 1..100000 {
        list = list.prepend(i);
    }
    let left = list.prepend(-1);
    let right = list.prepend(-2);
    drop(list);
    drop(left);
    assert_eq!(right.head(), Some(&-2));
    assert_eq!(right.tail().head(), Some(&99999));
    drop(right);
    println!("Still alive!");
}

#[test]
fn third_equality_goes_by_elements_and_order() {
    let empty: List<i32> = List::new();
    assert_eq!(empty, List::new());
    let a = List::new().prepend(1).prepend(2);
    assert_eq!(a, List::new().prepend(1).prepend(2));
    assert_ne!(a, List::new().prepend(2).prepend(1));
    assert_ne!(a, List::new().prepend(2));
    assert_ne!(a, a.prepend(3));
    assert_ne!(a, empty);
}

#[test]
fn third_debug_shows_the_elements() {
    let shown = format!("{:?}", List::new().prepend(13).prepend(69));
    assert!(shown.contains("69"));
    assert!(shown.contains("13"));
}
