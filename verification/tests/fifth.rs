use linked_lists::fifth::List;

/// The list that holds `elems`, front element first.
fn list_of(elems: &[i32]) -> List<i32> {
    let mut list = List::new();
    for &elem in elems {
        list.push(elem);
    }
    list
}

#[test]
fn fifth_basics() {
    let mut list = List::new();

    // Populate list
    list.push(1);
    list.push(2);
}

#[test]
fn fifth_pops_come_first_in_first_out() {
    let mut list = List::new();

    // Check empty list behaves right
    assert_eq!(list.pop(), None);

    // Populate list
    list.push(1);
    list.push(2);
    list.push(3);

    // Check normal removal
    assert_eq!(list.pop(), Some(1));
    assert_eq!(list.pop(), Some(2));

    // Push some more just to make sure nothing's corrupted
    list.push(4);
    list.push(5);

    // Check normal removal
    assert_eq!(list.pop(), Some(3));
    assert_eq!(list.pop(), Some(4));

    // Check exhaustion
    assert_eq!(list.pop(), Some(5));
    assert_eq!(list.pop(), None);
}

#[test]
fn fifth_drained_list_takes_a_sole_element() {
    let mut list = list_of(&[1, 2, 3]);
    while list.pop().is_some() {}
    assert_eq!(list.pop(), None);
    list.push(7);
    assert_eq!(list, list_of(&[7]));
    list.push(8);
    assert_eq!(list.pop(), Some(7));
    assert_eq!(list.pop(), Some(8));
    assert_eq!(list.pop(), None);
    list.push(9);
    assert_eq!(list.pop(), Some(9));
    assert_eq!(list.pop(), None);
}

#[test]
fn fifth_many_elements_keep_their_order() {
    let mut list = List::new();
    for elem in 0..1000 {
        list.push(elem);
    }
    for elem in 0..1000 {
        assert_eq!(list.pop(), Some(elem));
    }
    assert_eq!(list.pop(), None);
}

#[test]
fn fifth_emptied_slots_are_used_again() {
    let mut list = List::new();
    let mut next_in = 0;
    let mut next_out = 0;
    // Pushes and pops in uneven turns, so that the chain of the empty slots
    // grows, shrinks and runs out again and again.
    for round in 0..200 {
        for _ in 0..(round % 7) + 1 {
            list.push(next_in);
            next_in += 1;
        }
        for _ in 0..(round % 5) + 1 {
            if next_out < next_in {
                assert_eq!(list.pop(), Some(next_out));
                next_out += 1;
            } else {
                assert_eq!(list.pop(), None);
            }
        }
    }
    while next_out < next_in {
        assert_eq!(list.pop(), Some(next_out));
        next_out += 1;
    }
    assert_eq!(list.pop(), None);
}

#[test]
fn fifth_holds_elements_that_are_not_copied() {
    let mut list = List::new();
    list.push(String::from("a"));
    list.push(String::from("b"));
    assert_eq!(list.pop(), Some(String::from("a")));
    list.push(String::from("c"));
    assert_eq!(list.pop(), Some(String::from("b")));
    assert_eq!(list.pop(), Some(String::from("c")));
    assert_eq!(list.pop(), None);
}

#[test]
fn fifth_equality_goes_by_elements_and_order() {
    assert_eq!(list_of(&[]), list_of(&[]));
    assert_eq!(list_of(&[1, 2, 3]), list_of(&[1, 2, 3]));
    assert_ne!(list_of(&[1, 2, 3]), list_of(&[3, 2, 1]));
    assert_ne!(list_of(&[1, 2, 3]), list_of(&[1, 2]));
    assert_ne!(list_of(&[1, 2]), list_of(&[1, 2, 3]));
    assert_ne!(list_of(&[1]), list_of(&[]));
    assert_ne!(list_of(&[1, 2, 3]), list_of(&[1, 2, 4]));
}

#[test]
fn fifth_equality_looks_past_the_slots() {
    // The same elements, reached through different histories.
    let mut a = list_of(&[9, 9, 1, 2]);
    assert_eq!(a.pop(), Some(9));
    assert_eq!(a.pop(), Some(9));
    a.push(3);
    a.push(4);
    let b = list_of(&[1, 2, 3, 4]);
    assert_eq!(a, b);
    assert_eq!(b, a);
    a.push(5);
    assert_ne!(a, b);
}

#[test]
fn fifth_debug_shows_the_elements() {
    let shown = format!("{:?}", list_of(&[69, 13]));
    assert!(shown.contains("69"));
    assert!(shown.contains("13"));
}

#[test]
fn fifth_long_list_is_torn_down() {
    {
        let mut list = List::new();
        for i in 1..100000 {
            list.push(i);
        }
    }
    println!("Still alive!");
}
