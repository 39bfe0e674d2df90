use linked_lists::second::List;

/// The list that holds `elems`, front element first.
fn list_of(elems: &[i32]) -> List<i32> {
    let mut list = List::new();
    for &elem in elems.iter().rev() {
        list.push(elem);
    }
    list
}

#[test]
fn second_push_back_works() {
    let mut list = List::new();

    assert_eq!(list, list_of(&[]));

    list.push_back(69);

    assert_eq!(list, list_of(&[69]));

    list.push_back(13);

    assert_eq!(list, list_of(&[69, 13]));
}

#[test]
fn second_basics() {
    let mut list = List::new();

    // Check empty list behaves right
    assert_eq!(list.pop(), None);

    // Populate list
    list.push(1);
    list.push(2);
    list.push(3);

    // Check normal removal
    assert_eq!(list.pop(), Some(3));
    assert_eq!(list.pop(), Some(2));

    // Push some more just to make sure nothing's corrupted
    list.push(4);
    list.push(5);

    // Check normal removal
    assert_eq!(list.pop(), Some(5));
    assert_eq!(list.pop(), Some(4));

    // Check exhaustion
    assert_eq!(list.pop(), Some(1));
    assert_eq!(list.pop(), None);
}

#[test]
fn second_break_the_stack() {
    {
        let mut list = List::new();

        for i in 1..100000 {
            list.push(i);
        }
        println!("Leaving, call dtor");
    }

    println!("Still alive!");
}

#[test]
fn peek() {
    let mut list = List::new();
    assert_eq!(list.peek(), None);
    assert_eq!(list.peek_mut(), None);
    list.push(1);
    list.push(2);
    list.push(3);

    assert_eq!(list.peek(), Some(&3));
    assert_eq!(list.peek_mut(), Some(&mut 3));

    list.peek_mut().map(|value| *value = 42);

    assert_eq!(list.peek(), Some(&42));
    assert_eq!(list.pop(), Some(42));
}

#[test]
fn into_iter() {
    let mut list = List::new();
    list.push(1);
    list.push(2);
    list.push(3);

    let mut expected = 3;
    while let Some(el) = list.next() {
        assert_eq!(el, expected);

        expected -= 1;
    }
    assert_eq!(expected, 0);
    assert_eq!(list.peek(), None);
}

#[test]
fn iter() {
    let mut list = List::new();
    list.push(1);
    list.push(2);
    list.push(3);

    {
        let mut iter = list.iter();
        assert_eq!(iter.next(), Some(&3));
        assert_eq!(iter.next(), Some(&2));
        assert_eq!(iter.next(), Some(&1));
    }

    // Collection is not moved, nor altered
    assert_eq!(list.peek(), Some(&3));
}

#[test]
fn second_iter_ends_and_starts_over() {
    let list = list_of(&[3, 2, 1]);
    let mut first = list.iter();
    assert_eq!(first.next(), Some(&3));
    assert_eq!(first.next(), Some(&2));
    assert_eq!(first.next(), Some(&1));
    assert_eq!(first.next(), None);
    assert_eq!(first.next(), None);

    let mut second = list.iter();
    assert_eq!(second.next(), Some(&3));
    assert_eq!(list, list_of(&[3, 2, 1]));
}

#[test]
fn second_iter_of_empty_list_yields_nothing() {
    let list: List<i32> = List::new();
    let mut iter = list.iter();
    assert_eq!(iter.next(), None);
}

#[test]
fn second_iter_mut_changes_are_kept() {
    let mut list = list_of(&[3, 2, 1]);
    {
        let mut iter = list.iter_mut();
        let a = iter.next().unwrap();
        let b = iter.next().unwrap();
        // Both borrows are alive at once.
        *b = 20;
        *a = 30;
        let c = iter.next().unwrap();
        assert_eq!(*c, 1);
        *c += 9;
        assert_eq!(iter.next(), None);
        assert_eq!(iter.next(), None);
    }
    assert_eq!(list, list_of(&[30, 20, 10]));
}

#[test]
fn second_iter_mut_left_midway_keeps_the_rest() {
    let mut list = list_of(&[3, 2, 1]);
    {
        let mut iter = list.iter_mut();
        if let Some(front) = iter.next() {
            *front = 33;
        }
    }
    assert_eq!(list, list_of(&[33, 2, 1]));
}

#[test]
fn second_peek_mut_change_shows_in_peek_and_pop() {
    let mut list = list_of(&[3, 2, 1]);
    if let Some(front) = list.peek_mut() {
        *front += 4;
    }
    assert_eq!(list, list_of(&[7, 2, 1]));
    assert_eq!(list.peek(), Some(&7));
    assert_eq!(list.pop(), Some(7));
    assert_eq!(list.peek(), Some(&2));
}

#[test]
fn second_pops_come_last_in_first_out() {
    let mut list = List::new();
    for elem in 1..=50 {
        list.push(elem);
    }
    for elem in (1..=50).rev() {
        assert_eq!(list.pop(), Some(elem));
    }
    assert_eq!(list.pop(), None);
    assert_eq!(list.peek(), None);
}

#[test]
fn second_push_back_then_pop_is_first_in_first_out() {
    let mut list = List::new();
    for elem in 1..=50 {
        list.push_back(elem);
    }
    for elem in 1..=50 {
        assert_eq!(list.pop(), Some(elem));
    }
    assert_eq!(list.pop(), None);
}

#[test]
fn second_drained_list_takes_a_sole_element() {
    let mut list = list_of(&[1, 2, 3]);
    while list.pop().is_some() {}
    assert_eq!(list.peek(), None);
    assert_eq!(list.peek_mut(), None);
    list.push_back(7);
    assert_eq!(list, list_of(&[7]));
    assert_eq!(list.pop(), Some(7));
    assert_eq!(list.pop(), None);
}

#[test]
fn second_holds_elements_that_are_not_copied() {
    let mut list = List::new();
    list.push(String::from("b"));
    list.push(String::from("a"));
    list.push_back(String::from("c"));
    assert_eq!(list.peek().map(|s| s.as_str()), Some("a"));
    assert_eq!(list.pop(), Some(String::from("a")));
    assert_eq!(list.pop(), Some(String::from("b")));
    assert_eq!(list.pop(), Some(String::from("c")));
    assert_eq!(list.pop(), None);
}

#[test]
fn second_equality_goes_by_elements_and_order() {
    assert_eq!(list_of(&[]), list_of(&[]));
    assert_eq!(list_of(&[1, 2, 3]), list_of(&[1, 2, 3]));
    assert_ne!(list_of(&[1, 2, 3]), list_of(&[3, 2, 1]));
    assert_ne!(list_of(&[1, 2, 3]), list_of(&[1, 2]));
    assert_ne!(list_of(&[1, 2]), list_of(&[1, 2, 3]));
    assert_ne!(list_of(&[1]), list_of(&[]));
    assert_ne!(list_of(&[1, 2, 3]), list_of(&[1, 2, 4]));
}

#[test]
fn second_equality_of_long_lists() {
    let mut a = List::new();
    let mut b = List::new();
    for i in 0..100000 {
        a.push(i);
        b.push(i);
    }
    assert!(a == b);
    b.push_back(-1);
    assert!(a != b);
}

#[test]
fn second_debug_shows_the_elements() {
    let shown = format!("{:?}", list_of(&[69, 13]));
    assert!(shown.contains("69"));
    assert!(shown.contains("13"));
}
