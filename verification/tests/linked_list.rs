use cons_stack::linked_list::LinkedList;

#[test]
fn test_basic_list_api() {
    let mut list = LinkedList::new();

    // Check empty list behaves right
    assert_eq!(list.pop(), None);

    // Add some elements to the list
    list.cons(1);
    list.cons(2);
    list.cons(3);

    // Check removal
    assert_eq!(list.pop(), Some(3));
    assert_eq!(list.pop(), Some(2));
    let mut new_list = LinkedList::new();
    new_list.cons(1);
    assert_eq!(list, new_list);

    // Add more elements
    list.cons(4);
    list.cons(5);

    // Check removal
    assert_eq!(list.pop(), Some(5));
    assert_eq!(list.pop(), Some(4));

    // Check exhaustion
    assert_eq!(list.pop(), Some(1));
    assert_eq!(list.pop(), None);
    assert_eq!(list, LinkedList::new());
}

#[test]
fn test_peek() {
    let mut list = LinkedList::new();
    assert_eq!(list.peek(), None);
    assert_eq!(list.peek_mut(), None);

    // Add some elements
    list.cons(1);
    list.cons(2);
    list.cons(3);

    assert_eq!(list.peek(), Some(&3));
    assert_eq!(list.peek_mut(), Some(&mut 3));

    // Test mutability
    list.peek_mut().map(|value| {
        *value = 42;
    });

    assert_eq!(list.peek(), Some(&42));
    assert_eq!(list.pop(), Some(42));
}

#[test]
fn test_into_iter() {
    let mut list = LinkedList::new();
    list.cons(1);
    list.cons(2);
    list.cons(3);

    let mut iter = list.into_iter();
    assert_eq!(iter.next(), Some(3));
    assert_eq!(iter.next(), Some(2));
    assert_eq!(iter.next(), Some(1));
    assert_eq!(iter.next(), None);
}

#[test]
fn test_iter() {
    let mut list = LinkedList::new();
    list.cons(1);
    list.cons(2);
    list.cons(3);

    let mut iter = list.iter();
    assert_eq!(iter.next(), Some(&3));
    assert_eq!(iter.next(), Some(&2));
    assert_eq!(iter.next(), Some(&1));
}

#[test]
fn test_iter_mut() {
    let mut list = LinkedList::new();
    list.cons(1);
    list.cons(2);
    list.cons(3);

    let mut iter = list.iter_mut();
    assert_eq!(iter.next(), Some(&mut 3));
    assert_eq!(iter.next(), Some(&mut 2));
    assert_eq!(iter.next(), Some(&mut 1));
}

#[test]
fn test_iter_mut_writes_are_visible() {
    let mut list = LinkedList::new();
    list.cons(1);
    list.cons(2);
    list.cons(3);

    let mut iter = list.iter_mut();
    while let Some(value) = iter.next() {
        *value += 10;
    }

    assert_eq!(list.pop(), Some(13));
    assert_eq!(list.pop(), Some(12));
    assert_eq!(list.pop(), Some(11));
    assert_eq!(list.pop(), None);
}

#[test]
fn test_len() {
    let mut list = LinkedList::new();
    assert_eq!(list.len(), 0);

    list.cons(1);
    list.cons(2);
    list.cons(3);

    assert_eq!(list.len(), 3);
}

#[test]
fn test_len_counts_pops() {
    let mut list = LinkedList::new();
    list.cons(5);
    list.cons(6);
    assert_eq!(list.pop(), Some(6));
    list.cons(7);
    list.cons(8);
    list.cons(9);
    assert_eq!(list.pop(), Some(9));

    let expected = list.len();
    let mut pops = 0;
    while list.pop().is_some() {
        pops += 1;
    }
    assert_eq!(pops, expected);
    assert_eq!(list.len(), 0);
}

#[test]
fn test_reverse() {
    let mut list = LinkedList::new();
    list.cons(1);
    list.cons(2);
    list.cons(3);

    let mut reversed = list.reverse();
    assert_eq!(reversed.pop(), Some(1));
    assert_eq!(reversed.pop(), Some(2));
    assert_eq!(reversed.pop(), Some(3));
    assert_eq!(reversed.pop(), None);
}

#[test]
fn test_reverse_involution() {
    let mut list = LinkedList::new();
    let mut same = LinkedList::new();
    for v in [4, 8, 15, 16, 23, 42] {
        list.cons(v);
        same.cons(v);
    }
    assert_eq!(list.reverse().reverse(), same);

    let empty: LinkedList<i32> = LinkedList::new();
    assert_eq!(empty.reverse(), LinkedList::new());
}

#[test]
fn test_equality_matches_element_sequences() {
    let mut one = LinkedList::new();
    one.cons(1);
    let mut also_one = LinkedList::new();
    also_one.cons(1);
    let mut two = LinkedList::new();
    two.cons(2);
    let mut one_two = LinkedList::new();
    one_two.cons(1);
    one_two.cons(2);

    assert_eq!(one, also_one);
    assert_ne!(one, two);
    assert_ne!(one, one_two);
    assert_eq!(LinkedList::<i32>::new(), LinkedList::<i32>::new());
}

#[test]
fn test_from_vec_keeps_order() {
    let list = LinkedList::from_vec(vec![1, 2, 3]);
    let mut by_hand = LinkedList::new();
    by_hand.cons(3);
    by_hand.cons(2);
    by_hand.cons(1);
    assert_eq!(list, by_hand);

    let empty = LinkedList::<i32>::from_vec(vec![]);
    assert_eq!(empty, LinkedList::new());
}

#[test]
fn test_drop_large_list() {
    let mut list = LinkedList::new();
    for i in 0..100_000u64 {
        list.cons(i);
    }
    assert_eq!(list.peek(), Some(&99_999));
    drop(list);
}
