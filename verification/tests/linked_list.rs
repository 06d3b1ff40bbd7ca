use chained_hash_map::linked_list::LinkedList;

#[test]
fn linked_list_basic() {
    let mut list: LinkedList<i32> = LinkedList::new();
    assert_eq!(list.size(), 0);

    list.push(1);
    list.push(2);
    list.push(3);

    assert_eq!(list.size(), 3);

    let mut el = list.pop();

    assert_eq!(el, Some(3));
    assert_eq!(list.size(), 2);

    list.pop();
    list.pop();
    el = list.pop();

    assert_eq!(el, None);
    assert_eq!(list.size(), 0);

    list.push(66);
    let new_value = list.peek_mut().unwrap();
    *new_value = 55;

    assert_eq!(list.pop(), Some(55));
}

#[test]
fn peek_leaves_the_front_in_place() {
    let mut list: LinkedList<&str> = LinkedList::new();
    assert_eq!(list.peek(), None);
    list.push("a");
    list.push("b");
    assert_eq!(list.peek(), Some(&"b"));
    assert_eq!(list.peek(), Some(&"b"));
    assert_eq!(list.size(), 2);
}

#[test]
fn peek_mut_on_empty_list_is_none() {
    let mut list: LinkedList<u8> = LinkedList::new();
    assert!(list.peek_mut().is_none());
    assert_eq!(list.size(), 0);
}

#[test]
fn pop_on_empty_list_keeps_count_at_zero() {
    let mut list: LinkedList<u8> = LinkedList::new();
    assert_eq!(list.pop(), None);
    assert_eq!(list.pop(), None);
    assert_eq!(list.size(), 0);
    list.push(9);
    assert_eq!(list.size(), 1);
    assert_eq!(list.pop(), Some(9));
    assert_eq!(list.pop(), None);
    assert_eq!(list.size(), 0);
}

#[test]
fn iter_goes_from_front_to_back_and_restarts() {
    let mut list: LinkedList<i32> = LinkedList::new();
    list.push(1);
    list.push(2);
    list.push(3);

    let mut seen = Vec::new();
    let mut it = list.iter();
    while let Some(el) = it.next() {
        seen.push(*el);
    }
    assert_eq!(seen, vec![3, 2, 1]);
    assert_eq!(it.next(), None);

    let mut again = Vec::new();
    let mut it = list.iter();
    while let Some(el) = it.next() {
        again.push(*el);
    }
    assert_eq!(again, vec![3, 2, 1]);
    assert_eq!(list.size(), 3);
}

#[test]
fn iter_mut_changes_elements_in_place() {
    let mut list: LinkedList<i32> = LinkedList::new();
    list.push(1);
    list.push(2);
    list.push(3);

    let mut it = list.iter_mut();
    while let Some(el) = it.next() {
        *el *= 10;
    }

    assert_eq!(list.size(), 3);
    assert_eq!(list.pop(), Some(30));
    assert_eq!(list.pop(), Some(20));
    assert_eq!(list.pop(), Some(10));
    assert_eq!(list.pop(), None);
}

#[test]
fn iter_mut_given_up_early_keeps_the_rest() {
    let mut list: LinkedList<i32> = LinkedList::new();
    list.push(1);
    list.push(2);
    list.push(3);

    let mut it = list.iter_mut();
    if let Some(el) = it.next() {
        *el = 7;
    }

    assert_eq!(list.pop(), Some(7));
    assert_eq!(list.pop(), Some(2));
    assert_eq!(list.pop(), Some(1));
}

#[test]
fn into_iter_drains_front_to_back() {
    let mut list: LinkedList<String> = LinkedList::new();
    list.push("x".to_string());
    list.push("y".to_string());

    let mut it = list.into_iter();
    assert_eq!(it.next(), Some("y".to_string()));
    assert_eq!(it.next(), Some("x".to_string()));
    assert_eq!(it.next(), None);
    assert_eq!(it.next(), None);
}

#[test]
fn long_chain_is_released_without_deep_recursion() {
    let mut list: LinkedList<u64> = LinkedList::new();
    for i in 0..1_000_000u64 {
        list.push(i);
    }
    assert_eq!(list.size(), 1_000_000);
    drop(list);
}
