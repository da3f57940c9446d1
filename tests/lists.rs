use data_structures::deque::List;
use data_structures::doubly_linked_list::LinkedList;
use data_structures::singly_linked_list::LinkedList as StringList;
use data_structures::stack::List as Stack;

#[test]
fn deque_basics() {
    let mut list = List::new();

    assert_eq!(list.shift(), None);

    list.unshift(1);
    list.unshift(2);
    list.unshift(3);

    assert_eq!(list.shift(), Some(3));
    assert_eq!(list.shift(), Some(2));

    list.unshift(4);
    list.unshift(5);

    assert_eq!(list.shift(), Some(5));
    assert_eq!(list.shift(), Some(4));

    assert_eq!(list.shift(), Some(1));
    assert_eq!(list.shift(), None);

    assert_eq!(list.pop(), None);

    list.push(1);
    list.push(2);
    list.push(3);

    assert_eq!(list.pop(), Some(3));
    assert_eq!(list.pop(), Some(2));

    list.push(4);
    list.push(5);

    assert_eq!(list.pop(), Some(5));
    assert_eq!(list.pop(), Some(4));

    assert_eq!(list.pop(), Some(1));
    assert_eq!(list.pop(), None);
}

#[test]
fn peek() {
    let mut list = List::new();
    assert!(list.get_head().is_none());
    assert!(list.get_tail().is_none());
    assert!(list.get_head_mut().is_none());
    assert!(list.get_tail_mut().is_none());

    list.unshift(1);
    list.unshift(2);
    list.unshift(3);

    assert_eq!(&*list.get_head().unwrap(), &3);
    assert_eq!(&mut *list.get_head_mut().unwrap(), &mut 3);
    assert_eq!(&*list.get_tail().unwrap(), &1);
    assert_eq!(&mut *list.get_tail_mut().unwrap(), &mut 1);
}

#[test]
fn peek_mut_changes_in_place() {
    let mut list = List::new();
    list.push(1);
    list.push(2);
    *list.get_head_mut().unwrap() = 10;
    *list.get_tail_mut().unwrap() = 20;
    assert_eq!(list.shift(), Some(10));
    assert_eq!(list.shift(), Some(20));
}

#[test]
fn into_iter() {
    let mut list = List::new();
    list.unshift(1);
    list.unshift(2);
    list.unshift(3);

    let mut iter = list.into_iter();
    assert_eq!(iter.next(), Some(3));
    assert_eq!(iter.next_back(), Some(1));
    assert_eq!(iter.next(), Some(2));
    assert_eq!(iter.next_back(), None);
    assert_eq!(iter.next(), None);
}

#[test]
fn test_doubly_linked_list() {
    let mut list: LinkedList<i32> = LinkedList::new();
    assert_eq!(list.pop_front(), None);
    list.push_front(1);
    list.push_front(2);
    list.push_front(3);
    assert_eq!(list.length, 3);
    assert_eq!(list.pop_front(), Some(3));
    assert_eq!(list.pop_back(), Some(1));
    assert_eq!(list.pop_back(), Some(2));
    assert_eq!(list.length, 0);
    list.push_back(4);
    list.push_back(5);
    assert_eq!(list.length, 2);
    assert_eq!(list.pop_front(), Some(4));
    assert_eq!(list.pop_back(), Some(5));
    assert_eq!(list.length, 0);
    assert_eq!(list.pop_front(), None)
}

#[test]
fn stack_basics() {
    let mut list = Stack::new();

    assert_eq!(list.pop(), None);

    list.push(1);
    list.push(2);
    list.push(3);

    assert_eq!(list.pop(), Some(3));
    assert_eq!(list.pop(), Some(2));

    list.push(4);
    list.push(5);

    assert_eq!(list.pop(), Some(5));
    assert_eq!(list.pop(), Some(4));

    assert_eq!(list.pop(), Some(1));
    assert_eq!(list.pop(), None)
}

#[test]
fn string_list_is_first_in_first_out() {
    let mut list = StringList::new();
    assert_eq!(list.pop(), None);
    list.append(String::from("a"));
    list.append(String::from("b"));
    assert_eq!(list.length, 2);
    assert_eq!(list.pop(), Some(String::from("a")));
    assert_eq!(list.length, 1);
    assert_eq!(list.pop(), Some(String::from("b")));
    assert_eq!(list.pop(), None);
    assert_eq!(list.length, 0);
}
