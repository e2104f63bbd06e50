use containers::singly_linked_list::Node;
use containers::singly_linked_list::SinglyLinkedList;

#[test]
fn singly_linked_list_new_node_test() {
    let node = Node::new(5);
    assert_eq!(node.value, 5);
    assert!(node.next.is_none());
}

#[test]
fn singly_linked_list_push_front_test() {
    let mut list = SinglyLinkedList::new();
    list.push_front(1);
    assert_eq!(list.peek(), Some(&1));
    list.push_front(2);
    assert_eq!(list.peek(), Some(&2));
    list.push_front(3);
    assert_eq!(list.peek(), Some(&3));
}

#[test]
fn singly_linked_list_pop_front_test() {
    let mut list = SinglyLinkedList::new();
    assert!(list.pop_front().is_none());
    list.push_front(1);
    list.push_front(2);
    list.push_front(3);
    assert_eq!(list.pop_front(), Some(3));
    assert_eq!(list.pop_front(), Some(2));
    assert_eq!(list.pop_front(), Some(1));
    assert!(list.pop_front().is_none());
}

#[test]
fn singly_linked_list_peek_test() {
    let mut list = SinglyLinkedList::new();
    assert!(list.peek().is_none());
    list.push_front(1);
    assert_eq!(list.peek(), Some(&1));
    list.push_front(2);
    assert_eq!(list.peek(), Some(&2));
    list.pop_front();
    assert_eq!(list.peek(), Some(&1));
    list.pop_front();
    assert!(list.peek().is_none());
}

#[test]
fn singly_linked_list_is_empty_test() {
    let mut list = SinglyLinkedList::new();
    assert!(list.is_empty());
    list.push_front(1);
    assert!(!list.is_empty());
    list.pop_front();
    assert!(list.is_empty());
}

#[test]
fn singly_linked_list_default_test() {
    let list: SinglyLinkedList<i32> = SinglyLinkedList::default();
    assert!(list.is_empty());
}

#[test]
fn singly_linked_list_round_trip_test() {
    let mut list = SinglyLinkedList::new();
    list.push_front(10);
    list.push_front(20);
    list.push_front(30);
    assert_eq!(list.pop_front(), Some(30));
    assert_eq!(list.peek(), Some(&20));
    assert_eq!(list.pop_front(), Some(20));
    assert_eq!(list.pop_front(), Some(10));
    assert!(list.is_empty());
}
