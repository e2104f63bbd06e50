use containers::doubly_linked_list::DoublyLinkedList;
use containers::doubly_linked_list::Node;

#[test]
fn doubly_linked_list_new_node_test() {
    let node = Node::new(5);
    assert_eq!(node.value, 5);
    assert!(node.prev.is_none());
    assert!(node.next.is_none());
}

#[test]
fn doubly_linked_list_push_front_test() {
    let mut list = DoublyLinkedList::new();
    list.push_front(1);
    assert_eq!(list.peek_front(), Some(&1));
    assert_eq!(list.peek_back(), Some(&1));
    list.push_front(2);
    assert_eq!(list.peek_front(), Some(&2));
    assert_eq!(list.peek_back(), Some(&1));
    list.push_front(3);
    assert_eq!(list.peek_front(), Some(&3));
    assert_eq!(list.peek_back(), Some(&1));
}

#[test]
fn doubly_linked_list_push_back_test() {
    let mut list = DoublyLinkedList::new();
    list.push_back(1);
    assert_eq!(list.peek_front(), Some(&1));
    assert_eq!(list.peek_back(), Some(&1));
    list.push_back(2);
    assert_eq!(list.peek_front(), Some(&1));
    assert_eq!(list.peek_back(), Some(&2));
    list.push_back(3);
    assert_eq!(list.peek_front(), Some(&1));
    assert_eq!(list.peek_back(), Some(&3));
}

#[test]
fn doubly_linked_list_pop_front_test() {
    let mut list = DoublyLinkedList::new();
    assert!(list.pop_front().is_none());
    list.push_front(1);
    list.push_front(2);
    list.push_front(3);
    assert_eq!(list.pop_front(), Some(3));
    assert_eq!(list.pop_front(), Some(2));
    assert_eq!(list.pop_front(), Some(1));
    assert!(list.pop_front().is_none());
}

#[test]
fn doubly_linked_list_pop_back_test() {
    let mut list = DoublyLinkedList::new();
    assert!(list.pop_back().is_none());
    list.push_back(1);
    list.push_back(2);
    list.push_back(3);
    assert_eq!(list.pop_back(), Some(3));
    assert_eq!(list.pop_back(), Some(2));
    assert_eq!(list.pop_back(), Some(1));
    assert!(list.pop_back().is_none());
}

#[test]
fn doubly_linked_list_peek_test() {
    let mut list = DoublyLinkedList::new();
    assert!(list.peek_front().is_none());
    assert!(list.peek_back().is_none());
    list.push_front(1);
    assert_eq!(list.peek_front(), Some(&1));
    assert_eq!(list.peek_back(), Some(&1));
    list.push_front(2);
    assert_eq!(list.peek_front(), Some(&2));
    assert_eq!(list.peek_back(), Some(&1));
    list.pop_front();
    assert_eq!(list.peek_front(), Some(&1));
    assert_eq!(list.peek_back(), Some(&1));
    list.pop_front();
    assert!(list.peek_front().is_none());
    assert!(list.peek_back().is_none());
}

#[test]
fn doubly_linked_list_is_empty_test() {
    let mut list = DoublyLinkedList::new();
    assert!(list.is_empty());
    list.push_front(1);
    assert!(!list.is_empty());
    list.pop_front();
    assert!(list.is_empty());
}

#[test]
fn doubly_linked_list_default_test() {
    let list: DoublyLinkedList<i32> = DoublyLinkedList::default();
    assert!(list.is_empty());
}

#[test]
fn doubly_linked_list_insert_ith_test() {
    let mut list = DoublyLinkedList::new();
    list.insert_ith(0, 1);
    assert_eq!(list.peek_front(), Some(&1));
    assert_eq!(list.peek_back(), Some(&1));
    list.insert_ith(0, 2);
    assert_eq!(list.peek_front(), Some(&2));
    assert_eq!(list.peek_back(), Some(&1));
    list.insert_ith(1, 3);
    assert_eq!(list.peek_front(), Some(&2));
    assert_eq!(list.peek_back(), Some(&1));
    assert_eq!(list.peek_ith(1), Some(&3));
    list.insert_ith(3, 4);
    assert_eq!(list.peek_back(), Some(&4));
    assert_eq!(list.peek_ith(3), Some(&4));
}

#[test]
fn doubly_linked_list_peek_ith_test() {
    let mut list = DoublyLinkedList::new();
    assert!(list.peek_ith(0).is_none());
    list.push_back(1);
    list.push_back(2);
    list.push_back(3);
    assert_eq!(list.peek_ith(0), Some(&1));
    assert_eq!(list.peek_ith(1), Some(&2));
    assert_eq!(list.peek_ith(2), Some(&3));
    assert!(list.peek_ith(3).is_none());
}

#[test]
fn doubly_linked_list_end_operations_test() {
    let mut list = DoublyLinkedList::new();
    list.push_back(1);
    list.push_back(2);
    list.push_back(3);
    assert_eq!(list.peek_front(), Some(&1));
    assert_eq!(list.peek_back(), Some(&3));
    assert_eq!(list.peek_ith(1), Some(&2));
    assert_eq!(list.pop_back(), Some(3));
    assert_eq!(list.peek_back(), Some(&2));
}

#[test]
fn doubly_linked_list_fifo_test() {
    let mut list = DoublyLinkedList::new();
    for v in [4, 8, 15, 16, 23, 42] {
        list.push_back(v);
    }
    for v in [4, 8, 15, 16, 23, 42] {
        assert_eq!(list.pop_front(), Some(v));
    }
    assert!(list.pop_front().is_none());
}

#[test]
fn doubly_linked_list_lifo_test() {
    let mut list = DoublyLinkedList::new();
    for v in [4, 8, 15, 16] {
        list.push_front(v);
    }
    for v in [16, 15, 8, 4] {
        assert_eq!(list.pop_front(), Some(v));
    }
    assert!(list.pop_front().is_none());
}

#[test]
fn doubly_linked_list_symmetric_peek_test() {
    let mut list = DoublyLinkedList::new();
    list.push_back(10);
    list.push_back(20);
    list.push_back(30);
    list.push_back(40);
    let len = 4;
    for i in 0..len {
        let from_front = list.peek_ith(i).copied();
        let mut mirror = DoublyLinkedList::new();
        mirror.push_front(10);
        mirror.push_front(20);
        mirror.push_front(30);
        mirror.push_front(40);
        let from_back = mirror.peek_ith(len - 1 - i).copied();
        assert_eq!(from_front, from_back);
    }
}

#[test]
fn doubly_linked_list_insert_past_end_test() {
    let mut list = DoublyLinkedList::new();
    list.push_back(1);
    list.insert_ith(7, 2);
    assert_eq!(list.peek_back(), Some(&2));
    assert_eq!(list.peek_ith(1), Some(&2));
    assert!(list.peek_ith(2).is_none());
}
