use containers::heap::Heap;
use containers::heap::MaxComparator;
use containers::heap::MinComparator;
use containers::heap::ShorterComparator;

#[test]
fn test_min_heap() {
    let mut heap = Heap::new(MinComparator {});
    heap.push(5);
    heap.push(3);
    heap.push(8);
    heap.push(1);
    assert_eq!(heap.peek(), Some(&1));
    assert_eq!(heap.pop(), Some(1));
    assert_eq!(heap.pop(), Some(3));
    assert_eq!(heap.pop(), Some(5));
    assert_eq!(heap.pop(), Some(8));
    assert_eq!(heap.pop(), None);
}

#[test]
fn test_max_heap() {
    let mut heap = Heap::new(MaxComparator {});
    heap.push(3);
    heap.push(8);
    heap.push(1);
    heap.push(5);
    assert_eq!(heap.peek(), Some(&8));
    assert_eq!(heap.pop(), Some(8));
    assert_eq!(heap.pop(), Some(5));
    assert_eq!(heap.pop(), Some(3));
    assert_eq!(heap.pop(), Some(1));
    assert_eq!(heap.pop(), None);
}

#[test]
fn test_strings() {
    let mut heap = Heap::new(ShorterComparator {});
    heap.push("apple".to_string());
    heap.push("banana".to_string());
    heap.push("kiwi".to_string());
    assert_eq!(heap.peek(), Some(&"kiwi".to_string()));
    assert_eq!(heap.pop(), Some("kiwi".to_string()));
}

#[test]
fn test_empty_pop() {
    let mut heap: Heap<i32, MinComparator> = Heap::new(MinComparator {});
    assert_eq!(heap.pop(), None);
    assert_eq!(heap.peek(), None);
    heap.push(10);
    assert_eq!(heap.pop(), Some(10));
    assert_eq!(heap.pop(), None);
}

#[test]
fn test_default_heap_is_min_heap() {
    let mut heap: Heap<i32, MinComparator> = Default::default();
    assert_eq!(heap.pop(), None);
    heap.push(7);
    heap.push(-2);
    heap.push(4);
    assert_eq!(heap.peek(), Some(&-2));
    assert_eq!(heap.pop(), Some(-2));
    assert_eq!(heap.pop(), Some(4));
    assert_eq!(heap.pop(), Some(7));
    assert_eq!(heap.pop(), None);
}

#[test]
fn test_heap_with_equal_keys() {
    let mut heap = Heap::new(MinComparator {});
    heap.push(3);
    heap.push(1);
    heap.push(3);
    heap.push(1);
    assert_eq!(heap.pop(), Some(1));
    assert_eq!(heap.pop(), Some(1));
    assert_eq!(heap.pop(), Some(3));
    assert_eq!(heap.pop(), Some(3));
    assert_eq!(heap.pop(), None);
}

#[test]
fn test_peek_agrees_with_pop() {
    let mut heap = Heap::new(MinComparator {});
    heap.push(9);
    heap.push(2);
    heap.push(6);
    while let Some(&expected) = heap.peek() {
        assert_eq!(heap.pop(), Some(expected));
    }
    assert_eq!(heap.pop(), None);
}
