use hashmap::linked_list::{LinkedList, Queue, Stack};
use hashmap::vec_deque::VecDeque2;
use hashmap::vector::Vec2;

#[test]
fn vec_it_works() {
    let mut v = Vec2::new();
    assert!(v.is_empty());
    v.push(2);
    assert_eq!(v.len(), 1);
    v.push(3);
    assert_eq!(v.len(), 2);
    v.push(4);
    assert_eq!(v.len(), 3);
    assert_eq!(v.as_slice(), &[2, 3, 4]);

    assert_eq!(v.pop(), Some(4));
    assert_eq!(v.len(), 2);
    assert_eq!(v.pop(), Some(3));
    assert_eq!(v.len(), 1);
    v.insert(1, 5).unwrap();
    assert_eq!(v.len(), 2);
    v.insert(1, 6).unwrap();
    assert_eq!(v.len(), 3);
    assert_eq!(v.as_slice(), &[2, 6, 5]);

    assert_eq!(v.remove(1), Some(6));
    assert_eq!(v.len(), 2);
}

#[test]
fn vec_get() {
    let mut v = Vec2::new();
    v.push(2);
    v.push(3);
    v.push(4);

    assert_eq!(v.get(0), Some(&2));
    assert_eq!(v.get(1), Some(&3));
    assert_eq!(v.get(2), Some(&4));
    assert_eq!(v.get(3), None);
}

#[test]
fn vec_remove() {
    let mut v = Vec2::new();
    assert_eq!(v.remove(0), None);

    v.push(2);
    v.push(3);
    v.push(4);
    v.push(5);
    v.push(6);
    v.push(7);

    assert_eq!(v.remove(0), Some(2));
    assert_eq!(v.remove(v.len()), None);
    assert_eq!(v.remove(v.len() - 1), Some(7));
    assert_eq!(v.remove(1), Some(4));
}

#[test]
fn vec_insert() {
    let mut v = Vec2::new();
    assert_eq!(v.insert(1, 1), Err(1));
    v.insert(0, 1).unwrap();
    v.insert(1, 2).unwrap();
    v.insert(1, 3).unwrap();
    assert_eq!(v.as_slice(), &[1, 3, 2])
}

#[test]
fn vec_pop() {
    let mut v = Vec2::new();
    assert_eq!(v.pop(), None);
    v.push(2);
    v.push(3);
    assert_eq!(v.pop(), Some(3));
    assert_eq!(v.pop(), Some(2));
    assert_eq!(v.pop(), None);
}

#[test]
fn vec_deque_get() {
    let mut v = VecDeque2::new();
    v.push_back(2);
    v.push_front(3);
    v.push_back(4);
    v.push_front(5);
    v.push_front(6);
    v.push_front(7);
    v.push_back(8);

    assert_eq!(v.get(0), Some(&7));
    assert_eq!(v.get(1), Some(&6));
    assert_eq!(v.get(2), Some(&5));
    assert_eq!(v.get(3), Some(&3));
    assert_eq!(v.get(4), Some(&2));
    assert_eq!(v.get(5), Some(&4));
    assert_eq!(v.get(6), Some(&8));
    assert_eq!(v.get(7), None);
}

#[test]
fn vec_deque_pop() {
    let mut v = VecDeque2::with_capacity(4);
    v.push_back(2);
    v.push_front(3);
    assert_eq!(v.pop_back(), Some(2));
    assert_eq!(v.pop_back(), Some(3));
    assert_eq!(v.pop_back(), None);
    v.push_back(2);
    v.push_front(3);
    v.push_back(4);
    assert_eq!(v.pop_front(), Some(3));
    assert_eq!(v.len(), 2);
    assert!(!v.is_empty());
}

#[test]
fn queue_it_works() {
    let mut q = Queue::new();
    q.push(5);
    q.push(6);
    assert_eq!(q.peek(), Some(&5));
    assert_eq!(q.pop(), Some(5));
    q.push(7);
    assert_eq!(q.pop(), Some(6));
    assert_eq!(q.pop(), Some(7));
    assert_eq!(q.pop(), None);
}

#[test]
fn stack_it_works() {
    let mut s = Stack::new();
    s.push(5);
    s.push(6);
    assert_eq!(s.peek(), Some(&6));
    assert_eq!(s.pop(), Some(6));
    assert_eq!(s.pop(), Some(5));
    assert_eq!(s.pop(), None);
}

#[test]
fn linked_list_ends() {
    let mut l = LinkedList::new();
    l.push_back(1);
    l.push_front(0);
    l.push_back(2);
    assert_eq!(l.len(), 3);
    assert_eq!(l.front(), Some(&0));
    assert_eq!(l.back(), Some(&2));
    assert_eq!(l.pop_front(), Some(0));
    assert_eq!(l.pop_back(), Some(2));
    assert_eq!(l.pop_back(), Some(1));
    assert_eq!(l.pop_front(), None);
}
