use lru_dll::dll::DLL;
use lru_dll::veclist::{NodePointer, VectorLinkedList};

#[test]
fn it_works() {
    let mut l = VectorLinkedList::new(3);
    assert_eq!(l.size(), 0);
    let first = l.push_back(100);
    assert_eq!(l.size(), 1);
    let second = l.push_back(-1);
    assert_eq!(l.size(), 2);
    let third = l.push_back(20);
    assert_eq!(l.size(), 3);
    let last = l.push_back(1337);
    assert_eq!(l.size(), 3);

    // Can be got, with a pointer
    assert_eq!(l.get(first.unwrap()), Some(100));
    assert_eq!(l.get(second.unwrap()), Some(-1));
    assert_eq!(l.get(third.unwrap()), Some(20));
    assert_eq!(last, None);

    //Can remove
    assert_eq!(l.peek_front(), Some(100));
    assert_eq!(l.pop_front(), Some(100));

    assert_eq!(l.size(), 2);

    assert_eq!(l.peek_front(), Some(-1));
    assert_eq!(l.pop_front(), Some(-1));

    assert_eq!(l.size(), 1);

    assert_eq!(l.peek_front(), Some(20));
    assert_eq!(l.pop_front(), Some(20));

    assert_eq!(l.size(), 0);

    assert_eq!(l.peek_front(), None);
    assert_eq!(l.pop_front(), None);

    assert_eq!(l.size(), 0);

    l.push_back(10);
    assert_eq!(l.peek_front(), Some(10));
    assert_eq!(l.pop_front(), Some(10));
    assert_eq!(l.pop_front(), None);

    // Can re-arrange
    l.push_back(1);
    let ptr = l.push_back(3).unwrap();
    l.push_back(2);
    l.move_back(ptr);

    assert_eq!(l.pop_front(), Some(1));
    assert_eq!(l.pop_front(), Some(2));
    assert_eq!(l.pop_front(), Some(3));

    // Can replace value at a pointer.
    let ptr = l.push_back(10);
    assert_eq!(l.peek_front(), Some(10));
    l.replace_val(ptr.unwrap(), 40);
    assert_eq!(l.peek_front(), Some(40));
    l.replace_val(ptr.unwrap(), 100);
    assert_eq!(l.pop_front(), Some(100));
}

#[test]
fn bounded_capacity_is_reported() {
    let l: VectorLinkedList<u8> = VectorLinkedList::new(5);
    assert_eq!(l.capacity(), 5);
    assert_eq!(l.size(), 0);
}

#[test]
fn bounded_zero_capacity_refuses_every_push() {
    let mut l: VectorLinkedList<u8> = VectorLinkedList::new(0);
    assert_eq!(l.push_back(1), None);
    assert_eq!(l.size(), 0);
    assert_eq!(l.pop_front(), None);
}

#[test]
fn bounded_full_push_changes_nothing() {
    let mut l = VectorLinkedList::new(2);
    let a = l.push_back(7).unwrap();
    l.push_back(8).unwrap();
    assert_eq!(l.push_back(9), None);
    assert_eq!(l.size(), 2);
    assert_eq!(l.get(a), Some(7));
    assert_eq!(l.pop_front(), Some(7));
    assert_eq!(l.pop_front(), Some(8));
    assert_eq!(l.pop_front(), None);
}

#[test]
fn bounded_freed_slot_is_reused_after_full() {
    let mut l = VectorLinkedList::new(2);
    let a = l.push_back(1).unwrap();
    l.push_back(2).unwrap();
    assert_eq!(l.pop_front(), Some(1));
    let c = l.push_back(3).unwrap();
    // The freed slot is handed out again.
    assert_eq!(c, a);
    assert_eq!(l.get(c), Some(3));
    assert_eq!(l.pop_front(), Some(2));
    assert_eq!(l.pop_front(), Some(3));
}

#[test]
fn bounded_move_back_keeps_handle() {
    let mut l = VectorLinkedList::new(4);
    let a = l.push_back(1).unwrap();
    l.push_back(2).unwrap();
    l.push_back(3).unwrap();
    assert_eq!(l.move_back(a), Some(a));
    assert_eq!(l.get(a), Some(1));
    assert_eq!(l.pop_front(), Some(2));
    assert_eq!(l.pop_front(), Some(3));
    assert_eq!(l.pop_front(), Some(1));
}

#[test]
fn bounded_sentinel_handles_hold_no_value() {
    let mut l = VectorLinkedList::new(2);
    l.push_back(5).unwrap();
    assert_eq!(l.get(NodePointer::Head), None);
    assert_eq!(l.get(NodePointer::Tail), None);
    assert_eq!(l.get(NodePointer::Body(9)), None);
    assert_eq!(l.replace_val(NodePointer::Tail, 6), None);
    assert_eq!(l.peek_front(), Some(5));
}
