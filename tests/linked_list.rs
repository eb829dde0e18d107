use lru_dll::linked_list::cellist::CellLinkedList;
use lru_dll::linked_list::veclist::{NodePointer, VectorLinkedList};
use lru_dll::linked_list::DLL;

/// The conformance routine every backend must pass; it leaves the list
/// holding 100, 200, 300, 400 from front to back.
fn conformance<L: DLL<i32>>(l: &mut L) {
    assert_eq!(l.size(), 0);
    let first = l.push_back(100);
    assert_eq!(l.size(), 1);
    let second = l.push_back(-1);
    assert_eq!(l.size(), 2);
    let third = l.push_back(20);
    assert_eq!(l.size(), 3);

    // Can be got, with a pointer
    assert_eq!(l.get(first), Some(&100));
    assert_eq!(l.get(second), Some(&-1));
    assert_eq!(l.get(third), Some(&20));

    //Can remove
    assert_eq!(l.peek_front(), Some(&100));
    assert_eq!(l.pop_front(), Some(100));
    assert_eq!(l.size(), 2);
    assert_eq!(l.peek_front(), Some(&-1));
    assert_eq!(l.pop_front(), Some(-1));
    assert_eq!(l.size(), 1);
    assert_eq!(l.peek_front(), Some(&20));
    assert_eq!(l.pop_front(), Some(20));
    assert_eq!(l.size(), 0);
    assert_eq!(l.peek_front(), None);
    assert_eq!(l.pop_front(), None);
    assert_eq!(l.size(), 0);

    l.push_back(10);
    assert_eq!(l.peek_front(), Some(&10));
    assert_eq!(l.pop_front(), Some(10));
    assert_eq!(l.pop_front(), None);

    // Can re-arrange
    l.push_back(1);
    let ptr = l.push_back(3);
    l.push_back(2);
    l.move_back(ptr);

    assert_eq!(l.get(l.head().unwrap()), l.peek_front());
    assert_eq!(l.get(l.tail().unwrap()), l.peek_back());

    assert_eq!(l.pop_front(), Some(1));
    assert_eq!(l.pop_back(), Some(3));
    assert_eq!(l.pop_front(), Some(2));

    // Can replace value at a pointer.
    let ptr = l.push_back(10);
    assert_eq!(l.peek_front(), Some(&10));
    assert_eq!(l.peek_back(), Some(&10));
    l.replace_val(ptr, 40);
    assert_eq!(l.peek_front(), Some(&40));
    assert_eq!(l.peek_back(), Some(&40));
    l.replace_val(ptr, 100);
    assert_eq!(l.pop_front(), Some(100));
    assert_eq!(l.pop_back(), None);

    // Can grab the next Pointer and get the next entry
    let ptr1 = l.push_back(100);
    l.push_back(200);
    l.push_back(300);
    let ptr2 = l.next_node(ptr1).unwrap();
    let ptr3 = l.next_node(ptr2).unwrap();
    let ptr2_again = l.prev_node(ptr3).unwrap();
    let ptr1_again = l.prev_node(ptr2_again).unwrap();

    assert_eq!(l.get(ptr2), Some(&200));
    assert_eq!(l.get(ptr3), Some(&300));
    assert!(l.next_node(ptr3).is_none());
    l.push_back(400);
    let ptr4 = l.next_node(ptr3).unwrap();
    assert_eq!(l.get(ptr4), Some(&400));
    assert_eq!(l.get(ptr2_again), Some(&200));
    assert_eq!(l.get(ptr1_again), Some(&100));
    assert!(l.prev_node(ptr1_again).is_none());

    l.move_back(ptr1);
    l.move_front(ptr4);

    assert_eq!(l.get(l.head().unwrap()), Some(&400));
    assert_eq!(l.get(l.tail().unwrap()), Some(&100));

    l.move_front(ptr1);
    l.move_back(ptr4);
}

#[test]
fn vector_list_conformance() {
    let mut l: VectorLinkedList<i32> = VectorLinkedList::new();
    conformance(&mut l);
    // Iterating works for &'s
    let mut it = l.iter();
    let mut i: i32 = 0;
    while let Some(n) = it.next() {
        assert_eq!(*n, (i + 1) * 100);
        i += 1;
    }
    assert_eq!(i, 4);
}

#[test]
fn cell_list_conformance() {
    let mut l: CellLinkedList<i32> = CellLinkedList::new();
    conformance(&mut l);
    // Iterating works for &'s
    let mut it = l.iter();
    let mut i: i32 = 0;
    while let Some(n) = it.next() {
        assert_eq!(*n, (i + 1) * 100);
        i += 1;
    }
    assert_eq!(i, 4);
}

fn fifo<L: DLL<u32>>(l: &mut L) {
    for v in 0..50u32 {
        l.push_back(v * 3);
    }
    for v in 0..50u32 {
        assert_eq!(l.pop_front(), Some(v * 3));
    }
    assert_eq!(l.pop_front(), None);
}

#[test]
fn vector_list_fifo() {
    fifo(&mut VectorLinkedList::new());
}

#[test]
fn cell_list_fifo() {
    fifo(&mut CellLinkedList::new());
}

fn move_back_comes_out_last<L: DLL<char>>(l: &mut L)
where
    L::Pointer: PartialEq,
{
    l.push_back('a');
    let b = l.push_back('b');
    l.push_back('c');
    l.push_back('d');
    assert!(l.move_back(b) == b);
    assert_eq!(l.pop_front(), Some('a'));
    assert_eq!(l.pop_front(), Some('c'));
    assert_eq!(l.pop_front(), Some('d'));
    assert_eq!(l.pop_front(), Some('b'));
    assert_eq!(l.pop_front(), None);
}

#[test]
fn vector_list_move_back_comes_out_last() {
    move_back_comes_out_last(&mut VectorLinkedList::new());
}

#[test]
fn cell_list_move_back_comes_out_last() {
    move_back_comes_out_last(&mut CellLinkedList::new());
}

fn move_front_comes_out_first<L: DLL<char>>(l: &mut L)
where
    L::Pointer: PartialEq,
{
    l.push_back('a');
    l.push_back('b');
    let c = l.push_back('c');
    assert!(l.move_front(c) == c);
    assert_eq!(l.pop_front(), Some('c'));
    assert_eq!(l.pop_front(), Some('a'));
    assert_eq!(l.pop_front(), Some('b'));
}

#[test]
fn vector_list_move_front_comes_out_first() {
    move_front_comes_out_first(&mut VectorLinkedList::new());
}

#[test]
fn cell_list_move_front_comes_out_first() {
    move_front_comes_out_first(&mut CellLinkedList::new());
}

fn replace_then_get<L: DLL<i64>>(l: &mut L)
where
    L::Pointer: PartialEq,
{
    l.push_back(5);
    let h = l.push_back(1);
    assert!(l.replace_val(h, 2) == Some(h));
    assert_eq!(l.get(h), Some(&2));
    assert_eq!(l.pop_back(), Some(2));
    assert_eq!(l.pop_back(), Some(5));
}

#[test]
fn vector_list_replace_then_get() {
    replace_then_get(&mut VectorLinkedList::new());
}

#[test]
fn cell_list_replace_then_get() {
    replace_then_get(&mut CellLinkedList::new());
}

fn walk_both_ways<L: DLL<u16>>(l: &mut L) {
    for v in [4u16, 8, 15, 16, 23, 42] {
        l.push_back(v);
    }
    let mut forward = Vec::new();
    let mut p = l.head();
    while let Some(h) = p {
        forward.push(*l.get(h).unwrap());
        p = l.next_node(h);
    }
    let mut backward = Vec::new();
    let mut p = l.tail();
    while let Some(h) = p {
        backward.push(*l.get(h).unwrap());
        p = l.prev_node(h);
    }
    assert_eq!(forward, vec![4, 8, 15, 16, 23, 42]);
    backward.reverse();
    assert_eq!(backward, forward);
}

#[test]
fn vector_list_walk_both_ways() {
    walk_both_ways(&mut VectorLinkedList::new());
}

#[test]
fn cell_list_walk_both_ways() {
    walk_both_ways(&mut CellLinkedList::new());
}

fn reachable<L: DLL<u32>>(l: &L) -> usize {
    let mut n = 0;
    let mut p = l.head();
    while let Some(h) = p {
        n += 1;
        p = l.next_node(h);
    }
    n
}

#[test]
fn vector_list_size_matches_reachable_nodes() {
    let mut l: VectorLinkedList<u32> = VectorLinkedList::new();
    let mut handles = Vec::new();
    for round in 0..20u32 {
        for v in 0..5u32 {
            handles.push(l.push_back(round * 10 + v));
        }
        for _ in 0..3 {
            l.pop_front();
        }
        if let Some(h) = l.tail() {
            l.move_front(h);
        }
        l.pop_back();
        assert_eq!(l.size(), reachable(&l));
    }
    assert_eq!(l.size(), 20);
}

#[test]
fn cell_list_stale_handle_is_detected() {
    let mut l: CellLinkedList<u8> = CellLinkedList::new();
    let a = l.push_back(1);
    assert_eq!(l.pop_front(), Some(1));
    assert_eq!(l.get(a), None);
    // The freed cell goes to the next node, but the old handle stays dead.
    let b = l.push_back(2);
    assert_eq!(l.get(a), None);
    assert_eq!(l.get(b), Some(&2));
    assert!(a != b);
    assert!(l.replace_val(a, 9).is_none());
    assert!(l.next_node(a).is_none());
    assert_eq!(l.peek_front(), Some(&2));
}

#[test]
fn vector_list_reuses_freed_slot() {
    let mut l: VectorLinkedList<u8> = VectorLinkedList::new();
    let a = l.push_back(1);
    l.push_back(2);
    assert_eq!(l.pop_front(), Some(1));
    assert_eq!(l.get(a), None);
    let c = l.push_back(3);
    assert_eq!(c, a);
    assert_eq!(l.get(NodePointer::Head), None);
    assert_eq!(l.get(NodePointer::Tail), None);
    assert_eq!(l.get(NodePointer::Body(40)), None);
}

#[test]
fn only_node_removal_clears_both_ends() {
    let mut v: VectorLinkedList<u8> = VectorLinkedList::new();
    v.push_front(1);
    assert_eq!(v.pop_back(), Some(1));
    assert!(v.head().is_none() && v.tail().is_none());
    let mut c: CellLinkedList<u8> = CellLinkedList::new();
    c.push_front(1);
    assert_eq!(c.pop_back(), Some(1));
    assert!(c.head().is_none() && c.tail().is_none());
    assert_eq!(c.peek_back(), None);
}

#[test]
fn push_front_orders_values() {
    let mut v: VectorLinkedList<u8> = VectorLinkedList::new();
    let mut c: CellLinkedList<u8> = CellLinkedList::new();
    for x in 1..=3u8 {
        v.push_front(x);
        c.push_front(x);
    }
    assert_eq!(v.pop_front(), Some(3));
    assert_eq!(c.pop_front(), Some(3));
    assert_eq!(v.pop_back(), Some(1));
    assert_eq!(c.pop_back(), Some(1));
}

#[test]
fn get_mut_writes_through() {
    let mut v: VectorLinkedList<u8> = VectorLinkedList::new();
    let h = v.push_back(1);
    *v.get_mut(h).unwrap() = 7;
    assert_eq!(v.get(h), Some(&7));
    assert!(v.get_mut(NodePointer::Head).is_none());
    let mut c: CellLinkedList<u8> = CellLinkedList::new();
    let h = c.push_back(1);
    *c.get_mut(h).unwrap() = 8;
    assert_eq!(c.get(h), Some(&8));
    c.pop_front();
    assert!(c.get_mut(h).is_none());
}

#[test]
fn into_iter_drains_from_front() {
    let mut v: VectorLinkedList<u8> = VectorLinkedList::new();
    v.push_back(1);
    v.push_back(2);
    let mut it = v.into_iter();
    assert_eq!(it.next(), Some(1));
    assert_eq!(it.next(), Some(2));
    assert_eq!(it.next(), None);
    let mut c: CellLinkedList<u8> = CellLinkedList::new();
    c.push_back(3);
    let mut it = c.into_iter();
    assert_eq!(it.next(), Some(3));
    assert_eq!(it.next(), None);
}
