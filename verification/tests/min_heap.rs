use tonyutils::min_heap::MinHeap;
use tonyutils::wrap::Wrap;

#[test]
fn a_new_heap_is_empty() {
    let mut heap: MinHeap<u8> = MinHeap::new();
    assert_eq!(heap.len(), 0);
    assert_eq!(heap.peek(), None);
    assert!(heap.pop().is_none());
}

#[test]
fn the_smallest_number_leaves_first() {
    let mut heap = MinHeap::with_capacity(8);
    for seq in [5usize, 3, 8, 1, 9, 2, 7] {
        heap.push(Wrap(seq, seq * 2));
    }
    assert_eq!(heap.len(), 7);
    assert_eq!(heap.peek(), Some(1));
    let mut seen = Vec::new();
    while let Some(Wrap(seq, payload)) = heap.pop() {
        assert_eq!(payload, seq * 2);
        seen.push(seq);
    }
    assert_eq!(seen, vec![1, 2, 3, 5, 7, 8, 9]);
    assert_eq!(heap.len(), 0);
}

#[test]
fn peek_does_not_take() {
    let mut heap = MinHeap::new();
    heap.push(Wrap(4, 'd'));
    heap.push(Wrap(2, 'b'));
    assert_eq!(heap.peek(), Some(2));
    assert_eq!(heap.peek(), Some(2));
    assert_eq!(heap.len(), 2);
}

#[test]
fn equal_numbers_all_leave() {
    let mut heap = MinHeap::new();
    heap.push(Wrap(1, 'a'));
    heap.push(Wrap(1, 'b'));
    heap.push(Wrap(0, 'c'));
    let first = heap.pop().unwrap();
    assert_eq!((first.0, first.1), (0, 'c'));
    let second = heap.pop().unwrap();
    let third = heap.pop().unwrap();
    assert_eq!(second.0, 1);
    assert_eq!(third.0, 1);
    let mut payloads = vec![second.1, third.1];
    payloads.sort();
    assert_eq!(payloads, vec!['a', 'b']);
    assert!(heap.pop().is_none());
}

#[test]
fn many_items_leave_in_order() {
    let mut heap = MinHeap::new();
    // 0..1009 in the order i * 500 mod 1009, which visits each number once.
    for i in 0..1009usize {
        heap.push(Wrap(i * 500 % 1009, ()));
    }
    for expected in 0..1009usize {
        assert_eq!(heap.peek(), Some(expected));
        assert_eq!(heap.pop().unwrap().0, expected);
    }
    assert_eq!(heap.len(), 0);
}

#[test]
fn pushes_and_pops_can_alternate() {
    let mut heap = MinHeap::new();
    heap.push(Wrap(10, 'x'));
    heap.push(Wrap(4, 'y'));
    assert_eq!(heap.pop().unwrap().0, 4);
    heap.push(Wrap(7, 'z'));
    heap.push(Wrap(12, 'w'));
    assert_eq!(heap.pop().unwrap().0, 7);
    assert_eq!(heap.pop().unwrap().0, 10);
    assert_eq!(heap.pop().unwrap().0, 12);
    assert!(heap.pop().is_none());
}
