use mahjong_handle_solver::growing_heap::{Growable, GrowingHeap, UniqueHeap};

/// A number from which its half and its third grow.
#[derive(Debug, Clone, PartialEq, Eq, PartialOrd, Ord, Hash)]
struct Number(u32);

impl Growable for Number {
    fn grow(&self) -> Vec<Self> {
        if self.0 < 2 {
            Vec::new()
        } else {
            vec![Number(self.0 / 2), Number(self.0 / 3)]
        }
    }
}

#[test]
fn unique_heap_takes_each_item_once() {
    let mut heap = UniqueHeap::new();
    assert_eq!(heap.pop(), None);
    heap.push(Number(3));
    heap.push(Number(7));
    heap.push(Number(3));
    heap.push(Number(5));
    assert_eq!(heap.heap.len(), 3);
    assert_eq!(heap.pop(), Some(Number(7)));
    // An item handed out is not taken in again.
    heap.push(Number(7));
    assert_eq!(heap.pop(), Some(Number(5)));
    assert_eq!(heap.pop(), Some(Number(3)));
    assert_eq!(heap.pop(), None);
    assert_eq!(heap.set.len(), 3);
}

#[test]
fn growing_heap_hands_out_in_falling_order() {
    let mut search = GrowingHeap::new(Number(36));
    let mut seen = Vec::new();
    while let Some(Number(n)) = search.next() {
        seen.push(n);
    }
    assert_eq!(seen, vec![36, 18, 12, 9, 6, 4, 3, 2, 1, 0]);
}

#[test]
fn growing_heap_of_one_item() {
    let mut search = GrowingHeap::new(Number(1));
    assert_eq!(search.next(), Some(Number(1)));
    assert_eq!(search.next(), None);
    assert_eq!(search.next(), None);
}
