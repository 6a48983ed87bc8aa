use binheap::order::fn_less;
use binheap::BinHeap;

#[derive(Clone, Copy, PartialEq, Eq, Debug)]
struct Item {
    key: u64,
    id: u8,
}

fn key_less(a: &Item, b: &Item) -> bool {
    a.key < b.key
}

// During sift-down, when the two children of a slot compare as equal
// under the ordering function, the right child is the one exchanged
// upward; among equal keys this makes the removal order observable.
#[test]
fn test_equal_priority_tie_break() {
    let mut bh: BinHeap<Item, _> = BinHeap::new_cmp(fn_less(key_less));
    bh.push(Item { key: 0, id: 0 });
    bh.push(Item { key: 1, id: 1 });
    bh.push(Item { key: 1, id: 2 });
    bh.push(Item { key: 9, id: 9 });

    assert_eq!(bh.pop(), Some(Item { key: 0, id: 0 }));
    assert_eq!(bh.pop(), Some(Item { key: 1, id: 2 }));
    assert_eq!(bh.pop(), Some(Item { key: 1, id: 1 }));
    assert_eq!(bh.pop(), Some(Item { key: 9, id: 9 }));
    assert_eq!(bh.pop(), None);
}

// Elements whose keys compare as equal in both directions are handed
// back with their fields untouched: the ordering function only steers
// placement.
#[test]
fn test_equal_priority_keeps_elements() {
    let mut bh: BinHeap<Item, _> = BinHeap::new_cmp(fn_less(key_less));
    bh.push(Item { key: 3, id: 1 });
    bh.push(Item { key: 3, id: 2 });
    bh.push(Item { key: 3, id: 3 });
    let mut ids = vec![];
    while let Some(it) = bh.pop() {
        assert_eq!(it.key, 3);
        ids.push(it.id);
    }
    ids.sort();
    assert_eq!(ids, vec![1, 2, 3]);
}
