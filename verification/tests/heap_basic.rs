use binheap::order::fn_less;
use binheap::BinHeap;

fn cmp(a: &u64, b: &u64) -> bool {
    if a.cmp(b) == std::cmp::Ordering::Greater {
        true
    } else {
        false
    }
}

#[test]
fn test_utils() -> Result<(), String> {
    let mut bh: BinHeap<u64> = BinHeap::new();
    bh.push(1);
    bh.pop();
    assert_eq!(bh.len(), 0);
    assert_eq!(bh.is_empty(), true);
    Ok(())
}

#[test]
fn test_minheap() -> Result<(), String> {
    let mut bh: BinHeap<u64> = BinHeap::new();
    bh.push(8);
    bh.push(7);
    bh.push(6);
    bh.push(5);
    bh.push(1);
    bh.push(2);
    bh.push(3);
    bh.push(4);
    assert_eq!(bh.pop(), Some(1));
    assert_eq!(bh.pop(), Some(2));
    assert_eq!(bh.pop(), Some(3));
    assert_eq!(bh.pop(), Some(4));
    assert_eq!(bh.pop(), Some(5));
    assert_eq!(bh.pop(), Some(6));
    assert_eq!(bh.pop(), Some(7));
    assert_eq!(bh.pop(), Some(8));
    assert_eq!(bh.pop(), None);
    Ok(())
}

#[test]
fn test_maxheap() -> Result<(), String> {
    let mut bh: BinHeap<u64, _> = BinHeap::new_cmp(fn_less(cmp));
    bh.push(8);
    bh.push(7);
    bh.push(6);
    bh.push(5);
    bh.push(1);
    bh.push(2);
    bh.push(3);
    bh.push(4);
    assert_eq!(bh.pop(), Some(8));
    assert_eq!(bh.pop(), Some(7));
    assert_eq!(bh.pop(), Some(6));
    assert_eq!(bh.pop(), Some(5));
    assert_eq!(bh.pop(), Some(4));
    assert_eq!(bh.pop(), Some(3));
    assert_eq!(bh.pop(), Some(2));
    assert_eq!(bh.pop(), Some(1));
    assert_eq!(bh.pop(), None);
    Ok(())
}

#[test]
fn test_size_accounting() {
    let mut bh: BinHeap<u64> = BinHeap::new();
    for k in 0..5u64 {
        bh.push(k);
        assert_eq!(bh.len(), (k + 1) as usize);
        assert!(!bh.is_empty());
    }
    for j in 0..3u64 {
        bh.pop();
        assert_eq!(bh.len(), (5 - j - 1) as usize);
    }
    assert_eq!(bh.len(), 2);
    assert!(!bh.is_empty());
    bh.pop();
    bh.pop();
    assert_eq!(bh.len(), 0);
    assert!(bh.is_empty());
}

#[test]
fn test_empty_pop_and_peek() {
    let mut bh: BinHeap<u64> = BinHeap::new();
    assert_eq!(bh.pop(), None);
    assert_eq!(bh.peek(), None);
    assert_eq!(bh.len(), 0);
    assert!(bh.is_empty());
}

#[test]
fn test_single_round_trip() {
    let mut bh: BinHeap<u64> = BinHeap::new();
    bh.push(42);
    assert_eq!(bh.peek(), Some(&42));
    assert_eq!(bh.len(), 1);
    assert_eq!(bh.pop(), Some(42));
    assert!(bh.is_empty());
    assert_eq!(bh.peek(), None);
    assert_eq!(bh.pop(), None);
}

#[test]
fn test_peek_tracks_root() {
    let mut bh: BinHeap<u64> = BinHeap::new();
    bh.push(5);
    assert_eq!(bh.peek(), Some(&5));
    bh.push(9);
    assert_eq!(bh.peek(), Some(&5));
    bh.push(2);
    assert_eq!(bh.peek(), Some(&2));
    bh.pop();
    assert_eq!(bh.peek(), Some(&5));
}

#[test]
fn test_with_capacity_hint() {
    let mut bh: BinHeap<u64> = BinHeap::with_capacity(2);
    assert!(bh.is_empty());
    bh.push(3);
    bh.push(1);
    bh.push(2);
    bh.push(0);
    assert_eq!(bh.pop(), Some(0));
    assert_eq!(bh.pop(), Some(1));
    assert_eq!(bh.pop(), Some(2));
    assert_eq!(bh.pop(), Some(3));
    assert_eq!(bh.pop(), None);
}

#[test]
fn test_with_capacity_cmp_hint() {
    let mut bh: BinHeap<u64, _> = BinHeap::with_capacity_cmp(2, fn_less(cmp));
    assert!(bh.is_empty());
    bh.push(3);
    bh.push(1);
    bh.push(2);
    bh.push(0);
    assert_eq!(bh.pop(), Some(3));
    assert_eq!(bh.pop(), Some(2));
    assert_eq!(bh.pop(), Some(1));
    assert_eq!(bh.pop(), Some(0));
    assert_eq!(bh.pop(), None);
}

#[test]
fn test_into_vec_keeps_heap_shape() {
    let mut bh: BinHeap<u64> = BinHeap::new();
    for x in [8u64, 7, 6, 5, 1, 2, 3, 4] {
        bh.push(x);
    }
    let v = bh.into_vec();
    assert_eq!(v.len(), 8);
    for i in 1..v.len() {
        assert!(!(v[i] < v[(i - 1) / 2]));
    }
    let mut sorted = v.clone();
    sorted.sort();
    assert_eq!(sorted, vec![1, 2, 3, 4, 5, 6, 7, 8]);
}

#[test]
fn test_default_is_empty_minheap() {
    let mut bh: BinHeap<u64> = Default::default();
    assert!(bh.is_empty());
    bh.push(2);
    bh.push(1);
    assert_eq!(bh.pop(), Some(1));
    assert_eq!(bh.pop(), Some(2));
}

#[test]
fn test_interleaved_push_pop() {
    let mut bh: BinHeap<u64> = BinHeap::new();
    bh.push(4);
    bh.push(9);
    assert_eq!(bh.pop(), Some(4));
    bh.push(1);
    bh.push(7);
    assert_eq!(bh.pop(), Some(1));
    assert_eq!(bh.pop(), Some(7));
    bh.push(0);
    assert_eq!(bh.pop(), Some(0));
    assert_eq!(bh.pop(), Some(9));
    assert_eq!(bh.pop(), None);
}
