use binheap::BinHeap;

#[derive(Ord, PartialOrd, Eq, PartialEq, Debug)]
struct MyEntry {
    a: u64,
}

#[test]
fn test_derive_struct() -> Result<(), String> {
    let mut bh: BinHeap<MyEntry> = BinHeap::new();
    bh.push(MyEntry { a: 8 });
    bh.push(MyEntry { a: 7 });
    bh.push(MyEntry { a: 6 });
    bh.push(MyEntry { a: 5 });
    bh.push(MyEntry { a: 1 });
    bh.push(MyEntry { a: 2 });
    bh.push(MyEntry { a: 3 });
    bh.push(MyEntry { a: 4 });

    assert_eq!(bh.pop(), Some(MyEntry { a: 1 }));
    assert_eq!(bh.pop(), Some(MyEntry { a: 2 }));
    assert_eq!(bh.pop(), Some(MyEntry { a: 3 }));
    assert_eq!(bh.pop(), Some(MyEntry { a: 4 }));
    assert_eq!(bh.pop(), Some(MyEntry { a: 5 }));
    assert_eq!(bh.pop(), Some(MyEntry { a: 6 }));
    assert_eq!(bh.pop(), Some(MyEntry { a: 7 }));
    assert_eq!(bh.pop(), Some(MyEntry { a: 8 }));

    Ok(())
}
