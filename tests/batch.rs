use grpc_helpers::batch::divide_items;

#[test]
fn test_divide_items() {
    let items: Vec<_> = (0..4).collect();
    let mut iter1 = divide_items(&items, 3).into_iter();
    assert_eq!(iter1.next().unwrap(), &[0]);
    assert_eq!(iter1.next().unwrap(), &[1]);
    assert_eq!(iter1.next().unwrap(), &[2]);
    assert_eq!(iter1.next().unwrap(), &[3]);

    let mut iter2 = divide_items(&items, 2).into_iter();
    assert_eq!(iter2.next().unwrap(), &[0, 1]);
    assert_eq!(iter2.next().unwrap(), &[2, 3]);

    let mut iter3 = divide_items(&items, 0).into_iter();
    assert_eq!(iter3.next().unwrap(), &[0, 1, 2, 3]);

    let empty_slice: Vec<u32> = vec![];
    let mut empty_iter = divide_items(&empty_slice, 3).into_iter();
    assert!(empty_iter.next().is_none());
    let mut empty_iter = divide_items(&empty_slice, 0).into_iter();
    assert!(empty_iter.next().is_none());
}

#[test]
fn divide_items_concatenation_gives_back_items() {
    let items: Vec<u64> = (0..11).collect();
    for n in 0..15 {
        let chunks = divide_items(&items, n);
        let joined: Vec<u64> = chunks.iter().flat_map(|c| c.iter().copied()).collect();
        assert_eq!(joined, items);
    }
}

#[test]
fn divide_items_remainder_goes_to_a_last_short_chunk() {
    let items: Vec<u64> = (0..5).collect();
    let chunks = divide_items(&items, 2);
    assert_eq!(chunks.len(), 3);
    assert_eq!(chunks[0], &[0, 1]);
    assert_eq!(chunks[1], &[2, 3]);
    assert_eq!(chunks[2], &[4]);
}

#[test]
fn divide_items_more_chunks_than_items_gives_one_chunk() {
    let items: Vec<u64> = vec![7, 8];
    let chunks = divide_items(&items, 3);
    assert_eq!(chunks.len(), 1);
    assert_eq!(chunks[0], &[7, 8]);
}

#[test]
fn divide_items_single_item() {
    let items: Vec<u64> = vec![9];
    let chunks = divide_items(&items, 0);
    assert_eq!(chunks.len(), 1);
    assert_eq!(chunks[0], &[9]);
}
