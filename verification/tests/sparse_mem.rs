use freqm::sparse_mem::{contains_range, InsertError, SparseMem};

#[test]
fn insert_extend() {
    let mut s = SparseMem::default();

    assert_eq!(s.insert(0, &[1, 2]), Ok(()));
    assert_eq!(s.insert(10, &[50, 51]), Ok(()));
    assert_eq!(
        s.insert(1, &[8, 9]),
        Err(InsertError::Overlap { with_segment_index: 0 })
    );
    assert_eq!(s.insert(2, &[3, 4]), Ok(()));

    assert_eq!(
        s.ranges(),
        &[(0, [1, 2, 3, 4].to_vec()), (10, [50, 51].to_vec())]
    );
}

#[test]
fn insert_prefix() {
    let mut s = SparseMem::default();

    assert_eq!(s.insert(2, &[3, 4]), Ok(()));
    assert_eq!(
        s.insert(1, &[9, 10]),
        Err(InsertError::Overlap { with_segment_index: 0 })
    );
    assert_eq!(s.insert(0, &[1, 2]), Ok(()));

    assert_eq!(s.ranges(), &[(0, [1, 2, 3, 4].to_vec())]);
}

#[test]
fn insert_bridges_two_segments() {
    let mut s = SparseMem::default();

    assert_eq!(s.insert(0, &[1, 2]), Ok(()));
    assert_eq!(s.insert(4, &[5, 6, 7, 8, 9, 10]), Ok(()));
    assert_eq!(s.insert(2, &[3, 4]), Ok(()));

    assert_eq!(
        s.ranges(),
        &[(0, [1, 2, 3, 4, 5, 6, 7, 8, 9, 10].to_vec())]
    );
}

#[test]
fn coalescing_any_order() {
    // the three ranges [0,2), [2,4) and [4,10) coalesce to one identical
    // segment in every arrival order
    let a: &[u8] = &[1, 2];
    let b: &[u8] = &[3, 4];
    let c: &[u8] = &[5, 6, 7, 8, 9, 10];
    let ops: [(u64, &[u8]); 3] = [(0, a), (2, b), (4, c)];
    let orders: [[usize; 3]; 6] = [
        [0, 1, 2],
        [0, 2, 1],
        [1, 0, 2],
        [1, 2, 0],
        [2, 0, 1],
        [2, 1, 0],
    ];
    for order in orders.iter() {
        let mut s = SparseMem::default();
        for &k in order.iter() {
            let (addr, data) = ops[k];
            assert_eq!(s.insert(addr, data), Ok(()));
        }
        assert_eq!(
            s.ranges(),
            &[(0, [1, 2, 3, 4, 5, 6, 7, 8, 9, 10].to_vec())]
        );
        assert!(s.ensure_well_formed());
    }
}

#[test]
fn gap_preserved() {
    let mut s = SparseMem::default();

    assert_eq!(s.insert(0, &[1, 2]), Ok(()));
    assert_eq!(s.insert(10, &[50, 51]), Ok(()));

    assert_eq!(s.ranges().len(), 2);
    // no partial read across the gap
    assert_eq!(s.get(0..12), None);
    assert_eq!(s.get(1..11), None);
    assert_eq!(s.get(2..10), None);
}

#[test]
fn get_single_segment_containment() {
    let mut s = SparseMem::default();

    assert_eq!(s.insert(0, &[1, 2]), Ok(()));
    assert_eq!(s.insert(5, &[9, 9]), Ok(()));

    assert_eq!(s.get(0..2), Some(&[1u8, 2][..]));
    assert_eq!(s.get(0..5), None);
    assert_eq!(s.get(1..2), Some(&[2u8][..]));
    assert_eq!(s.get(5..7), Some(&[9u8, 9][..]));
    assert_eq!(s.get(6..7), Some(&[9u8][..]));
    // spans past a segment end
    assert_eq!(s.get(5..8), None);
    // entirely inside a gap
    assert_eq!(s.get(2..4), None);
    // empty request inside a segment is covered
    assert_eq!(s.get(1..1), Some(&[][..]));
    // reversed range is an absence, not a panic
    assert_eq!(s.get(7..5), None);
}

#[test]
fn content_preserved_after_coalescing() {
    let mut s = SparseMem::default();

    assert_eq!(s.insert(3, &[30, 31]), Ok(()));
    assert_eq!(s.insert(0, &[10, 11, 12]), Ok(()));
    assert_eq!(s.insert(5, &[50]), Ok(()));

    // every byte ever inserted reads back unchanged
    assert_eq!(s.get(0..6), Some(&[10u8, 11, 12, 30, 31, 50][..]));
    assert_eq!(s.get(3..5), Some(&[30u8, 31][..]));
    assert_eq!(s.get(5..6), Some(&[50u8][..]));
}

#[test]
fn failed_insert_leaves_store_unchanged() {
    let mut s = SparseMem::default();

    assert_eq!(s.insert(4, &[4, 5, 6]), Ok(()));
    assert_eq!(s.insert(20, &[1]), Ok(()));
    let before = s.ranges().clone();

    assert_eq!(
        s.insert(6, &[9, 9]),
        Err(InsertError::Overlap { with_segment_index: 0 })
    );
    assert_eq!(s.ranges(), &before);

    assert_eq!(
        s.insert(u64::MAX - 1, &[1, 2]),
        Err(InsertError::AddressOverflow)
    );
    assert_eq!(s.ranges(), &before);

    assert_eq!(s.insert(100, &[]), Err(InsertError::EmptyInsert));
    assert_eq!(s.ranges(), &before);
}

#[test]
fn overflow_at_address_space_end() {
    let mut s = SparseMem::default();

    // the very last representable byte is fine
    assert_eq!(s.insert(u64::MAX - 1, &[7]), Ok(()));
    let mut t = SparseMem::default();
    // one byte further is not
    assert_eq!(
        t.insert(u64::MAX - 1, &[1, 2]),
        Err(InsertError::AddressOverflow)
    );
    assert_eq!(t.ranges().len(), 0);
}

#[test]
fn empty_insert_is_rejected() {
    let mut s = SparseMem::default();
    assert_eq!(s.insert(0, &[]), Err(InsertError::EmptyInsert));
    assert_eq!(s.ranges().len(), 0);
    assert!(s.ensure_well_formed());
}

#[test]
fn overlap_reports_first_conflicting_segment() {
    let mut s = SparseMem::default();

    assert_eq!(s.insert(0, &[1]), Ok(()));
    assert_eq!(s.insert(10, &[2, 3]), Ok(()));
    assert_eq!(s.insert(20, &[4]), Ok(()));

    // conflicts only with the segment at index 1
    assert_eq!(
        s.insert(11, &[9]),
        Err(InsertError::Overlap { with_segment_index: 1 })
    );
    // conflicts with the segments at indexes 1 and 2; the first wins
    assert_eq!(
        s.insert(11, &[9; 10]),
        Err(InsertError::Overlap { with_segment_index: 1 })
    );
}

#[test]
fn well_formed_after_many_inserts() {
    let mut s = SparseMem::default();
    assert!(s.ensure_well_formed());

    let chunks: [(u64, &[u8]); 7] = [
        (100, &[1, 2, 3]),
        (0, &[9]),
        (103, &[4]),
        (98, &[7, 8]),
        (50, &[5, 5]),
        (2, &[10, 11]),
        (1, &[42]),
    ];
    for &(addr, data) in chunks.iter() {
        assert_eq!(s.insert(addr, data), Ok(()));
        // the invariant holds after every successful insert
        assert!(s.ensure_well_formed());
    }
    for (start, bytes) in s.ranges().iter() {
        assert!(!bytes.is_empty());
        assert!(start.checked_add(bytes.len() as u64).is_some());
    }
}

#[test]
fn contains_range_is_exact() {
    assert!(contains_range(&(0..10), &(0..10)));
    assert!(contains_range(&(0..10), &(3..7)));
    assert!(contains_range(&(0..10), &(10..10)));
    assert!(!contains_range(&(1..10), &(0..10)));
    assert!(!contains_range(&(0..10), &(3..11)));
    assert!(!contains_range(&(5..6), &(4..6)));
}
