use raptorq::octet::Octet;
use raptorq::sparse_vec::SparseOctetVec;

#[test]
fn binary_entries_are_sorted_and_xor_duplicates() {
    let row = SparseOctetVec::from_binary_entries(vec![5, 1, 5, 3]);

    assert_eq!(row.get(1), Octet::one());
    assert_eq!(row.get(3), Octet::one());
    assert_eq!(row.get(5), Octet::zero());
    assert_eq!(row.get(4), Octet::zero());
}

#[test]
fn scale_from_keeps_lower_columns_and_drops_zeroed_tail() {
    let mut row = SparseOctetVec::from_octet_entries(vec![
        (0, Octet::new(7)),
        (2, Octet::new(9)),
        (4, Octet::new(11)),
    ]);

    row.scale_from(2, Octet::zero());

    assert_eq!(row.get(0), Octet::new(7));
    assert_eq!(row.get(2), Octet::zero());
    assert_eq!(row.get(4), Octet::zero());
}

#[test]
fn add_scaled_from_merges_in_gf256_from_start_column() {
    let mut dest = SparseOctetVec::from_octet_entries(vec![
        (0, Octet::new(5)),
        (2, Octet::new(7)),
        (5, Octet::new(1)),
    ]);
    let src = SparseOctetVec::from_octet_entries(vec![
        (1, Octet::new(9)),
        (2, Octet::new(7)),
        (5, Octet::new(3)),
    ]);

    dest.add_scaled_from(&src, 2, Octet::one());

    assert_eq!(dest.get(0), Octet::new(5));
    assert_eq!(dest.get(1), Octet::zero());
    assert_eq!(dest.get(2), Octet::zero());
    assert_eq!(dest.get(5), Octet::new(2));
}

#[test]
fn octet_entries_add_duplicates() {
    let row = SparseOctetVec::from_octet_entries(vec![
        (3, Octet::new(6)),
        (1, Octet::new(2)),
        (3, Octet::new(5)),
        (8, Octet::new(4)),
        (8, Octet::new(4)),
    ]);
    assert_eq!(row.get(1), Octet::new(2));
    assert_eq!(row.get(3), Octet::new(3));
    assert_eq!(row.get(8), Octet::zero());
    assert!(!row.is_empty());
    assert!(SparseOctetVec::new().is_empty());
    assert!(SparseOctetVec::from_binary_entries(vec![4, 4]).is_empty());
}

#[test]
fn scale_from_multiplies_only_the_tail() {
    let mut row = SparseOctetVec::from_octet_entries(vec![(0, Octet::new(3)), (6, Octet::new(0x80))]);
    row.scale_from(1, Octet::new(2));
    assert_eq!(row.get(0), Octet::new(3));
    assert_eq!(row.get(6), Octet::new(0x1d));
}

#[test]
fn add_scaled_from_scales_the_source() {
    let mut dest = SparseOctetVec::new();
    let src = SparseOctetVec::from_octet_entries(vec![(0, Octet::new(4)), (2, Octet::new(3))]);
    dest.add_scaled_from(&src, 1, Octet::new(7));
    assert_eq!(dest.get(0), Octet::zero());
    assert_eq!(dest.get(2), Octet::new(3) * Octet::new(7));
}
