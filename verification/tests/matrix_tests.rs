use raptorq::matrix::row_metadata;
use raptorq::matrix::BinaryMatrix;
use raptorq::matrix::DenseBinaryMatrix;
use raptorq::octet::Octet;

#[test]
fn dense_row_entries_handles_unaligned_rows() {
    let mut matrix = DenseBinaryMatrix::new(3, 5);
    matrix.set(0, 0, true);
    matrix.set(0, 4, true);
    matrix.set(1, 1, true);
    matrix.set(1, 3, true);
    matrix.set(2, 2, true);

    assert_eq!(matrix.row_entries(0), vec![0, 4]);
    assert_eq!(matrix.row_entries(1), vec![1, 3]);
    assert_eq!(matrix.row_entries(2), vec![2]);
}

#[test]
fn dense_byte_aligned_rows_pack_directly() {
    let mut matrix = DenseBinaryMatrix::new(3, 16);
    matrix.set(0, 1, true);
    matrix.set(0, 15, true);
    matrix.set(1, 8, true);

    let (packed, first_ones) = matrix.packed_rows_with_first_ones();

    assert_eq!(first_ones, vec![Some(1), Some(8), None]);
    assert!(packed.contains(0, 1));
    assert!(packed.contains(0, 15));
    assert!(packed.contains(1, 8));
    assert!(!packed.contains(1, 7));

    let prefix = matrix.packed_row_prefix(2);
    assert_eq!(prefix.height(), 2);
    assert!(prefix.contains(0, 15));
    assert!(prefix.contains(1, 8));
}

#[test]
fn dense_unaligned_rows_pack_directly() {
    let mut matrix = DenseBinaryMatrix::new(3, 13);
    matrix.set(0, 0, true);
    matrix.set(0, 12, true);
    matrix.set(1, 1, true);
    matrix.set(1, 11, true);
    matrix.set(2, 6, true);

    let (packed, first_ones) = matrix.packed_rows_with_first_ones();

    assert_eq!(first_ones, vec![Some(0), Some(1), Some(6)]);
    assert!(packed.contains(0, 0));
    assert!(packed.contains(0, 12));
    assert!(packed.contains(1, 1));
    assert!(packed.contains(1, 11));
    assert!(packed.contains(2, 6));
    assert!(!packed.contains(1, 12));

    let prefix = matrix.packed_row_prefix(2);
    assert_eq!(prefix.height(), 2);
    assert!(prefix.contains(0, 12));
    assert!(prefix.contains(1, 11));
}

#[test]
fn dense_get_set_toggle_round_trip() {
    let mut matrix = DenseBinaryMatrix::new(2, 9);
    assert_eq!(matrix.height(), 2);
    assert_eq!(matrix.width(), 9);
    assert_eq!(matrix.get(1, 8), Octet::zero());
    matrix.set(1, 8, true);
    assert_eq!(matrix.get(1, 8), Octet::one());
    matrix.toggle(1, 8);
    assert_eq!(matrix.get(1, 8), Octet::zero());
    matrix.toggle(0, 3);
    matrix.toggle_unique(0, 4);
    assert_eq!(matrix.visit_row_entries(0), vec![3, 4]);
    matrix.set(0, 3, false);
    assert_eq!(matrix.row_entries(0), vec![4]);
}

#[test]
fn packed_metadata_counts_rows() {
    let mut matrix = DenseBinaryMatrix::new(3, 70);
    matrix.set(0, 2, true);
    matrix.set(0, 69, true);
    matrix.set(2, 64, true);

    let (packed, weights, first_ones) = matrix.packed_rows_with_row_weights_and_first_ones();
    assert_eq!(weights, vec![2, 0, 1]);
    assert_eq!(first_ones, vec![Some(2), None, Some(64)]);
    assert!(packed.contains(0, 69));

    let (meta_weights, meta_first) = row_metadata(&packed);
    assert_eq!(meta_weights, weights);
    assert_eq!(meta_first, first_ones);

    let (prefix, prefix_weights, prefix_first) =
        matrix.packed_row_prefix_with_row_weights_and_first_ones(1);
    assert_eq!(prefix.height(), 1);
    assert_eq!(prefix_weights, vec![2]);
    assert_eq!(prefix_first, vec![Some(2)]);

    assert_eq!(matrix.into_row_entries(), vec![vec![2, 69], vec![], vec![64]]);
}
