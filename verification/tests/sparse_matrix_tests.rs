use raptorq::matrix::BinaryMatrix;
use raptorq::octet::Octet;
use raptorq::sparse_matrix::sorted_entries;
use raptorq::sparse_matrix::SparseBinaryMatrix;
use raptorq::sparse_matrix::APPEND_BUILD_MIN_WIDTH;

#[test]
fn sparse_rows_are_sorted_when_read_after_unsorted_toggles() {
    let mut matrix = SparseBinaryMatrix::new(1, APPEND_BUILD_MIN_WIDTH);
    matrix.toggle(0, 1);
    matrix.toggle(0, 5);
    matrix.toggle(0, 3);
    matrix.set(0, 7, true);
    matrix.set(0, 1, false);

    assert!(!matrix.rows_normalized());
    assert_ne!(*matrix.stored_row(0), vec![3, 5, 7]);
    assert_eq!(matrix.row_entries(0), vec![3, 5, 7]);

    let mut visited = Vec::new();
    for col in matrix.visit_row_entries(0) {
        visited.push(col);
    }
    assert_eq!(visited, vec![3, 5, 7]);

    matrix.normalize_rows();
    assert!(matrix.rows_normalized());
    assert_eq!(*matrix.stored_row(0), vec![3, 5, 7]);
    assert_eq!(matrix.row_entries(0), vec![3, 5, 7]);
}

#[test]
fn packed_rows_with_metadata_counts_sparse_entries() {
    let mut matrix = SparseBinaryMatrix::new(2, 96);
    matrix.toggle(0, 70);
    matrix.toggle(0, 3);
    matrix.toggle(1, 64);

    let (packed, row_weights, first_ones) = matrix.packed_rows_with_row_weights_and_first_ones();

    assert_eq!(row_weights, vec![2, 1]);
    assert_eq!(first_ones, vec![Some(3), Some(64)]);
    assert!(packed.contains(0, 3));
    assert!(packed.contains(0, 70));
    assert!(packed.contains(1, 64));
}

#[test]
fn packed_rows_with_metadata_returns_first_sparse_entries() {
    let mut matrix = SparseBinaryMatrix::new(3, APPEND_BUILD_MIN_WIDTH);
    matrix.toggle(0, 70);
    matrix.toggle(0, 3);
    matrix.toggle(1, 64);

    let (packed, row_weights, first_ones) = matrix.packed_rows_with_row_weights_and_first_ones();

    assert_eq!(row_weights, vec![2, 1, 0]);
    assert_eq!(first_ones, vec![Some(3), Some(64), None]);
    assert!(packed.contains(0, 3));
    assert!(packed.contains(0, 70));
    assert!(packed.contains(1, 64));
}

#[test]
fn packed_row_prefix_with_metadata_omits_suffix_rows() {
    let mut matrix = SparseBinaryMatrix::new(3, APPEND_BUILD_MIN_WIDTH);
    matrix.toggle(0, 70);
    matrix.toggle(0, 3);
    matrix.toggle(1, 64);
    matrix.toggle(2, 95);

    let (packed, row_weights, first_ones) =
        matrix.packed_row_prefix_with_row_weights_and_first_ones(2);

    assert_eq!(packed.height(), 2);
    assert_eq!(row_weights, vec![2, 1]);
    assert_eq!(first_ones, vec![Some(3), Some(64)]);
    assert!(packed.contains(0, 3));
    assert!(packed.contains(0, 70));
    assert!(packed.contains(1, 64));
}

#[test]
fn toggling_twice_removes_the_entry() {
    let mut matrix = SparseBinaryMatrix::new(1, 8);
    matrix.toggle(0, 6);
    assert_eq!(matrix.get(0, 6), Octet::one());
    matrix.toggle(0, 6);
    assert_eq!(matrix.get(0, 6), Octet::zero());
    assert_eq!(matrix.row_entries(0), Vec::<usize>::new());
    matrix.toggle_unique(0, 2);
    matrix.set(0, 2, true);
    assert_eq!(matrix.row_entries(0), vec![2]);
    assert_eq!(matrix.height(), 1);
    assert_eq!(matrix.width(), 8);
}

#[test]
fn sorted_entries_orders_columns() {
    assert_eq!(sorted_entries(&[9, 2, 7, 0]), vec![0, 2, 7, 9]);
    assert_eq!(sorted_entries(&[]), Vec::<usize>::new());
}

#[test]
fn narrow_matrix_keeps_rows_sorted_on_every_write() {
    let mut matrix = SparseBinaryMatrix::new(1, 16);
    matrix.toggle(0, 9);
    matrix.toggle(0, 1);
    matrix.toggle(0, 4);
    assert!(matrix.rows_normalized());
    assert_eq!(*matrix.stored_row(0), vec![1, 4, 9]);
    assert_eq!(matrix.into_row_entries(), vec![vec![1, 4, 9]]);
}
