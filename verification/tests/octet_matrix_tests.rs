use raptorq::octet::Octet;
use raptorq::octet_matrix::dense_octet_matrix_from_deserialized_parts;
use raptorq::octet_matrix::DenseOctetMatrix;

const SHARED_DENSE_OCTET_MATRIX_MIN_LEN: usize = 100_000;

#[test]
fn row_accessors_expose_contiguous_storage() {
    let mut matrix = DenseOctetMatrix::new(2, 3);
    matrix
        .row_mut(1)
        .copy_from_slice(&[Octet::new(4), Octet::new(5), Octet::new(6)]);

    assert_eq!(
        matrix.row(0),
        &[Octet::zero(), Octet::zero(), Octet::zero()]
    );
    assert_eq!(
        matrix.as_slice(),
        &[
            Octet::zero(),
            Octet::zero(),
            Octet::zero(),
            Octet::new(4),
            Octet::new(5),
            Octet::new(6)
        ]
    );
    assert_eq!(matrix.get(1, 1), Octet::new(5));
}

#[test]
fn cloned_matrix_mutation_does_not_change_original() {
    let mut original = DenseOctetMatrix::new(2, 3);
    original.set(0, 1, Octet::new(7));

    let mut cloned = original.clone();
    cloned.set(0, 1, Octet::new(9));
    cloned
        .row_mut(1)
        .copy_from_slice(&[Octet::new(1), Octet::new(2), Octet::new(3)]);

    assert_eq!(original.get(0, 1), Octet::new(7));
    assert_eq!(
        original.row(1),
        &[Octet::zero(), Octet::zero(), Octet::zero()]
    );
    assert_eq!(cloned.get(0, 1), Octet::new(9));
    assert_eq!(
        cloned.row(1),
        &[Octet::new(1), Octet::new(2), Octet::new(3)]
    );
}

#[test]
fn large_cloned_matrix_mutation_does_not_change_original() {
    let width = SHARED_DENSE_OCTET_MATRIX_MIN_LEN + 1;
    let mut original = DenseOctetMatrix::new(1, width);
    original.set(0, width - 1, Octet::new(7));

    let mut cloned = original.clone();
    cloned.set(0, width - 1, Octet::new(9));

    assert_eq!(original.get(0, width - 1), Octet::new(7));
    assert_eq!(cloned.get(0, width - 1), Octet::new(9));
}

#[test]
fn large_cloned_matrix_compares_by_contents_not_storage() {
    let width = SHARED_DENSE_OCTET_MATRIX_MIN_LEN + 1;
    let mut original = DenseOctetMatrix::new(1, width);
    original.set(0, width - 1, Octet::new(7));

    let mut cloned = original.clone();
    assert_eq!(original, cloned);

    cloned.set(0, width - 1, Octet::new(9));
    assert_ne!(original, cloned);
}

#[test]
fn large_matrix_can_be_shared_before_repeated_clones() {
    let width = SHARED_DENSE_OCTET_MATRIX_MIN_LEN + 1;
    let mut original = DenseOctetMatrix::new(1, width);
    original.set(0, width - 1, Octet::new(7));

    let shared = original.into_shared_if_large();
    let mut cloned = shared.clone();
    cloned.set(0, width - 1, Octet::new(9));

    assert_eq!(shared.get(0, width - 1), Octet::new(7));
    assert_eq!(cloned.get(0, width - 1), Octet::new(9));
}

#[test]
fn deserialized_matrix_rejects_overflowing_dimensions() {
    let result = dense_octet_matrix_from_deserialized_parts(usize::MAX, 2, Vec::<Octet>::new());

    assert_eq!(
        result.unwrap_err(),
        "DenseOctetMatrix data length does not match dimensions"
    );
}

#[test]
fn deserialized_matrix_accepts_matching_length_and_rejects_short_data() {
    let data = vec![Octet::new(1), Octet::new(2), Octet::new(3), Octet::new(4)];
    let matrix = dense_octet_matrix_from_deserialized_parts(2, 2, data).unwrap();
    assert_eq!(matrix.height(), 2);
    assert_eq!(matrix.width(), 2);
    assert_eq!(matrix.get(1, 0), Octet::new(3));

    let short = dense_octet_matrix_from_deserialized_parts(2, 2, vec![Octet::one()]);
    assert_eq!(
        short.unwrap_err(),
        "DenseOctetMatrix data length does not match dimensions"
    );
}

#[test]
fn from_vec_is_row_major() {
    let matrix = DenseOctetMatrix::from_vec(
        2,
        3,
        (1..=6).map(Octet::new).collect::<Vec<_>>(),
    );
    assert_eq!(matrix.row(1), &[Octet::new(4), Octet::new(5), Octet::new(6)]);
    assert_eq!(matrix.get(0, 2), Octet::new(3));
}
