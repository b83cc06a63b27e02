use raptorq::binary_solve::addassign_mapped_binary_symbol_batch;
use raptorq::binary_solve::mapped_binary_symbol_row;
use raptorq::binary_solve::solve_binary;
use raptorq::gf2::PackedBinaryRows;
use raptorq::hybrid_rows::coefficient_rows_with_hdpc_last;
use raptorq::hybrid_rows::copy_binary_row;
use raptorq::hybrid_rows::copy_octet_row;
use raptorq::matrix::BinaryMatrix;
use raptorq::matrix::DenseBinaryMatrix;
use raptorq::octet::Octet;
use raptorq::octet_matrix::DenseOctetMatrix;
use raptorq::pi_solver::solve;
use raptorq::pi_solver::solve_without_recording;
use raptorq::pi_solver::CoefficientRow;
use raptorq::pi_solver::OperationRecording;
use raptorq::prefix_solve::solve_full_rank_binary_prefix_owned;
use raptorq::prefix_solve::FullRankBinaryPrefixSolve;
use raptorq::symbol_slab::SymbolSlab;

#[test]
fn empty_system_with_a_column_has_no_unique_solution() {
    let rows: Vec<CoefficientRow> = Vec::new();
    let symbols = SymbolSlab::from_bytes(Vec::new(), 1);
    let (decoded, ops) = solve(rows.clone(), 1, symbols, OperationRecording::Skip);
    assert!(decoded.is_none());
    assert!(ops.is_none());
    let symbols = SymbolSlab::from_bytes(Vec::new(), 1);
    assert!(solve_without_recording(rows, 1, symbols).0.is_none());
}

#[test]
fn empty_binary_system_with_a_column_has_no_unique_solution() {
    let rows = PackedBinaryRows::new(0, 1);
    let symbols = SymbolSlab::from_bytes(Vec::new(), 1);
    assert!(solve_binary(rows, symbols).0.is_none());
}

#[test]
fn empty_prefix_is_rank_deficient() {
    let matrix = DenseBinaryMatrix::new(1, 1);
    let prefix = SymbolSlab::from_bytes(Vec::new(), 1);
    match solve_full_rank_binary_prefix_owned(&matrix, 0, prefix, vec![7u8], 1) {
        FullRankBinaryPrefixSolve::RankDeficient { restored_symbols } => {
            assert_eq!(restored_symbols.as_bytes(), &[7u8][..]);
        }
        _ => panic!("an empty prefix cannot have full rank"),
    }
}

#[test]
fn mapped_rows_skip_the_hdpc_symbols() {
    assert_eq!(mapped_binary_symbol_row(1, 2, 3), 1);
    assert_eq!(mapped_binary_symbol_row(2, 2, 3), 5);
    // Symbols: binary 0, binary 1, hdpc 0, binary 2.
    let mut symbols = SymbolSlab::from_bytes(vec![1u8, 2, 4, 8], 1);
    addassign_mapped_binary_symbol_batch(&mut symbols, 0, &vec![1u16, 2], 2, 1);
    assert_eq!(symbols.as_bytes(), &[1u8, 3, 4, 9][..]);
}

#[test]
fn copied_rows_keep_their_coefficients() {
    let mut matrix = DenseBinaryMatrix::new(1, 4);
    matrix.set(0, 1, true);
    matrix.set(0, 3, true);
    assert_eq!(
        copy_binary_row(&matrix, 0),
        vec![(1u16, Octet::one()), (3u16, Octet::one())]
    );
    let mut hdpc = DenseOctetMatrix::new(1, 4);
    hdpc.set(0, 0, Octet::new(5));
    hdpc.set(0, 2, Octet::new(9));
    assert_eq!(
        copy_octet_row(&hdpc, 0),
        vec![(0u16, Octet::new(5)), (2u16, Octet::new(9))]
    );
}

#[test]
fn hdpc_rows_go_last_with_their_symbols() {
    // Two binary rows, one HDPC row; one LDPC row precedes the HDPC symbol.
    let mut matrix = DenseBinaryMatrix::new(2, 2);
    matrix.set(0, 0, true);
    matrix.set(1, 1, true);
    let mut hdpc = DenseOctetMatrix::new(1, 2);
    hdpc.set(0, 0, Octet::new(2));
    hdpc.set(0, 1, Octet::new(3));
    // Received: binary row 0, hdpc row 0, binary row 1.
    let symbols = SymbolSlab::from_bytes(vec![10u8, 20, 30], 1);
    let (rows, reordered) = coefficient_rows_with_hdpc_last(&matrix, &hdpc, symbols, 1);
    assert_eq!(rows.len(), 3);
    assert_eq!(rows[0], vec![(0u16, Octet::one())]);
    assert_eq!(rows[1], vec![(1u16, Octet::one())]);
    assert_eq!(rows[2], vec![(0u16, Octet::new(2)), (1u16, Octet::new(3))]);
    assert_eq!(reordered.as_bytes(), &[10u8, 30, 20][..]);
}
