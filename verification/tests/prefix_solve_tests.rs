use raptorq::matrix::BinaryMatrix;
use raptorq::matrix::DenseBinaryMatrix;
use raptorq::prefix_solve::solve_full_rank_binary_prefix_owned;
use raptorq::prefix_solve::FullRankBinaryPrefixSolve;
use raptorq::symbol_slab::SymbolSlab;

fn matrix_from(width: usize, rows: &[&[usize]]) -> DenseBinaryMatrix {
    let mut matrix = DenseBinaryMatrix::new(rows.len(), width);
    for (row, cols) in rows.iter().enumerate() {
        for &col in cols.iter() {
            matrix.set(row, col, true);
        }
    }
    matrix
}

#[test]
fn full_rank_prefix_decodes_and_hands_back_the_suffix() {
    // Rows: x0 + x1, x1, x0 (the last row is past the prefix).
    let matrix = matrix_from(2, &[&[0, 1], &[1], &[0]]);
    let x0 = [0x12u8, 0x34];
    let x1 = [0x0fu8, 0xf0];
    let prefix = SymbolSlab::from_bytes(
        vec![x0[0] ^ x1[0], x0[1] ^ x1[1], x1[0], x1[1]],
        2,
    );
    let suffix = vec![x0[0], x0[1]];
    match solve_full_rank_binary_prefix_owned(&matrix, 2, prefix, suffix.clone(), 2) {
        FullRankBinaryPrefixSolve::Decoded { decoded, suffix_bytes } => {
            assert_eq!(decoded.get(0), &x0[..]);
            assert_eq!(decoded.get(1), &x1[..]);
            assert_eq!(suffix_bytes, suffix);
        }
        _ => panic!("expected a decoded prefix"),
    }
}

#[test]
fn rank_deficient_prefix_restores_symbols_and_appends_suffix() {
    // The first two rows are equal, so after one is added into the other column 1 has
    // no pivot; that addition is undone before the symbols are handed back.
    let matrix = matrix_from(3, &[&[0, 1], &[0, 1], &[2], &[1]]);
    let prefix = SymbolSlab::from_bytes(vec![1u8, 2, 3, 4, 5, 6], 2);
    let suffix = vec![9u8, 8];
    match solve_full_rank_binary_prefix_owned(&matrix, 3, prefix, suffix, 2) {
        FullRankBinaryPrefixSolve::RankDeficient { restored_symbols } => {
            assert_eq!(restored_symbols.as_bytes(), &[1u8, 2, 3, 4, 5, 6, 9, 8][..]);
            assert_eq!(restored_symbols.symbol_size(), 2);
        }
        _ => panic!("expected a rank deficient prefix"),
    }
}

#[test]
fn inconsistent_prefix_fails() {
    // Rows x0, x1, x0 with different symbols for the two x0 rows.
    let matrix = matrix_from(2, &[&[0], &[1], &[0]]);
    let prefix = SymbolSlab::from_bytes(vec![1u8, 2, 3, 4, 5, 6], 2);
    assert!(matches!(
        solve_full_rank_binary_prefix_owned(&matrix, 3, prefix, Vec::new(), 2),
        FullRankBinaryPrefixSolve::Failed
    ));
}

#[test]
fn consistent_repeated_prefix_row_decodes() {
    let matrix = matrix_from(2, &[&[0], &[1], &[0]]);
    let prefix = SymbolSlab::from_bytes(vec![1u8, 2, 3, 4, 1, 2], 2);
    match solve_full_rank_binary_prefix_owned(&matrix, 3, prefix, Vec::new(), 2) {
        FullRankBinaryPrefixSolve::Decoded { decoded, suffix_bytes } => {
            assert_eq!(decoded.get(0), &[1u8, 2][..]);
            assert_eq!(decoded.get(1), &[3u8, 4][..]);
            assert!(suffix_bytes.is_empty());
        }
        _ => panic!("expected a decoded prefix"),
    }
}
