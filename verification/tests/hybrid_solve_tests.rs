use raptorq::hybrid_solve::try_hybrid_binary_hdpc_solve;
use raptorq::matrix::BinaryMatrix;
use raptorq::matrix::DenseBinaryMatrix;
use raptorq::octet::Octet;
use raptorq::octet_matrix::DenseOctetMatrix;
use raptorq::symbol_slab::SymbolSlab;

fn binary_matrix(width: usize, rows: &[&[usize]]) -> DenseBinaryMatrix {
    let mut matrix = DenseBinaryMatrix::new(rows.len(), width);
    for (row, cols) in rows.iter().enumerate() {
        for &col in cols.iter() {
            matrix.set(row, col, true);
        }
    }
    matrix
}

fn hdpc_matrix(rows: &[&[u8]]) -> DenseOctetMatrix {
    let mut matrix = DenseOctetMatrix::new(rows.len(), rows[0].len());
    for (row, values) in rows.iter().enumerate() {
        for (col, &value) in values.iter().enumerate() {
            matrix.set(row, col, Octet::new(value));
        }
    }
    matrix
}

fn mul(a: u8, b: u8) -> u8 {
    (Octet::new(a) * Octet::new(b)).value()
}

#[test]
fn hybrid_solve_fills_the_free_column_from_the_hdpc_row() {
    // Binary rows x0 + x1 and x1 leave column 2 free; the HDPC row 1*x0 + 2*x1 + 3*x2 fixes it.
    let matrix = binary_matrix(3, &[&[0, 1], &[1]]);
    let hdpc = hdpc_matrix(&[&[1, 2, 3]]);
    let x = [5u8, 7, 11];
    let hdpc_symbol = mul(1, x[0]) ^ mul(2, x[1]) ^ mul(3, x[2]);
    // Received order: the first binary symbol, the HDPC symbol, the second binary symbol.
    let symbols = SymbolSlab::from_bytes(vec![x[0] ^ x[1], hdpc_symbol, x[1]], 1);
    let decoded = try_hybrid_binary_hdpc_solve(&matrix, &hdpc, &symbols, 1).expect("unique solution");
    assert_eq!(decoded.as_bytes(), &x[..]);
}

#[test]
fn hybrid_solve_refuses_more_free_columns_than_hdpc_rows() {
    let matrix = binary_matrix(3, &[&[0]]);
    let hdpc = hdpc_matrix(&[&[1, 1, 1]]);
    let symbols = SymbolSlab::from_bytes(vec![1u8, 2], 1);
    assert!(try_hybrid_binary_hdpc_solve(&matrix, &hdpc, &symbols, 1).is_none());
}

#[test]
fn hybrid_solve_refuses_inconsistent_binary_rows() {
    let matrix = binary_matrix(2, &[&[0], &[0]]);
    let hdpc = hdpc_matrix(&[&[1, 1]]);
    let symbols = SymbolSlab::from_bytes(vec![1u8, 0, 2], 1);
    assert!(try_hybrid_binary_hdpc_solve(&matrix, &hdpc, &symbols, 1).is_none());
}

#[test]
fn overdetermined_full_rank_binary_rows_are_checked_against_the_hdpc_rows() {
    // Binary rows x0 and x1 fix the solution; the HDPC row x0 + x1 must vanish on it.
    let matrix = binary_matrix(2, &[&[0], &[1]]);
    let hdpc = hdpc_matrix(&[&[1, 1]]);
    let symbols = SymbolSlab::from_bytes(vec![3u8, 0, 3], 1);
    let decoded = try_hybrid_binary_hdpc_solve(&matrix, &hdpc, &symbols, 1).expect("solution");
    assert_eq!(decoded.as_bytes(), &[3u8, 3][..]);
    let symbols = SymbolSlab::from_bytes(vec![3u8, 0, 4], 1);
    assert!(try_hybrid_binary_hdpc_solve(&matrix, &hdpc, &symbols, 1).is_none());
}
