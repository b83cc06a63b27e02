use raptorq::bucketed_solve::solve_without_recording_bucketed;
use raptorq::octet::Octet;
use raptorq::pi_solver::solve_without_recording_scan;
use raptorq::pi_solver::CoefficientRow;
use raptorq::symbol_slab::SymbolSlab;

fn small_system() -> (Vec<CoefficientRow>, SymbolSlab) {
    // Rows out of order, with non-unit leading coefficients and a row that needs two
    // eliminations before it settles.
    let rows: Vec<CoefficientRow> = vec![
        vec![(1, Octet::new(3)), (2, Octet::new(9))],
        vec![(0, Octet::new(5)), (1, Octet::new(1)), (3, Octet::new(4))],
        vec![(2, Octet::new(7)), (3, Octet::new(1))],
        vec![(0, Octet::new(2)), (3, Octet::new(6))],
    ];
    let x = [Octet::new(0x21), Octet::new(0x42), Octet::new(0x84), Octet::new(0x15)];
    let mut bytes = Vec::new();
    for row in &rows {
        let mut value = Octet::zero();
        for &(col, coefficient) in row {
            value = value + coefficient * x[col as usize];
        }
        bytes.push(value.value());
    }
    (rows, SymbolSlab::from_bytes(bytes, 1))
}

#[test]
fn bucketed_solver_matches_scanning_solver() {
    let (rows, symbols) = small_system();
    let (bucketed, ops) = solve_without_recording_bucketed(rows.clone(), 4, symbols.clone());
    let (scanned, _) = solve_without_recording_scan(rows, 4, symbols);
    assert!(ops.is_none());
    assert_eq!(bucketed.unwrap().as_bytes(), &[0x21, 0x42, 0x84, 0x15]);
    assert_eq!(scanned.unwrap().as_bytes(), &[0x21, 0x42, 0x84, 0x15]);
}

#[test]
fn bucketed_solver_rejects_missing_pivot() {
    let rows: Vec<CoefficientRow> = vec![
        vec![(0, Octet::new(1)), (1, Octet::new(2))],
        vec![(0, Octet::new(2)), (1, Octet::new(4))],
        vec![(2, Octet::new(1))],
    ];
    let symbols = SymbolSlab::from_bytes(vec![1, 2, 3], 1);
    let (decoded, ops) = solve_without_recording_bucketed(rows, 3, symbols);
    assert!(decoded.is_none());
    assert!(ops.is_none());
}

#[test]
fn bucketed_solver_checks_rows_left_without_pivot() {
    let rows: Vec<CoefficientRow> = vec![
        vec![(0, Octet::new(1))],
        vec![(1, Octet::new(1))],
        vec![(0, Octet::new(1)), (1, Octet::new(1))],
    ];
    let consistent = SymbolSlab::from_bytes(vec![5, 6, 3], 1);
    let (decoded, _) = solve_without_recording_bucketed(rows.clone(), 2, consistent);
    assert_eq!(decoded.unwrap().as_bytes(), &[5, 6]);

    let inconsistent = SymbolSlab::from_bytes(vec![5, 6, 4], 1);
    let (decoded, _) = solve_without_recording_bucketed(rows, 2, inconsistent);
    assert!(decoded.is_none());
}
