use raptorq::octet::Octet;
use raptorq::octet_matrix::DenseOctetMatrix;
use raptorq::operation_vector::perform_op;
use raptorq::pi_solver::add_normalized_binary_short_matrix_row;
use raptorq::pi_solver::add_scaled_binary_matrix_row;
use raptorq::pi_solver::add_scaled_coefficient;
use raptorq::pi_solver::add_scaled_matrix_row;
use raptorq::pi_solver::add_scaled_normalized_short_matrix_row;
use raptorq::pi_solver::add_scaled_short_matrix_row;
use raptorq::pi_solver::coefficient_col;
use raptorq::pi_solver::direct_decode_back_substitution_layout;
use raptorq::pi_solver::use_direct_collect_sources_by_dest;
use raptorq::pi_solver::DirectBackSubstitutionLayout;
use raptorq::pi_solver::DIRECT_DECODE_SOURCE_BATCH_BACK_SUBSTITUTION_MIN_WIDTH;
use raptorq::pi_solver::DIRECT_SOURCE_BATCH_DIRECT_COLLECT_MIN_WIDTH;
use raptorq::pi_solver::coefficient_col_index;
use raptorq::pi_solver::hdpc_rows_satisfied;
use raptorq::pi_solver::hdpc_rows_satisfied_column_major;
use raptorq::pi_solver::hdpc_rows_satisfied_row_major;
use raptorq::pi_solver::solve;
use raptorq::pi_solver::solve_recording_triangular;
use raptorq::pi_solver::solve_without_recording;
use raptorq::pi_solver::CoefficientRow;
use raptorq::pi_solver::OperationRecording;
use raptorq::pi_solver::COEFFICIENT_BUCKET_SOLVER_MIN_WIDTH;
use raptorq::pi_solver::TRIANGULAR_RECORDING_MIN_WIDTH;
use raptorq::symbol_slab::SymbolSlab;

#[test]
fn column_major_hdpc_verification_matches_row_major() {
    let mut hdpc_rows = DenseOctetMatrix::new(3, 4);
    hdpc_rows.row_mut(0).copy_from_slice(&[
        Octet::new(2),
        Octet::zero(),
        Octet::new(9),
        Octet::one(),
    ]);
    hdpc_rows.row_mut(1).copy_from_slice(&[
        Octet::zero(),
        Octet::new(7),
        Octet::new(11),
        Octet::new(5),
    ]);
    hdpc_rows.row_mut(2).copy_from_slice(&[
        Octet::new(3),
        Octet::one(),
        Octet::zero(),
        Octet::new(13),
    ]);

    let decoded = SymbolSlab::from_bytes(vec![0x10, 0x21, 0x32, 0x43, 0x54, 0x65, 0x76, 0x87], 2);

    assert_eq!(
        hdpc_rows_satisfied_column_major(&decoded, &hdpc_rows),
        hdpc_rows_satisfied_row_major(&decoded, &hdpc_rows)
    );
    assert!(!hdpc_rows_satisfied_column_major(&decoded, &hdpc_rows));

    let zero_decoded = SymbolSlab::with_zeros(4, 2);
    assert!(hdpc_rows_satisfied_column_major(&zero_decoded, &hdpc_rows));
}

#[test]
fn operation_recording_solver_records_for_supported_width() {
    let width = 64usize;
    let rows: Vec<CoefficientRow> = (0..width)
        .map(|col| vec![(coefficient_col(col), Octet::one())])
        .collect();
    let symbols = SymbolSlab::with_zeros(width, 1);

    let (decoded, ops) = solve(rows, width, symbols, OperationRecording::Record);

    assert!(decoded.is_some());
    assert!(ops.is_some());
}

#[test]
fn triangular_recording_solves_and_replays_wide_system() {
    let width = TRIANGULAR_RECORDING_MIN_WIDTH;
    let mut rows: Vec<CoefficientRow> = (0..width)
        .map(|col| vec![(coefficient_col(col), Octet::one())])
        .collect();
    rows[0] = vec![(0, Octet::one()), (1, Octet::new(3)), (7, Octet::new(11))];
    rows[1] = vec![(0, Octet::one()), (1, Octet::new(2)), (2, Octet::new(5))];

    let expected = (0..width)
        .map(|index| Octet::new((index as u8).wrapping_mul(37).wrapping_add(11)))
        .collect::<Vec<_>>();
    let rhs = rows
        .iter()
        .map(|row| {
            row.iter()
                .fold(Octet::zero(), |acc, &(col, value)| {
                    acc + value * expected[coefficient_col_index(col)]
                })
                .value()
        })
        .collect::<Vec<_>>();
    let symbols = SymbolSlab::from_bytes(rhs, 1);

    let (decoded, ops) = solve_recording_triangular(rows, width, symbols.clone());

    let expected_bytes = expected.iter().map(|value| value.value()).collect::<Vec<_>>();
    assert_eq!(decoded.unwrap().as_bytes(), expected_bytes.as_slice());

    let mut replayed = symbols;
    for op in ops.unwrap() {
        perform_op(&op, &mut replayed);
    }
    assert_eq!(replayed.as_bytes(), expected_bytes.as_slice());
}

#[test]
fn non_recording_solver_back_substitutes_non_unit_pivots() {
    let x0 = Octet::new(0x11);
    let x1 = Octet::new(0x22);
    let x2 = Octet::new(0x33);
    let rows = vec![
        vec![(0, Octet::new(5)), (1, Octet::new(2)), (2, Octet::new(3))],
        vec![(1, Octet::new(7)), (2, Octet::new(4))],
        vec![(2, Octet::new(9))],
    ];
    let symbols = SymbolSlab::from_bytes(
        vec![
            (Octet::new(5) * x0 + Octet::new(2) * x1 + Octet::new(3) * x2).value(),
            (Octet::new(7) * x1 + Octet::new(4) * x2).value(),
            (Octet::new(9) * x2).value(),
        ],
        1,
    );

    let (decoded, ops) = solve(rows, 3, symbols, OperationRecording::Skip);

    assert_eq!(
        decoded.unwrap(),
        SymbolSlab::from_bytes(vec![x0.value(), x1.value(), x2.value()], 1)
    );
    assert!(ops.is_none());
}

#[test]
fn scaled_binary_matrix_row_matches_unit_coefficient_merge() {
    let src_cols = vec![0, 2, 5, 8];
    let src_row = src_cols
        .iter()
        .map(|&col| (coefficient_col(col), Octet::one()))
        .collect::<Vec<_>>();

    for scalar in [Octet::one(), Octet::new(7)] {
        let dest = vec![
            (0, scalar),
            (1, Octet::new(3)),
            (4, Octet::new(9)),
            (5, Octet::new(2)),
            (9, Octet::new(11)),
        ];
        let mut generic = dest.clone();
        let mut binary = dest;
        let mut generic_scratch = Vec::new();
        let mut binary_scratch = Vec::new();

        add_scaled_matrix_row(&mut generic, &src_row, 0, scalar, &mut generic_scratch);
        add_scaled_binary_matrix_row(&mut binary, &src_cols, scalar, &mut binary_scratch);

        assert_eq!(binary, generic);
    }
}

#[test]
fn short_matrix_row_merge_matches_generic_merge() {
    let src = vec![
        (0, Octet::one()),
        (2, Octet::new(5)),
        (5, Octet::new(9)),
        (8, Octet::new(11)),
    ];
    for scalar in [Octet::one(), Octet::new(7)] {
        let dest = vec![
            (0, scalar),
            (1, Octet::new(3)),
            (2, Octet::new(7)),
            (5, Octet::new(63)),
            (9, Octet::new(13)),
        ];
        let mut generic = dest.clone();
        let mut short = dest;
        let mut scratch = Vec::new();

        add_scaled_matrix_row(&mut generic, &src, 0, scalar, &mut scratch);
        add_scaled_short_matrix_row(&mut short, &src, 0, scalar);

        assert_eq!(short, generic);
    }
}

#[test]
fn normalized_short_matrix_row_matches_generic_merge() {
    let src = vec![(2, Octet::one()), (4, Octet::new(17)), (8, Octet::new(91))];

    for scalar in [Octet::one(), Octet::new(11)] {
        let dest = vec![
            (2, scalar),
            (4, Octet::new(19)),
            (5, Octet::new(7)),
            (9, Octet::new(13)),
        ];
        let mut generic = dest.clone();
        let mut short = dest;
        let mut scratch = Vec::new();

        add_scaled_matrix_row(&mut generic, &src, 2, scalar, &mut scratch);
        add_scaled_normalized_short_matrix_row(&mut short, &src, 2, scalar);

        assert_eq!(short, generic);
    }

    let cases = [
        (
            vec![(2, Octet::one()), (3, Octet::new(3)), (8, Octet::new(9))],
            vec![(2, Octet::one()), (4, Octet::new(5))],
            Octet::one(),
        ),
        (
            vec![(2, Octet::new(11)), (3, Octet::new(3))],
            vec![(2, Octet::one()), (8, Octet::new(5))],
            Octet::new(11),
        ),
        (
            vec![(2, Octet::one()), (4, Octet::new(5)), (8, Octet::new(9))],
            vec![(2, Octet::one()), (4, Octet::new(5))],
            Octet::one(),
        ),
    ];

    for (dest, src, scalar) in cases {
        let mut generic = dest.clone();
        let mut short = dest;
        let mut scratch = Vec::new();

        add_scaled_matrix_row(&mut generic, &src, 2, scalar, &mut scratch);
        add_scaled_normalized_short_matrix_row(&mut short, &src, 2, scalar);

        assert_eq!(short, generic);
    }
}

#[test]
fn sparse_source_matrix_row_merge_matches_dense_projection() {
    let scalar = Octet::new(7);
    let mut dest = (0..128)
        .map(|col| (coefficient_col(col), Octet::new((col % 251 + 1) as u8)))
        .collect::<Vec<_>>();
    let src = vec![
        (0, Octet::one()),
        (5, Octet::new(11)),
        (31, Octet::new(17)),
        (64, Octet::new(19)),
        (127, Octet::new(23)),
    ];
    let mut expected_coefficients = dest.iter().map(|&(_, value)| value).collect::<Vec<_>>();
    let mut scratch = Vec::new();

    add_scaled_matrix_row(&mut dest, &src, 0, scalar, &mut scratch);
    for &(col, value) in &src {
        let col = coefficient_col_index(col);
        expected_coefficients[col] = expected_coefficients[col] + value * scalar;
    }
    let expected = expected_coefficients
        .into_iter()
        .enumerate()
        .filter_map(|(col, value)| (!value.is_zero()).then_some((coefficient_col(col), value)))
        .collect::<Vec<_>>();

    assert_eq!(dest, expected);
}

#[test]
fn normalized_binary_matrix_row_matches_generic_merge() {
    let one = Octet::one();
    let cases = [
        (vec![(2, one)], vec![(2, one), (5, one)]),
        (vec![(2, one), (3, one)], vec![(2, one), (5, one)]),
        (vec![(2, one), (9, one)], vec![(2, one), (5, one)]),
        (
            vec![(2, one), (5, one), (7, one)],
            vec![(2, one), (5, one), (8, one)],
        ),
    ];

    for (src, dest) in cases {
        let mut generic = dest.clone();
        let mut binary_short = dest;
        let mut scratch = Vec::new();

        add_scaled_matrix_row(&mut generic, &src, 2, one, &mut scratch);
        add_normalized_binary_short_matrix_row(&mut binary_short, &src);

        assert_eq!(binary_short, generic);
    }
}

fn bucketed_rebucket_system(inconsistent: bool) -> (Vec<CoefficientRow>, SymbolSlab, [Octet; 3]) {
    let width = COEFFICIENT_BUCKET_SOLVER_MIN_WIDTH;
    let x0 = Octet::new(0x11);
    let x1 = Octet::new(0x22);
    let x2 = Octet::new(0x33);
    let one = Octet::one();

    let mut rows = Vec::with_capacity(width + 1);
    rows.push(vec![(0, one)]);
    rows.push(vec![(0, one), (1, one), (2, one)]);
    rows.push(vec![(1, Octet::new(7))]);
    for col in 3..width {
        rows.push(vec![(coefficient_col(col), one)]);
    }
    rows.push(vec![(0, one), (2, one)]);

    let mut redundant_symbol = x0 + x2;
    if inconsistent {
        redundant_symbol = redundant_symbol + one;
    }
    let mut symbol_bytes = Vec::with_capacity(width + 1);
    symbol_bytes.push(x0.value());
    symbol_bytes.push((x0 + x1 + x2).value());
    symbol_bytes.push((Octet::new(7) * x1).value());
    symbol_bytes.extend(std::iter::repeat(0).take(width - 3));
    symbol_bytes.push(redundant_symbol.value());
    let symbols = SymbolSlab::from_bytes(symbol_bytes, 1);

    (rows, symbols, [x0, x1, x2])
}

#[test]
fn bucketed_non_recording_solver_rebuckets_eliminated_rows() {
    let width = COEFFICIENT_BUCKET_SOLVER_MIN_WIDTH;
    let (rows, symbols, [x0, x1, x2]) = bucketed_rebucket_system(false);

    let (decoded, ops) = solve(rows, width, symbols, OperationRecording::Skip);

    let decoded = decoded.unwrap();
    assert_eq!(decoded.get(0), &[x0.value()]);
    assert_eq!(decoded.get(1), &[x1.value()]);
    assert_eq!(decoded.get(2), &[x2.value()]);
    assert!(ops.is_none());
}

#[test]
fn bucketed_non_recording_solver_rejects_inconsistent_rebucketed_row() {
    let width = COEFFICIENT_BUCKET_SOLVER_MIN_WIDTH;
    let (rows, symbols, _) = bucketed_rebucket_system(true);

    let (decoded, ops) = solve(rows, width, symbols, OperationRecording::Skip);

    assert!(decoded.is_none());
    assert!(ops.is_none());
}

#[test]
fn scaled_coefficient_add_ignores_zero_source() {
    let mut dest = 0x5a;

    add_scaled_coefficient(&mut dest, 0, Octet::new(7));

    assert_eq!(dest, 0x5a);
}

#[test]
fn scaled_coefficient_add_multiplies_nonzero_source() {
    let mut dest = 0x01;
    add_scaled_coefficient(&mut dest, 0x80, Octet::new(2));
    assert_eq!(dest, 0x1c);
}

#[test]
fn recording_solve_replays_to_the_solution() {
    let x = [Octet::new(0x31), Octet::new(0x42), Octet::new(0x53)];
    let rows: Vec<CoefficientRow> = vec![
        vec![(1, Octet::new(4)), (2, Octet::one())],
        vec![(0, Octet::new(3)), (2, Octet::new(6))],
        vec![(0, Octet::one()), (1, Octet::one()), (2, Octet::one())],
        vec![(1, Octet::new(4)), (2, Octet::one())],
    ];
    let rhs = rows
        .iter()
        .map(|row| {
            row.iter()
                .fold(Octet::zero(), |acc, &(col, v)| acc + v * x[col as usize])
                .value()
        })
        .collect::<Vec<_>>();
    let symbols = SymbolSlab::from_bytes(rhs, 1);

    let (decoded, ops) = solve(rows.clone(), 3, symbols.clone(), OperationRecording::Record);
    let decoded = decoded.unwrap();
    assert_eq!(decoded.as_bytes(), &[x[0].value(), x[1].value(), x[2].value()]);

    let mut replayed = symbols.clone();
    for op in ops.unwrap() {
        perform_op(&op, &mut replayed);
    }
    assert_eq!(&replayed.as_bytes()[..3], decoded.as_bytes());

    let (plain, plain_ops) = solve_without_recording(rows, 3, symbols);
    assert_eq!(plain.unwrap(), decoded);
    assert!(plain_ops.is_none());
}

#[test]
fn rank_deficient_system_is_rejected() {
    let rows: Vec<CoefficientRow> = vec![
        vec![(0, Octet::one()), (1, Octet::one())],
        vec![(0, Octet::new(2)), (1, Octet::new(2))],
    ];
    let symbols = SymbolSlab::from_bytes(vec![1, 2], 1);
    let (decoded, ops) = solve(rows.clone(), 2, symbols.clone(), OperationRecording::Record);
    assert!(decoded.is_none());
    assert!(ops.is_none());
    let (decoded, ops) = solve(rows, 2, symbols, OperationRecording::Skip);
    assert!(decoded.is_none());
    assert!(ops.is_none());
}

#[test]
fn hdpc_check_dispatches_to_the_same_answer() {
    let mut hdpc_rows = DenseOctetMatrix::new(1, 2);
    hdpc_rows.set(0, 0, Octet::new(3));
    hdpc_rows.set(0, 1, Octet::one());
    // 3 * 0x01 + 0x03 = 0.
    let satisfied = SymbolSlab::from_bytes(vec![0x01, 0x03], 1);
    assert!(hdpc_rows_satisfied(&satisfied, &hdpc_rows));
    assert!(hdpc_rows_satisfied_row_major(&satisfied, &hdpc_rows));
    let unsatisfied = SymbolSlab::from_bytes(vec![0x01, 0x02], 1);
    assert!(!hdpc_rows_satisfied(&unsatisfied, &hdpc_rows));
}

#[test]
fn source_batched_decode_plan_starts_at_large_width() {
    assert!(matches!(
        direct_decode_back_substitution_layout(
            DIRECT_DECODE_SOURCE_BATCH_BACK_SUBSTITUTION_MIN_WIDTH - 1
        ),
        DirectBackSubstitutionLayout::DestsBySource
    ));
    assert!(matches!(
        direct_decode_back_substitution_layout(DIRECT_DECODE_SOURCE_BATCH_BACK_SUBSTITUTION_MIN_WIDTH),
        DirectBackSubstitutionLayout::SourcesByDest
    ));
}

#[test]
fn direct_collect_source_batches_stays_on_square_source_by_dest_plans() {
    let width = DIRECT_SOURCE_BATCH_DIRECT_COLLECT_MIN_WIDTH;
    let h = 10;
    let square_binary_height = width - h;

    assert!(use_direct_collect_sources_by_dest(
        width,
        square_binary_height,
        h,
        DirectBackSubstitutionLayout::SourcesByDest
    ));
    assert!(!use_direct_collect_sources_by_dest(
        width - 1,
        square_binary_height - 1,
        h,
        DirectBackSubstitutionLayout::SourcesByDest
    ));
    assert!(!use_direct_collect_sources_by_dest(
        width,
        square_binary_height + 1,
        h,
        DirectBackSubstitutionLayout::SourcesByDest
    ));
    assert!(!use_direct_collect_sources_by_dest(
        width,
        square_binary_height,
        h,
        DirectBackSubstitutionLayout::DestsBySource
    ));
}

#[test]
fn mid_band_decode_plans_group_by_destination() {
    assert_eq!(direct_decode_back_substitution_layout(1_499), DirectBackSubstitutionLayout::DestsBySource);
    assert_eq!(direct_decode_back_substitution_layout(1_500), DirectBackSubstitutionLayout::SourcesByDest);
    assert_eq!(direct_decode_back_substitution_layout(2_499), DirectBackSubstitutionLayout::SourcesByDest);
    assert_eq!(direct_decode_back_substitution_layout(2_500), DirectBackSubstitutionLayout::DestsBySource);
}
