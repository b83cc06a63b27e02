use raptorq::binary_solve::addassign_packed_row_sources_to_symbol;
use raptorq::binary_solve::addassign_symbol_row_batch;
use raptorq::binary_solve::addassign_symbol_source_batch;
use raptorq::binary_solve::eliminate_weighted_binary_row;
use raptorq::binary_solve::solve_binary;
use raptorq::binary_solve::solve_binary_with_initial_metadata;
use raptorq::binary_solve::solve_binary_with_weighted_metadata;
use raptorq::binary_solve::SmallBinaryRowCache;
use raptorq::binary_solve::LARGE_BINARY_WEIGHTED_BUCKET_MIN_WIDTH;
use raptorq::gf2::PackedBinaryRows;
use raptorq::symbol_slab::SymbolSlab;

fn rows_from(width: usize, entries: &[&[usize]]) -> PackedBinaryRows {
    let mut rows = PackedBinaryRows::new(entries.len(), width);
    for (row, cols) in entries.iter().enumerate() {
        for &col in cols.iter() {
            rows.set(row, col);
        }
    }
    rows
}

fn xor_of(symbols: &[Vec<u8>], cols: &[usize]) -> Vec<u8> {
    let mut out = vec![0u8; symbols[0].len()];
    for &col in cols {
        for (o, b) in out.iter_mut().zip(symbols[col].iter()) {
            *o ^= *b;
        }
    }
    out
}

#[test]
fn binary_solve_accepts_precomputed_weight_metadata() {
    let width = LARGE_BINARY_WEIGHTED_BUCKET_MIN_WIDTH;
    let mut rows = PackedBinaryRows::new(width, width);
    let mut row_weights = Vec::with_capacity(width);
    let mut first_ones = Vec::with_capacity(width);
    for col in 0..width {
        rows.set(col, col);
        row_weights.push(1);
        first_ones.push(Some(col));
    }
    let expected = (0..width)
        .map(|col| (col as u8).wrapping_mul(19).wrapping_add(7))
        .collect::<Vec<_>>();
    let symbols = SymbolSlab::from_bytes(expected.clone(), 1);

    let (decoded, ops) = solve_binary_with_weighted_metadata(rows, symbols, row_weights, first_ones);

    assert_eq!(decoded.unwrap().as_bytes(), expected.as_slice());
    assert!(ops.is_none());
}

#[test]
fn binary_solve_recovers_triangular_system() {
    // x0 ^ x1 ^ x2 = s0, x1 ^ x2 = s1, x2 = s2
    let x = vec![vec![0x11u8, 0x22], vec![0x0f, 0xf0], vec![0xaa, 0x55]];
    let rows_entries: &[&[usize]] = &[&[0, 1, 2], &[1, 2], &[2]];
    let rows = rows_from(3, rows_entries);
    let mut bytes = Vec::new();
    for cols in rows_entries {
        bytes.extend_from_slice(&xor_of(&x, cols));
    }
    let symbols = SymbolSlab::from_bytes(bytes, 2);
    let (decoded, ops) = solve_binary(rows, symbols);
    let decoded = decoded.unwrap();
    assert!(ops.is_none());
    for col in 0..3 {
        assert_eq!(decoded.get(col), x[col].as_slice());
    }
}

#[test]
fn binary_solve_recovers_permuted_dense_system() {
    let x = vec![vec![1u8], vec![2], vec![4], vec![8]];
    let rows_entries: &[&[usize]] = &[&[1, 3], &[0, 1], &[2, 3], &[0, 1, 2, 3], &[3]];
    let rows = rows_from(4, rows_entries);
    let mut bytes = Vec::new();
    for cols in rows_entries {
        bytes.extend_from_slice(&xor_of(&x, cols));
    }
    let symbols = SymbolSlab::from_bytes(bytes, 1);
    let (decoded, _) = solve_binary(rows, symbols);
    assert_eq!(decoded.unwrap().as_bytes(), &[1, 2, 4, 8]);
}

#[test]
fn binary_solve_rejects_rank_deficient_system() {
    let rows = rows_from(3, &[&[0, 1], &[0, 1], &[2]]);
    let symbols = SymbolSlab::from_bytes(vec![3, 3, 4], 1);
    let (decoded, ops) = solve_binary(rows, symbols);
    assert!(decoded.is_none());
    assert!(ops.is_none());
}

#[test]
fn binary_solve_rejects_inconsistent_extra_row() {
    let rows = rows_from(2, &[&[0], &[1], &[0, 1]]);
    let symbols = SymbolSlab::from_bytes(vec![5, 6, 0], 1);
    let (decoded, _) = solve_binary(rows, symbols);
    assert!(decoded.is_none());
}

#[test]
fn binary_solve_accepts_consistent_extra_row() {
    let rows = rows_from(2, &[&[0], &[1], &[0, 1]]);
    let symbols = SymbolSlab::from_bytes(vec![5, 6, 3], 1);
    let (decoded, _) = solve_binary(rows, symbols);
    assert_eq!(decoded.unwrap().as_bytes(), &[5, 6]);
}

#[test]
fn binary_solve_rejects_empty_row_with_nonzero_symbol() {
    let rows = rows_from(1, &[&[0], &[]]);
    let symbols = SymbolSlab::from_bytes(vec![9, 1], 1);
    let (decoded, _) = solve_binary(rows, symbols);
    assert!(decoded.is_none());
}

#[test]
fn weighted_and_plain_buckets_decode_the_same() {
    // Each row is a unit column plus the next few columns, so elimination has work to do.
    let width = 70;
    let mut entries: Vec<Vec<usize>> = Vec::new();
    for col in 0..width {
        let mut cols = vec![col];
        for step in [1usize, 3, 7] {
            if col + step < width {
                cols.push(col + step);
            }
        }
        entries.push(cols);
    }
    let x: Vec<Vec<u8>> = (0..width).map(|c| vec![(c as u8).wrapping_mul(37) ^ 0x5a]).collect();
    let build = || {
        let mut rows = PackedBinaryRows::new(width, width);
        let mut weights = Vec::new();
        let mut first_ones = Vec::new();
        let mut bytes = Vec::new();
        for (row, cols) in entries.iter().enumerate() {
            for &c in cols {
                rows.set(row, c);
            }
            weights.push(cols.len() as u32);
            first_ones.push(Some(cols[0]));
            bytes.extend_from_slice(&xor_of(&x, cols));
        }
        (rows, SymbolSlab::from_bytes(bytes, 1), weights, first_ones)
    };
    let (rows, symbols, weights, first_ones) = build();
    let (weighted, _) = solve_binary_with_initial_metadata(rows, symbols, weights, first_ones, true);
    let (rows, symbols, _, first_ones) = build();
    let (plain, _) = solve_binary_with_initial_metadata(rows, symbols, Vec::new(), first_ones, false);
    let expected: Vec<u8> = x.iter().map(|s| s[0]).collect();
    assert_eq!(weighted.unwrap().as_bytes(), expected.as_slice());
    assert_eq!(plain.unwrap().as_bytes(), expected.as_slice());
}

#[test]
fn symbol_row_batch_adds_source_into_each_destination() {
    let mut symbols = SymbolSlab::from_bytes(vec![1, 2, 4, 8], 1);
    addassign_symbol_row_batch::<false>(&mut symbols, 0, &vec![1, 3]);
    assert_eq!(symbols.as_bytes(), &[1, 3, 4, 9]);
}

#[test]
fn symbol_row_batch_skips_zero_source_when_checking() {
    let mut symbols = SymbolSlab::from_bytes(vec![0, 2, 4], 1);
    addassign_symbol_row_batch::<true>(&mut symbols, 0, &vec![1, 2]);
    assert_eq!(symbols.as_bytes(), &[0, 2, 4]);
}

#[test]
fn symbol_source_batch_sums_sources_into_destination() {
    let mut symbols = SymbolSlab::from_bytes(vec![1, 2, 4, 8], 1);
    addassign_symbol_source_batch(&mut symbols, 3, &vec![0, 1, 2]);
    assert_eq!(symbols.as_bytes(), &[1, 2, 4, 15]);
}

#[test]
fn packed_row_sources_add_later_set_columns() {
    let rows = rows_from(4, &[&[0, 2, 3]]);
    let mut decoded = SymbolSlab::from_bytes(vec![1, 2, 4, 8], 1);
    addassign_packed_row_sources_to_symbol(&rows, 0, 1, &mut decoded, 0);
    assert_eq!(decoded.as_bytes(), &[1 ^ 4 ^ 8, 2, 4, 8]);
}

#[test]
fn weighted_row_elimination_updates_weight_and_first_one() {
    let mut rows = rows_from(8, &[&[2, 3, 6], &[2, 4]]);
    let mut weights = vec![3u32, 2];
    let mut cache = SmallBinaryRowCache::new(2);
    let next = eliminate_weighted_binary_row::<16>(&mut rows, &mut weights, &mut cache, 1, 0, 2, 3);
    assert_eq!(next, Some(3));
    assert_eq!(weights[1], 3);
    assert!(!rows.contains(1, 2));
    assert!(rows.contains(1, 3));
    assert!(rows.contains(1, 4));
    assert!(rows.contains(1, 6));
    // A heavy pivot takes the word-by-word path with the same result.
    let mut rows = rows_from(8, &[&[2, 3, 6], &[2, 4]]);
    let mut weights = vec![3u32, 2];
    let mut cache = SmallBinaryRowCache::new(2);
    let next = eliminate_weighted_binary_row::<1>(&mut rows, &mut weights, &mut cache, 1, 0, 2, 3);
    assert_eq!(next, Some(3));
    assert_eq!(weights[1], 3);
}
