use raptorq::gf2::read_le_bits;
use raptorq::gf2::valid_bit_mask;
use raptorq::gf2::PackedBinaryRows;
use raptorq::matrix::BinaryMatrix;
use raptorq::matrix::DenseBinaryMatrix;

#[test]
fn xor_suffix_preserves_lower_columns() {
    let rows = vec![vec![1, 3, 70], vec![0, 3, 64, 70]];
    let mut packed = PackedBinaryRows::from_sparse(rows, 96);

    packed.xor_suffix(1, 0, 3);

    assert!(packed.contains(1, 0));
    assert!(!packed.contains(1, 3));
    assert!(packed.contains(1, 64));
    assert!(!packed.contains(1, 70));
}

#[test]
fn xor_suffix_count_ones_returns_updated_suffix_weight() {
    let rows = vec![vec![1, 3, 70], vec![0, 3, 64, 70, 95]];
    let mut packed = PackedBinaryRows::from_sparse(rows, 96);

    let weight = packed.xor_suffix_count_ones(1, 0, 3);

    assert_eq!(weight, 2);
    assert!(packed.contains(1, 0));
    assert!(!packed.contains(1, 3));
    assert!(packed.contains(1, 64));
    assert!(!packed.contains(1, 70));
    assert!(packed.contains(1, 95));
}

#[test]
fn xor_suffix_count_ones_and_first_one_returns_combined_suffix_state() {
    let rows = vec![vec![1, 3, 70], vec![0, 3, 64, 70, 95]];
    let mut packed = PackedBinaryRows::from_sparse(rows, 96);

    let (weight, first_one) = packed.xor_suffix_count_ones_and_first_one(1, 0, 3);

    assert_eq!(weight, 2);
    assert_eq!(first_one, Some(64));
}

#[test]
fn first_one_scans_across_words() {
    let rows = vec![vec![1, 63, 64, 95]];
    let packed = PackedBinaryRows::from_sparse(rows, 96);

    assert_eq!(packed.first_one_at_or_after(0, 0), Some(1));
    assert_eq!(packed.first_one_at_or_after(0, 2), Some(63));
    assert_eq!(packed.first_one_at_or_after(0, 64), Some(64));
    assert_eq!(packed.first_one_at_or_after(0, 65), Some(95));
    assert_eq!(packed.first_one_at_or_after(0, 96), None);
}

#[test]
fn visit_ones_stays_inside_width() {
    let rows = vec![vec![62, 63, 64, 95]];
    let packed = PackedBinaryRows::from_sparse(rows, 96);
    let mut visited = Vec::new();

    for col in packed.visit_ones_at_or_after(0, 63) {
        visited.push(col);
    }

    assert_eq!(visited, vec![63, 64, 95]);
}

#[test]
fn weight_counts_suffix_bits() {
    let rows = vec![vec![1, 63, 64, 95]];
    let packed = PackedBinaryRows::from_sparse(rows, 96);

    assert_eq!(packed.weight_at_or_after(0, 0), 4);
    assert_eq!(packed.weight_at_or_after(0, 2), 3);
    assert_eq!(packed.weight_at_or_after(0, 64), 2);
    assert_eq!(packed.weight_at_or_after(0, 96), 0);
}

#[test]
fn column_xor_updates_weight_and_first_one() {
    let rows = vec![vec![0, 3, 65, 70, 95]];
    let mut packed = PackedBinaryRows::from_sparse(rows, 96);
    let cols = [3, 64, 70];

    let (weight, first_one) = packed.xor_columns_update_weight_and_first_one(0, &cols, 4);

    assert_eq!(weight, 3);
    assert_eq!(first_one, Some(64));
    assert!(packed.contains(0, 0));
    assert!(!packed.contains(0, 3));
    assert!(packed.contains(0, 64));
    assert!(packed.contains(0, 65));
    assert!(!packed.contains(0, 70));
    assert!(packed.contains(0, 95));
}

#[test]
fn u16_column_xor_updates_weight_and_first_one() {
    let rows = vec![vec![0, 3, 65, 70, 95]];
    let mut packed = PackedBinaryRows::from_sparse(rows, 96);
    let cols = [3u16, 64, 70];

    let (weight, first_one) = packed.xor_u16_columns_update_weight_and_first_one(0, &cols, 4);

    assert_eq!(weight, 3);
    assert_eq!(first_one, Some(64));
    assert!(packed.contains(0, 0));
    assert!(!packed.contains(0, 3));
    assert!(packed.contains(0, 64));
    assert!(packed.contains(0, 65));
    assert!(!packed.contains(0, 70));
    assert!(packed.contains(0, 95));
}

#[test]
fn u16_column_xor_can_reuse_known_row_state() {
    let rows = vec![vec![3, 8, 13]];
    let mut packed = PackedBinaryRows::from_sparse(rows, 32);
    let cols = [3u16, 5, 13, 21];

    let (weight, first_one) = packed.xor_u16_columns_apply_known_state(0, &cols, 3, Some(5));

    assert_eq!(weight, 3);
    assert_eq!(first_one, Some(5));
    assert!(!packed.contains(0, 3));
    assert!(packed.contains(0, 5));
    assert!(packed.contains(0, 8));
    assert!(!packed.contains(0, 13));
    assert!(packed.contains(0, 21));
}

#[test]
fn large_sparse_entries_pack_with_metadata() {
    const LARGE_ROWS: usize = 16_384;
    const MIDDLE_ROW: usize = 4_097;

    let mut rows = vec![Vec::new(); LARGE_ROWS];
    rows[0] = vec![70, 3];
    rows[MIDDLE_ROW] = vec![128, 1, 256];
    rows[LARGE_ROWS - 1] = vec![200];

    let (packed, row_weights, first_ones) =
        PackedBinaryRows::from_sparse_entries_with_row_weights_and_first_ones(257, &rows);

    assert_eq!(packed.height(), LARGE_ROWS);
    assert_eq!(packed.width(), 257);
    assert_eq!(row_weights[0], 2);
    assert_eq!(first_ones[0], Some(3));
    assert!(packed.contains(0, 3));
    assert!(packed.contains(0, 70));
    assert_eq!(row_weights[MIDDLE_ROW], 3);
    assert_eq!(first_ones[MIDDLE_ROW], Some(1));
    assert!(packed.contains(MIDDLE_ROW, 1));
    assert!(packed.contains(MIDDLE_ROW, 128));
    assert!(packed.contains(MIDDLE_ROW, 256));
    assert_eq!(row_weights[LARGE_ROWS - 1], 1);
    assert_eq!(first_ones[LARGE_ROWS - 1], Some(200));
    assert!(packed.contains(LARGE_ROWS - 1, 200));
}

#[test]
fn from_matrix_packs_visited_entries() {
    let mut matrix = DenseBinaryMatrix::new(2, 96);
    matrix.set(0, 1, true);
    matrix.set(0, 64, true);
    matrix.set(1, 3, true);
    matrix.set(1, 95, true);

    let packed = PackedBinaryRows::from_matrix(&matrix);

    assert_eq!(packed.width(), 96);
    assert_eq!(packed.height(), 2);
    assert!(packed.contains(0, 1));
    assert!(packed.contains(0, 64));
    assert!(packed.contains(1, 3));
    assert!(packed.contains(1, 95));
    assert!(!packed.contains(0, 95));
}

#[test]
fn set_and_is_zero_track_single_bits() {
    let mut packed = PackedBinaryRows::new(2, 130);
    assert!(packed.is_zero(0));
    packed.set(0, 129);
    assert!(!packed.is_zero(0));
    assert!(packed.is_zero(1));
    assert_eq!(packed.first_one_at_or_after(0, 0), Some(129));
    assert_eq!(packed.weight_at_or_after(0, 0), 1);
    packed.set_entries(1, &[0, 64, 128]);
    assert_eq!(packed.visit_ones_at_or_after(1, 1), vec![64, 128]);
}

#[test]
fn xor_suffix_twice_restores_the_row() {
    let rows = vec![vec![2, 5, 66, 100], vec![0, 5, 70]];
    let original = PackedBinaryRows::from_sparse(rows.clone(), 101);
    let mut packed = PackedBinaryRows::from_sparse(rows, 101);

    packed.xor_suffix(1, 0, 4);
    packed.xor_suffix(1, 0, 4);

    assert_eq!(packed, original);
}

#[test]
fn first_ones_only_metadata_matches_entries() {
    let rows = vec![vec![9, 4], Vec::new(), vec![63]];
    let (packed, first_ones) = PackedBinaryRows::from_sparse_entries_with_first_ones(64, &rows);
    assert_eq!(first_ones, vec![Some(4), None, Some(63)]);
    assert!(packed.contains(0, 9));
    assert!(packed.is_zero(1));
}

#[test]
fn read_le_bits_matches_reference_across_byte_offsets() {
    let bytes = (0u8..96)
        .map(|byte| byte.wrapping_mul(37).wrapping_add(11))
        .collect::<Vec<_>>();

    for start_bit in 0..256 {
        for valid_bits in 1..=u64::BITS as usize {
            let actual = read_le_bits(&bytes, start_bit, valid_bits);
            let expected = read_le_bits_reference(&bytes, start_bit, valid_bits);
            assert_eq!(
                actual, expected,
                "start_bit={start_bit}, valid_bits={valid_bits}"
            );
        }
    }
}

fn read_le_bits_reference(bytes: &[u8], start_bit: usize, valid_bits: usize) -> u64 {
    let mut bits = 0u64;
    for bit in 0..valid_bits {
        let source_bit = start_bit + bit;
        let byte = bytes[source_bit / u8::BITS as usize];
        let mask = 1u8 << (source_bit % u8::BITS as usize);
        if byte & mask != 0 {
            bits |= 1u64 << bit;
        }
    }
    bits
}

#[test]
fn valid_bit_mask_sets_low_bits() {
    assert_eq!(valid_bit_mask(1), 1);
    assert_eq!(valid_bit_mask(12), 0xfff);
    assert_eq!(valid_bit_mask(64), u64::MAX);
}

#[test]
fn read_le_bits_reads_across_a_byte_boundary() {
    // Bits 4..12 of [0xf0, 0x0a]: the high nibble of the first byte, then the low nibble 0xa.
    assert_eq!(read_le_bits(&[0xf0, 0x0a], 4, 8), 0xaf);
}
