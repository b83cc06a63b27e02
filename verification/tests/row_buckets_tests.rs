use raptorq::octet::Octet;
use raptorq::pi_solver::coefficient_col;
use raptorq::row_buckets::pop_lightest_coefficient_row_bucket;
use raptorq::row_buckets::pop_lightest_non_singleton_coefficient_row_bucket;
use raptorq::row_buckets::pop_lightest_weighted_binary_row_bucket;
use raptorq::row_buckets::pop_row_bucket;
use raptorq::row_buckets::push_row_bucket;
use raptorq::row_buckets::small_weight_binary_bucket_index;
use raptorq::row_buckets::SmallWeightBinaryBuckets;
use raptorq::row_buckets::DECODE_SMALL_WEIGHT_BINARY_BUCKET_MAX;
use raptorq::row_buckets::NO_BUCKET_ROW;
use raptorq::row_buckets::PLAN_SMALL_WEIGHT_BINARY_BUCKET_MAX;

#[test]
fn non_singleton_bucket_preserves_unit_tie_break_at_min_suffix() {
    let rows = vec![
        vec![
            (coefficient_col(0), Octet::new(7)),
            (coefficient_col(2), Octet::one()),
        ],
        vec![
            (coefficient_col(0), Octet::one()),
            (coefficient_col(1), Octet::one()),
        ],
    ];
    let mut bucket_heads = vec![NO_BUCKET_ROW; 1];
    let mut next_in_bucket = vec![NO_BUCKET_ROW; rows.len()];

    push_row_bucket(&mut bucket_heads, &mut next_in_bucket, 0, 1);
    push_row_bucket(&mut bucket_heads, &mut next_in_bucket, 0, 0);

    assert_eq!(
        pop_lightest_non_singleton_coefficient_row_bucket(
            &rows,
            &mut bucket_heads,
            &mut next_in_bucket,
            0,
        ),
        Some((1, Octet::one()))
    );
}

#[test]
fn weighted_binary_bucket_returns_head_singleton_without_scan() {
    let row_weights = vec![1, 3];
    let mut bucket_heads = vec![1];
    let mut next_in_bucket = vec![NO_BUCKET_ROW, NO_BUCKET_ROW];
    let mut small_weight_buckets =
        SmallWeightBinaryBuckets::<u16>::new(1, DECODE_SMALL_WEIGHT_BINARY_BUCKET_MAX);
    assert!(small_weight_buckets.push(&mut next_in_bucket, 0, 0, row_weights[0]));

    assert_eq!(
        pop_lightest_weighted_binary_row_bucket(
            &row_weights,
            &mut bucket_heads,
            &mut small_weight_buckets,
            &mut next_in_bucket,
            0,
        ),
        Some(0)
    );
    assert_eq!(bucket_heads[0], 1);
    assert_eq!(small_weight_buckets.nonempty_mask(0), 0);
    assert_eq!(next_in_bucket[0], NO_BUCKET_ROW);
}

#[test]
fn weighted_binary_bucket_returns_small_weight_before_general_chain() {
    let row_weights = vec![12, 7, 9];
    let mut bucket_heads = vec![2];
    let mut next_in_bucket = vec![NO_BUCKET_ROW, NO_BUCKET_ROW, NO_BUCKET_ROW];
    let mut small_weight_buckets =
        SmallWeightBinaryBuckets::<u16>::new(1, DECODE_SMALL_WEIGHT_BINARY_BUCKET_MAX);
    assert!(small_weight_buckets.push(&mut next_in_bucket, 0, 1, row_weights[1]));

    assert_eq!(
        pop_lightest_weighted_binary_row_bucket(
            &row_weights,
            &mut bucket_heads,
            &mut small_weight_buckets,
            &mut next_in_bucket,
            0,
        ),
        Some(1)
    );
    assert_eq!(bucket_heads[0], 2);
    assert_eq!(small_weight_buckets.nonempty_mask(0), 0);
    assert_eq!(next_in_bucket[1], NO_BUCKET_ROW);
}

#[test]
fn buckets_are_last_in_first_out() {
    let mut heads = vec![NO_BUCKET_ROW; 2];
    let mut next = vec![NO_BUCKET_ROW; 3];
    push_row_bucket(&mut heads, &mut next, 1, 0);
    push_row_bucket(&mut heads, &mut next, 1, 2);
    assert_eq!(heads, vec![NO_BUCKET_ROW, 2]);
    assert_eq!(next, vec![NO_BUCKET_ROW, NO_BUCKET_ROW, 0]);
    assert_eq!(pop_row_bucket(&mut heads, &mut next, 1), Some(2));
    assert_eq!(pop_row_bucket(&mut heads, &mut next, 1), Some(0));
    assert_eq!(pop_row_bucket(&mut heads, &mut next, 1), None);
    assert_eq!(pop_row_bucket(&mut heads, &mut next, 0), None);
    assert_eq!(next, vec![NO_BUCKET_ROW; 3]);
}

#[test]
fn lightest_pop_takes_the_shortest_row_and_relinks() {
    let one = Octet::one();
    let rows = vec![
        vec![(0, one), (3, one), (4, one)],
        vec![(0, Octet::new(5)), (2, one)],
        vec![(0, one), (1, one)],
        vec![(0, one), (6, one), (7, one)],
    ];
    let mut heads = vec![NO_BUCKET_ROW];
    let mut next = vec![NO_BUCKET_ROW; 4];
    for row in [3, 2, 1, 0] {
        push_row_bucket(&mut heads, &mut next, 0, row);
    }
    // List order 0, 1, 2, 3: rows 1 and 2 are shortest, row 2 has the unit lead.
    assert_eq!(
        pop_lightest_coefficient_row_bucket(&rows, &mut heads, &mut next, 0),
        Some((2, one))
    );
    assert_eq!(heads[0], 0);
    assert_eq!(next[1], 3);
    assert_eq!(next[2], NO_BUCKET_ROW);
    assert_eq!(
        pop_lightest_coefficient_row_bucket(&rows, &mut heads, &mut next, 0),
        Some((1, Octet::new(5)))
    );
    assert_eq!(
        pop_lightest_coefficient_row_bucket(&rows, &mut heads, &mut next, 0),
        Some((0, one))
    );
    assert_eq!(
        pop_lightest_coefficient_row_bucket(&rows, &mut heads, &mut next, 0),
        Some((3, one))
    );
    assert_eq!(
        pop_lightest_coefficient_row_bucket(&rows, &mut heads, &mut next, 0),
        None
    );
}

#[test]
fn single_entry_row_wins_at_once() {
    let rows = vec![vec![(0, Octet::one()), (1, Octet::one())], vec![(0, Octet::new(9))]];
    let mut heads = vec![NO_BUCKET_ROW];
    let mut next = vec![NO_BUCKET_ROW; 2];
    push_row_bucket(&mut heads, &mut next, 0, 1);
    push_row_bucket(&mut heads, &mut next, 0, 0);
    assert_eq!(
        pop_lightest_coefficient_row_bucket(&rows, &mut heads, &mut next, 0),
        Some((1, Octet::new(9)))
    );
    assert_eq!(heads[0], 0);
}

#[test]
fn small_weight_index_covers_one_to_max() {
    assert_eq!(small_weight_binary_bucket_index(0, 16), None);
    assert_eq!(small_weight_binary_bucket_index(1, 16), Some(0));
    assert_eq!(small_weight_binary_bucket_index(16, 16), Some(15));
    assert_eq!(small_weight_binary_bucket_index(17, 16), None);
    assert_eq!(PLAN_SMALL_WEIGHT_BINARY_BUCKET_MAX, 31);
}

#[test]
fn small_weight_buckets_pop_lightest_first() {
    let weights = vec![5, 2, 40];
    let mut next = vec![NO_BUCKET_ROW; 3];
    let mut buckets = SmallWeightBinaryBuckets::<u32>::new(2, PLAN_SMALL_WEIGHT_BINARY_BUCKET_MAX);
    assert!(buckets.push(&mut next, 1, 0, weights[0]));
    assert!(buckets.push(&mut next, 1, 1, weights[1]));
    assert!(!buckets.push(&mut next, 1, 2, weights[2]));
    assert_eq!(buckets.nonempty_mask(1), (1 << 4) | (1 << 1));
    assert_eq!(buckets.pop_lightest(&mut next, 1, &weights), Some(1));
    assert_eq!(buckets.pop_any(&mut next, 1), Some(0));
    assert_eq!(buckets.pop_any(&mut next, 1), None);
    assert_eq!(buckets.nonempty_mask(1), 0);
    assert_eq!(buckets.nonempty_mask(0), 0);
}
