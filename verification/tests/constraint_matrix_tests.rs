use raptorq::constraint_matrix::enc_indices;

#[test]
fn enc_indices_steps_lt_and_skips_pi_values_past_the_pi_range() {
    // LT: 1, 3, (3 + 2) mod 5 = 0. PI from 4 by 3 modulo 7: 4 is skipped, 0 is taken; then
    // 3 and 6 are skipped and 2 is taken. PI columns follow the 5 LT columns.
    let indices = enc_indices((3, 2, 1, 2, 3, 4), 5, 3, 7);
    assert_eq!(indices, vec![1, 3, 0, 5, 7]);
}

#[test]
fn enc_indices_visits_one_lt_column_when_d_is_zero() {
    let indices = enc_indices((0, 0, 2, 1, 1, 0), 5, 3, 7);
    assert_eq!(indices, vec![2, 5]);
}
