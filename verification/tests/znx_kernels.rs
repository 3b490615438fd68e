use poulpy::znx::{znx_mul_xp_minus_one, znx_rotate};

#[test]
fn rotate_by_one_wraps_with_sign_flip() {
    assert_eq!(znx_rotate(1, &[1, 2, 3, 4]), vec![-4, 1, 2, 3]);
}

#[test]
fn rotate_by_minus_one() {
    assert_eq!(znx_rotate(-1, &[1, 2, 3, 4]), vec![2, 3, 4, -1]);
}

#[test]
fn rotate_by_degree_negates() {
    assert_eq!(znx_rotate(4, &[1, -2, 3, 0]), vec![-1, 2, -3, 0]);
}

#[test]
fn rotate_by_twice_degree_is_identity() {
    assert_eq!(znx_rotate(8, &[5, 6, 7, 8]), vec![5, 6, 7, 8]);
    assert_eq!(znx_rotate(-16, &[5, 6, 7, 8]), vec![5, 6, 7, 8]);
}

#[test]
fn rotate_large_negative_shift() {
    // -13 is congruent to 3 modulo 8.
    assert_eq!(znx_rotate(-13, &[1, 2, 3, 4]), znx_rotate(3, &[1, 2, 3, 4]));
    assert_eq!(znx_rotate(3, &[1, 2, 3, 4]), vec![-2, -3, -4, 1]);
}

#[test]
fn rotate_extreme_shifts() {
    let a = [1, 2, 3, 4, 5];
    let r = znx_rotate(i64::MIN, &a);
    // i64::MIN is congruent to 2 modulo 10.
    assert_eq!(r, znx_rotate(2, &a));
    assert_eq!(znx_rotate(i64::MAX, &a), znx_rotate(7, &a));
}

#[test]
fn rotate_compose_and_inverse() {
    let a = [3, -1, 4, -1, 5, -9];
    let once = znx_rotate(5, &a);
    let twice = znx_rotate(4, &once);
    assert_eq!(twice, znx_rotate(9, &a));
    assert_eq!(znx_rotate(-5, &once), a.to_vec());
}

#[test]
fn rotate_empty_and_single() {
    assert_eq!(znx_rotate(3, &[]), Vec::<i64>::new());
    assert_eq!(znx_rotate(1, &[7]), vec![-7]);
    assert_eq!(znx_rotate(2, &[7]), vec![7]);
}

#[test]
fn mul_xp_minus_one_example() {
    assert_eq!(znx_mul_xp_minus_one(1, &[1, 2, 3, 4]), vec![-5, -1, -1, -1]);
}

#[test]
fn mul_x0_minus_one_is_zero() {
    assert_eq!(znx_mul_xp_minus_one(0, &[1, 2, 3, 4]), vec![0, 0, 0, 0]);
    assert_eq!(znx_mul_xp_minus_one(8, &[1, 2, 3, 4]), vec![0, 0, 0, 0]);
}

#[test]
fn rotate_keeps_min_where_nothing_wraps() {
    assert_eq!(znx_rotate(0, &[i64::MIN]), vec![i64::MIN]);
    assert_eq!(znx_rotate(1, &[i64::MIN, 5]), vec![-5, i64::MIN]);
    assert_eq!(znx_rotate(2, &[i64::MIN]), vec![i64::MIN]);
}

#[test]
fn mul_xp_minus_one_with_wide_intermediate() {
    // X * a = [-MIN, 1, -1]: its first coefficient does not fit in an i64,
    // but (X - 1) * a = [-MIN - 1, 1 + 1, -1 - MIN] does.
    assert_eq!(znx_mul_xp_minus_one(1, &[1, -1, i64::MIN]), vec![i64::MAX, 2, i64::MAX]);
}
