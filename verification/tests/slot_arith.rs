use poulpy::slots::{build_factors, cmul, cmul_assign, cmul_scalar, scaled, scaled_pair};

#[test]
fn scaled_multiplies_every_entry() {
    assert_eq!(scaled(&[1, -2, 3], 4), vec![4, -8, 12]);
    assert_eq!(scaled(&[], 4), Vec::<i64>::new());
}

#[test]
fn scaled_pair_scales_both_parts() {
    assert_eq!(scaled_pair(&[1, 2], &[3], -2), (vec![-2, -4], vec![-6]));
}

#[test]
fn cmul_slot_products() {
    // (1 + 2i)(3 + 4i) = -5 + 10i ; (0 + 1i)(0 + 1i) = -1
    let (re, im) = cmul(&[1, 0], &[2, 1], &[3, 0], &[4, 1]);
    assert_eq!(re, vec![-5, -1]);
    assert_eq!(im, vec![10, 0]);
}

#[test]
fn cmul_commutes_on_example() {
    let a = (vec![3, -7, 2], vec![1, 5, -6]);
    let b = (vec![-4, 2, 9], vec![8, -3, 0]);
    assert_eq!(cmul(&a.0, &a.1, &b.0, &b.1), cmul(&b.0, &b.1, &a.0, &a.1));
}

#[test]
fn cmul_extreme_operands() {
    // (MIN + 0i)(1 + 0i) and (0 + MAX i)(0 - 1i): products at the edge of i64.
    let (re, im) = cmul(&[i64::MIN, 0], &[0, i64::MAX], &[1, 0], &[0, -1]);
    assert_eq!(re, vec![i64::MIN, i64::MAX]);
    assert_eq!(im, vec![0, 0]);
}

#[test]
fn cmul_uses_only_slots_of_first_operand() {
    let (re, im) = cmul(&[2], &[0, 9], &[3, 7], &[1, 8]);
    assert_eq!(re, vec![6]);
    assert_eq!(im, vec![2]);
}

#[test]
fn cmul_scalar_example() {
    // (1 + 1i)(2 - 3i) = 5 - 1i ; (0 - 2i)(2 - 3i) = -6 - 4i
    let (re, im) = cmul_scalar(&[1, 0], &[1, -2], 2, -3);
    assert_eq!(re, vec![5, -6]);
    assert_eq!(im, vec![-1, -4]);
}

#[test]
fn cmul_scalar_matches_cmul_with_constant_vector() {
    let a_re = [4, -1, 7];
    let a_im = [2, 3, -5];
    assert_eq!(cmul_scalar(&a_re, &a_im, -2, 6), cmul(&a_re, &a_im, &[-2, -2, -2], &[6, 6, 6]));
}

#[test]
fn cmul_assign_matches_cmul() {
    let mut acc_re = vec![1, 2, -3];
    let mut acc_im = vec![0, -1, 4];
    let (re, im) = (vec![5, 0, 2], vec![1, 1, -1]);
    let want = cmul(&acc_re, &acc_im, &re, &im);
    cmul_assign(&mut acc_re, &mut acc_im, &re, &im);
    assert_eq!((acc_re, acc_im), want);
}

#[test]
fn cmul_assign_leaves_extra_imaginary_slots() {
    let mut acc_re = vec![2];
    let mut acc_im = vec![1, 99];
    cmul_assign(&mut acc_re, &mut acc_im, &[3], &[0]);
    assert_eq!(acc_re, vec![6]);
    assert_eq!(acc_im, vec![3, 99]);
}

#[test]
fn build_factors_empty_product_is_one() {
    let (factors, re, im) = build_factors(&[4, 6], &[2, 8], &[1, 1], &[1, 1], 0);
    assert!(factors.is_empty());
    assert_eq!(re, vec![1, 1]);
    assert_eq!(im, vec![0, 0]);
}

#[test]
fn build_factors_halves_and_alternates() {
    let (factors, _, _) = build_factors(&[4, -6], &[2, 10], &[6, 2], &[-8, -2], 3);
    assert_eq!(factors.len(), 3);
    assert_eq!(factors[0], (vec![2, -3], vec![1, 5]));
    assert_eq!(factors[1], (vec![3, 1], vec![-4, -1]));
    assert_eq!(factors[2], factors[0]);
}

#[test]
fn build_factors_two_terms() {
    // a = (2 + 1i), b = (3 - 4i): a * b = 10 - 5i
    let (_, re, im) = build_factors(&[4], &[2], &[6], &[-8], 2);
    assert_eq!(re, vec![10]);
    assert_eq!(im, vec![-5]);
}

#[test]
fn build_factors_four_terms_is_square_of_pair() {
    // (a * b)^2 = (10 - 5i)^2 = 75 - 100i
    let (_, re, im) = build_factors(&[4], &[2], &[6], &[-8], 4);
    assert_eq!(re, vec![75]);
    assert_eq!(im, vec![-100]);
}

#[test]
fn build_factors_odd_tree() {
    // (a * b)^2 * a = (75 - 100i)(2 + 1i) = 250 - 125i
    let (factors, re, im) = build_factors(&[4], &[2], &[6], &[-8], 5);
    assert_eq!(factors.len(), 5);
    assert_eq!(re, vec![250]);
    assert_eq!(im, vec![-125]);
}

#[test]
fn build_factors_single_factor() {
    let (_, re, im) = build_factors(&[-6, 8], &[2, -2], &[], &[], 1);
    assert_eq!(re, vec![-3, 4]);
    assert_eq!(im, vec![1, -1]);
}
