use poulpy::glwe::{Glwe, Module};

fn glwe(n: usize, data: Vec<Vec<Vec<i64>>>) -> Glwe {
    Glwe::from_data(n, data).expect("well shaped")
}

fn columns(g: &Glwe) -> Vec<Vec<Vec<i64>>> {
    let mut out = Vec::new();
    for c in 0..=g.rank() {
        let mut col = Vec::new();
        for l in 0..g.size() {
            col.push((0..g.n()).map(|j| g.coeff(c, l, j)).collect::<Vec<i64>>());
        }
        out.push(col);
    }
    out
}

#[test]
fn from_data_checks_shape() {
    assert!(Glwe::from_data(2, vec![]).is_none());
    assert!(Glwe::from_data(0, vec![vec![]]).is_none());
    assert!(Glwe::from_data(2, vec![vec![vec![1, 2]], vec![]]).is_none());
    assert!(Glwe::from_data(2, vec![vec![vec![1, 2]], vec![vec![1]]]).is_none());
    let g = Glwe::from_data(2, vec![vec![vec![1, 2]], vec![vec![3, 4]]]).unwrap();
    assert_eq!((g.n(), g.rank(), g.size()), (2, 1, 1));
    assert_eq!(g.coeff(1, 0, 1), 4);
}

#[test]
fn zero_has_requested_shape() {
    let g = Glwe::zero(4, 2, 3);
    assert_eq!((g.n(), g.rank(), g.size()), (4, 2, 3));
    assert_eq!(columns(&g), vec![vec![vec![0; 4]; 3]; 3]);
}

#[test]
fn glwe_rotate_same_shape() {
    let m = Module::new(4);
    let a = glwe(4, vec![vec![vec![1, 2, 3, 4]], vec![vec![5, 6, 7, 8]]]);
    let mut res = Glwe::zero(4, 1, 1);
    m.glwe_rotate(1, &mut res, &a);
    assert_eq!(columns(&res), vec![vec![vec![-4, 1, 2, 3]], vec![vec![-8, 5, 6, 7]]]);
}

#[test]
fn glwe_rotate_clears_extra_limbs_and_columns() {
    let m = Module::new(2);
    // rank 0 source with one limb, rank 1 destination with two limbs
    let a = glwe(2, vec![vec![vec![1, 2]]]);
    let mut res = glwe(2, vec![vec![vec![9, 9], vec![9, 9]], vec![vec![9, 9], vec![9, 9]]]);
    m.glwe_rotate(1, &mut res, &a);
    assert_eq!(
        columns(&res),
        vec![vec![vec![-2, 1], vec![0, 0]], vec![vec![0, 0], vec![0, 0]]]
    );
}

#[test]
fn glwe_rotate_into_fewer_limbs() {
    let m = Module::new(2);
    let a = glwe(2, vec![vec![vec![1, 2], vec![3, 4]]]);
    let mut res = Glwe::zero(2, 0, 1);
    m.glwe_rotate(-1, &mut res, &a);
    assert_eq!(columns(&res), vec![vec![vec![2, -1]]]);
}

#[test]
fn glwe_rotate_assign_round_trip() {
    let m = Module::new(4);
    let data = vec![vec![vec![1, -2, 3, -4], vec![0, 7, 0, 7]], vec![vec![9, 8, 7, 6], vec![-1, -1, -1, -1]]];
    let mut g = glwe(4, data.clone());
    m.glwe_rotate_assign(3, &mut g);
    assert_eq!(g.coeff(0, 0, 0), 2);
    m.glwe_rotate_assign(-3, &mut g);
    assert_eq!(columns(&g), data);
}

#[test]
fn glwe_rotate_assign_matches_rotate_into_same_shape() {
    let m = Module::new(4);
    let data = vec![vec![vec![1, 2, 3, 4]], vec![vec![-1, 0, 1, 2]]];
    let a = glwe(4, data.clone());
    let mut res = Glwe::zero(4, 1, 1);
    m.glwe_rotate(6, &mut res, &a);
    let mut g = glwe(4, data);
    m.glwe_rotate_assign(6, &mut g);
    assert_eq!(columns(&res), columns(&g));
}

#[test]
fn glwe_mul_xp_minus_one_example() {
    let m = Module::new(4);
    let a = glwe(4, vec![vec![vec![1, 2, 3, 4]], vec![vec![0, 0, 0, 1]]]);
    let mut res = glwe(4, vec![vec![vec![5; 4], vec![5; 4]], vec![vec![5; 4], vec![5; 4]]]);
    m.glwe_mul_xp_minus_one(1, &mut res, &a);
    assert_eq!(
        columns(&res),
        vec![vec![vec![-5, -1, -1, -1], vec![0; 4]], vec![vec![-1, 0, 0, -1], vec![0; 4]]]
    );
}

#[test]
fn glwe_mul_xp_minus_one_assign_example() {
    let m = Module::new(2);
    let mut g = glwe(2, vec![vec![vec![1, 2]], vec![vec![3, 4]]]);
    m.glwe_mul_xp_minus_one_assign(1, &mut g);
    // X * (1 + 2X) = -2 + X ; minus (1 + 2X) = -3 - X
    assert_eq!(columns(&g), vec![vec![vec![-3, -1]], vec![vec![-7, -1]]]);
}

#[test]
fn glwe_mul_x0_minus_one_assign_clears() {
    let m = Module::new(2);
    let mut g = glwe(2, vec![vec![vec![1, 2]]]);
    m.glwe_mul_xp_minus_one_assign(0, &mut g);
    assert_eq!(columns(&g), vec![vec![vec![0, 0]]]);
}

#[test]
fn glwe_rotate_keeps_min_coefficients_that_do_not_wrap() {
    let m = Module::new(2);
    let a = glwe(2, vec![vec![vec![i64::MIN, 4]]]);
    let mut res = Glwe::zero(2, 0, 1);
    m.glwe_rotate(0, &mut res, &a);
    assert_eq!(columns(&res), vec![vec![vec![i64::MIN, 4]]]);
    let mut g = glwe(2, vec![vec![vec![i64::MIN, 4]]]);
    m.glwe_rotate_assign(1, &mut g);
    assert_eq!(columns(&g), vec![vec![vec![-4, i64::MIN]]]);
}

#[test]
fn glwe_rotate_round_trip_through_two_calls() {
    let m = Module::new(4);
    let a = glwe(4, vec![vec![vec![1, 2, 3, 4], vec![-5, 6, -7, 8]], vec![vec![0, 1, 0, 1], vec![9, 9, 9, 9]]]);
    let mut r1 = Glwe::zero(4, 1, 2);
    let mut r2 = Glwe::zero(4, 1, 2);
    m.glwe_rotate(5, &mut r1, &a);
    m.glwe_rotate(-5, &mut r2, &r1);
    assert_eq!(columns(&r2), columns(&a));
}
