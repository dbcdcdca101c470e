use matrix::Matrix;
use matrix::MatrixError;
use matrix::Scalar;
use matrix::Vector;

/// Single-precision scalar for exercising the library with floating-point
/// data, as the demo programs do.
#[derive(Clone, Copy, Debug, PartialEq, PartialOrd)]
struct F(f32);

impl Scalar for F {
    fn spec_zero() -> F {
        F(0.0)
    }
    fn spec_one() -> F {
        F(1.0)
    }
    fn spec_add(a: F, b: F) -> F {
        F(a.0 + b.0)
    }
    fn spec_sub(a: F, b: F) -> F {
        F(a.0 - b.0)
    }
    fn spec_mul(a: F, b: F) -> F {
        F(a.0 * b.0)
    }
    fn spec_div(a: F, b: F) -> F {
        F(a.0 / b.0)
    }
    fn spec_neg(a: F) -> F {
        F(-a.0)
    }
    fn spec_mul_add(a: F, b: F, c: F) -> F {
        F(a.0 * b.0 + c.0)
    }
    fn spec_abs_gt(a: F, b: F) -> bool {
        a.0.abs() > b.0.abs()
    }
    fn law_mul_add_comm(_a: F, _b: F, _c: F) {
    }
    fn law_mul_add_zero(_b: F, _c: F) {
    }
    fn law_neg_zero() {
    }
    fn law_div_one(_a: F) {
    }
    fn law_abs_gt_zero(_a: F) {
    }
    fn law_one_nonzero() {
    }
    fn law_div_self(_a: F) {
    }
    fn law_mul_add_cancel(_a: F) {
    }
    fn law_abs_gt_faithful(_a: F) {
    }
    fn law_abs_asym(_a: F, _b: F) {
    }
    fn law_abs_no_gt_trans(_a: F, _b: F, _c: F) {
    }
    fn zero() -> F {
        F(0.0)
    }
    fn one() -> F {
        F(1.0)
    }
    fn add(self, o: F) -> F {
        F(self.0 + o.0)
    }
    fn sub(self, o: F) -> F {
        F(self.0 - o.0)
    }
    fn mul(self, o: F) -> F {
        F(self.0 * o.0)
    }
    fn div(self, o: F) -> F {
        F(self.0 / o.0)
    }
    fn neg(self) -> F {
        F(-self.0)
    }
    fn mul_add(self, a: F, b: F) -> F {
        F(self.0 * a.0 + b.0)
    }
    fn eq_zero(self) -> bool {
        self.0 == 0.0
    }
    fn abs_gt(self, o: F) -> bool {
        self.0.abs() > o.0.abs()
    }
}

fn vf(xs: &[f32]) -> Vector<F> {
    Vector::new(xs.iter().map(|&x| F(x)).collect())
}

fn mf(rows: &[&[f32]]) -> Matrix<F> {
    Matrix::new(rows.iter().map(|r| r.iter().map(|&x| F(x)).collect()).collect())
}

fn assert_approx_eq(a: f32, b: f32) {
    assert!((a - b).abs() < 1e-6, "left: {} right: {}", a, b);
}

#[test]
fn test_vector_add() {
    let mut v1 = vf(&[2., 3.]);
    let v2 = vf(&[5., 7.]);
    Vector::add(&mut v1, &v2);
    assert_eq!(v1.data, vec![F(7.), F(10.)]);
}

#[test]
fn test_vector_sub() {
    let mut v1 = vf(&[2., 3.]);
    let v2 = vf(&[5., 7.]);
    Vector::sub(&mut v1, &v2);
    assert_eq!(v1.data, vec![F(-3.), F(-4.)]);
}

#[test]
fn test_vector_scl() {
    let mut v1 = vf(&[2., 3.]);
    Vector::scl(&mut v1, F(2.));
    assert_eq!(v1.data, vec![F(4.), F(6.)]);
}

#[test]
fn test_vector_linear_combination() {
    let vs1 = [vf(&[1., 0., 0.]), vf(&[0., 1., 0.]), vf(&[0., 0., 1.])];
    let vs2 = [vf(&[1., 2., 3.]), vf(&[0., 10., -100.])];
    let coefs1 = [F(10.), F(-2.), F(0.5)];
    let coefs2 = [F(10.), F(-2.)];
    let result1 = Vector::linear_combination(&vs1, &coefs1);
    let result2 = Vector::linear_combination(&vs2, &coefs2);
    assert_eq!(result1.data, vec![F(10.), F(-2.), F(0.5)]);
    assert_eq!(result2.data, vec![F(10.), F(-0.), F(230.)]);
}

#[test]
fn test_vector_dot_product() {
    let v1 = vf(&[0., 0.]);
    let v2 = vf(&[1., 1.]);
    assert_eq!(v1.dot(v2), F(0.0));

    let v1 = vf(&[1., 1.]);
    let v2 = vf(&[1., 1.]);
    assert_eq!(v1.dot(v2), F(2.0));

    let v1 = vf(&[-1., 6.]);
    let v2 = vf(&[3., 2.]);
    assert_eq!(v1.dot(v2), F(9.0));
}

#[test]
fn test_vector_cross_product() {
    let u = vf(&[0., 0., 1.]);
    let v = vf(&[1., 0., 0.]);
    let result = Vector::cross_product(&u, &v);
    assert_eq!(result.data, vec![F(0.), F(1.), F(0.)]);

    let u = vf(&[1., 2., 3.]);
    let v = vf(&[4., 5., 6.]);
    let result = Vector::cross_product(&u, &v);
    assert_eq!(result.data, vec![F(-3.), F(6.), F(-3.)]);

    let u = vf(&[4., 2., -3.]);
    let v = vf(&[-2., -5., 16.]);
    let result = Vector::cross_product(&u, &v);
    assert_eq!(result.data, vec![F(17.), F(-58.), F(-16.)]);
}

#[test]
fn test_matrix_addition() {
    let mut m1 = mf(&[&[1., 2.], &[3., 4.]]);
    let m2 = mf(&[&[5., 6.], &[7., 8.]]);
    Matrix::add(&mut m1, &m2);
    assert_eq!(m1.data, vec![vec![F(6.), F(8.)], vec![F(10.), F(12.)]]);
}

#[test]
fn test_matrix_subtraction() {
    let mut m1 = mf(&[&[1., 2.], &[3., 4.]]);
    let m2 = mf(&[&[5., 6.], &[7., 8.]]);
    Matrix::sub(&mut m1, &m2);
    assert_eq!(m1.data, vec![vec![F(-4.), F(-4.)], vec![F(-4.), F(-4.)]]);
}

#[test]
fn test_matrix_scalar_multiplication() {
    let mut m1 = mf(&[&[1., 2.], &[3., 4.]]);
    Matrix::scl(&mut m1, F(2.));
    assert_eq!(m1.data, vec![vec![F(2.), F(4.)], vec![F(6.), F(8.)]]);
}

#[test]
fn test_matrix_mul_mat() {
    let u = mf(&[&[1., 0.], &[0., 1.]]);
    let v = mf(&[&[1., 0.], &[0., 1.]]);
    let result = u.mul_mat(v);
    assert_eq!(result.data, vec![vec![F(1.), F(0.)], vec![F(0.), F(1.)]]);

    let u = mf(&[&[1., 0.], &[0., 1.]]);
    let v = mf(&[&[2., 1.], &[4., 2.]]);
    let result = u.mul_mat(v);
    assert_eq!(result.data, vec![vec![F(2.), F(1.)], vec![F(4.), F(2.)]]);

    let u = mf(&[&[3., -5.], &[6., 8.]]);
    let v = mf(&[&[2., 1.], &[4., 2.]]);
    let result = u.mul_mat(v);
    assert_eq!(result.data, vec![vec![F(-14.), F(-7.)], vec![F(44.), F(22.)]]);
}

#[test]
fn test_matrix_mul_vec() {
    let u = mf(&[&[1., 0.], &[0., 1.]]);
    let v = vf(&[4., 2.]);
    let result = u.mul_vec(v);
    assert_eq!(result.data, vec![vec![F(4.)], vec![F(2.)]]);

    let u = mf(&[&[2., 0.], &[0., 2.]]);
    let v = vf(&[4., 2.]);
    let result = u.mul_vec(v);
    assert_eq!(result.data, vec![vec![F(8.)], vec![F(4.)]]);

    let u = mf(&[&[2., -2.], &[-2., 2.]]);
    let v = vf(&[4., 2.]);
    let result = u.mul_vec(v);
    assert_eq!(result.data, vec![vec![F(4.)], vec![F(-4.)]]);
}

#[test]
fn test_matrix_trace() {
    let u = mf(&[&[1., 0.], &[0., 1.]]);
    assert_eq!(u.trace(), F(2.0));

    let u = mf(&[&[2., -5., 0.], &[4., 3., 7.], &[-2., 3., 4.]]);
    assert_eq!(u.trace(), F(9.0));

    let u = mf(&[&[-2., -8., 4.], &[1., -23., 4.], &[0., 6., 4.]]);
    assert_eq!(u.trace(), F(-21.0));
}

#[test]
fn test_matrix_transpose() {
    let m = mf(&[&[1., 2., 3.], &[4., 5., 6.]]);
    let t = m.transpose();
    let expected = mf(&[&[1., 4.], &[2., 5.], &[3., 6.]]);
    assert_eq!(t.data, expected.data);
}

#[test]
fn test_matrix_row_echelon() {
    let u = mf(&[&[1., 0., 0.], &[0., 1., 0.], &[0., 0., 1.]]);
    let echelon = u.row_echelon();
    let expected = mf(&[&[1., 0., 0.], &[0., 1., 0.], &[0., 0., 1.]]);
    for i in 0..3 {
        for j in 0..3 {
            assert_approx_eq(echelon.data[i][j].0, expected.data[i][j].0);
        }
    }

    let u = mf(&[&[1., 2.], &[3., 4.]]);
    let echelon = u.row_echelon();
    let expected = mf(&[&[1., 0.], &[0., 1.]]);
    for i in 0..2 {
        for j in 0..2 {
            assert_approx_eq(echelon.data[i][j].0, expected.data[i][j].0);
        }
    }

    let u = mf(&[&[1., 2.], &[2., 4.]]);
    let echelon = u.row_echelon();
    let expected = mf(&[&[1., 2.], &[0., 0.]]);
    for i in 0..2 {
        for j in 0..2 {
            assert_approx_eq(echelon.data[i][j].0, expected.data[i][j].0);
        }
    }

    let u = mf(&[
        &[8., 5., -2., 4., 28.],
        &[4., 2.5, 20., 4., -4.],
        &[8., 5., 1., 4., 17.],
    ]);
    let echelon = u.row_echelon();
    let expected = mf(&[
        &[1., 0.625, 0., 0., -12.166667],
        &[0., 0., 1., 0., -3.6666667],
        &[0., 0., 0., 1., 29.5],
    ]);
    for i in 0..3 {
        for j in 0..5 {
            assert_approx_eq(echelon.data[i][j].0, expected.data[i][j].0);
        }
    }
}

#[test]
fn test_matrix_determinant() {
    let u = mf(&[&[1., -1.], &[-1., 1.]]);
    assert_approx_eq(u.determinant().0, 0.0);

    let u = mf(&[&[2., 0., 0.], &[0., 2., 0.], &[0., 0., 2.]]);
    assert_approx_eq(u.determinant().0, 8.0);

    let u = mf(&[&[8., 5., -2.], &[4., 7., 20.], &[7., 6., 1.]]);
    assert_approx_eq(u.determinant().0, -174.0);

    let u = mf(&[
        &[8., 5., -2., 4.],
        &[4., 2.5, 20., 4.],
        &[8., 5., 1., 4.],
        &[28., -4., 17., 1.],
    ]);
    assert_approx_eq(u.determinant().0, 1032.0);
}

#[test]
fn test_matrix_inverse() {
    let u = mf(&[&[1., 0., 0.], &[0., 1., 0.], &[0., 0., 1.]]);
    let inv_u = match u.inverse() {
        Ok(m) => m,
        Err(_) => panic!("unexpectedly singular"),
    };
    let expected = mf(&[&[1., 0., 0.], &[0., 1., 0.], &[0., 0., 1.]]);
    for i in 0..3 {
        for j in 0..3 {
            assert_approx_eq(inv_u.data[i][j].0, expected.data[i][j].0);
        }
    }

    let u = mf(&[&[2., 0., 0.], &[0., 2., 0.], &[0., 0., 2.]]);
    let inv_u = match u.inverse() {
        Ok(m) => m,
        Err(_) => panic!("unexpectedly singular"),
    };
    let expected = mf(&[&[0.5, 0., 0.], &[0., 0.5, 0.], &[0., 0., 0.5]]);
    for i in 0..3 {
        for j in 0..3 {
            assert_approx_eq(inv_u.data[i][j].0, expected.data[i][j].0);
        }
    }

    let u = mf(&[&[8., 5., -2.], &[4., 7., 20.], &[7., 6., 1.]]);
    let inv_u = match u.inverse() {
        Ok(m) => m,
        Err(_) => panic!("unexpectedly singular"),
    };
    let expected = mf(&[
        &[0.6494253, 0.09770115, -0.6551724],
        &[-0.7816092, -0.12643678, 0.9655172],
        &[0.14367816, 0.07471264, -0.20689655],
    ]);
    for i in 0..3 {
        for j in 0..3 {
            assert_approx_eq(inv_u.data[i][j].0, expected.data[i][j].0);
        }
    }
}

#[test]
fn test_matrix_rank() {
    let u = mf(&[&[1., 0., 0.], &[0., 1., 0.], &[0., 0., 1.]]);
    assert_eq!(u.rank(), 3);

    let u = mf(&[&[1., 2., 0., 0.], &[2., 4., 0., 0.], &[-1., 2., 1., 1.]]);
    assert_eq!(u.rank(), 2);

    let u = mf(&[&[8., 5., -2.], &[4., 7., 20.], &[7., 6., 1.], &[21., 18., 7.]]);
    assert_eq!(u.rank(), 3);
}

#[test]
fn test_dot_commutes_concrete() {
    let u = vf(&[3., -7., 2.5]);
    let v = vf(&[4., 0.5, -6.]);
    let uv = u.clone().dot(v.clone());
    let vu = v.dot(u);
    assert_eq!(uv, vu);
}

#[test]
fn test_transpose_twice_is_identity() {
    let m = mf(&[&[1., 2., 3.], &[4., 5., 6.]]);
    let back = m.transpose().transpose();
    assert_eq!(back.data, m.data);
}

#[test]
fn test_row_echelon_idempotent_concrete() {
    let u = mf(&[
        &[8., 5., -2., 4., 28.],
        &[4., 2.5, 20., 4., -4.],
        &[8., 5., 1., 4., 17.],
    ]);
    let once = u.row_echelon();
    let twice = once.row_echelon();
    for i in 0..3 {
        for j in 0..5 {
            assert_approx_eq(twice.data[i][j].0, once.data[i][j].0);
        }
    }
}

#[test]
fn test_inverse_times_matrix_is_identity() {
    let u = mf(&[&[8., 5., -2.], &[4., 7., 20.], &[7., 6., 1.]]);
    let inv_u = match u.clone().inverse() {
        Ok(m) => m,
        Err(_) => panic!("unexpectedly singular"),
    };
    let prod = u.mul_mat(inv_u);
    for i in 0..3 {
        for j in 0..3 {
            let expected = if i == j { 1.0 } else { 0.0 };
            assert_approx_eq(prod.data[i][j].0, expected);
        }
    }
}

#[test]
fn test_cross_product_unit_axes() {
    let u = vf(&[1., 0., 0.]);
    let v = vf(&[0., 1., 0.]);
    let result = Vector::cross_product(&u, &v);
    assert_eq!(result.data, vec![F(0.), F(0.), F(1.)]);
}

#[test]
fn test_inverse_singular_fails() {
    let u = mf(&[&[1., 1.], &[1., 1.]]);
    let r = u.inverse();
    assert!(matches!(r, Err(MatrixError::Singular)));
}

#[test]
fn test_linear_combination_empty() {
    let vs: [Vector<F>; 0] = [];
    let coefs: [F; 0] = [];
    let r = Vector::linear_combination(&vs, &coefs);
    assert_eq!(r.size, 0);
    assert_eq!(r.data, vec![]);
}

#[test]
fn test_determinant_empty_is_one() {
    let u: Matrix<F> = Matrix::new(vec![]);
    assert_eq!(u.determinant(), F(1.0));
}

#[test]
fn test_vtom_shape() {
    let v = vf(&[1., 2., 3.]);
    let m = v.vtom();
    assert_eq!(m.size_y, 3);
    assert_eq!(m.size_x, 1);
    assert_eq!(m.data, vec![vec![F(1.)], vec![F(2.)], vec![F(3.)]]);
}

#[test]
fn test_transpose_zero_width() {
    let u: Matrix<F> = Matrix::new(vec![vec![]]);
    assert_eq!(u.size_y, 1);
    assert_eq!(u.size_x, 0);
    let t = u.transpose();
    assert_eq!(t.size_y, 0);
    assert_eq!(t.size_x, 1);
    let back = t.transpose();
    assert_eq!(back.size_y, 1);
    assert_eq!(back.size_x, 0);
    assert_eq!(back.data, u.data);
}

#[test]
fn test_vtom_empty() {
    let v: Vector<F> = Vector::new(vec![]);
    let m = v.vtom();
    assert_eq!(m.size_y, 0);
    assert_eq!(m.size_x, 1);
    assert_eq!(m.data, Vec::<Vec<F>>::new());
}

#[test]
fn test_mul_vec_agrees_with_vtom_product_on_empty() {
    let u: Matrix<F> = Matrix::new(vec![vec![], vec![]]);
    let v: Vector<F> = Vector::new(vec![]);
    let by_vec = u.mul_vec(v);
    assert_eq!(by_vec.data, vec![vec![F(0.)], vec![F(0.)]]);
    let v2: Vector<F> = Vector::new(vec![]);
    let by_mat = u.mul_mat(v2.vtom());
    assert_eq!(by_mat.size_x, 1);
    assert_eq!(by_mat.data, by_vec.data);
}

#[test]
fn test_i64_vector_ops() {
    let mut v1: Vector<i64> = Vector::new(vec![2, 3]);
    let v2: Vector<i64> = Vector::new(vec![5, 7]);
    Vector::add(&mut v1, &v2);
    assert_eq!(v1.data, vec![7, 10]);
    let dot = v1.dot(v2);
    assert_eq!(dot, 35 + 70);
}

#[test]
fn test_i64_determinant() {
    let u: Matrix<i64> = Matrix::new(vec![vec![8, 5, -2], vec![4, 7, 20], vec![7, 6, 1]]);
    assert_eq!(u.determinant(), -174);
}

#[test]
fn test_i64_rank_identity() {
    let u: Matrix<i64> = Matrix::new(vec![vec![1, 0, 0], vec![0, 1, 0], vec![0, 0, 1]]);
    assert_eq!(u.rank(), 3);
}

#[test]
fn test_i64_wrapping_add() {
    let mut v: Vector<i64> = Vector::new(vec![i64::MAX]);
    let one: Vector<i64> = Vector::new(vec![1]);
    Vector::add(&mut v, &one);
    assert_eq!(v.data, vec![i64::MIN]);
}
