use mathkit::linalg;
use mathkit::linalg::BinOp;
use mathkit::linalg::Tensor;
use mathkit::rat::Rat;

fn r(n: i64) -> Rat {
    Rat::from_int(n)
}

fn rq(n: i64, d: i64) -> Rat {
    Rat::new(n, d)
}

fn t(rows: Vec<Vec<i64>>) -> Tensor {
    let data: Vec<Vec<Rat>> = rows
        .into_iter()
        .map(|row| row.into_iter().map(Rat::from_int).collect())
        .collect();
    linalg::from_rows(data).unwrap()
}

fn empty_tensor() -> Tensor {
    linalg::empty()
}

fn cell(t: &Tensor, i: usize, j: usize) -> Rat {
    linalg::get(t, i, j)
}

fn assert_cell_eq(t: &Tensor, i: usize, j: usize, expected: &Rat) {
    assert!(cell(t, i, j).eqv(expected));
}

fn assert_tensor_int(t: &Tensor, expected: &[&[i64]]) {
    assert_eq!(linalg::rows(t), expected.len());
    for (i, row) in expected.iter().enumerate() {
        for (j, v) in row.iter().enumerate() {
            assert_cell_eq(t, i, j, &r(*v));
        }
    }
}

fn as_f64(x: &Rat) -> f64 {
    x.num() as f64 / x.den() as f64
}

fn assert_close(x: &Rat, expected: f64, tol: f64) {
    assert!((as_f64(x) - expected).abs() <= tol);
}

#[test]
fn test_dot() {
    let p = linalg::dot(&t(vec![vec![42]]), &t(vec![vec![2]])).unwrap();
    assert_tensor_int(&p, &[&[84]]);

    let p = linalg::dot(&t(vec![vec![1], vec![2]]), &t(vec![vec![3, 4]])).unwrap();
    assert_tensor_int(&p, &[&[3, 4], &[6, 8]]);

    let p = linalg::dot(&t(vec![vec![1, 2], vec![3, 4]]), &t(vec![vec![5, 6], vec![7, 8]]))
        .unwrap();
    assert_tensor_int(&p, &[&[19, 22], &[43, 50]]);

    let p = linalg::dot(&empty_tensor(), &empty_tensor()).unwrap();
    assert!(linalg::is_empty(&p));
}

#[test]
fn test_add() {
    let s = linalg::add(&t(vec![vec![42]]), &t(vec![vec![2]])).unwrap();
    assert_tensor_int(&s, &[&[44]]);
    let s = linalg::add(&t(vec![vec![1], vec![2]]), &t(vec![vec![3], vec![4]])).unwrap();
    assert_tensor_int(&s, &[&[4], &[6]]);
    let s = linalg::add(&t(vec![vec![1, 2], vec![3, 4]]), &t(vec![vec![5, 6], vec![7, 8]]))
        .unwrap();
    assert_tensor_int(&s, &[&[6, 8], &[10, 12]]);
    let s = linalg::add(&empty_tensor(), &empty_tensor()).unwrap();
    assert!(linalg::is_empty(&s));
}

#[test]
fn test_subtract() {
    let s = linalg::subtract(&t(vec![vec![42]]), &t(vec![vec![2]])).unwrap();
    assert_tensor_int(&s, &[&[40]]);
    let s = linalg::subtract(&t(vec![vec![1], vec![2]]), &t(vec![vec![3], vec![4]])).unwrap();
    assert_tensor_int(&s, &[&[-2], &[-2]]);
    let s = linalg::subtract(&t(vec![vec![1, 2], vec![3, 4]]), &t(vec![vec![5, 6], vec![7, 8]]))
        .unwrap();
    assert_tensor_int(&s, &[&[-4, -4], &[-4, -4]]);
    let s = linalg::subtract(&empty_tensor(), &empty_tensor()).unwrap();
    assert!(linalg::is_empty(&s));
}

#[test]
fn test_multiply() {
    let s = linalg::multiply(&t(vec![vec![42]]), &t(vec![vec![2]])).unwrap();
    assert_tensor_int(&s, &[&[84]]);
    let s = linalg::multiply(&t(vec![vec![1], vec![2]]), &t(vec![vec![3], vec![4]])).unwrap();
    assert_tensor_int(&s, &[&[3], &[8]]);
    let s = linalg::multiply(&t(vec![vec![1, 2], vec![3, 4]]), &t(vec![vec![5, 6], vec![7, 8]]))
        .unwrap();
    assert_tensor_int(&s, &[&[5, 12], &[21, 32]]);
    let s = linalg::multiply(&empty_tensor(), &empty_tensor()).unwrap();
    assert!(linalg::is_empty(&s));
}

#[test]
fn test_divide() {
    let s = linalg::divide(&t(vec![vec![42]]), &t(vec![vec![2]])).unwrap();
    assert_tensor_int(&s, &[&[21]]);
    let s = linalg::divide(&t(vec![vec![1], vec![2]]), &t(vec![vec![3], vec![4]])).unwrap();
    assert_cell_eq(&s, 0, 0, &rq(1, 3));
    assert_cell_eq(&s, 1, 0, &rq(1, 2));
    let s = linalg::divide(&t(vec![vec![1, 2], vec![3, 4]]), &t(vec![vec![5, 6], vec![7, 8]]))
        .unwrap();
    assert_cell_eq(&s, 0, 0, &rq(1, 5));
    assert_cell_eq(&s, 0, 1, &rq(1, 3));
    assert_cell_eq(&s, 1, 0, &rq(3, 7));
    assert_cell_eq(&s, 1, 1, &rq(1, 2));
    let s = linalg::divide(&empty_tensor(), &empty_tensor()).unwrap();
    assert!(linalg::is_empty(&s));
}

#[test]
fn test_divide_by_zero_is_rejected() {
    assert!(linalg::divide(&t(vec![vec![1]]), &t(vec![vec![0]])).is_none());
}

#[test]
fn test_scale() {
    let s = linalg::scale(&t(vec![vec![42]]), &r(2)).unwrap();
    assert_tensor_int(&s, &[&[84]]);
    let s = linalg::scale(&t(vec![vec![1], vec![2]]), &r(3)).unwrap();
    assert_tensor_int(&s, &[&[3], &[6]]);
    let s = linalg::scale(&t(vec![vec![1, 2], vec![3, 4]]), &r(2)).unwrap();
    assert_tensor_int(&s, &[&[2, 4], &[6, 8]]);
    let s = linalg::scale(&empty_tensor(), &r(2)).unwrap();
    assert!(linalg::is_empty(&s));
}

#[test]
fn test_transpose() {
    let s = linalg::transpose(&t(vec![vec![42]]));
    assert_tensor_int(&s, &[&[42]]);
    let s = linalg::transpose(&t(vec![vec![1], vec![2]]));
    assert_tensor_int(&s, &[&[1, 2]]);
    let s = linalg::transpose(&t(vec![vec![1, 2], vec![3, 4]]));
    assert_tensor_int(&s, &[&[1, 3], &[2, 4]]);
    let s = linalg::transpose(&empty_tensor());
    assert!(linalg::is_empty(&s));
}

#[test]
fn test_transpose_involution() {
    let a = t(vec![vec![1, 2, 3], vec![4, 5, 6]]);
    let back = linalg::transpose(&linalg::transpose(&a));
    assert_tensor_int(&back, &[&[1, 2, 3], &[4, 5, 6]]);
}

#[test]
fn test_magnitude() {
    let m = linalg::magnitude(&t(vec![vec![1, 2], vec![3, 4]])).unwrap();
    assert_close(&m, 5.477225575051661, 1e-5);
    let m = linalg::magnitude(&t(vec![vec![1], vec![2]])).unwrap();
    assert_close(&m, 2.23606797749979, 1e-5);
    let m = linalg::magnitude(&t(vec![vec![42]])).unwrap();
    assert!(m.eqv(&r(42)));
}

#[test]
fn test_magnitude_empty_is_zero() {
    let m = linalg::magnitude(&empty_tensor()).unwrap();
    assert!(m.eqv(&r(0)));
    assert_eq!(m.num(), 0);
}

#[test]
fn test_aggregate() {
    let s = linalg::aggregate(&t(vec![vec![42]]), r(0), BinOp::Add).unwrap();
    assert!(s.eqv(&r(42)));
    let s = linalg::aggregate(&t(vec![vec![1], vec![2]]), r(0), BinOp::Add).unwrap();
    assert!(s.eqv(&r(3)));
    let s = linalg::aggregate(&t(vec![vec![1, 2], vec![3, 4]]), r(0), BinOp::Add).unwrap();
    assert!(s.eqv(&r(10)));
    let s = linalg::aggregate(&empty_tensor(), r(0), BinOp::Add).unwrap();
    assert!(s.eqv(&r(0)));
}

#[test]
fn test_aggregate_rows() {
    let s = linalg::aggregate_rows(&t(vec![vec![42]]), r(0), BinOp::Add).unwrap();
    assert_tensor_int(&s, &[&[42]]);
    let s = linalg::aggregate_rows(&t(vec![vec![1], vec![2]]), r(0), BinOp::Add).unwrap();
    assert_tensor_int(&s, &[&[1], &[2]]);
    let s = linalg::aggregate_rows(&t(vec![vec![1, 2], vec![3, 4]]), r(0), BinOp::Add).unwrap();
    assert_tensor_int(&s, &[&[3], &[7]]);
    let s = linalg::aggregate_rows(&empty_tensor(), r(0), BinOp::Add).unwrap();
    assert!(linalg::is_empty(&s));
}

#[test]
fn test_aggregate_columns() {
    let s = linalg::aggregate_columns(&t(vec![vec![42]]), r(0), BinOp::Add).unwrap();
    assert_tensor_int(&s, &[&[42]]);
    let s = linalg::aggregate_columns(&t(vec![vec![1], vec![2]]), r(0), BinOp::Add).unwrap();
    assert_tensor_int(&s, &[&[3]]);
    let s = linalg::aggregate_columns(&t(vec![vec![1, 2], vec![3, 4]]), r(0), BinOp::Add)
        .unwrap();
    assert_tensor_int(&s, &[&[4, 6]]);
    let s = linalg::aggregate_columns(&empty_tensor(), r(0), BinOp::Add).unwrap();
    assert!(linalg::is_empty(&s));
}

#[test]
fn test_determinant() {
    let d = linalg::determinant(&t(vec![vec![2, -3, 1], vec![2, 0, -1], vec![1, 4, 5]]))
        .unwrap();
    assert!(d.eqv(&r(49)));
    let d = linalg::determinant(&t(vec![vec![1, 2], vec![3, 4]])).unwrap();
    assert!(d.eqv(&r(-2)));
}

#[test]
fn test_determinant_identity() {
    for n in 1..6usize {
        let id = mathkit::matrix::Matrix::identity(n);
        let d = linalg::determinant(&id.data).unwrap();
        assert!(d.eqv(&r(1)));
    }
}

#[test]
fn test_cofactor() {
    let m = linalg::cofactor(&t(vec![vec![1, 2, 3], vec![4, 5, 6], vec![7, 8, 9]]), 1, 1);
    assert_tensor_int(&m, &[&[1, 3], &[7, 9]]);
}

#[test]
fn test_inverse() {
    let inv = linalg::inverse(&t(vec![vec![1, 2], vec![3, 4]])).unwrap();
    assert_cell_eq(&inv, 0, 0, &r(-2));
    assert_cell_eq(&inv, 0, 1, &r(1));
    assert_cell_eq(&inv, 1, 0, &rq(3, 2));
    assert_cell_eq(&inv, 1, 1, &rq(-1, 2));

    let inv = linalg::inverse(&t(vec![vec![1, 2, 3], vec![0, 1, 4], vec![5, 6, 0]])).unwrap();
    assert_tensor_int(&inv, &[&[-24, 18, 5], &[20, -15, -4], &[-5, 4, 1]]);
}

#[test]
fn test_inverse_singular_returns_zero() {
    let inv = linalg::inverse(&t(vec![vec![1, 2], vec![2, 4]])).unwrap();
    assert_tensor_int(&inv, &[&[0, 0], &[0, 0]]);
}

#[test]
fn test_inverse_involution() {
    let a = vec![vec![1, 2], vec![3, 4]];
    let back = linalg::inverse(&linalg::inverse(&t(a.clone())).unwrap()).unwrap();
    assert_tensor_int(&back, &[&[1, 2], &[3, 4]]);

    let a3 = vec![vec![1, 2, 3], vec![0, 1, 4], vec![5, 6, 0]];
    let back = linalg::inverse(&linalg::inverse(&t(a3.clone())).unwrap()).unwrap();
    assert_tensor_int(&back, &[&[1, 2, 3], &[0, 1, 4], &[5, 6, 0]]);
}

#[test]
fn test_adjugate() {
    let adj = linalg::adjugate(&t(vec![vec![1, 2], vec![3, 4]])).unwrap();
    assert_tensor_int(&adj, &[&[4, -3], &[-2, 1]]);
}

#[test]
fn test_solve_linear() {
    let a = t(vec![vec![2, 1], vec![1, -1]]);
    let b = t(vec![vec![-4], vec![-2]]);
    let x = linalg::solve_linear(&a, &b).unwrap();
    assert_tensor_int(&x, &[&[-2, 0]]);

    let a = t(vec![vec![2, -5, 3], vec![3, -1, 4], vec![1, 3, 2]]);
    let b = t(vec![vec![8], vec![7], vec![-3]]);
    let x = linalg::solve_linear(&a, &b).unwrap();
    assert_tensor_int(&x, &[&[6, -1, -3]]);
}

#[test]
fn test_solve_linear_satisfies_system() {
    // dot(A, x^T) gives back b exactly.
    let a = t(vec![vec![2, 1], vec![1, -1]]);
    let b = t(vec![vec![-4], vec![-2]]);
    let x = linalg::solve_linear(&a, &b).unwrap();
    let xt = linalg::transpose(&x);
    let ax = linalg::dot(&a, &xt).unwrap();
    assert_cell_eq(&ax, 0, 0, &r(-4));
    assert_cell_eq(&ax, 1, 0, &r(-2));
}

#[test]
fn test_solve_linear_zero_pivot_is_none() {
    let a = t(vec![vec![0, 0], vec![0, 0]]);
    let b = t(vec![vec![1], vec![1]]);
    assert!(linalg::solve_linear(&a, &b).is_none());
}

#[test]
fn test_qr_recomposes() {
    let a = t(vec![vec![1, 1], vec![1, -1], vec![1, 0]]);
    let (q, rm) = linalg::qr(&a).unwrap();
    let prod = linalg::dot(&q, &rm).unwrap();
    for i in 0..3 {
        for j in 0..2 {
            let want = as_f64(&cell(&a, i, j));
            assert_close(&cell(&prod, i, j), want, 1e-4);
        }
    }
}

#[test]
fn test_qr_orthonormal_columns() {
    let a = t(vec![vec![1, 1], vec![1, -1], vec![1, 0]]);
    let (q, _) = linalg::qr(&a).unwrap();
    let qt = linalg::transpose(&q);
    let qtq = linalg::dot(&qt, &q).unwrap();
    for i in 0..2 {
        for j in 0..2 {
            let want = if i == j { 1.0 } else { 0.0 };
            assert_close(&cell(&qtq, i, j), want, 1e-4);
        }
    }
}

#[test]
fn test_qr_no_columns() {
    let (q, rm) = linalg::qr(&empty_tensor()).unwrap();
    assert_eq!(linalg::rows(&q), 1);
    assert_eq!(linalg::columns(&q), 0);
    assert_eq!(linalg::rows(&rm), 0);
}

#[test]
fn test_least_squares() {
    // Well conditioned square system.
    let a = t(vec![vec![2, 1], vec![1, -1]]);
    let b = t(vec![vec![7, -1]]);
    let x = linalg::least_squares(&a, &b).unwrap();
    assert_tensor_int(&x, &[&[2, 3]]);

    // Over-determined: normal equations.
    let a = t(vec![vec![1, 1], vec![1, -1], vec![1, 0]]);
    let b = t(vec![vec![3, 1, 2]]);
    let x = linalg::least_squares(&a, &b).unwrap();
    assert_tensor_int(&x, &[&[2, 1]]);
}

#[test]
fn test_least_norm() {
    // Under-determined: minimum-norm solution.
    let a = t(vec![vec![1, 1, 1], vec![0, 1, 2]]);
    let b = t(vec![vec![6, 5]]);
    let x = linalg::least_squares(&a, &b).unwrap();
    assert_eq!(linalg::columns(&x), 3);
    assert_close(&cell(&x, 0, 0), 2.5, 1e-5);
    assert_close(&cell(&x, 0, 1), 2.0, 1e-5);
    assert_close(&cell(&x, 0, 2), 1.5, 1e-5);
}

#[test]
fn test_from_rows_rejects_ragged() {
    let data = vec![vec![r(1), r(2)], vec![r(3)]];
    assert!(linalg::from_rows(data).is_none());
}
