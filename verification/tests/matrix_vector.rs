use mathkit::linalg;
use mathkit::linalg::BinOp;
use mathkit::linalg::Tensor;
use mathkit::matrix::Matrix;
use mathkit::rat::Rat;
use mathkit::vector::Vector;

fn mr(n: i64) -> Rat {
    Rat::from_int(n)
}

fn mt(rows: Vec<Vec<i64>>) -> Tensor {
    let data: Vec<Vec<Rat>> = rows
        .into_iter()
        .map(|row| row.into_iter().map(Rat::from_int).collect())
        .collect();
    linalg::from_rows(data).unwrap()
}

#[test]
fn test_get_tensor() {
    let matrix = Matrix::from(mt(vec![vec![1, 2], vec![3, 4]]));
    let tensor = matrix.get_tensor();
    assert_eq!(matrix.cols, 2);
    assert_eq!(matrix.rows, 2);
    assert!(linalg::get(tensor, 0, 0).eqv(&mr(1)));
    assert!(linalg::get(tensor, 0, 1).eqv(&mr(2)));
    assert!(linalg::get(tensor, 1, 0).eqv(&mr(3)));
    assert!(linalg::get(tensor, 1, 1).eqv(&mr(4)));
}

#[test]
fn test_to_vector() {
    let cases: Vec<(Vec<Vec<i64>>, (i64, i64, i64))> = vec![
        (vec![vec![1, 2]], (1, 2, 0)),
        (vec![vec![1], vec![2]], (1, 2, 0)),
        (vec![vec![1, 2, 3]], (1, 2, 3)),
        (vec![vec![1], vec![2], vec![3]], (1, 2, 3)),
    ];
    for (grid, (x, y, z)) in cases {
        let v = Matrix::from(mt(grid)).to_vector();
        assert!(v.x.eqv(&mr(x)));
        assert!(v.y.eqv(&mr(y)));
        assert!(v.z.eqv(&mr(z)));
    }
}

#[test]
fn test_identity_matrix() {
    let matrix = Matrix::identity(3);
    assert_eq!(matrix.rows, 3);
    assert_eq!(matrix.cols, 3);
    for i in 0..3 {
        for j in 0..3 {
            let want = if i == j { 1 } else { 0 };
            assert!(linalg::get(&matrix.data, i, j).eqv(&mr(want)));
        }
    }
}

#[test]
fn test_dot_identity_is_identity_map() {
    let a = Matrix::from(mt(vec![vec![1, 2, 3], vec![4, 5, 6]]));
    let id = Matrix::identity(3);
    let p = a.dot(&id).unwrap();
    for i in 0..2 {
        for j in 0..3 {
            let want = linalg::get(&a.data, i, j);
            assert!(linalg::get(&p.data, i, j).eqv(&want));
        }
    }
    assert_eq!(p.rows, 2);
    assert_eq!(p.cols, 3);
}

#[test]
fn test_matrix_combine_and_aggregate() {
    let a = Matrix::from(mt(vec![vec![1, 2], vec![3, 4]]));
    let b = Matrix::from(mt(vec![vec![5, 6], vec![7, 8]]));
    let s = a.combine(&b, BinOp::Add).unwrap();
    assert!(linalg::get(&s.data, 0, 0).eqv(&mr(6)));
    assert!(linalg::get(&s.data, 1, 1).eqv(&mr(12)));
    let total = a.aggregate(mr(0), BinOp::Add).unwrap();
    assert!(total.eqv(&mr(10)));
    let rows = a.aggregate_rows(mr(0), BinOp::Add).unwrap();
    assert!(linalg::get(&rows.data, 0, 0).eqv(&mr(3)));
    assert!(linalg::get(&rows.data, 1, 0).eqv(&mr(7)));
    let cols = a.aggregate_columns(mr(0), BinOp::Add).unwrap();
    assert!(linalg::get(&cols.data, 0, 0).eqv(&mr(4)));
    assert!(linalg::get(&cols.data, 0, 1).eqv(&mr(6)));
}

#[test]
fn test_vector_get_tensor() {
    let vec3 = Vector::new_3d(mr(1), mr(2), mr(3));
    let tensor = vec3.get_tensor();
    assert!(linalg::get(tensor, 0, 0).eqv(&mr(1)));
    assert!(linalg::get(tensor, 1, 0).eqv(&mr(2)));
    assert!(linalg::get(tensor, 2, 0).eqv(&mr(3)));
}

#[test]
fn test_vector_add() {
    let a = Vector::new_3d(mr(1), mr(2), mr(3));
    let b = Vector::new_3d(mr(4), mr(5), mr(6));
    let s = a.add(&b).unwrap();
    assert!(s.x.eqv(&mr(5)));
    assert!(s.y.eqv(&mr(7)));
    assert!(s.z.eqv(&mr(9)));
}

#[test]
fn test_vector_subtract() {
    let a = Vector::new_3d(mr(4), mr(5), mr(6));
    let b = Vector::new_3d(mr(1), mr(2), mr(3));
    let s = a.sub(&b).unwrap();
    assert!(s.x.eqv(&mr(3)));
    assert!(s.y.eqv(&mr(3)));
    assert!(s.z.eqv(&mr(3)));
}

#[test]
fn test_vector_multiply() {
    let a = Vector::new_3d(mr(2), mr(3), mr(4));
    let b = Vector::new_3d(mr(3), mr(4), mr(5));
    let s = a.mul(&b).unwrap();
    assert!(s.x.eqv(&mr(6)));
    assert!(s.y.eqv(&mr(12)));
    assert!(s.z.eqv(&mr(20)));
}

#[test]
fn test_vector_divide() {
    let a = Vector::new_3d(mr(6), mr(8), mr(10));
    let b = Vector::new_3d(mr(2), mr(2), mr(2));
    let s = a.div(&b).unwrap();
    assert!(s.x.eqv(&mr(3)));
    assert!(s.y.eqv(&mr(4)));
    assert!(s.z.eqv(&mr(5)));
}

#[test]
fn test_vector_divide_by_zero() {
    let a = Vector::new_3d(mr(0), mr(1), mr(0));
    let b = Vector::new_3d(mr(0), mr(2), mr(0));
    let s = a.div(&b).unwrap();
    assert!(s.x.eqv(&mr(0)));
    assert!(s.y.eqv(&Rat::new(1, 2)));
    assert!(s.z.eqv(&mr(0)));
}

#[test]
fn test_vector_divide_near_zero() {
    // Components within the approximate-zero threshold divide to zero.
    let a = Vector::new_3d(Rat::new(1, 100000), mr(4), mr(0));
    let b = Vector::new_3d(Rat::new(1, 100000), mr(2), mr(3));
    let s = a.div(&b).unwrap();
    assert!(s.x.eqv(&mr(0)));
    assert!(s.y.eqv(&mr(2)));
    assert!(s.z.eqv(&mr(0)));
}

#[test]
fn test_vector_cross() {
    let a = Vector::new_3d(mr(1), mr(2), mr(3));
    let b = Vector::new_3d(mr(2), mr(3), mr(4));
    let c = a.cross(&b).unwrap();
    assert!(c.x.eqv(&mr(-1)));
    assert!(c.y.eqv(&mr(2)));
    assert!(c.z.eqv(&mr(-1)));
}

#[test]
fn test_vector_dot() {
    let a = Vector::new_3d(mr(1), mr(2), mr(3));
    let b = Vector::new_3d(mr(4), mr(5), mr(6));
    let d = a.dot(&b).unwrap();
    assert!(d.eqv(&mr(32)));
}

#[test]
fn test_vector_magnitude() {
    let v = Vector::new_3d(mr(3), mr(4), mr(0));
    let m = v.magnitude().unwrap();
    assert!(m.eqv(&mr(5)));
}

#[test]
fn test_vector_from_padding() {
    let v = Vector::from(vec![mr(7), mr(8)]);
    assert!(v.x.eqv(&mr(7)));
    assert!(v.y.eqv(&mr(8)));
    assert!(v.z.eqv(&mr(0)));
}
