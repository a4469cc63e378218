use advanced_structures::sparse_matrix::{MatrixError, SparseMatrix};

fn rows_of(m: &SparseMatrix) -> Vec<Vec<i64>> {
    let mut out = Vec::new();
    for i in 0..m.rows() {
        let mut it = m.row_iter(i);
        let mut row = Vec::new();
        while let Some(v) = it.next() {
            row.push(v);
        }
        out.push(row);
    }
    out
}

#[test]
fn add_pads_and_collapses_zeros() {
    let a = SparseMatrix::from_2d_vec(vec![vec![1, 2, 4], vec![30, 0, -1], vec![0, -9]]);
    let b = SparseMatrix::from_2d_vec(vec![vec![10], vec![0, 0, 1], vec![20, 40]]);
    assert_eq!((a.rows(), a.cols()), (3, 3));
    assert_eq!((b.rows(), b.cols()), (3, 3));
    let c = a.add(&b).unwrap();
    let expected = SparseMatrix::from_2d_vec(vec![vec![11, 2, 4], vec![30, 0, 0], vec![20, 31, 0]]);
    assert_eq!(rows_of(&c), rows_of(&expected));
    assert_eq!(c.get(1, 2), 0);
    assert!(c.size() <= 6);
    assert_eq!(c.size(), 6);
}

#[test]
fn add_rejects_other_shapes() {
    let a = SparseMatrix::new(2, 3);
    let b = SparseMatrix::new(3, 2);
    assert!(matches!(a.add(&b), Err(MatrixError::IncompatibleShapes)));
}

#[test]
fn transpose_twice_round_trip() {
    let m = SparseMatrix::from_2d_vec(vec![vec![0, 5, 0, 7], vec![1], vec![0, 0, 3]]);
    let t = m.transposed();
    assert_eq!((t.rows(), t.cols()), (4, 3));
    assert_eq!(t.get(1, 0), 5);
    assert_eq!(t.get(3, 0), 7);
    let tt = t.transposed();
    for i in 0..m.rows() {
        for j in 0..m.cols() {
            assert_eq!(tt.get(i, j), m.get(i, j));
        }
    }
    assert_eq!(tt.size(), m.size());
}

#[test]
fn from_2d_round_trip() {
    let v = vec![vec![3, 0, 1], vec![], vec![0, 8], vec![-2, 0, 0, 4]];
    let m = SparseMatrix::from_2d_vec(v.clone());
    assert_eq!((m.rows(), m.cols()), (4, 4));
    for i in 0..4 {
        for j in 0..4 {
            let want = if j < v[i].len() { v[i][j] } else { 0 };
            assert_eq!(m.get(i, j), want);
        }
    }
    assert_eq!(m.size(), 5);
}

#[test]
fn row_and_column_walks_agree() {
    let m = SparseMatrix::from_2d_vec(vec![vec![0, 2, 0], vec![4, 0, 6], vec![0, 0, 9]]);
    for i in 0..3 {
        let mut r = m.row_iter(i);
        for j in 0..3 {
            let from_row = r.next().unwrap();
            let mut c = m.col_iter(j);
            let mut from_col = 0;
            for _ in 0..=i {
                from_col = c.next().unwrap();
            }
            assert_eq!(from_row, from_col);
            assert_eq!(from_row, m.get(i, j));
        }
        assert_eq!(r.next(), None);
    }
}

#[test]
fn set_covers_four_cases() {
    let mut m = SparseMatrix::new(3, 3);
    m.set(5, 1, 1).unwrap();
    assert_eq!(m.get(1, 1), 5);
    assert_eq!(m.size(), 1);
    m.set(6, 1, 1).unwrap();
    assert_eq!(m.get(1, 1), 6);
    assert_eq!(m.size(), 1);
    m.set(0, 1, 1).unwrap();
    assert_eq!(m.get(1, 1), 0);
    assert_eq!(m.size(), 0);
    m.set(0, 2, 2).unwrap();
    assert_eq!(m.size(), 0);
    m.set(1, 0, 2).unwrap();
    m.set(2, 0, 0).unwrap();
    assert_eq!(rows_of(&m), vec![vec![2, 0, 1], vec![0, 0, 0], vec![0, 0, 0]]);
}

#[test]
fn set_out_of_shape_is_rejected() {
    let mut m = SparseMatrix::new(2, 2);
    assert_eq!(m.set(1, 2, 0), Err(MatrixError::OutOfShape));
    assert_eq!(m.set(1, 0, 5), Err(MatrixError::OutOfShape));
    assert_eq!(m.size(), 0);
}

#[test]
fn mul_by_scales_and_zero_prunes() {
    let m = SparseMatrix::from_2d_vec(vec![vec![1, 0], vec![0, -3]]);
    let d = m.mul_by(4);
    assert_eq!(rows_of(&d), vec![vec![4, 0], vec![0, -12]]);
    let z = m.mul_by(0);
    assert_eq!(rows_of(&z), vec![vec![0, 0], vec![0, 0]]);
    assert_eq!(z.size(), 0);
}

#[test]
fn matrix_clone_of_clone_matches_clone() {
    let m = SparseMatrix::from_2d_vec(vec![vec![1, 0, 2], vec![0, 3]]);
    let c = m.clone();
    let cc = c.clone();
    assert_eq!(rows_of(&cc), rows_of(&c));
    assert_eq!((cc.rows(), cc.cols(), cc.size()), (c.rows(), c.cols(), c.size()));
}

#[test]
fn empty_and_default_shapes() {
    let e = SparseMatrix::from_2d_vec(vec![]);
    assert_eq!((e.rows(), e.cols()), (0, 0));
    let d = SparseMatrix::default();
    assert_eq!((d.rows(), d.cols(), d.size()), (2, 2, 0));
}
