use sparse_matrix::sparse::{MatrixError, SparseMatrix};

fn fixture_a() -> SparseMatrix {
    SparseMatrix::from_triplets(
        5,
        4,
        vec![(1, 1, 2), (2, 1, 4), (2, 4, 3), (4, 1, 8), (4, 4, 1), (5, 3, 6)],
    )
    .unwrap()
}

fn fixture_b() -> SparseMatrix {
    SparseMatrix::from_triplets(4, 3, vec![(1, 1, 1), (1, 3, 2), (2, 2, 5), (4, 1, 3), (4, 3, 1)]).unwrap()
}

fn dense_of(rows: usize, cols: usize, t: &[(usize, usize, i32)]) -> Vec<Vec<i32>> {
    let mut d = vec![vec![0; cols]; rows];
    for &(r, c, v) in t {
        d[r - 1][c - 1] = v;
    }
    d
}

#[test]
fn fixture_a_renders_densely() {
    let a = fixture_a();
    assert_eq!(a.dims(), (5, 4));
    assert_eq!(
        a.to_dense(),
        vec![
            vec![2, 0, 0, 0],
            vec![4, 0, 0, 3],
            vec![0, 0, 0, 0],
            vec![8, 0, 0, 1],
            vec![0, 0, 6, 0],
        ]
    );
}

#[test]
fn fixture_a_plus_a_doubles() {
    let a = fixture_a();
    let s = a.add(&a).unwrap();
    assert_eq!(s.dims(), (5, 4));
    assert_eq!(
        s.to_dense(),
        vec![
            vec![4, 0, 0, 0],
            vec![8, 0, 0, 6],
            vec![0, 0, 0, 0],
            vec![16, 0, 0, 2],
            vec![0, 0, 12, 0],
        ]
    );
}

#[test]
fn fixture_a_times_b() {
    let p = fixture_a().multiply(&fixture_b()).unwrap();
    assert_eq!(p.dims(), (5, 3));
    assert_eq!(
        p.to_dense(),
        vec![
            vec![2, 0, 4],
            vec![13, 0, 11],
            vec![0, 0, 0],
            vec![11, 0, 17],
            vec![0, 0, 0],
        ]
    );
}

#[test]
fn round_trip_unsorted_input() {
    let t = vec![(3, 2, 7), (1, 3, -1), (2, 1, 5), (1, 1, 9)];
    let m = SparseMatrix::from_triplets(3, 3, t.clone()).unwrap();
    assert_eq!(m.to_dense(), dense_of(3, 3, &t));
}

#[test]
fn stored_zero_is_kept_by_builder() {
    let m = SparseMatrix::from_triplets(2, 2, vec![(1, 2, 0), (2, 2, 4)]).unwrap();
    assert_eq!(m.to_dense(), vec![vec![0, 0], vec![0, 4]]);
}

#[test]
fn empty_triplets_give_empty_matrix() {
    let m = SparseMatrix::from_triplets(2, 3, vec![]).unwrap();
    assert_eq!(m.dims(), (2, 3));
    assert_eq!(m.to_dense(), vec![vec![0, 0, 0], vec![0, 0, 0]]);
    let s = m.add(&m).unwrap();
    assert_eq!(s.to_dense(), vec![vec![0, 0, 0], vec![0, 0, 0]]);
    let n = SparseMatrix::from_triplets(3, 1, vec![]).unwrap();
    assert_eq!(m.multiply(&n).unwrap().to_dense(), vec![vec![0], vec![0]]);
}

#[test]
fn new_is_empty() {
    let m = SparseMatrix::new(2, 2);
    assert_eq!(m.dims(), (2, 2));
    assert_eq!(m.to_dense(), vec![vec![0, 0], vec![0, 0]]);
}

#[test]
fn triplet_out_of_bounds_is_rejected() {
    assert_eq!(SparseMatrix::from_triplets(2, 2, vec![(3, 1, 1)]).err(), Some(MatrixError::OutOfBounds));
    assert_eq!(SparseMatrix::from_triplets(2, 2, vec![(1, 0, 1)]).err(), Some(MatrixError::OutOfBounds));
    assert_eq!(
        SparseMatrix::from_triplets(2, 2, vec![(1, 1, 1), (1, 1, 2), (0, 1, 1)]).err(),
        Some(MatrixError::OutOfBounds)
    );
}

#[test]
fn duplicate_triplet_is_rejected() {
    assert_eq!(
        SparseMatrix::from_triplets(2, 2, vec![(1, 2, 1), (2, 1, 3), (1, 2, 5)]).err(),
        Some(MatrixError::DuplicateEntry)
    );
}

#[test]
fn add_commutes_on_values() {
    let a = SparseMatrix::from_triplets(3, 3, vec![(1, 1, 1), (2, 3, -4), (3, 2, 6)]).unwrap();
    let b = SparseMatrix::from_triplets(3, 3, vec![(1, 1, 2), (2, 2, 5), (3, 3, -1)]).unwrap();
    let ab = a.add(&b).unwrap().to_dense();
    let ba = b.add(&a).unwrap().to_dense();
    assert_eq!(ab, ba);
    assert_eq!(ab, vec![vec![3, 0, 0], vec![0, 5, -4], vec![0, 6, -1]]);
}

#[test]
fn add_cancels_opposite_entries() {
    let a = SparseMatrix::from_triplets(2, 2, vec![(1, 1, 5), (2, 2, 1)]).unwrap();
    let b = SparseMatrix::from_triplets(2, 2, vec![(1, 1, -5), (1, 2, 2)]).unwrap();
    let s = a.add(&b).unwrap();
    assert_eq!(s.to_dense(), vec![vec![0, 2], vec![0, 1]]);
}

#[test]
fn add_shape_mismatch_is_rejected() {
    let a = SparseMatrix::from_triplets(2, 2, vec![(1, 1, 1)]).unwrap();
    let b = SparseMatrix::from_triplets(2, 3, vec![(1, 1, 1)]).unwrap();
    assert_eq!(a.add(&b).err(), Some(MatrixError::DimensionMismatch));
}

#[test]
fn multiply_shape_mismatch_is_rejected() {
    let a = fixture_a();
    assert_eq!(a.multiply(&a).err(), Some(MatrixError::DimensionMismatch));
}

#[test]
fn multiply_matches_dense_product() {
    let ta = vec![(1, 2, 3), (2, 1, -1), (2, 3, 2), (3, 3, 4)];
    let tb = vec![(1, 1, 2), (2, 2, -2), (3, 1, 1), (3, 2, 5)];
    let a = SparseMatrix::from_triplets(3, 3, ta.clone()).unwrap();
    let b = SparseMatrix::from_triplets(3, 2, tb.clone()).unwrap();
    let da = dense_of(3, 3, &ta);
    let db = dense_of(3, 2, &tb);
    let p = a.multiply(&b).unwrap().to_dense();
    for i in 0..3 {
        for j in 0..2 {
            let mut s = 0;
            for k in 0..3 {
                s += da[i][k] * db[k][j];
            }
            assert_eq!(p[i][j], s);
        }
    }
    assert_eq!(p, vec![vec![0, -6], vec![0, 10], vec![4, 20]]);
}

#[test]
fn multiply_drops_cancelling_sums() {
    let a = SparseMatrix::from_triplets(1, 2, vec![(1, 1, 1), (1, 2, 1)]).unwrap();
    let b = SparseMatrix::from_triplets(2, 1, vec![(1, 1, 3), (2, 1, -3)]).unwrap();
    assert_eq!(a.multiply(&b).unwrap().to_dense(), vec![vec![0]]);
}
