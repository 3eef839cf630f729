use felys::matrix::{Matrix, MatrixError};
use felys::optim::{Gradients, Random};

fn row(v: Vec<f64>) -> Matrix<f64> {
    let n = v.len();
    Matrix::new(v, (1, n)).ok().unwrap()
}

#[test]
fn new_checks_the_number_of_cells() {
    assert!(matches!(Matrix::new(vec![1.0f64, 2.0, 3.0], (2, 2)), Err(MatrixError::Mismatch(2, 2))));
    let m = Matrix::new(vec![1.0f64, 2.0, 3.0, 4.0], (2, 2)).ok().unwrap();
    assert_eq!(m.shape, (2, 2));
}

#[test]
fn vec_and_item_check_the_shape() {
    assert_eq!(row(vec![1.0, 2.0]).vec().ok().unwrap(), vec![1.0, 2.0]);
    let m = Matrix::new(vec![1.0f64, 2.0], (2, 1)).ok().unwrap();
    assert!(matches!(m.vec(), Err(MatrixError::NotVector(2, 1))));
    assert_eq!(row(vec![5.0]).item().ok().unwrap(), 5.0);
    assert!(matches!(row(vec![5.0, 6.0]).item(), Err(MatrixError::NotScalar(1, 2))));
}

#[test]
fn transpose_of_a_column_is_a_row() {
    let m = Matrix::new(vec![1.0f64, 2.0, 3.0], (3, 1)).ok().unwrap();
    let t = m.t().ok().unwrap();
    assert_eq!(t.shape, (1, 3));
    assert_eq!(t.vec().ok().unwrap(), vec![1.0, 2.0, 3.0]);
}

#[test]
fn dot_multiplies_rows_by_columns() {
    let a = row(vec![1.0, 2.0]);
    let b = Matrix::new(vec![3.0f64, 4.0, 5.0, 6.0], (2, 2)).ok().unwrap();
    let c = a.dot(&b, 0.0, |x: f64, y: f64| x + y, |x: f64, y: f64| x * y).ok().unwrap();
    assert_eq!(c.shape, (1, 2));
    assert_eq!(c.vec().ok().unwrap(), vec![13.0, 16.0]);
    assert!(matches!(b.dot(&a, 0.0, |x: f64, y: f64| x + y, |x: f64, y: f64| x * y), Err(MatrixError::Multiply(2, 2, 1, 2))));
}

#[test]
fn broadcast_and_apply_work_cell_by_cell() {
    let mut a = row(vec![1.0, 2.0]);
    a.broadcast(&row(vec![10.0, 20.0]), |x: f64, y: f64| x + y).ok().unwrap();
    a.apply(|x: f64| -x).ok().unwrap();
    assert_eq!(a.dup().vec().ok().unwrap(), vec![-11.0, -22.0]);
    assert!(matches!(a.broadcast(&row(vec![1.0]), |x: f64, y: f64| x + y), Err(MatrixError::Broadcast(1, 2, 1, 1))));
}

#[test]
fn full_and_empty() {
    let m = Matrix::full(0.5f64, (1, 3));
    assert_eq!(m.vec().ok().unwrap(), vec![0.5, 0.5, 0.5]);
    let e: Matrix<f64> = Matrix::empty();
    assert_eq!(e.shape, (0, 0));
}

#[test]
fn gradients_add_up_by_key() {
    let mut g = Gradients::new(1, row(vec![1.0, 2.0]));
    g.concat(Gradients::new(2, row(vec![5.0])));
    g.concat(Gradients::new(1, row(vec![3.0, 4.0])));
    g.concat(Gradients::empty());
    let made = g.make(|x: f64, y: f64| x + y).ok().unwrap();
    assert_eq!(made.len(), 2);
    for (k, m) in made {
        match k {
            1 => assert_eq!(m.vec().ok().unwrap(), vec![4.0, 6.0]),
            2 => assert_eq!(m.vec().ok().unwrap(), vec![5.0]),
            _ => panic!("unexpected key"),
        }
    }
}

#[test]
fn gradients_of_different_shapes_for_one_key_are_refused() {
    let mut g = Gradients::new(1, row(vec![1.0, 2.0]));
    g.concat(Gradients::new(1, row(vec![3.0])));
    assert!(matches!(g.make(|x: f64, y: f64| x + y), Err(MatrixError::Broadcast(1, 2, 1, 1))));
}

#[test]
fn random_stays_below_two_to_the_thirty_two() {
    let mut r = Random::new(42);
    for _ in 0..100 {
        assert!(r.advance() < (1u64 << 32));
    }
}
