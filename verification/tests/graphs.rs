use felys::layers::{Add, CrossEntropy, Div, Dot, Layer, Mul, Neg, Operator, Pow, ReLU, Sub};
use felys::matrix::{Matrix, MatrixError};
use std::rc::Rc;

fn row(v: Vec<f64>) -> Matrix<f64> {
    let n = v.len();
    Matrix::new(v, (1, n)).ok().unwrap()
}

fn param(id: usize, v: Vec<f64>) -> Operator<f64> {
    Operator::new(row(v), Layer::Learnable(id))
}

fn fixed(v: Vec<f64>) -> Operator<f64> {
    Operator::new(row(v), Layer::Fixed)
}

fn grads(op: &Operator<f64>) -> Vec<(usize, Vec<f64>, (usize, usize))> {
    let g = op.backward(1.0, 0.0, |a: f64, b: f64| a + b, |a: f64, b: f64| a * b, |a: f64| -a).ok().unwrap();
    let made = g.make(|a: f64, b: f64| a + b).ok().unwrap();
    made.into_iter().map(|(id, m)| {
        let shape = m.shape;
        let mut cells = Vec::new();
        for r in 0..shape.0 {
            for c in 0..shape.1 {
                cells.push(m.get(r, c));
            }
        }
        (id, cells, shape)
    }).collect()
}

#[test]
fn add_sends_the_gradient_to_both_inputs() {
    let o = Add::build(param(0, vec![1.0, 2.0]), param(1, vec![3.0, 4.0]), |a: f64, b: f64| a + b).ok().unwrap();
    assert_eq!(o.matrix.dup().vec().ok().unwrap(), vec![4.0, 6.0]);
    assert_eq!(grads(&o), vec![(0, vec![1.0, 1.0], (1, 2)), (1, vec![1.0, 1.0], (1, 2))]);
}

#[test]
fn sub_negates_the_gradient_of_the_subtrahend() {
    let o = Sub::build(param(0, vec![5.0]), param(1, vec![3.0]), |a: f64, b: f64| a - b).ok().unwrap();
    assert_eq!(o.matrix.dup().vec().ok().unwrap(), vec![2.0]);
    assert_eq!(grads(&o), vec![(0, vec![1.0], (1, 1)), (1, vec![-1.0], (1, 1))]);
}

#[test]
fn mul_scales_by_the_other_factor_and_by_the_product() {
    let o = Mul::build(param(0, vec![2.0, 3.0]), param(1, vec![4.0, 5.0]), |a: f64, b: f64| a * b).ok().unwrap();
    assert_eq!(o.matrix.dup().vec().ok().unwrap(), vec![8.0, 15.0]);
    assert_eq!(grads(&o), vec![(0, vec![4.0, 5.0], (1, 2)), (1, vec![8.0, 15.0], (1, 2))]);
}

#[test]
fn div_and_pow_keep_their_local_derivatives() {
    let o = Div::build(
        param(0, vec![6.0]),
        param(1, vec![2.0]),
        |_: f64, b: f64| 1.0 / b,
        |a: f64, b: f64| -a / (b * b),
        |a: f64, b: f64| a / b,
    )
    .ok()
    .unwrap();
    assert_eq!(o.matrix.dup().vec().ok().unwrap(), vec![3.0]);
    assert_eq!(grads(&o), vec![(0, vec![0.5], (1, 1)), (1, vec![-1.5], (1, 1))]);
    let p = Pow::build(
        param(0, vec![3.0]),
        fixed(vec![2.0]),
        |a: f64, b: f64| b * a.powf(b - 1.0),
        |a: f64, b: f64| a.powf(b) * a.ln(),
        |a: f64, b: f64| a.powf(b),
    )
    .ok()
    .unwrap();
    assert_eq!(p.matrix.dup().vec().ok().unwrap(), vec![9.0]);
    assert_eq!(grads(&p), vec![(0, vec![6.0], (1, 1))]);
}

#[test]
fn neg_and_relu_work_cell_by_cell() {
    let n = Neg::build(param(0, vec![1.0, -2.0]), |a: f64| -a).ok().unwrap();
    assert_eq!(n.matrix.dup().vec().ok().unwrap(), vec![-1.0, 2.0]);
    assert_eq!(grads(&n), vec![(0, vec![-1.0, -1.0], (1, 2))]);
    let r = ReLU::build(param(1, vec![-1.0, 2.0]), |a: f64| if a > 0.0 { 1.0 } else { 0.0 }, |a: f64| if a > 0.0 { a } else { 0.0 })
        .ok()
        .unwrap();
    assert_eq!(r.matrix.dup().vec().ok().unwrap(), vec![0.0, 2.0]);
    assert_eq!(grads(&r), vec![(1, vec![0.0, 1.0], (1, 2))]);
}

#[test]
fn dot_multiplies_the_gradient_by_the_transposes() {
    let y = Operator::new(Matrix::new(vec![3.0f64, 4.0], (2, 1)).ok().unwrap(), Layer::Learnable(1));
    let o = Dot::build(param(0, vec![1.0, 2.0]), y, 0.0, |a: f64, b: f64| a + b, |a: f64, b: f64| a * b).ok().unwrap();
    assert_eq!(o.matrix.shape, (1, 1));
    assert_eq!(o.matrix.dup().vec().ok().unwrap(), vec![11.0]);
    assert_eq!(grads(&o), vec![(0, vec![3.0, 4.0], (1, 2)), (1, vec![1.0, 2.0], (2, 1))]);
}

#[test]
fn shapes_that_disagree_are_refused() {
    let r = Add::build(param(0, vec![1.0, 2.0]), param(1, vec![3.0]), |a: f64, b: f64| a + b);
    assert!(matches!(r, Err(MatrixError::Broadcast(1, 2, 1, 1))));
    let r = Dot::build(param(0, vec![1.0, 2.0]), param(1, vec![3.0]), 0.0, |a: f64, b: f64| a + b, |a: f64, b: f64| a * b);
    assert!(matches!(r, Err(MatrixError::Multiply(1, 2, 1, 1))));
}

#[test]
fn a_gradient_of_another_shape_is_refused() {
    let o = Mul::build(param(0, vec![2.0, 3.0]), param(1, vec![4.0, 5.0]), |a: f64, b: f64| a * b).ok().unwrap();
    let r = o.layer.backward(row(vec![1.0]), 0.0, |a: f64, b: f64| a + b, |a: f64, b: f64| a * b, |a: f64| -a);
    assert!(matches!(r, Err(MatrixError::Broadcast(1, 2, 1, 1))));
}

#[test]
fn fixed_inputs_contribute_nothing() {
    let o = Add::build(fixed(vec![1.0]), param(4, vec![2.0]), |a: f64, b: f64| a + b).ok().unwrap();
    assert_eq!(grads(&o), vec![(4, vec![1.0], (1, 1))]);
}

#[test]
fn a_parameter_used_twice_gathers_both_contributions() {
    let x = param(7, vec![3.0]);
    let y = param(7, vec![3.0]);
    let o = Mul::build(x, y, |a: f64, b: f64| a * b).ok().unwrap();
    assert_eq!(grads(&o), vec![(7, vec![12.0], (1, 1))]);
}

#[test]
fn cross_entropy_sends_its_kept_gradient_to_the_logits() {
    let layer = Layer::CrossEntropy(Rc::new(CrossEntropy::new(Layer::Learnable(2), Layer::Fixed, vec![0.25, -0.25])));
    let o = Operator::new(row(vec![0.5]), layer);
    assert_eq!(grads(&o), vec![(2, vec![0.25, -0.25], (1, 2))]);
}
