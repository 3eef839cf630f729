use vstd::prelude::*;
use std::rc::Rc;
use crate::matrix::{product_cell, Matrix, MatrixError};
use crate::optim::Gradients;

verus! {

/// What a backward pass gives: the contributions to the learnable
/// parameters in the order they were found, or why it was refused.
pub type Flow<T> = Result<Seq<(usize, Matrix<T>)>, MatrixError>;

/// What differentiating a layer gives: the gradient that reaches each input,
/// with the layer that produced that input, or why it was refused.
pub type Derived<T> = Result<Seq<(Matrix<T>, Layer<T>)>, MatrixError>;

/// A value with the layer that produced it.
pub struct Operator<T> {
    pub matrix: Matrix<T>,
    pub layer: Layer<T>,
}

/// How a value was computed: an operation on earlier values, a learnable
/// parameter with its key, or a fixed input.
pub enum Layer<T> {
    Add(Rc<Add<T>>),
    Sub(Rc<Sub<T>>),
    Mul(Rc<Mul<T>>),
    Div(Rc<Div<T>>),
    Pow(Rc<Pow<T>>),
    Neg(Rc<Neg<T>>),
    Dot(Rc<Dot<T>>),
    ReLU(Rc<ReLU<T>>),
    CrossEntropy(Rc<CrossEntropy<T>>),
    Learnable(usize),
    Fixed,
}

/// The sum of two values.
pub struct Add<T> {
    pub x: Layer<T>,
    pub y: Layer<T>,
}

/// The difference of two values.
pub struct Sub<T> {
    pub x: Layer<T>,
    pub y: Layer<T>,
}

/// The cell-by-cell product of two values, with the factors that scale the
/// gradient of each input.
pub struct Mul<T> {
    pub x: Layer<T>,
    pub y: Layer<T>,
    pub gx: Matrix<T>,
    pub gy: Matrix<T>,
}

/// The cell-by-cell quotient of two values, with the local derivatives.
pub struct Div<T> {
    pub x: Layer<T>,
    pub y: Layer<T>,
    pub gx: Matrix<T>,
    pub gy: Matrix<T>,
}

/// The cell-by-cell power of two values, with the local derivatives.
pub struct Pow<T> {
    pub x: Layer<T>,
    pub y: Layer<T>,
    pub gx: Matrix<T>,
    pub gy: Matrix<T>,
}

/// The negation of a value.
pub struct Neg<T> {
    pub x: Layer<T>,
}

/// The matrix product of two values, with the transposes that the gradient
/// is multiplied by.
pub struct Dot<T> {
    pub x: Layer<T>,
    pub y: Layer<T>,
    pub gx: Matrix<T>,
    pub gy: Matrix<T>,
}

/// The rectifier of a value, with its local derivative.
pub struct ReLU<T> {
    pub x: Layer<T>,
    pub gx: Matrix<T>,
}

/// The cross-entropy loss of logits against a label, with the gradient of the
/// logits.
pub struct CrossEntropy<T> {
    pub x: Layer<T>,
    pub y: Layer<T>,
    pub softmax: Vec<T>,
}

/// `a` is a well-formed matrix with the shape and cells of `b`.
pub open spec fn like<T: Copy>(a: Matrix<T>, b: Matrix<T>) -> bool {
    &&& a.wf()
    &&& a.dims() == b.dims()
    &&& a.cells() == b.cells()
}

/// `b` is `a` with `f` applied to each cell.
pub open spec fn mapped<T: Copy, F: Fn(T) -> T>(a: Matrix<T>, b: Matrix<T>, f: F) -> bool {
    &&& b.wf()
    &&& b.dims() == a.dims()
    &&& b.cells().len() == a.cells().len()
    &&& forall|i: int| 0 <= i < a.cells().len() ==> f.ensures((a.cells()[i],), #[trigger] b.cells()[i])
}

/// `b` combines the cells of `a` with those of `v`, which has the same shape,
/// through `f`.
pub open spec fn zipped<T: Copy, F: Fn(T, T) -> T>(a: Matrix<T>, v: Matrix<T>, b: Matrix<T>, f: F) -> bool {
    &&& a.dims() == v.dims()
    &&& b.wf()
    &&& b.dims() == a.dims()
    &&& b.cells().len() == a.cells().len()
    &&& forall|i: int| 0 <= i < a.cells().len() ==> f.ensures((a.cells()[i], v.cells()[i]), #[trigger] b.cells()[i])
}

/// `c` is the matrix product of `a` and `b`.
pub open spec fn multiplied<T: Copy, A: Fn(T, T) -> T, M: Fn(T, T) -> T>(
    a: Matrix<T>,
    b: Matrix<T>,
    c: Matrix<T>,
    zero: T,
    plus: A,
    times: M,
) -> bool {
    &&& a.dims().1 == b.dims().0
    &&& c.wf()
    &&& c.dims() == (a.dims().0, b.dims().1)
    &&& forall|i: int, j: int|
        0 <= i < a.dims().0 && 0 <= j < b.dims().1 ==> product_cell(a, b, i, j, zero, plus, times, #[trigger] c.at(i, j))
}

/// `a` is the transpose of `b`.
pub open spec fn transposed<T: Copy>(a: Matrix<T>, b: Matrix<T>) -> bool {
    &&& a.wf()
    &&& a.dims() == (b.dims().1, b.dims().0)
    &&& forall|i: int, j: int| 0 <= i < b.dims().0 && 0 <= j < b.dims().1 ==> #[trigger] a.at(j, i) == b.at(i, j)
}

/// The gradients of a layer whose stored factors `gx` and `gy` scale the
/// gradient `g` cell by cell; refused when a factor's shape is not that of
/// `g`.
pub open spec fn scaled<T: Copy, M: Fn(T, T) -> T>(
    x: Layer<T>,
    y: Layer<T>,
    gx: Matrix<T>,
    gy: Matrix<T>,
    g: Matrix<T>,
    times: M,
    d: Derived<T>,
) -> bool {
    if gx.dims() != g.dims() {
        d == Err::<Seq<(Matrix<T>, Layer<T>)>, MatrixError>(
            MatrixError::Broadcast(gx.dims().0, gx.dims().1, g.dims().0, g.dims().1),
        )
    } else if gy.dims() != g.dims() {
        d == Err::<Seq<(Matrix<T>, Layer<T>)>, MatrixError>(
            MatrixError::Broadcast(gy.dims().0, gy.dims().1, g.dims().0, g.dims().1),
        )
    } else {
        exists|dx: Matrix<T>, dy: Matrix<T>|
            zipped(gx, g, dx, times) && zipped(gy, g, dy, times) && d == Ok::<
                Seq<(Matrix<T>, Layer<T>)>,
                MatrixError,
            >(seq![(dx, x), (dy, y)])
    }
}

/// Layers that send a gradient back to their inputs. `zero`, `plus`, `times`
/// and `neg` are the arithmetic of the cells.
pub trait Differentiable<T: Copy>: Sized {
    /// The matrices the layer keeps are well-formed.
    spec fn kept(&self) -> bool;

    /// The matrices the layer forms from a gradient of shape `d` fit in
    /// memory.
    spec fn fits_for(&self, d: (usize, usize)) -> bool;

    /// The gradient that reaches each input of the layer when `grad` reaches
    /// its output, each with the layer of that input.
    fn differentiate<A: Fn(T, T) -> T + Copy, M: Fn(T, T) -> T + Copy, N: Fn(T) -> T + Copy>(
        &self,
        grad: &Matrix<T>,
        zero: T,
        plus: A,
        times: M,
        neg: N,
    ) -> (r: Result<Vec<Operator<T>>, MatrixError>)
        requires
            self.kept(),
            grad.wf(),
            self.fits_for(grad.dims()),
            forall|a: T, b: T| plus.requires((a, b)),
            forall|a: T, b: T| times.requires((a, b)),
            forall|a: T| neg.requires((a,)),
    ;
}

/// The gradients and layers of a result of `differentiate`.
pub open spec fn operators<T>(r: Result<Vec<Operator<T>>, MatrixError>) -> Derived<T> {
    match r {
        Ok(v) => Ok(Seq::new(v@.len(), |i: int| (v@[i].matrix, v@[i].layer))),
        Err(e) => Err(e),
    }
}

impl<T: Copy> Operator<T> {
    /// A value with the layer that produced it.
    pub fn new(matrix: Matrix<T>, layer: Layer<T>) -> (o: Self)
        ensures
            o.matrix == matrix,
            o.layer == layer,
    {
        Operator { matrix, layer }
    }
}

/// A copy of a layer; the operations are shared.
fn share<T>(l: &Layer<T>) -> (c: Layer<T>)
    ensures
        c == *l,
{
    match l {
        Layer::Add(b) => Layer::Add(b.clone()),
        Layer::Sub(b) => Layer::Sub(b.clone()),
        Layer::Mul(b) => Layer::Mul(b.clone()),
        Layer::Div(b) => Layer::Div(b.clone()),
        Layer::Pow(b) => Layer::Pow(b.clone()),
        Layer::Neg(b) => Layer::Neg(b.clone()),
        Layer::Dot(b) => Layer::Dot(b.clone()),
        Layer::ReLU(b) => Layer::ReLU(b.clone()),
        Layer::CrossEntropy(b) => Layer::CrossEntropy(b.clone()),
        Layer::Learnable(id) => Layer::Learnable(*id),
        Layer::Fixed => Layer::Fixed,
    }
}

/// A copy of the cells.
fn cells_of<T: Copy>(v: &Vec<T>) -> (r: Vec<T>)
    ensures
        r@ == v@,
{
    let mut r: Vec<T> = Vec::new();
    let mut i: usize = 0;
    while i < v.len()
        invariant
            i <= v@.len(),
            r@ == v@.take(i as int),
        decreases v@.len() - i,
    {
        r.push(v[i]);
        i = i + 1;
        assert(r@ =~= v@.take(i as int));
    }
    assert(v@.take(i as int) =~= v@);
    r
}

/// `b` times `g` cell by cell, or the broadcast error.
fn scale<T: Copy, M: Fn(T, T) -> T + Copy>(b: &Matrix<T>, g: &Matrix<T>, times: M) -> (r: Result<Matrix<T>, MatrixError>)
    requires
        b.wf(),
        g.wf(),
        forall|a: T, c: T| times.requires((a, c)),
    ensures
        match r {
            Ok(m) => zipped(*b, *g, m, times),
            Err(e) => b.dims() != g.dims() && e == MatrixError::Broadcast(b.dims().0, b.dims().1, g.dims().0, g.dims().1),
        },
{
    let mut m = b.dup();
    match m.broadcast(g, times) {
        Ok(()) => Ok(m),
        Err(e) => Err(e),
    }
}

/// Two gradients with their layers.
fn two<T>(dx: Matrix<T>, x: &Layer<T>, dy: Matrix<T>, y: &Layer<T>) -> (r: Vec<Operator<T>>)
    ensures
        r@.len() == 2,
        r@[0].matrix == dx,
        r@[0].layer == *x,
        r@[1].matrix == dy,
        r@[1].layer == *y,
        operators(Ok::<Vec<Operator<T>>, MatrixError>(r)) == Ok::<Seq<(Matrix<T>, Layer<T>)>, MatrixError>(
            seq![(dx, *x), (dy, *y)],
        ),
{
    let mut r: Vec<Operator<T>> = Vec::new();
    r.push(Operator { matrix: dx, layer: share(x) });
    r.push(Operator { matrix: dy, layer: share(y) });
    assert(Seq::new(r@.len(), |i: int| (r@[i].matrix, r@[i].layer)) =~= seq![(dx, *x), (dy, *y)]);
    r
}

impl<T: Copy> Add<T> {
    /// Both inputs get the gradient as it is.
    pub open spec fn derived<A: Fn(T, T) -> T, M: Fn(T, T) -> T, N: Fn(T) -> T>(
        self,
        g: Matrix<T>,
        zero: T,
        plus: A,
        times: M,
        neg: N,
        d: Derived<T>,
    ) -> bool {
        exists|dx: Matrix<T>, dy: Matrix<T>|
            like(dx, g) && like(dy, g) && d == Ok::<Seq<(Matrix<T>, Layer<T>)>, MatrixError>(
                seq![(dx, self.x), (dy, self.y)],
            )
    }
}

impl<T: Copy> Differentiable<T> for Add<T> {
    open spec fn kept(&self) -> bool {
        true
    }

    open spec fn fits_for(&self, d: (usize, usize)) -> bool {
        true
    }

    fn differentiate<A: Fn(T, T) -> T + Copy, M: Fn(T, T) -> T + Copy, N: Fn(T) -> T + Copy>(
        &self,
        grad: &Matrix<T>,
        zero: T,
        plus: A,
        times: M,
        neg: N,
    ) -> (r: Result<Vec<Operator<T>>, MatrixError>)
        ensures
            self.derived(*grad, zero, plus, times, neg, operators(r)),
    {
        let dx = grad.dup();
        let dy = grad.dup();
        Ok(two(dx, &self.x, dy, &self.y))
    }
}

/// One gradient with its layer.
fn single<T>(dx: Matrix<T>, x: &Layer<T>) -> (r: Vec<Operator<T>>)
    ensures
        operators(Ok::<Vec<Operator<T>>, MatrixError>(r)) == Ok::<Seq<(Matrix<T>, Layer<T>)>, MatrixError>(
            seq![(dx, *x)],
        ),
{
    let mut r: Vec<Operator<T>> = Vec::new();
    r.push(Operator { matrix: dx, layer: share(x) });
    assert(Seq::new(r@.len(), |i: int| (r@[i].matrix, r@[i].layer)) =~= seq![(dx, *x)]);
    r
}

/// `g` with `neg` applied to each cell.
fn negate<T: Copy, N: Fn(T) -> T + Copy>(g: &Matrix<T>, neg: N) -> (m: Matrix<T>)
    requires
        g.wf(),
        forall|a: T| neg.requires((a,)),
    ensures
        mapped(*g, m, neg),
{
    let mut m = g.dup();
    let _ = m.apply(neg);
    m
}

impl<T: Copy> Sub<T> {
    /// The first input gets the gradient as it is, the second its negation.
    pub open spec fn derived<A: Fn(T, T) -> T, M: Fn(T, T) -> T, N: Fn(T) -> T>(
        self,
        g: Matrix<T>,
        zero: T,
        plus: A,
        times: M,
        neg: N,
        d: Derived<T>,
    ) -> bool {
        exists|dx: Matrix<T>, dy: Matrix<T>|
            like(dx, g) && mapped(g, dy, neg) && d == Ok::<Seq<(Matrix<T>, Layer<T>)>, MatrixError>(
                seq![(dx, self.x), (dy, self.y)],
            )
    }
}

impl<T: Copy> Differentiable<T> for Sub<T> {
    open spec fn kept(&self) -> bool {
        true
    }

    open spec fn fits_for(&self, d: (usize, usize)) -> bool {
        true
    }

    fn differentiate<A: Fn(T, T) -> T + Copy, M: Fn(T, T) -> T + Copy, N: Fn(T) -> T + Copy>(
        &self,
        grad: &Matrix<T>,
        zero: T,
        plus: A,
        times: M,
        neg: N,
    ) -> (r: Result<Vec<Operator<T>>, MatrixError>)
        ensures
            self.derived(*grad, zero, plus, times, neg, operators(r)),
    {
        let dx = grad.dup();
        let dy = negate(grad, neg);
        Ok(two(dx, &self.x, dy, &self.y))
    }
}

impl<T: Copy> Mul<T> {
    /// Each input gets the gradient scaled by its factor.
    pub open spec fn derived<A: Fn(T, T) -> T, M: Fn(T, T) -> T, N: Fn(T) -> T>(
        self,
        g: Matrix<T>,
        zero: T,
        plus: A,
        times: M,
        neg: N,
        d: Derived<T>,
    ) -> bool {
        scaled(self.x, self.y, self.gx, self.gy, g, times, d)
    }
}

impl<T: Copy> Differentiable<T> for Mul<T> {
    open spec fn kept(&self) -> bool {
        self.gx.wf() && self.gy.wf()
    }

    open spec fn fits_for(&self, d: (usize, usize)) -> bool {
        true
    }

    fn differentiate<A: Fn(T, T) -> T + Copy, M: Fn(T, T) -> T + Copy, N: Fn(T) -> T + Copy>(
        &self,
        grad: &Matrix<T>,
        zero: T,
        plus: A,
        times: M,
        neg: N,
    ) -> (r: Result<Vec<Operator<T>>, MatrixError>)
        ensures
            self.derived(*grad, zero, plus, times, neg, operators(r)),
    {
        let dx = match scale(&self.gx, grad, times) {
            Ok(m) => m,
            Err(e) => return Err(e),
        };
        let dy = match scale(&self.gy, grad, times) {
            Ok(m) => m,
            Err(e) => return Err(e),
        };
        Ok(two(dx, &self.x, dy, &self.y))
    }
}

impl<T: Copy> Div<T> {
    /// Each input gets the gradient scaled by its local derivative.
    pub open spec fn derived<A: Fn(T, T) -> T, M: Fn(T, T) -> T, N: Fn(T) -> T>(
        self,
        g: Matrix<T>,
        zero: T,
        plus: A,
        times: M,
        neg: N,
        d: Derived<T>,
    ) -> bool {
        scaled(self.x, self.y, self.gx, self.gy, g, times, d)
    }
}

impl<T: Copy> Differentiable<T> for Div<T> {
    open spec fn kept(&self) -> bool {
        self.gx.wf() && self.gy.wf()
    }

    open spec fn fits_for(&self, d: (usize, usize)) -> bool {
        true
    }

    fn differentiate<A: Fn(T, T) -> T + Copy, M: Fn(T, T) -> T + Copy, N: Fn(T) -> T + Copy>(
        &self,
        grad: &Matrix<T>,
        zero: T,
        plus: A,
        times: M,
        neg: N,
    ) -> (r: Result<Vec<Operator<T>>, MatrixError>)
        ensures
            self.derived(*grad, zero, plus, times, neg, operators(r)),
    {
        let dx = match scale(&self.gx, grad, times) {
            Ok(m) => m,
            Err(e) => return Err(e),
        };
        let dy = match scale(&self.gy, grad, times) {
            Ok(m) => m,
            Err(e) => return Err(e),
        };
        Ok(two(dx, &self.x, dy, &self.y))
    }
}

impl<T: Copy> Pow<T> {
    /// Each input gets the gradient scaled by its local derivative.
    pub open spec fn derived<A: Fn(T, T) -> T, M: Fn(T, T) -> T, N: Fn(T) -> T>(
        self,
        g: Matrix<T>,
        zero: T,
        plus: A,
        times: M,
        neg: N,
        d: Derived<T>,
    ) -> bool {
        scaled(self.x, self.y, self.gx, self.gy, g, times, d)
    }
}

impl<T: Copy> Differentiable<T> for Pow<T> {
    open spec fn kept(&self) -> bool {
        self.gx.wf() && self.gy.wf()
    }

    open spec fn fits_for(&self, d: (usize, usize)) -> bool {
        true
    }

    fn differentiate<A: Fn(T, T) -> T + Copy, M: Fn(T, T) -> T + Copy, N: Fn(T) -> T + Copy>(
        &self,
        grad: &Matrix<T>,
        zero: T,
        plus: A,
        times: M,
        neg: N,
    ) -> (r: Result<Vec<Operator<T>>, MatrixError>)
        ensures
            self.derived(*grad, zero, plus, times, neg, operators(r)),
    {
        let dx = match scale(&self.gx, grad, times) {
            Ok(m) => m,
            Err(e) => return Err(e),
        };
        let dy = match scale(&self.gy, grad, times) {
            Ok(m) => m,
            Err(e) => return Err(e),
        };
        Ok(two(dx, &self.x, dy, &self.y))
    }
}

impl<T: Copy> Neg<T> {
    /// The input gets the negated gradient.
    pub open spec fn derived<A: Fn(T, T) -> T, M: Fn(T, T) -> T, N: Fn(T) -> T>(
        self,
        g: Matrix<T>,
        zero: T,
        plus: A,
        times: M,
        neg: N,
        d: Derived<T>,
    ) -> bool {
        exists|dx: Matrix<T>|
            mapped(g, dx, neg) && d == Ok::<Seq<(Matrix<T>, Layer<T>)>, MatrixError>(seq![(dx, self.x)])
    }
}

impl<T: Copy> Differentiable<T> for Neg<T> {
    open spec fn kept(&self) -> bool {
        true
    }

    open spec fn fits_for(&self, d: (usize, usize)) -> bool {
        true
    }

    fn differentiate<A: Fn(T, T) -> T + Copy, M: Fn(T, T) -> T + Copy, N: Fn(T) -> T + Copy>(
        &self,
        grad: &Matrix<T>,
        zero: T,
        plus: A,
        times: M,
        neg: N,
    ) -> (r: Result<Vec<Operator<T>>, MatrixError>)
        ensures
            self.derived(*grad, zero, plus, times, neg, operators(r)),
    {
        let dx = negate(grad, neg);
        Ok(single(dx, &self.x))
    }
}

impl<T: Copy> Dot<T> {
    /// The first input gets the gradient times `gx`, the second `gy` times
    /// the gradient; refused when the shapes do not chain.
    pub open spec fn derived<A: Fn(T, T) -> T, M: Fn(T, T) -> T, N: Fn(T) -> T>(
        self,
        g: Matrix<T>,
        zero: T,
        plus: A,
        times: M,
        neg: N,
        d: Derived<T>,
    ) -> bool {
        if g.dims().1 != self.gx.dims().0 {
            d == Err::<Seq<(Matrix<T>, Layer<T>)>, MatrixError>(
                MatrixError::Multiply(g.dims().0, g.dims().1, self.gx.dims().0, self.gx.dims().1),
            )
        } else if self.gy.dims().1 != g.dims().0 {
            d == Err::<Seq<(Matrix<T>, Layer<T>)>, MatrixError>(
                MatrixError::Multiply(self.gy.dims().0, self.gy.dims().1, g.dims().0, g.dims().1),
            )
        } else {
            exists|dx: Matrix<T>, dy: Matrix<T>|
                multiplied(g, self.gx, dx, zero, plus, times) && multiplied(self.gy, g, dy, zero, plus, times)
                    && d == Ok::<Seq<(Matrix<T>, Layer<T>)>, MatrixError>(seq![(dx, self.x), (dy, self.y)])
        }
    }
}

impl<T: Copy> Differentiable<T> for Dot<T> {
    open spec fn kept(&self) -> bool {
        self.gx.wf() && self.gy.wf()
    }

    open spec fn fits_for(&self, d: (usize, usize)) -> bool {
        &&& d.1 == self.gx.dims().0 ==> d.0 * self.gx.dims().1 <= usize::MAX
        &&& self.gy.dims().1 == d.0 ==> self.gy.dims().0 * d.1 <= usize::MAX
    }

    fn differentiate<A: Fn(T, T) -> T + Copy, M: Fn(T, T) -> T + Copy, N: Fn(T) -> T + Copy>(
        &self,
        grad: &Matrix<T>,
        zero: T,
        plus: A,
        times: M,
        neg: N,
    ) -> (r: Result<Vec<Operator<T>>, MatrixError>)
        ensures
            self.derived(*grad, zero, plus, times, neg, operators(r)),
    {
        let dx = match grad.dot(&self.gx, zero, plus, times) {
            Ok(m) => m,
            Err(e) => return Err(e),
        };
        let dy = match self.gy.dot(grad, zero, plus, times) {
            Ok(m) => m,
            Err(e) => return Err(e),
        };
        Ok(two(dx, &self.x, dy, &self.y))
    }
}

impl<T: Copy> ReLU<T> {
    /// The input gets the gradient scaled by the local derivative.
    pub open spec fn derived<A: Fn(T, T) -> T, M: Fn(T, T) -> T, N: Fn(T) -> T>(
        self,
        g: Matrix<T>,
        zero: T,
        plus: A,
        times: M,
        neg: N,
        d: Derived<T>,
    ) -> bool {
        if self.gx.dims() != g.dims() {
            d == Err::<Seq<(Matrix<T>, Layer<T>)>, MatrixError>(
                MatrixError::Broadcast(self.gx.dims().0, self.gx.dims().1, g.dims().0, g.dims().1),
            )
        } else {
            exists|dx: Matrix<T>|
                zipped(self.gx, g, dx, times) && d == Ok::<Seq<(Matrix<T>, Layer<T>)>, MatrixError>(
                    seq![(dx, self.x)],
                )
        }
    }
}

impl<T: Copy> Differentiable<T> for ReLU<T> {
    open spec fn kept(&self) -> bool {
        self.gx.wf()
    }

    open spec fn fits_for(&self, d: (usize, usize)) -> bool {
        true
    }

    fn differentiate<A: Fn(T, T) -> T + Copy, M: Fn(T, T) -> T + Copy, N: Fn(T) -> T + Copy>(
        &self,
        grad: &Matrix<T>,
        zero: T,
        plus: A,
        times: M,
        neg: N,
    ) -> (r: Result<Vec<Operator<T>>, MatrixError>)
        ensures
            self.derived(*grad, zero, plus, times, neg, operators(r)),
    {
        let dx = match scale(&self.gx, grad, times) {
            Ok(m) => m,
            Err(e) => return Err(e),
        };
        Ok(single(dx, &self.x))
    }
}

impl<T: Copy> CrossEntropy<T> {
    /// The loss of logits produced by `x` against a label produced by `y`,
    /// with `softmax` the gradient of the logits.
    pub fn new(x: Layer<T>, y: Layer<T>, softmax: Vec<T>) -> (c: Self)
        ensures
            c.x == x,
            c.y == y,
            c.softmax == softmax,
    {
        CrossEntropy { x, y, softmax }
    }

    /// Whatever the gradient, the logits get the kept gradient as one row and
    /// the label gets nothing.
    pub open spec fn derived<A: Fn(T, T) -> T, M: Fn(T, T) -> T, N: Fn(T) -> T>(
        self,
        g: Matrix<T>,
        zero: T,
        plus: A,
        times: M,
        neg: N,
        d: Derived<T>,
    ) -> bool {
        exists|dx: Matrix<T>, dy: Matrix<T>|
            {
                &&& dx.wf()
                &&& dx.dims() == (1usize, self.softmax@.len() as usize)
                &&& dx.cells() == self.softmax@
                &&& dy.wf()
                &&& dy.dims() == (0usize, 0usize)
                &&& d == Ok::<Seq<(Matrix<T>, Layer<T>)>, MatrixError>(seq![(dx, self.x), (dy, self.y)])
            }
    }
}

impl<T: Copy> Differentiable<T> for CrossEntropy<T> {
    open spec fn kept(&self) -> bool {
        true
    }

    open spec fn fits_for(&self, d: (usize, usize)) -> bool {
        true
    }

    fn differentiate<A: Fn(T, T) -> T + Copy, M: Fn(T, T) -> T + Copy, N: Fn(T) -> T + Copy>(
        &self,
        grad: &Matrix<T>,
        zero: T,
        plus: A,
        times: M,
        neg: N,
    ) -> (r: Result<Vec<Operator<T>>, MatrixError>)
        ensures
            self.derived(*grad, zero, plus, times, neg, operators(r)),
    {
        let n = self.softmax.len();
        let dx = match Matrix::new(cells_of(&self.softmax), (1, n)) {
            Ok(m) => m,
            Err(e) => return Err(e),
        };
        let dy = Matrix::empty();
        Ok(two(dx, &self.x, dy, &self.y))
    }
}

impl<T: Copy> Layer<T> {
    /// Every matrix the layer and the layers below it keep is well-formed.
    pub open spec fn wf(self) -> bool
        decreases self,
    {
        match self {
            Layer::Add(b) => b.x.wf() && b.y.wf(),
            Layer::Sub(b) => b.x.wf() && b.y.wf(),
            Layer::Mul(b) => b.gx.wf() && b.gy.wf() && b.x.wf() && b.y.wf(),
            Layer::Div(b) => b.gx.wf() && b.gy.wf() && b.x.wf() && b.y.wf(),
            Layer::Pow(b) => b.gx.wf() && b.gy.wf() && b.x.wf() && b.y.wf(),
            Layer::Neg(b) => b.x.wf(),
            Layer::Dot(b) => b.gx.wf() && b.gy.wf() && b.x.wf() && b.y.wf(),
            Layer::ReLU(b) => b.gx.wf() && b.x.wf(),
            Layer::CrossEntropy(b) => b.x.wf() && b.y.wf(),
            Layer::Learnable(_) => true,
            Layer::Fixed => true,
        }
    }

    /// The matrix products that a backward pass from a gradient of shape `d`
    /// forms fit in memory.
    pub open spec fn fits(self, d: (usize, usize)) -> bool
        decreases self,
    {
        match self {
            Layer::Add(b) => b.x.fits(d) && b.y.fits(d),
            Layer::Sub(b) => b.x.fits(d) && b.y.fits(d),
            Layer::Mul(b) => b.x.fits(b.gx.dims()) && b.y.fits(b.gy.dims()),
            Layer::Div(b) => b.x.fits(b.gx.dims()) && b.y.fits(b.gy.dims()),
            Layer::Pow(b) => b.x.fits(b.gx.dims()) && b.y.fits(b.gy.dims()),
            Layer::Neg(b) => b.x.fits(d),
            Layer::Dot(b) => {
                &&& b.fits_for(d)
                &&& b.x.fits((d.0, b.gx.dims().1))
                &&& b.y.fits((b.gy.dims().0, d.1))
            },
            Layer::ReLU(b) => b.x.fits(b.gx.dims()),
            Layer::CrossEntropy(b) => b.x.fits((1usize, b.softmax@.len() as usize)) && b.y.fits((0usize, 0usize)),
            Layer::Learnable(_) => true,
            Layer::Fixed => true,
        }
    }

    /// A gradient of shape `d` flows back through the layer without a
    /// conflict of shapes: what the layers built by `build` keep.
    pub open spec fn ok_for(self, d: (usize, usize)) -> bool
        decreases self,
    {
        match self {
            Layer::Add(b) => b.x.ok_for(d) && b.y.ok_for(d),
            Layer::Sub(b) => b.x.ok_for(d) && b.y.ok_for(d),
            Layer::Mul(b) => b.gx.dims() == d && b.gy.dims() == d && b.x.ok_for(d) && b.y.ok_for(d),
            Layer::Div(b) => b.gx.dims() == d && b.gy.dims() == d && b.x.ok_for(d) && b.y.ok_for(d),
            Layer::Pow(b) => b.gx.dims() == d && b.gy.dims() == d && b.x.ok_for(d) && b.y.ok_for(d),
            Layer::Neg(b) => b.x.ok_for(d),
            Layer::Dot(b) => {
                &&& d.1 == b.gx.dims().0
                &&& b.gy.dims().1 == d.0
                &&& b.x.ok_for((d.0, b.gx.dims().1))
                &&& b.y.ok_for((b.gy.dims().0, d.1))
            },
            Layer::ReLU(b) => b.gx.dims() == d && b.x.ok_for(d),
            Layer::CrossEntropy(b) => b.x.ok_for((1usize, b.softmax@.len() as usize)) && b.y.ok_for((0usize, 0usize)),
            Layer::Learnable(_) => true,
            Layer::Fixed => true,
        }
    }

    /// What differentiating the operation of the layer against `g` gives;
    /// false for a parameter or a fixed input.
    pub open spec fn derive<A: Fn(T, T) -> T, M: Fn(T, T) -> T, N: Fn(T) -> T>(
        self,
        g: Matrix<T>,
        zero: T,
        plus: A,
        times: M,
        neg: N,
        d: Derived<T>,
    ) -> bool {
        match self {
            Layer::Add(b) => b.derived(g, zero, plus, times, neg, d),
            Layer::Sub(b) => b.derived(g, zero, plus, times, neg, d),
            Layer::Mul(b) => b.derived(g, zero, plus, times, neg, d),
            Layer::Div(b) => b.derived(g, zero, plus, times, neg, d),
            Layer::Pow(b) => b.derived(g, zero, plus, times, neg, d),
            Layer::Neg(b) => b.derived(g, zero, plus, times, neg, d),
            Layer::Dot(b) => b.derived(g, zero, plus, times, neg, d),
            Layer::ReLU(b) => b.derived(g, zero, plus, times, neg, d),
            Layer::CrossEntropy(b) => b.derived(g, zero, plus, times, neg, d),
            Layer::Learnable(_) => false,
            Layer::Fixed => false,
        }
    }
}

/// The contributions `first`, then what `second` gives.
pub open spec fn after<T>(first: Seq<(usize, Matrix<T>)>, second: Flow<T>) -> Flow<T> {
    match second {
        Ok(s) => Ok(first + s),
        Err(e) => Err(e),
    }
}

/// The intermediate results of a backward pass: what differentiating the
/// layer gave, and the trace and result of the backward pass of each input.
pub enum Trace<T> {
    Leaf,
    Step(Derived<T>, Box<Trace<T>>, Flow<T>, Box<Trace<T>>, Flow<T>),
}

/// `t` traces a backward pass from the gradient `g` through the layer `l`
/// that gives `r`: a parameter contributes `g` under its key, a fixed input
/// nothing, and an operation differentiates against `g`, then runs the
/// backward pass of each input in turn, stopping at the first refusal.
pub open spec fn traced<T: Copy, A: Fn(T, T) -> T, M: Fn(T, T) -> T, N: Fn(T) -> T>(
    t: Trace<T>,
    l: Layer<T>,
    g: Matrix<T>,
    zero: T,
    plus: A,
    times: M,
    neg: N,
    r: Flow<T>,
) -> bool
    decreases l,
{
    match l {
        Layer::Learnable(id) => r == Ok::<Seq<(usize, Matrix<T>)>, MatrixError>(seq![(id, g)]),
        Layer::Fixed => r == Ok::<Seq<(usize, Matrix<T>)>, MatrixError>(Seq::empty()),
        _ => match t {
            Trace::Leaf => false,
            Trace::Step(d, t1, r1, t2, r2) => l.derive(g, zero, plus, times, neg, d) && match d {
                Err(e) => r == Err::<Seq<(usize, Matrix<T>)>, MatrixError>(e),
                Ok(ops) => {
                    ||| ops.len() == 1 && traced(*t1, ops[0].1, ops[0].0, zero, plus, times, neg, r)
                    ||| ops.len() == 2 && traced(*t1, ops[0].1, ops[0].0, zero, plus, times, neg, r1) && match r1 {
                        Err(e) => r == Err::<Seq<(usize, Matrix<T>)>, MatrixError>(e),
                        Ok(s1) => traced(*t2, ops[1].1, ops[1].0, zero, plus, times, neg, r2) && r == after(s1, r2),
                    }
                },
            },
        },
    }
}

/// What a backward pass from the gradient `g` through the layer `l` gives.
pub open spec fn backprop<T: Copy, A: Fn(T, T) -> T, M: Fn(T, T) -> T, N: Fn(T) -> T>(
    l: Layer<T>,
    g: Matrix<T>,
    zero: T,
    plus: A,
    times: M,
    neg: N,
    r: Flow<T>,
) -> bool {
    exists|t: Trace<T>| #[trigger] traced(t, l, g, zero, plus, times, neg, r)
}

/// The contributions of a result of `backward`.
pub open spec fn flow<T: Copy>(r: Result<Gradients<T>, MatrixError>) -> Flow<T> {
    match r {
        Ok(g) => Ok(g.entries()),
        Err(e) => Err(e),
    }
}

/// The inputs an operation sends gradients to are its own inputs, and what
/// they get is fit for their own backward pass.
proof fn lemma_children<T: Copy, A: Fn(T, T) -> T, M: Fn(T, T) -> T, N: Fn(T) -> T>(
    l: Layer<T>,
    g: Matrix<T>,
    zero: T,
    plus: A,
    times: M,
    neg: N,
    ops: Seq<(Matrix<T>, Layer<T>)>,
)
    requires
        l.derive(g, zero, plus, times, neg, Ok(ops)),
    ensures
        ops.len() == 1 || ops.len() == 2,
        forall|k: int|
            0 <= k < ops.len() ==> {
                &&& decreases_to!(l => (#[trigger] ops[k]).1)
                &&& ops[k].0.wf()
                &&& l.wf() ==> ops[k].1.wf()
                &&& l.fits(g.dims()) ==> ops[k].1.fits(ops[k].0.dims())
                &&& l.ok_for(g.dims()) ==> ops[k].1.ok_for(ops[k].0.dims())
            },
{
    match l {
        Layer::Add(b) => {
            let (dx, dy) = choose|dx: Matrix<T>, dy: Matrix<T>|
                like(dx, g) && like(dy, g) && Ok::<Seq<(Matrix<T>, Layer<T>)>, MatrixError>(ops) == Ok::<
                    Seq<(Matrix<T>, Layer<T>)>,
                    MatrixError,
                >(seq![(dx, b.x), (dy, b.y)]);
            assert(ops == seq![(dx, b.x), (dy, b.y)]);
        },
        Layer::Sub(b) => {
            let (dx, dy) = choose|dx: Matrix<T>, dy: Matrix<T>|
                like(dx, g) && mapped(g, dy, neg) && Ok::<Seq<(Matrix<T>, Layer<T>)>, MatrixError>(ops) == Ok::<
                    Seq<(Matrix<T>, Layer<T>)>,
                    MatrixError,
                >(seq![(dx, b.x), (dy, b.y)]);
            assert(ops == seq![(dx, b.x), (dy, b.y)]);
        },
        Layer::Mul(b) => {
            let (dx, dy) = choose|dx: Matrix<T>, dy: Matrix<T>|
                zipped(b.gx, g, dx, times) && zipped(b.gy, g, dy, times) && Ok::<Seq<(Matrix<T>, Layer<T>)>, MatrixError>(
                    ops,
                ) == Ok::<Seq<(Matrix<T>, Layer<T>)>, MatrixError>(seq![(dx, b.x), (dy, b.y)]);
            assert(ops == seq![(dx, b.x), (dy, b.y)]);
        },
        Layer::Div(b) => {
            let (dx, dy) = choose|dx: Matrix<T>, dy: Matrix<T>|
                zipped(b.gx, g, dx, times) && zipped(b.gy, g, dy, times) && Ok::<Seq<(Matrix<T>, Layer<T>)>, MatrixError>(
                    ops,
                ) == Ok::<Seq<(Matrix<T>, Layer<T>)>, MatrixError>(seq![(dx, b.x), (dy, b.y)]);
            assert(ops == seq![(dx, b.x), (dy, b.y)]);
        },
        Layer::Pow(b) => {
            let (dx, dy) = choose|dx: Matrix<T>, dy: Matrix<T>|
                zipped(b.gx, g, dx, times) && zipped(b.gy, g, dy, times) && Ok::<Seq<(Matrix<T>, Layer<T>)>, MatrixError>(
                    ops,
                ) == Ok::<Seq<(Matrix<T>, Layer<T>)>, MatrixError>(seq![(dx, b.x), (dy, b.y)]);
            assert(ops == seq![(dx, b.x), (dy, b.y)]);
        },
        Layer::Neg(b) => {
            let dx = choose|dx: Matrix<T>|
                mapped(g, dx, neg) && Ok::<Seq<(Matrix<T>, Layer<T>)>, MatrixError>(ops) == Ok::<
                    Seq<(Matrix<T>, Layer<T>)>,
                    MatrixError,
                >(seq![(dx, b.x)]);
            assert(ops == seq![(dx, b.x)]);
        },
        Layer::Dot(b) => {
            let (dx, dy) = choose|dx: Matrix<T>, dy: Matrix<T>|
                multiplied(g, b.gx, dx, zero, plus, times) && multiplied(b.gy, g, dy, zero, plus, times)
                    && Ok::<Seq<(Matrix<T>, Layer<T>)>, MatrixError>(ops) == Ok::<Seq<(Matrix<T>, Layer<T>)>, MatrixError>(
                    seq![(dx, b.x), (dy, b.y)],
                );
            assert(ops == seq![(dx, b.x), (dy, b.y)]);
        },
        Layer::ReLU(b) => {
            let dx = choose|dx: Matrix<T>|
                zipped(b.gx, g, dx, times) && Ok::<Seq<(Matrix<T>, Layer<T>)>, MatrixError>(ops) == Ok::<
                    Seq<(Matrix<T>, Layer<T>)>,
                    MatrixError,
                >(seq![(dx, b.x)]);
            assert(ops == seq![(dx, b.x)]);
        },
        Layer::CrossEntropy(b) => {
            let (dx, dy) = choose|dx: Matrix<T>, dy: Matrix<T>|
                {
                    &&& dx.wf()
                    &&& dx.dims() == (1usize, b.softmax@.len() as usize)
                    &&& dx.cells() == b.softmax@
                    &&& dy.wf()
                    &&& dy.dims() == (0usize, 0usize)
                    &&& Ok::<Seq<(Matrix<T>, Layer<T>)>, MatrixError>(ops) == Ok::<Seq<(Matrix<T>, Layer<T>)>, MatrixError>(
                        seq![(dx, b.x), (dy, b.y)],
                    )
                };
            assert(ops == seq![(dx, b.x), (dy, b.y)]);
        },
        Layer::Learnable(_) => {},
        Layer::Fixed => {},
    }
}

/// A trace of a backward pass that gives `r`.
proof fn trace_of<T: Copy, A: Fn(T, T) -> T, M: Fn(T, T) -> T, N: Fn(T) -> T>(
    l: Layer<T>,
    g: Matrix<T>,
    zero: T,
    plus: A,
    times: M,
    neg: N,
    r: Flow<T>,
) -> (t: Trace<T>)
    requires
        backprop(l, g, zero, plus, times, neg, r),
    ensures
        traced(t, l, g, zero, plus, times, neg, r),
{
    choose|t: Trace<T>| traced(t, l, g, zero, plus, times, neg, r)
}

impl<T: Copy> Layer<T> {
    /// The gradients of every learnable parameter below the layer when `grad`
    /// reaches it, in the order the backward pass finds them.
    pub fn backward<A: Fn(T, T) -> T + Copy, M: Fn(T, T) -> T + Copy, N: Fn(T) -> T + Copy>(
        &self,
        grad: Matrix<T>,
        zero: T,
        plus: A,
        times: M,
        neg: N,
    ) -> (r: Result<Gradients<T>, MatrixError>)
        requires
            self.wf(),
            grad.wf(),
            self.fits(grad.dims()),
            forall|a: T, b: T| plus.requires((a, b)),
            forall|a: T, b: T| times.requires((a, b)),
            forall|a: T| neg.requires((a,)),
        ensures
            backprop(*self, grad, zero, plus, times, neg, flow(r)),
        decreases self,
    {
        let ghost g0 = grad;
        let d = match self {
            Layer::Learnable(id) => {
                let r = Ok(Gradients::new(*id, grad));
                assert(traced(Trace::Leaf, *self, g0, zero, plus, times, neg, flow(r)));
                return r;
            },
            Layer::Fixed => {
                let r = Ok(Gradients::empty());
                assert(traced(Trace::Leaf, *self, g0, zero, plus, times, neg, flow(r)));
                return r;
            },
            Layer::Add(b) => b.differentiate(&grad, zero, plus, times, neg),
            Layer::Sub(b) => b.differentiate(&grad, zero, plus, times, neg),
            Layer::Mul(b) => b.differentiate(&grad, zero, plus, times, neg),
            Layer::Div(b) => b.differentiate(&grad, zero, plus, times, neg),
            Layer::Pow(b) => b.differentiate(&grad, zero, plus, times, neg),
            Layer::Neg(b) => b.differentiate(&grad, zero, plus, times, neg),
            Layer::Dot(b) => b.differentiate(&grad, zero, plus, times, neg),
            Layer::ReLU(b) => b.differentiate(&grad, zero, plus, times, neg),
            Layer::CrossEntropy(b) => b.differentiate(&grad, zero, plus, times, neg),
        };
        let ghost dv = operators(d);
        assert(self.derive(grad, zero, plus, times, neg, dv));
        let mut ops = match d {
            Ok(ops) => ops,
            Err(e) => {
                let ghost fe = Err::<Seq<(usize, Matrix<T>)>, MatrixError>(e);
                assert(traced(Trace::Step(dv, Box::new(Trace::Leaf), fe, Box::new(Trace::Leaf), fe), *self, grad, zero, plus, times, neg, fe));
                return Err(e);
            },
        };
        let ghost ov = dv->Ok_0;
        assert(ov.len() == ops@.len() && forall|i: int| 0 <= i < ov.len() ==> #[trigger] ov[i] == (ops@[i].matrix, ops@[i].layer));
        proof {
            lemma_children(*self, grad, zero, plus, times, neg, ov);
        }
        if ops.len() == 1 {
            let o = ops.pop().unwrap();
            assert(o.matrix == ov[0].0 && o.layer == ov[0].1);
            let r = o.layer.backward(o.matrix, zero, plus, times, neg);
            proof {
                let t1 = trace_of(ov[0].1, ov[0].0, zero, plus, times, neg, flow(r));
                assert(traced(Trace::Step(dv, Box::new(t1), flow(r), Box::new(Trace::Leaf), flow(r)), *self, grad, zero, plus, times, neg, flow(r)));
            }
            r
        } else {
            let oy = ops.pop().unwrap();
            let ox = ops.pop().unwrap();
            assert(ox.matrix == ov[0].0 && ox.layer == ov[0].1);
            assert(oy.matrix == ov[1].0 && oy.layer == ov[1].1);
            let r1 = ox.layer.backward(ox.matrix, zero, plus, times, neg);
            let ghost t1 = trace_of(ov[0].1, ov[0].0, zero, plus, times, neg, flow(r1));
            match r1 {
                Err(e) => {
                    let ghost fe = Err::<Seq<(usize, Matrix<T>)>, MatrixError>(e);
                    assert(traced(Trace::Step(dv, Box::new(t1), fe, Box::new(Trace::Leaf), fe), *self, grad, zero, plus, times, neg, fe));
                    Err(e)
                },
                Ok(g1) => {
                    let ghost s1 = g1.entries();
                    let r2 = oy.layer.backward(oy.matrix, zero, plus, times, neg);
                    let ghost t2 = trace_of(ov[1].1, ov[1].0, zero, plus, times, neg, flow(r2));
                    let ghost ts = Trace::Step(dv, Box::new(t1), Ok::<Seq<(usize, Matrix<T>)>, MatrixError>(s1), Box::new(t2), flow(r2));
                    match r2 {
                        Err(e) => {
                            assert(traced(ts, *self, grad, zero, plus, times, neg, after(s1, flow(r2))));
                            Err(e)
                        },
                        Ok(g2) => {
                            let mut g1 = g1;
                            g1.concat(g2);
                            assert(traced(ts, *self, grad, zero, plus, times, neg, after(s1, flow(r2))));
                            Ok(g1)
                        },
                    }
                },
            }
        }
    }
}

/// An operation that a gradient of its own shape reaches differentiates
/// without refusal.
proof fn lemma_consistent_derive<T: Copy, A: Fn(T, T) -> T, M: Fn(T, T) -> T, N: Fn(T) -> T>(
    l: Layer<T>,
    g: Matrix<T>,
    zero: T,
    plus: A,
    times: M,
    neg: N,
    d: Derived<T>,
)
    requires
        l.derive(g, zero, plus, times, neg, d),
        l.ok_for(g.dims()),
    ensures
        d is Ok,
{
}

/// A backward pass through layers whose shapes agree with the gradient that
/// reaches them is never refused: so it is for every value that `build`
/// makes from sound values.
pub proof fn law_consistent_layers_flow<T: Copy, A: Fn(T, T) -> T, M: Fn(T, T) -> T, N: Fn(T) -> T>(
    t: Trace<T>,
    l: Layer<T>,
    g: Matrix<T>,
    zero: T,
    plus: A,
    times: M,
    neg: N,
    r: Flow<T>,
)
    requires
        traced(t, l, g, zero, plus, times, neg, r),
        l.ok_for(g.dims()),
    ensures
        r is Ok,
    decreases l,
{
    match l {
        Layer::Learnable(_) => {},
        Layer::Fixed => {},
        _ => {
            match t {
                Trace::Leaf => {},
                Trace::Step(d, t1, r1, t2, r2) => {
                    lemma_consistent_derive(l, g, zero, plus, times, neg, d);
                    let ops = d->Ok_0;
                    lemma_children(l, g, zero, plus, times, neg, ops);
                    law_consistent_layers_flow(*t1, ops[0].1, ops[0].0, zero, plus, times, neg, if ops.len() == 1 {
                        r
                    } else {
                        r1
                    });
                    if ops.len() == 2 {
                        law_consistent_layers_flow(*t2, ops[1].1, ops[1].0, zero, plus, times, neg, r2);
                    }
                },
            }
        },
    }
}

impl<T: Copy> Operator<T> {
    /// The value is well-formed, and a backward pass from a gradient of its
    /// shape goes through every layer below it without a conflict of shapes
    /// and forms matrices that fit in memory.
    pub open spec fn sound(self) -> bool {
        &&& self.matrix.wf()
        &&& self.layer.wf()
        &&& self.layer.ok_for(self.matrix.dims())
        &&& self.layer.fits(self.matrix.dims())
    }

    /// The gradients of every learnable parameter the value depends on: a
    /// backward pass from a gradient of ones of the value's shape, never
    /// refused for a sound value.
    pub fn backward<A: Fn(T, T) -> T + Copy, M: Fn(T, T) -> T + Copy, N: Fn(T) -> T + Copy>(
        &self,
        one: T,
        zero: T,
        plus: A,
        times: M,
        neg: N,
    ) -> (r: Result<Gradients<T>, MatrixError>)
        requires
            self.matrix.wf(),
            self.layer.wf(),
            self.layer.fits(self.matrix.dims()),
            forall|a: T, b: T| plus.requires((a, b)),
            forall|a: T, b: T| times.requires((a, b)),
            forall|a: T| neg.requires((a,)),
        ensures
            exists|g: Matrix<T>|
                {
                    &&& g.wf()
                    &&& g.dims() == self.matrix.dims()
                    &&& forall|i: int| 0 <= i < g.cells().len() ==> #[trigger] g.cells()[i] == one
                    &&& #[trigger] backprop(self.layer, g, zero, plus, times, neg, flow(r))
                },
            self.sound() ==> r is Ok,
    {
        let _ = self.matrix.size();
        let shape = self.matrix.dimensions();
        let grad = Matrix::full(one, shape);
        let ghost g = grad;
        let r = self.layer.backward(grad, zero, plus, times, neg);
        proof {
            if self.sound() {
                let t = trace_of(self.layer, g, zero, plus, times, neg, flow(r));
                law_consistent_layers_flow(t, self.layer, g, zero, plus, times, neg, flow(r));
            }
        }
        r
    }
}

impl<T: Copy> Add<T> {
    /// The sum of `x` and `y` cell by cell, with `plus` the addition of the cells; refused when the shapes differ.
    pub fn build<F: Fn(T, T) -> T + Copy>(x: Operator<T>, y: Operator<T>, plus: F) -> (r: Result<Operator<T>, MatrixError>)
        requires
            x.matrix.wf(),
            y.matrix.wf(),
            forall|a: T, b: T| plus.requires((a, b)),
        ensures
            match r {
                Ok(o) => {
                    &&& zipped(x.matrix, y.matrix, o.matrix, plus)
                    &&& o.layer matches Layer::Add(b) && b.x == x.layer && b.y == y.layer
                    &&& x.sound() && y.sound() ==> o.sound()
                },
                Err(e) => x.matrix.dims() != y.matrix.dims() && e == MatrixError::Broadcast(
                    x.matrix.dims().0,
                    x.matrix.dims().1,
                    y.matrix.dims().0,
                    y.matrix.dims().1,
                ),
            },
    {
        let mut m = x.matrix;
        match m.broadcast(&y.matrix, plus) {
            Ok(()) => {},
            Err(e) => return Err(e),
        }
        let layer = Layer::Add(Rc::new(Add { x: x.layer, y: y.layer }));
        Ok(Operator::new(m, layer))
    }
}

impl<T: Copy> Sub<T> {
    /// The difference of `x` and `y` cell by cell, with `minus` the subtraction of the cells; refused when the shapes differ.
    pub fn build<F: Fn(T, T) -> T + Copy>(x: Operator<T>, y: Operator<T>, minus: F) -> (r: Result<Operator<T>, MatrixError>)
        requires
            x.matrix.wf(),
            y.matrix.wf(),
            forall|a: T, b: T| minus.requires((a, b)),
        ensures
            match r {
                Ok(o) => {
                    &&& zipped(x.matrix, y.matrix, o.matrix, minus)
                    &&& o.layer matches Layer::Sub(b) && b.x == x.layer && b.y == y.layer
                    &&& x.sound() && y.sound() ==> o.sound()
                },
                Err(e) => x.matrix.dims() != y.matrix.dims() && e == MatrixError::Broadcast(
                    x.matrix.dims().0,
                    x.matrix.dims().1,
                    y.matrix.dims().0,
                    y.matrix.dims().1,
                ),
            },
    {
        let mut m = x.matrix;
        match m.broadcast(&y.matrix, minus) {
            Ok(()) => {},
            Err(e) => return Err(e),
        }
        let layer = Layer::Sub(Rc::new(Sub { x: x.layer, y: y.layer }));
        Ok(Operator::new(m, layer))
    }
}

impl<T: Copy> Mul<T> {
    /// The product of `x` and `y` cell by cell, with `times` the
    /// multiplication of the cells; refused when the shapes differ. The
    /// gradient of `x` is scaled by `y`, that of `y` by the product.
    pub fn build<F: Fn(T, T) -> T + Copy>(x: Operator<T>, y: Operator<T>, times: F) -> (r: Result<Operator<T>, MatrixError>)
        requires
            x.matrix.wf(),
            y.matrix.wf(),
            forall|a: T, b: T| times.requires((a, b)),
        ensures
            match r {
                Ok(o) => {
                    &&& zipped(x.matrix, y.matrix, o.matrix, times)
                    &&& o.layer matches Layer::Mul(b) && b.x == x.layer && b.y == y.layer && b.gx == y.matrix
                        && like(b.gy, o.matrix)
                    &&& x.sound() && y.sound() ==> o.sound()
                },
                Err(e) => x.matrix.dims() != y.matrix.dims() && e == MatrixError::Broadcast(
                    x.matrix.dims().0,
                    x.matrix.dims().1,
                    y.matrix.dims().0,
                    y.matrix.dims().1,
                ),
            },
    {
        let mut m = x.matrix;
        match m.broadcast(&y.matrix, times) {
            Ok(()) => {},
            Err(e) => return Err(e),
        }
        let gy = m.dup();
        let layer = Layer::Mul(Rc::new(Mul { x: x.layer, y: y.layer, gx: y.matrix, gy }));
        Ok(Operator::new(m, layer))
    }
}

impl<T: Copy> Div<T> {
    /// The quotient of `x` by `y` cell by cell, with `quot` the division of the cells, `recip` the derivative by the dividend and `slope` that by the divisor; refused when the shapes differ.
    pub fn build<P: Fn(T, T) -> T + Copy, Q: Fn(T, T) -> T + Copy, F: Fn(T, T) -> T + Copy>(
        x: Operator<T>,
        y: Operator<T>,
        recip: P,
        slope: Q,
        quot: F,
    ) -> (r: Result<Operator<T>, MatrixError>)
        requires
            x.matrix.wf(),
            y.matrix.wf(),
            forall|a: T, b: T| recip.requires((a, b)),
            forall|a: T, b: T| slope.requires((a, b)),
            forall|a: T, b: T| quot.requires((a, b)),
        ensures
            match r {
                Ok(o) => {
                    &&& zipped(x.matrix, y.matrix, o.matrix, quot)
                    &&& o.layer matches Layer::Div(b) && b.x == x.layer && b.y == y.layer
                        && zipped(x.matrix, y.matrix, b.gx, recip) && zipped(x.matrix, y.matrix, b.gy, slope)
                    &&& x.sound() && y.sound() ==> o.sound()
                },
                Err(e) => x.matrix.dims() != y.matrix.dims() && e == MatrixError::Broadcast(
                    x.matrix.dims().0,
                    x.matrix.dims().1,
                    y.matrix.dims().0,
                    y.matrix.dims().1,
                ),
            },
    {
        let mut dx = x.matrix.dup();
        match dx.broadcast(&y.matrix, recip) {
            Ok(()) => {},
            Err(e) => return Err(e),
        }
        let mut dy = x.matrix.dup();
        match dy.broadcast(&y.matrix, slope) {
            Ok(()) => {},
            Err(e) => return Err(e),
        }
        let mut m = x.matrix;
        match m.broadcast(&y.matrix, quot) {
            Ok(()) => {},
            Err(e) => return Err(e),
        }
        let layer = Layer::Div(Rc::new(Div { x: x.layer, y: y.layer, gx: dx, gy: dy }));
        Ok(Operator::new(m, layer))
    }
}

impl<T: Copy> Pow<T> {
    /// `x` to the power `y` cell by cell, with `power` the power of the cells, `dbase` the derivative by the base and `dexp` that by the exponent; refused when the shapes differ.
    pub fn build<P: Fn(T, T) -> T + Copy, Q: Fn(T, T) -> T + Copy, F: Fn(T, T) -> T + Copy>(
        x: Operator<T>,
        y: Operator<T>,
        dbase: P,
        dexp: Q,
        power: F,
    ) -> (r: Result<Operator<T>, MatrixError>)
        requires
            x.matrix.wf(),
            y.matrix.wf(),
            forall|a: T, b: T| dbase.requires((a, b)),
            forall|a: T, b: T| dexp.requires((a, b)),
            forall|a: T, b: T| power.requires((a, b)),
        ensures
            match r {
                Ok(o) => {
                    &&& zipped(x.matrix, y.matrix, o.matrix, power)
                    &&& o.layer matches Layer::Pow(b) && b.x == x.layer && b.y == y.layer
                        && zipped(x.matrix, y.matrix, b.gx, dbase) && zipped(x.matrix, y.matrix, b.gy, dexp)
                    &&& x.sound() && y.sound() ==> o.sound()
                },
                Err(e) => x.matrix.dims() != y.matrix.dims() && e == MatrixError::Broadcast(
                    x.matrix.dims().0,
                    x.matrix.dims().1,
                    y.matrix.dims().0,
                    y.matrix.dims().1,
                ),
            },
    {
        let mut dx = x.matrix.dup();
        match dx.broadcast(&y.matrix, dbase) {
            Ok(()) => {},
            Err(e) => return Err(e),
        }
        let mut dy = x.matrix.dup();
        match dy.broadcast(&y.matrix, dexp) {
            Ok(()) => {},
            Err(e) => return Err(e),
        }
        let mut m = x.matrix;
        match m.broadcast(&y.matrix, power) {
            Ok(()) => {},
            Err(e) => return Err(e),
        }
        let layer = Layer::Pow(Rc::new(Pow { x: x.layer, y: y.layer, gx: dx, gy: dy }));
        Ok(Operator::new(m, layer))
    }
}

impl<T: Copy> Neg<T> {
    /// The negation of `x` cell by cell, with `neg` the negation of the cells.
    pub fn build<N: Fn(T) -> T + Copy>(x: Operator<T>, neg: N) -> (r: Result<Operator<T>, MatrixError>)
        requires
            x.matrix.wf(),
            forall|a: T| neg.requires((a,)),
        ensures
            r matches Ok(o) && {
                &&& mapped(x.matrix, o.matrix, neg)
                &&& o.layer matches Layer::Neg(b) && b.x == x.layer
                &&& x.sound() ==> o.sound()
            },
    {
        let mut m = x.matrix;
        let _ = m.apply(neg);
        let layer = Layer::Neg(Rc::new(Neg { x: x.layer }));
        Ok(Operator::new(m, layer))
    }
}

impl<T: Copy> Dot<T> {
    /// The matrix product of `x` and `y`, with `zero`, `plus` and `times` the
    /// arithmetic of the cells; refused when the columns of `x` are not the
    /// rows of `y`. The gradients are multiplied by the transposes.
    pub fn build<A: Fn(T, T) -> T + Copy, M: Fn(T, T) -> T + Copy>(
        x: Operator<T>,
        y: Operator<T>,
        zero: T,
        plus: A,
        times: M,
    ) -> (r: Result<Operator<T>, MatrixError>)
        requires
            x.matrix.wf(),
            y.matrix.wf(),
            x.matrix.dims().1 == y.matrix.dims().0 ==> x.matrix.dims().0 * y.matrix.dims().1 <= usize::MAX,
            forall|a: T, b: T| plus.requires((a, b)),
            forall|a: T, b: T| times.requires((a, b)),
        ensures
            match r {
                Ok(o) => {
                    &&& multiplied(x.matrix, y.matrix, o.matrix, zero, plus, times)
                    &&& o.layer matches Layer::Dot(b) && b.x == x.layer && b.y == y.layer && transposed(b.gx, y.matrix)
                        && transposed(b.gy, x.matrix)
                    &&& x.sound() && y.sound() ==> o.sound()
                },
                Err(e) => x.matrix.dims().1 != y.matrix.dims().0 && e == MatrixError::Multiply(
                    x.matrix.dims().0,
                    x.matrix.dims().1,
                    y.matrix.dims().0,
                    y.matrix.dims().1,
                ),
            },
    {
        let _ = x.matrix.size();
        let _ = y.matrix.size();
        let dx = match y.matrix.t() {
            Ok(m) => m,
            Err(e) => return Err(e),
        };
        let dy = match x.matrix.t() {
            Ok(m) => m,
            Err(e) => return Err(e),
        };
        let m = match x.matrix.dot(&y.matrix, zero, plus, times) {
            Ok(m) => m,
            Err(e) => return Err(e),
        };
        let layer = Layer::Dot(Rc::new(Dot { x: x.layer, y: y.layer, gx: dx, gy: dy }));
        Ok(Operator::new(m, layer))
    }
}

impl<T: Copy> ReLU<T> {
    /// The rectifier of `x` cell by cell, with `relu` the rectifier of the
    /// cells and `step` its derivative.
    pub fn build<S: Fn(T) -> T + Copy, F: Fn(T) -> T + Copy>(x: Operator<T>, step: S, relu: F) -> (r: Result<Operator<T>, MatrixError>)
        requires
            x.matrix.wf(),
            forall|a: T| step.requires((a,)),
            forall|a: T| relu.requires((a,)),
        ensures
            r matches Ok(o) && {
                &&& mapped(x.matrix, o.matrix, relu)
                &&& o.layer matches Layer::ReLU(b) && b.x == x.layer && mapped(x.matrix, b.gx, step)
                &&& x.sound() ==> o.sound()
            },
    {
        let mut dx = x.matrix.dup();
        let _ = dx.apply(step);
        let mut m = x.matrix;
        let _ = m.apply(relu);
        let layer = Layer::ReLU(Rc::new(ReLU { x: x.layer, gx: dx }));
        Ok(Operator::new(m, layer))
    }
}

/// The gradients a product sends back have the shapes of its inputs: with
/// `x` times `y` giving an output of the shape of `g`, and the product
/// keeping the transposes of `y` and `x`, the first gradient has the shape
/// of `x` and goes to the first input, the second the shape of `y` and goes
/// to the second.
pub proof fn law_dot_gradient_shapes<T: Copy, A: Fn(T, T) -> T, M: Fn(T, T) -> T, N: Fn(T) -> T>(
    x: Matrix<T>,
    y: Matrix<T>,
    dl: Dot<T>,
    g: Matrix<T>,
    zero: T,
    plus: A,
    times: M,
    neg: N,
    d: Derived<T>,
)
    requires
        x.dims().1 == y.dims().0,
        transposed(dl.gx, y),
        transposed(dl.gy, x),
        g.dims() == (x.dims().0, y.dims().1),
        dl.derived(g, zero, plus, times, neg, d),
    ensures
        d matches Ok(s) && s.len() == 2 && s[0].0.dims() == x.dims() && s[1].0.dims() == y.dims() && s[0].1 == dl.x
            && s[1].1 == dl.y,
{
}

} // verus!
