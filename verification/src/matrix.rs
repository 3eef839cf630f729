use vstd::prelude::*;

verus! {

/// Why a matrix operation was refused: the shapes involved.
#[derive(Debug, Clone, Copy, PartialEq, Eq, Structural)]
pub enum MatrixError {
    /// The data does not have as many cells as the shape.
    Mismatch(usize, usize),
    /// A vector was expected: one row.
    NotVector(usize, usize),
    /// A scalar was expected: one row, one column.
    NotScalar(usize, usize),
    /// The columns of the left operand are not the rows of the right one.
    Multiply(usize, usize, usize, usize),
    /// The two operands do not have the same shape.
    Broadcast(usize, usize, usize, usize),
}

/// A matrix stored row after row.
pub struct Matrix<T> {
    linear: Vec<T>,
    pub shape: (usize, usize),
}

/// `r * cols + c` is a cell of a `rows` by `cols` matrix.
pub proof fn lemma_cell(r: int, c: int, rows: int, cols: int)
    requires
        0 <= r < rows,
        0 <= c < cols,
    ensures
        0 <= r * cols,
        0 <= r * cols + c < rows * cols,
        r * cols + cols <= rows * cols,
{
    assert(r * cols + c < rows * cols) by (nonlinear_arith)
        requires
            0 <= r < rows,
            0 <= c < cols,
    ;
    assert(0 <= r * cols) by (nonlinear_arith)
        requires
            0 <= r,
            0 <= c < cols,
    ;
    assert(r * cols + cols <= rows * cols) by (nonlinear_arith)
        requires
            0 <= r < rows,
            0 <= c < cols,
    ;
}

/// `acc` folds `plus` from `zero` over the products `times(xs[k], ys[k])`.
pub open spec fn folded<T, A: Fn(T, T) -> T, M: Fn(T, T) -> T>(
    acc: Seq<T>,
    xs: Seq<T>,
    ys: Seq<T>,
    zero: T,
    plus: A,
    times: M,
) -> bool {
    &&& acc.len() == xs.len() + 1
    &&& xs.len() == ys.len()
    &&& acc[0] == zero
    &&& forall|k: int| 0 <= k < xs.len() ==> #[trigger] step_ok(acc, xs, ys, plus, times, k)
}

/// `acc[k + 1]` adds to `acc[k]` the product of `xs[k]` and `ys[k]`.
pub open spec fn step_ok<T, A: Fn(T, T) -> T, M: Fn(T, T) -> T>(
    acc: Seq<T>,
    xs: Seq<T>,
    ys: Seq<T>,
    plus: A,
    times: M,
    k: int,
) -> bool {
    exists|p: T| times.ensures((xs[k], ys[k]), p) && plus.ensures((acc[k], p), acc[k + 1])
}

/// The cell `(i, j)` of the product of `a` and `b` is `v`.
pub open spec fn product_cell<T: Copy, A: Fn(T, T) -> T, M: Fn(T, T) -> T>(
    a: Matrix<T>,
    b: Matrix<T>,
    i: int,
    j: int,
    zero: T,
    plus: A,
    times: M,
    v: T,
) -> bool {
    exists|acc: Seq<T>| folded(acc, a.row(i), b.column(j), zero, plus, times) && acc.last() == v
}

proof fn lemma_step_push<T, A: Fn(T, T) -> T, M: Fn(T, T) -> T>(
    acc: Seq<T>,
    x: T,
    xs: Seq<T>,
    ys: Seq<T>,
    plus: A,
    times: M,
    q: int,
)
    requires
        0 <= q,
        q + 1 < acc.len(),
        step_ok(acc, xs, ys, plus, times, q),
    ensures
        step_ok(acc.push(x), xs, ys, plus, times, q),
{
    let p = choose|p: T| times.ensures((xs[q], ys[q]), p) && plus.ensures((acc[q], p), acc[q + 1]);
    assert(acc.push(x)[q] == acc[q] && acc.push(x)[q + 1] == acc[q + 1]);
    assert(times.ensures((xs[q], ys[q]), p) && plus.ensures((acc.push(x)[q], p), acc.push(x)[q + 1]));
}

impl<T: Copy> Matrix<T> {
    /// The cells, row after row.
    pub closed spec fn cells(self) -> Seq<T> {
        self.linear@
    }

    /// The number of rows and of columns.
    pub closed spec fn dims(self) -> (usize, usize) {
        self.shape
    }

    /// The matrix has as many cells as its shape says.
    pub open spec fn wf(self) -> bool {
        self.cells().len() == self.dims().0 * self.dims().1
    }

    /// The cell at row `r` and column `c`.
    pub open spec fn at(self, r: int, c: int) -> T {
        self.cells()[r * self.dims().1 + c]
    }

    /// A matrix of the given shape over `data`, row after row; refused when
    /// the data does not have as many cells as the shape.
    pub fn new(data: Vec<T>, shape: (usize, usize)) -> (r: Result<Self, MatrixError>)
        ensures
            match r {
                Ok(m) => data@.len() == shape.0 * shape.1 && m.dims() == shape && m.cells() == data@ && m.wf(),
                Err(e) => data@.len() != shape.0 * shape.1 && e == MatrixError::Mismatch(shape.0, shape.1),
            },
    {
        let len = data.len();
        match shape.0.checked_mul(shape.1) {
            Some(n) => {
                if len != n {
                    return Err(MatrixError::Mismatch(shape.0, shape.1));
                }
                let m = Matrix { linear: data, shape };
                assert(m.dims() == shape && m.cells() == data@ && m.wf());
                Ok(m)
            },
            None => {
                Err(MatrixError::Mismatch(shape.0, shape.1))
            },
        }
    }

    /// A matrix of the given shape with every cell `fill`.
    pub fn full(fill: T, shape: (usize, usize)) -> (m: Self)
        requires
            shape.0 * shape.1 <= usize::MAX,
        ensures
            m.wf(),
            m.dims() == shape,
            forall|i: int| 0 <= i < m.cells().len() ==> #[trigger] m.cells()[i] == fill,
    {
        let n = shape.0 * shape.1;
        let mut linear: Vec<T> = Vec::new();
        let mut i: usize = 0;
        while i < n
            invariant
                i <= n,
                linear@.len() == i,
                forall|k: int| 0 <= k < i ==> #[trigger] linear@[k] == fill,
            decreases n - i,
        {
            linear.push(fill);
            i = i + 1;
        }
        Matrix { linear, shape }
    }

    /// The matrix with no row and no column.
    pub fn empty() -> (m: Self)
        ensures
            m.wf(),
            m.dims() == (0usize, 0usize),
            m.cells().len() == 0,
    {
        Matrix { linear: Vec::new(), shape: (0, 0) }
    }

    /// The cells of a matrix with one row; refused for any other shape.
    pub fn vec(self) -> (r: Result<Vec<T>, MatrixError>)
        ensures
            match r {
                Ok(v) => self.dims().0 == 1 && v@ == self.cells(),
                Err(e) => self.dims().0 != 1 && e == MatrixError::NotVector(self.dims().0, self.dims().1),
            },
    {
        if self.shape.0 != 1 {
            return Err(MatrixError::NotVector(self.shape.0, self.shape.1));
        }
        Ok(self.linear)
    }

    /// The only cell of a one by one matrix; refused for any other shape.
    pub fn item(self) -> (r: Result<T, MatrixError>)
        requires
            self.wf(),
        ensures
            match r {
                Ok(x) => self.dims() == (1usize, 1usize) && x == self.cells()[0],
                Err(e) => self.dims() != (1usize, 1usize) && e == MatrixError::NotScalar(self.dims().0, self.dims().1),
            },
    {
        if self.shape.0 != 1 || self.shape.1 != 1 {
            return Err(MatrixError::NotScalar(self.shape.0, self.shape.1));
        }
        Ok(self.linear[0])
    }

    /// The transpose: rows become columns.
    pub fn t(&self) -> (r: Result<Self, MatrixError>)
        requires
            self.wf(),
        ensures
            r matches Ok(m) && m.wf() && m.dims() == (self.dims().1, self.dims().0) && forall|i: int, j: int|
                0 <= i < self.dims().0 && 0 <= j < self.dims().1 ==> #[trigger] m.at(j, i) == self.at(i, j),
    {
        let (rows, cols) = self.shape;
        let total = self.linear.len();
        let mut out: Vec<T> = Vec::new();
        let mut c: usize = 0;
        while c < cols
            invariant
                self.wf(),
                rows == self.shape.0,
                cols == self.shape.1,
                total == rows * cols,
                c <= cols,
                out@.len() == c * rows,
                forall|j: int, i: int| 0 <= j < c && 0 <= i < rows ==> #[trigger] out@[j * rows + i] == self.at(i, j),
            decreases cols - c,
        {
            let mut r: usize = 0;
            while r < rows
                invariant
                    self.wf(),
                    rows == self.shape.0,
                    cols == self.shape.1,
                    total == rows * cols,
                    c < cols,
                    r <= rows,
                    out@.len() == c * rows + r,
                    forall|j: int, i: int| 0 <= j < c && 0 <= i < rows ==> #[trigger] out@[j * rows + i] == self.at(i, j),
                    forall|i: int| 0 <= i < r ==> #[trigger] out@[c * rows + i] == self.at(i, c as int),
                decreases rows - r,
            {
                proof {
                    lemma_cell(r as int, c as int, rows as int, cols as int);
                }
                let x = self.linear[r * cols + c];
                let ghost before = out@;
                out.push(x);
                proof {
                    assert forall|j: int, i: int| 0 <= j < c && 0 <= i < rows implies #[trigger] out@[j * rows + i] == self.at(i, j) by {
                        lemma_cell(j, i, c as int, rows as int);
                        assert(out@[j * rows + i] == before[j * rows + i]);
                    }
                    assert forall|i: int| 0 <= i < r + 1 implies #[trigger] out@[c * rows + i] == self.at(i, c as int) by {
                        if i < r {
                            assert(out@[c * rows + i] == before[c * rows + i]);
                        }
                    }
                }
                r = r + 1;
            }
            proof {
                assert((c + 1) * rows == c * rows + rows) by (nonlinear_arith);
                assert forall|j: int, i: int| 0 <= j < c + 1 && 0 <= i < rows implies #[trigger] out@[j * rows + i] == self.at(i, j) by {
                    if j == c {
                        assert(out@[c * rows + i] == self.at(i, c as int));
                    }
                }
            }
            c = c + 1;
        }
        proof {
            assert(cols * rows == rows * cols) by (nonlinear_arith);
        }
        let m = Matrix { linear: out, shape: (cols, rows) };
        proof {
            assert forall|i: int, j: int| 0 <= i < rows && 0 <= j < cols implies #[trigger] m.at(j, i) == self.at(i, j) by {
                assert(m.at(j, i) == out@[j * rows + i]);
            }
        }
        Ok(m)
    }

    /// Replaces every cell `x` by `f(x)`.
    pub fn apply<F: Fn(T) -> T>(&mut self, f: F) -> (r: Result<(), MatrixError>)
        requires
            forall|x: T| f.requires((x,)),
        ensures
            r is Ok,
            final(self).dims() == old(self).dims(),
            final(self).cells().len() == old(self).cells().len(),
            final(self).wf() == old(self).wf(),
            forall|i: int| 0 <= i < old(self).cells().len() ==> f.ensures((old(self).cells()[i],), #[trigger] final(self).cells()[i]),
    {
        let n = self.linear.len();
        let mut i: usize = 0;
        while i < n
            invariant
                n == old(self).cells().len(),
                i <= n,
                self.shape == old(self).shape,
                self.cells().len() == n,
                forall|x: T| f.requires((x,)),
                forall|k: int| 0 <= k < i ==> f.ensures((old(self).cells()[k],), #[trigger] self.cells()[k]),
                forall|k: int| i <= k < n ==> #[trigger] self.cells()[k] == old(self).cells()[k],
            decreases n - i,
        {
            let y = f(self.linear[i]);
            self.linear.set(i, y);
            i = i + 1;
        }
        Ok(())
    }

    /// Replaces every cell `a` by `f(a, b)`, with `b` the cell of `value` at
    /// the same place; refused when the shapes differ.
    pub fn broadcast<F: Fn(T, T) -> T>(&mut self, value: &Matrix<T>, f: F) -> (r: Result<(), MatrixError>)
        requires
            old(self).wf(),
            value.wf(),
            forall|x: T, y: T| f.requires((x, y)),
        ensures
            final(self).dims() == old(self).dims(),
            final(self).wf(),
            match r {
                Ok(()) => old(self).dims() == value.dims() && final(self).cells().len() == old(self).cells().len() && forall|i: int|
                    0 <= i < old(self).cells().len() ==> f.ensures((old(self).cells()[i], value.cells()[i]), #[trigger] final(self).cells()[i]),
                Err(e) => old(self).dims() != value.dims() && *final(self) == *old(self) && e == MatrixError::Broadcast(
                    old(self).dims().0,
                    old(self).dims().1,
                    value.dims().0,
                    value.dims().1,
                ),
            },
    {
        if self.shape.0 != value.shape.0 || self.shape.1 != value.shape.1 {
            return Err(MatrixError::Broadcast(self.shape.0, self.shape.1, value.shape.0, value.shape.1));
        }
        let n = self.linear.len();
        let mut i: usize = 0;
        while i < n
            invariant
                n == old(self).cells().len(),
                n == value.cells().len(),
                i <= n,
                self.shape == old(self).shape,
                self.cells().len() == n,
                forall|x: T, y: T| f.requires((x, y)),
                forall|k: int| 0 <= k < i ==> f.ensures((old(self).cells()[k], value.cells()[k]), #[trigger] self.cells()[k]),
                forall|k: int| i <= k < n ==> #[trigger] self.cells()[k] == old(self).cells()[k],
            decreases n - i,
        {
            let y = f(self.linear[i], value.linear[i]);
            self.linear.set(i, y);
            i = i + 1;
        }
        Ok(())
    }

    /// The row `r` of the matrix.
    pub closed spec fn row(self, r: int) -> Seq<T> {
        Seq::new(self.dims().1 as nat, |c: int| self.at(r, c))
    }

    /// The column `c` of the matrix.
    pub closed spec fn column(self, c: int) -> Seq<T> {
        Seq::new(self.dims().0 as nat, |r: int| self.at(r, c))
    }

    /// The matrix product, with `zero`, `plus` and `times` the arithmetic of the
    /// cells: each cell folds `plus` from `zero` over the products of a row
    /// of `self` and a column of `rhs`. Refused when the columns of `self`
    /// are not the rows of `rhs`.
    pub fn dot<A: Fn(T, T) -> T, M: Fn(T, T) -> T>(&self, rhs: &Matrix<T>, zero: T, plus: A, times: M) -> (r: Result<Self, MatrixError>)
        requires
            self.wf(),
            rhs.wf(),
            self.dims().1 == rhs.dims().0 ==> self.dims().0 * rhs.dims().1 <= usize::MAX,
            forall|x: T, y: T| plus.requires((x, y)),
            forall|x: T, y: T| times.requires((x, y)),
        ensures
            match r {
                Ok(out) => {
                    &&& self.dims().1 == rhs.dims().0
                    &&& out.wf()
                    &&& out.dims() == (self.dims().0, rhs.dims().1)
                    &&& forall|i: int, j: int|
                        0 <= i < self.dims().0 && 0 <= j < rhs.dims().1 ==> product_cell(*self, *rhs, i, j, zero, plus, times, #[trigger] out.at(i, j))
                },
                Err(e) => self.dims().1 != rhs.dims().0 && e == MatrixError::Multiply(
                    self.dims().0,
                    self.dims().1,
                    rhs.dims().0,
                    rhs.dims().1,
                ),
            },
    {
        if self.shape.1 != rhs.shape.0 {
            return Err(MatrixError::Multiply(self.shape.0, self.shape.1, rhs.shape.0, rhs.shape.1));
        }
        let (m, n) = self.shape;
        let p = rhs.shape.1;
        let la = self.linear.len();
        let lb = rhs.linear.len();
        let mut out: Vec<T> = Vec::new();
        let mut i: usize = 0;
        while i < m
            invariant
                self.wf(),
                rhs.wf(),
                m == self.dims().0,
                n == self.dims().1,
                n == rhs.dims().0,
                p == rhs.dims().1,
                la == m * n,
                lb == n * p,
                m * p <= usize::MAX,
                forall|x: T, y: T| plus.requires((x, y)),
                forall|x: T, y: T| times.requires((x, y)),
                i <= m,
                out@.len() == i * p,
                forall|a: int, b: int|
                    0 <= a < i && 0 <= b < p ==> product_cell(*self, *rhs, a, b, zero, plus, times, #[trigger] out@[a * p + b]),
            decreases m - i,
        {
            let mut j: usize = 0;
            while j < p
                invariant
                    self.wf(),
                    rhs.wf(),
                    m == self.dims().0,
                    n == self.dims().1,
                    n == rhs.dims().0,
                    p == rhs.dims().1,
                    la == m * n,
                    lb == n * p,
                    m * p <= usize::MAX,
                    forall|x: T, y: T| plus.requires((x, y)),
                    forall|x: T, y: T| times.requires((x, y)),
                    i < m,
                    j <= p,
                    out@.len() == i * p + j,
                    forall|a: int, b: int|
                        0 <= a < i && 0 <= b < p ==> product_cell(*self, *rhs, a, b, zero, plus, times, #[trigger] out@[a * p + b]),
                    forall|b: int| 0 <= b < j ==> product_cell(*self, *rhs, i as int, b, zero, plus, times, #[trigger] out@[i * p + b]),
                decreases p - j,
            {
                let mut sum = zero;
                let ghost mut acc: Seq<T> = seq![zero];
                let mut k: usize = 0;
                while k < n
                    invariant
                        self.wf(),
                        rhs.wf(),
                        m == self.dims().0,
                        n == self.dims().1,
                        n == rhs.dims().0,
                        p == rhs.dims().1,
                        la == m * n,
                        lb == n * p,
                        forall|x: T, y: T| plus.requires((x, y)),
                        forall|x: T, y: T| times.requires((x, y)),
                        i < m,
                        j < p,
                        k <= n,
                        acc.len() == k + 1,
                        acc[0] == zero,
                        acc.last() == sum,
                        forall|q: int| 0 <= q < k ==> #[trigger] step_ok(acc, self.row(i as int), rhs.column(j as int), plus, times, q),
                    decreases n - k,
                {
                    proof {
                        lemma_cell(i as int, k as int, m as int, n as int);
                        lemma_cell(k as int, j as int, n as int, p as int);
                    }
                    let x = self.linear[i * n + k];
                    let y = rhs.linear[k * p + j];
                    let pr = times(x, y);
                    let ghost before = acc;
                    let next = plus(sum, pr);
                    proof {
                        acc = acc.push(next);
                        assert(self.row(i as int)[k as int] == x);
                        assert(rhs.column(j as int)[k as int] == y);
                        assert forall|q: int| 0 <= q < k + 1 implies #[trigger] step_ok(acc, self.row(i as int), rhs.column(j as int), plus, times, q) by {
                            if q < k {
                                lemma_step_push(before, next, self.row(i as int), rhs.column(j as int), plus, times, q);
                            } else {
                                assert(acc[q] == before.last());
                                assert(acc[q + 1] == next);
                                assert(times.ensures((self.row(i as int)[q], rhs.column(j as int)[q]), pr));
                            }
                        }
                    }
                    sum = next;
                    k = k + 1;
                }
                let ghost o0 = out@;
                out.push(sum);
                proof {
                    assert(self.row(i as int).len() == n && rhs.column(j as int).len() == n);
                    assert(folded(acc, self.row(i as int), rhs.column(j as int), zero, plus, times));
                    assert(product_cell(*self, *rhs, i as int, j as int, zero, plus, times, sum));
                    assert forall|a: int, b: int|
                        0 <= a < i && 0 <= b < p implies product_cell(*self, *rhs, a, b, zero, plus, times, #[trigger] out@[a * p + b]) by {
                        lemma_cell(a, b, i as int, p as int);
                        assert(out@[a * p + b] == o0[a * p + b]);
                    }
                    assert forall|b: int| 0 <= b < j + 1 implies product_cell(*self, *rhs, i as int, b, zero, plus, times, #[trigger] out@[i * p + b]) by {
                        if b < j {
                            assert(out@[i * p + b] == o0[i * p + b]);
                        } else {
                            assert(out@[i * p + b] == sum);
                        }
                    }
                }
                j = j + 1;
            }
            proof {
                assert((i + 1) * p == i * p + p) by (nonlinear_arith);
                assert forall|a: int, b: int|
                    0 <= a < i + 1 && 0 <= b < p implies product_cell(*self, *rhs, a, b, zero, plus, times, #[trigger] out@[a * p + b]) by {
                    if a == i {
                    }
                }
            }
            i = i + 1;
        }
        let res = Matrix { linear: out, shape: (m, p) };
        proof {
            assert forall|a: int, b: int|
                0 <= a < m && 0 <= b < p implies product_cell(*self, *rhs, a, b, zero, plus, times, #[trigger] res.at(a, b)) by {
                assert(res.at(a, b) == out@[a * p + b]);
            }
        }
        Ok(res)
    }
}

impl<T: Copy> Matrix<T> {
    /// A copy of the matrix.
    pub fn dup(&self) -> (m: Self)
        ensures
            m.cells() == self.cells(),
            m.dims() == self.dims(),
            m.wf() == self.wf(),
    {
        let mut linear: Vec<T> = Vec::new();
        let mut i: usize = 0;
        while i < self.linear.len()
            invariant
                i <= self.linear@.len(),
                linear@ == self.linear@.take(i as int),
            decreases self.linear@.len() - i,
        {
            linear.push(self.linear[i]);
            i = i + 1;
            assert(linear@ =~= self.linear@.take(i as int));
        }
        assert(self.linear@.take(i as int) =~= self.linear@);
        Matrix { linear, shape: self.shape }
    }
}

impl<T: Copy> Matrix<T> {
    /// The number of rows and of columns.
    pub fn dimensions(&self) -> (d: (usize, usize))
        ensures
            d == self.dims(),
    {
        self.shape
    }

    /// The number of cells.
    pub fn size(&self) -> (n: usize)
        ensures
            n == self.cells().len(),
            self.wf() ==> n == self.dims().0 * self.dims().1,
    {
        self.linear.len()
    }

    /// The cell at row `r` and column `c`.
    pub fn get(&self, r: usize, c: usize) -> (x: T)
        requires
            self.wf(),
            r < self.dims().0,
            c < self.dims().1,
        ensures
            x == self.at(r as int, c as int),
    {
        let n = self.linear.len();
        proof {
            lemma_cell(r as int, c as int, self.shape.0 as int, self.shape.1 as int);
        }
        assert(n == self.shape.0 * self.shape.1);
        self.linear[r * self.shape.1 + c]
    }
}


/// Every cell `k` of a `rows` by `cols` matrix sits at row `k / cols` and
/// column `k % cols`.
proof fn lemma_cell_split(k: int, rows: int, cols: int)
    requires
        0 <= k < rows * cols,
        0 < cols,
    ensures
        0 <= k / cols < rows,
        0 <= k % cols < cols,
        k == (k / cols) * cols + k % cols,
{
    assert(k == (k / cols) * cols + k % cols && 0 <= k % cols < cols) by (nonlinear_arith)
        requires
            0 < cols,
    ;
    assert(0 <= k / cols < rows) by (nonlinear_arith)
        requires
            0 <= k < rows * cols,
            0 < cols,
    ;
}

impl<T: Copy> Matrix<T> {
    /// Transposing twice gives the matrix back: when `b` is the transpose
    /// of `a` and `c` the transpose of `b`, `c` has the shape of `a` and
    /// the same cells, row after row.
    pub proof fn law_transpose_twice(a: Self, b: Self, c: Self)
        requires
            a.wf(),
            b.wf(),
            c.wf(),
            b.dims() == (a.dims().1, a.dims().0),
            forall|i: int, j: int| 0 <= i < a.dims().0 && 0 <= j < a.dims().1 ==> #[trigger] b.at(j, i) == a.at(i, j),
            c.dims() == (b.dims().1, b.dims().0),
            forall|i: int, j: int| 0 <= i < b.dims().0 && 0 <= j < b.dims().1 ==> #[trigger] c.at(j, i) == b.at(i, j),
        ensures
            c.dims() == a.dims(),
            c.cells() == a.cells(),
    {
        let rows = a.dims().0 as int;
        let cols = a.dims().1 as int;
        assert forall|k: int| 0 <= k < a.cells().len() implies #[trigger] c.cells()[k] == a.cells()[k] by {
            lemma_cell_split(k, rows, cols);
            let i = k / cols;
            let j = k % cols;
            assert(b.at(j, i) == a.at(i, j));
            assert(c.at(i, j) == b.at(j, i));
        }
        assert(c.cells() =~= a.cells());
    }

    /// A cell `(i, j)` of a product folds, from `zero`, the products of the
    /// cells `(i, k)` of the left matrix with the cells `(k, j)` of the
    /// right one, for `k` from the first column of the left on.
    pub proof fn law_product_cell<A: Fn(T, T) -> T, M: Fn(T, T) -> T>(
        a: Self,
        b: Self,
        i: int,
        j: int,
        zero: T,
        plus: A,
        times: M,
        v: T,
    )
        requires
            a.dims().1 == b.dims().0,
            product_cell(a, b, i, j, zero, plus, times, v),
        ensures
            exists|acc: Seq<T>|
                #![trigger acc.last()]
                {
                    &&& acc.len() == a.dims().1 + 1
                    &&& acc[0] == zero
                    &&& acc.last() == v
                    &&& forall|k: int| 0 <= k < a.dims().1 ==> #[trigger] cell_step(a, b, i, j, plus, times, acc, k)
                },
    {
        let acc = choose|acc: Seq<T>| folded(acc, a.row(i), b.column(j), zero, plus, times) && acc.last() == v;
        assert forall|k: int| 0 <= k < a.dims().1 implies #[trigger] cell_step(a, b, i, j, plus, times, acc, k) by {
            assert(step_ok(acc, a.row(i), b.column(j), plus, times, k));
            assert(a.row(i)[k] == a.at(i, k));
            assert(b.column(j)[k] == b.at(k, j));
        }
        assert(acc.len() == a.dims().1 + 1 && acc[0] == zero && acc.last() == v);
    }
}

/// `acc[k + 1]` adds to `acc[k]` the product of the cell `(i, k)` of `a`
/// and the cell `(k, j)` of `b`.
pub open spec fn cell_step<T: Copy, A: Fn(T, T) -> T, M: Fn(T, T) -> T>(
    a: Matrix<T>,
    b: Matrix<T>,
    i: int,
    j: int,
    plus: A,
    times: M,
    acc: Seq<T>,
    k: int,
) -> bool {
    exists|p: T| times.ensures((a.at(i, k), b.at(k, j)), p) && plus.ensures((acc[k], p), acc[k + 1])
}

} // verus!
