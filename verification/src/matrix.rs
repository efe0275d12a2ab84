//! A dense, row-major 2D container of fixed-point numbers, with elementwise
//! and linear-algebra operations specified exactly over mathematical integers.

use vstd::arithmetic::div_mod::{lemma_div_is_ordered, lemma_div_nonincreasing};
use vstd::prelude::*;

verus! {

/// Number of raw units that stand for the value one.
///
/// Every matrix entry is a fixed-point number: the stored `i64` counts units
/// of `1 / SCALE`. Sums keep the scale; a product of two entries carries the
/// square of the scale and is brought back by `scale_down`.
pub const SCALE: i64 = 1_000_000;

/// Whether a mathematical integer fits in an `i64`.
pub open spec fn fits_i64(x: int) -> bool {
    i64::MIN <= x <= i64::MAX
}

/// Rescaling of a double-scale product: divide by `SCALE`, rounding toward zero.
pub open spec fn scale_down(x: int) -> int {
    if x >= 0 {
        x / (SCALE as int)
    } else {
        -((-x) / (SCALE as int))
    }
}

/// A grid with `rows` rows, each of length `cols`.
pub open spec fn is_grid(g: Seq<Seq<int>>, rows: int, cols: int) -> bool {
    g.len() == rows && (forall|i: int| 0 <= i < rows ==> (#[trigger] g[i]).len() == cols)
}

/// Sum of the first `n` products of corresponding elements of `a` and `b`.
pub open spec fn dot(a: Seq<int>, b: Seq<int>, n: int) -> int
    decreases n,
{
    if n <= 0 {
        0
    } else {
        dot(a, b, n - 1) + a[n - 1] * b[n - 1]
    }
}

/// Column `j` of a grid.
pub open spec fn gcol(g: Seq<Seq<int>>, j: int) -> Seq<int> {
    Seq::new(g.len(), |i: int| g[i][j])
}

/// Elementwise sum.
pub open spec fn madd(a: Seq<Seq<int>>, b: Seq<Seq<int>>) -> Seq<Seq<int>> {
    Seq::new(a.len(), |i: int| Seq::new(a[i].len(), |j: int| a[i][j] + b[i][j]))
}

/// Elementwise difference.
pub open spec fn msub(a: Seq<Seq<int>>, b: Seq<Seq<int>>) -> Seq<Seq<int>> {
    Seq::new(a.len(), |i: int| Seq::new(a[i].len(), |j: int| a[i][j] - b[i][j]))
}

/// Elementwise fixed-point product.
pub open spec fn mpointwise(a: Seq<Seq<int>>, b: Seq<Seq<int>>) -> Seq<Seq<int>> {
    Seq::new(a.len(), |i: int| Seq::new(a[i].len(), |j: int| scale_down(a[i][j] * b[i][j])))
}

/// Fixed-point product of every element with the scalar `k`.
pub open spec fn mscalar(k: int, a: Seq<Seq<int>>) -> Seq<Seq<int>> {
    Seq::new(a.len(), |i: int| Seq::new(a[i].len(), |j: int| scale_down(k * a[i][j])))
}

/// Matrix product: cell `(i, j)` is the fixed-point dot product of row `i`
/// of `a` and column `j` of `b`.
pub open spec fn mmul(a: Seq<Seq<int>>, b: Seq<Seq<int>>) -> Seq<Seq<int>> {
    Seq::new(
        a.len(),
        |i: int| Seq::new(b[0].len(), |j: int| scale_down(dot(a[i], gcol(b, j), b.len() as int))),
    )
}

/// Transposition: cell `(j, i)` of the result is cell `(i, j)` of `g`.
pub open spec fn mtranspose(g: Seq<Seq<int>>) -> Seq<Seq<int>> {
    Seq::new(g[0].len(), |j: int| Seq::new(g.len(), |i: int| g[i][j]))
}

/// Elementwise ReLU: negative entries are clamped to zero.
pub open spec fn mrelu(g: Seq<Seq<int>>) -> Seq<Seq<int>> {
    Seq::new(
        g.len(),
        |i: int| Seq::new(g[i].len(), |j: int| if g[i][j] < 0 { 0int } else { g[i][j] }),
    )
}

/// Elementwise ReLU subgradient: one where the entry is strictly positive,
/// else zero (the derivative at exactly zero is chosen to be zero).
pub open spec fn mrelu_deriv(g: Seq<Seq<int>>) -> Seq<Seq<int>> {
    Seq::new(
        g.len(),
        |i: int| Seq::new(g[i].len(), |j: int| if g[i][j] > 0 { SCALE as int } else { 0int }),
    )
}

/// The elementwise sums of `a` and `b` all fit in an `i64`.
pub open spec fn add_fits(a: Seq<Seq<int>>, b: Seq<Seq<int>>) -> bool {
    forall|i: int, j: int|
        0 <= i < a.len() && 0 <= j < a[i].len() ==> fits_i64((#[trigger] a[i][j]) + b[i][j])
}

/// The elementwise differences of `a` and `b` all fit in an `i64`.
pub open spec fn sub_fits(a: Seq<Seq<int>>, b: Seq<Seq<int>>) -> bool {
    forall|i: int, j: int|
        0 <= i < a.len() && 0 <= j < a[i].len() ==> fits_i64((#[trigger] a[i][j]) - b[i][j])
}

/// The elementwise products of `a` and `b` all fit in an `i64`.
pub open spec fn pointwise_fits(a: Seq<Seq<int>>, b: Seq<Seq<int>>) -> bool {
    forall|i: int, j: int|
        0 <= i < a.len() && 0 <= j < a[i].len() ==> fits_i64((#[trigger] a[i][j]) * b[i][j])
}

/// The products of the scalar `k` with the elements of `a` all fit in an `i64`.
pub open spec fn scalar_fits(k: int, a: Seq<Seq<int>>) -> bool {
    forall|i: int, j: int|
        0 <= i < a.len() && 0 <= j < a[i].len() ==> fits_i64(k * (#[trigger] a[i][j]))
}

/// Every intermediate value of the matrix product of `a` and `b` fits in an
/// `i64`: each elementwise product, and each prefix of each cell's dot sum.
pub open spec fn mul_fits(a: Seq<Seq<int>>, b: Seq<Seq<int>>) -> bool {
    &&& forall|i: int, k: int, j: int|
        0 <= i < a.len() && 0 <= k < b.len() && 0 <= j < b[0].len() ==> fits_i64(
            (#[trigger] a[i][k]) * (#[trigger] b[k][j]),
        )
    &&& forall|i: int, j: int, n: int|
        0 <= i < a.len() && 0 <= j < b[0].len() && 0 <= n <= b.len() ==> fits_i64(
            #[trigger] dot(a[i], gcol(b, j), n),
        )
}

/// `i * cols + j` is the row-major position of cell `(i, j)`.
proof fn lemma_flat_bound(i: int, j: int, rows: int, cols: int)
    by (nonlinear_arith)
    requires
        0 <= i < rows,
        0 <= j < cols,
    ensures
        0 <= i * cols + j < rows * cols,
{
}

/// Row-major positions respect the row-major (lexicographic) cell order.
proof fn lemma_flat_lt(i: int, j: int, y: int, x: int, cols: int)
    by (nonlinear_arith)
    requires
        0 <= j < cols,
        0 <= x,
        i < y || (i == y && j < x),
        0 <= i,
    ensures
        i * cols + j < y * cols + x,
{
}

/// Distinct cells have distinct row-major positions.
proof fn lemma_flat_ne(i: int, j: int, y: int, x: int, cols: int)
    requires
        0 <= j < cols,
        0 <= x < cols,
        0 <= i,
        0 <= y,
        i != y || j != x,
    ensures
        i * cols + j != y * cols + x,
{
    if i < y || (i == y && j < x) {
        lemma_flat_lt(i, j, y, x, cols);
    } else {
        lemma_flat_lt(y, x, i, j, cols);
    }
}

/// A fixed-size, row-major dense 2D container of fixed-point values.
#[derive(Clone, Debug)]
pub struct Matrix {
    data: Vec<i64>,
    rows: usize,
    cols: usize,
}

impl View for Matrix {
    type V = Seq<Seq<int>>;

    closed spec fn view(&self) -> Seq<Seq<int>> {
        Seq::new(
            self.rows as nat,
            |i: int| Seq::new(self.cols as nat, |j: int| self.data[i * (self.cols as int) + j] as int),
        )
    }
}

impl Matrix {
    /// Both dimensions are positive and the flat row-major buffer holds
    /// exactly `rows * cols` values.
    pub closed spec fn wf(&self) -> bool {
        self.rows > 0 && self.cols > 0 && self.data.len() == self.rows * self.cols
    }

    /// A well-formed matrix is a nonempty grid of nonempty rows.
    pub proof fn lemma_shape(&self)
        requires
            self.wf(),
        ensures
            self@.len() > 0,
            self@[0].len() > 0,
            is_grid(self@, self@.len() as int, self@[0].len() as int),
    {
    }

    /// Divide a raw value by `SCALE`, rounding toward zero.
    pub(crate) fn rescale(x: i64) -> (r: i64)
        ensures
            r as int == scale_down(x as int),
    {
        if x >= 0 {
            let q: u64 = (x as u64) / (SCALE as u64);
            proof {
                lemma_div_nonincreasing(x as int, SCALE as int);
            }
            q as i64
        } else {
            let m: u64 = (-(x as i128)) as u64;
            let q: u64 = m / (SCALE as u64);
            proof {
                lemma_div_is_ordered(m as int, 0x8000_0000_0000_0000, SCALE as int);
            }
            -(q as i64)
        }
    }

    /// An all-zero matrix of the given shape.
    #[verifier::loop_isolation(false)]
    pub fn zeros(rows: usize, cols: usize) -> (m: Matrix)
        requires
            rows > 0,
            cols > 0,
        ensures
            m.wf(),
            is_grid(m@, rows as int, cols as int),
            forall|i: int, j: int| 0 <= i < rows && 0 <= j < cols ==> #[trigger] m@[i][j] == 0,
    {
        let mut data: Vec<i64> = Vec::new();
        let mut y: usize = 0;
        while y < rows
            invariant
                y <= rows,
                data.len() == y * cols,
                forall|k: int| 0 <= k < data.len() ==> #[trigger] data[k] == 0i64,
                cols > 0,
            decreases rows - y,
        {
            let mut x: usize = 0;
            while x < cols
                invariant
                    x <= cols,
                    data.len() == y * cols + x,
                    forall|k: int| 0 <= k < data.len() ==> #[trigger] data[k] == 0i64,
                decreases cols - x,
            {
                data.push(0);
                x = x + 1;
            }
            proof {
                assert((y + 1) * cols == y * cols + cols) by (nonlinear_arith);
            }
            y = y + 1;
        }
        let m = Matrix { data, rows, cols };
        proof {
            assert forall|i: int, j: int| 0 <= i < rows && 0 <= j < cols implies #[trigger] m@[i][j]
                == 0 by {
                lemma_flat_bound(i, j, rows as int, cols as int);
            }
        }
        m
    }

    /// A matrix of the given shape with every entry drawn independently from
    /// the uniform distribution over the half-open range `[min, max)`.
    #[verifier::loop_isolation(false)]
    pub fn populate_random(
        rows: usize,
        cols: usize,
        min: i64,
        max: i64,
        rng: &mut rand::rngs::StdRng,
    ) -> (m: Matrix)
        requires
            rows > 0,
            cols > 0,
            min < max,
        ensures
            m.wf(),
            is_grid(m@, rows as int, cols as int),
            forall|i: int, j: int|
                0 <= i < rows && 0 <= j < cols ==> min <= #[trigger] m@[i][j] < max,
    {
        let mut data: Vec<i64> = Vec::new();
        let mut y: usize = 0;
        while y < rows
            invariant
                y <= rows,
                data.len() == y * cols,
                forall|k: int| 0 <= k < data.len() ==> min <= #[trigger] data[k] < max,
            decreases rows - y,
        {
            let mut x: usize = 0;
            while x < cols
                invariant
                    x <= cols,
                    data.len() == y * cols + x,
                    forall|k: int| 0 <= k < data.len() ==> min <= #[trigger] data[k] < max,
                decreases cols - x,
            {
                let v = crate::rng::random_in_range(rng, min, max);
                data.push(v);
                x = x + 1;
            }
            proof {
                assert((y + 1) * cols == y * cols + cols) by (nonlinear_arith);
            }
            y = y + 1;
        }
        let m = Matrix { data, rows, cols };
        proof {
            assert forall|i: int, j: int|
                0 <= i < rows && 0 <= j < cols implies min <= #[trigger] m@[i][j] < max by {
                lemma_flat_bound(i, j, rows as int, cols as int);
            }
        }
        m
    }

    /// The number of rows.
    pub fn get_rows(&self) -> (r: usize)
        ensures
            r as int == self@.len(),
    {
        self.rows
    }

    /// The number of columns.
    pub fn get_cols(&self) -> (c: usize)
        requires
            self.wf(),
        ensures
            c as int == self@[0].len(),
    {
        self.cols
    }

    /// The entry at row `row` and column `col`.
    pub fn get(&self, row: usize, col: usize) -> (v: i64)
        requires
            self.wf(),
            row < self@.len(),
            col < self@[0].len(),
        ensures
            v as int == self@[row as int][col as int],
    {
        proof {
            lemma_flat_bound(row as int, col as int, self.rows as int, self.cols as int);
        }
        self.data[row * self.cols + col]
    }

    /// Replace the entry at row `row` and column `col` with `value`; every
    /// other entry, and the shape, are unchanged.
    pub fn set(&mut self, row: usize, col: usize, value: i64)
        requires
            old(self).wf(),
            row < old(self)@.len(),
            col < old(self)@[0].len(),
        ensures
            final(self).wf(),
            final(self)@.len() == old(self)@.len(),
            forall|i: int|
                0 <= i < final(self)@.len() ==> (#[trigger] final(self)@[i]).len() == old(
                    self,
                )@[i].len(),
            final(self)@[row as int][col as int] == value as int,
            forall|i: int, j: int|
                0 <= i < final(self)@.len() && 0 <= j < final(self)@[i].len() && !(i == row && j
                    == col) ==> #[trigger] final(self)@[i][j] == old(self)@[i][j],
    {
        proof {
            lemma_flat_bound(row as int, col as int, self.rows as int, self.cols as int);
        }
        self.data.set(row * self.cols + col, value);
        proof {
            assert forall|i: int, j: int|
                0 <= i < self@.len() && 0 <= j < self@[i].len() && !(i == row && j == col) implies #[trigger] self@[i][j]
                == old(self)@[i][j] by {
                lemma_flat_ne(i, j, row as int, col as int, self.cols as int);
                lemma_flat_bound(i, j, self.rows as int, self.cols as int);
            }
        }
    }

    /// A fresh matrix with the same shape and entries.
    #[verifier::loop_isolation(false)]
    pub fn duplicate(&self) -> (r: Matrix)
        requires
            self.wf(),
        ensures
            r.wf(),
            r@ == self@,
    {
        let n = self.data.len();
        let mut data: Vec<i64> = Vec::new();
        let mut idx: usize = 0;
        while idx < n
            invariant
                idx <= n,
                data.len() == idx,
                forall|k: int| 0 <= k < idx ==> #[trigger] data[k] == self.data[k],
            decreases n - idx,
        {
            data.push(self.data[idx]);
            idx = idx + 1;
        }
        let r = Matrix { data, rows: self.rows, cols: self.cols };
        proof {
            assert forall|i: int, j: int|
                0 <= i < self.rows && 0 <= j < self.cols implies #[trigger] r@[i][j]
                == self@[i][j] by {
                lemma_flat_bound(i, j, self.rows as int, self.cols as int);
            }
            assert(r@ =~~= self@);
        }
        r
    }

    /// Elementwise sum; both operands must have identical shape.
    #[verifier::loop_isolation(false)]
    pub fn add(&self, rhs: &Matrix) -> (r: Matrix)
        requires
            self.wf(),
            rhs.wf(),
            self@.len() == rhs@.len(),
            self@[0].len() == rhs@[0].len(),
            add_fits(self@, rhs@),
        ensures
            r.wf(),
            r@ == madd(self@, rhs@),
    {
        let rows = self.rows;
        let cols = self.cols;
        let mut data: Vec<i64> = Vec::new();
        let mut y: usize = 0;
        while y < rows
            invariant
                y <= rows,
                data.len() == y * cols,
                forall|i: int, j: int|
                    0 <= i < y && 0 <= j < cols ==> #[trigger] data[i * cols + j] as int
                        == self@[i][j] + rhs@[i][j],
            decreases rows - y,
        {
            let mut x: usize = 0;
            while x < cols
                invariant
                    x <= cols,
                    data.len() == y * cols + x,
                    forall|i: int, j: int|
                        (0 <= i < y && 0 <= j < cols) || (i == y && 0 <= j < x)
                            ==> #[trigger] data[i * cols + j] as int == self@[i][j] + rhs@[i][j],
                decreases cols - x,
            {
                let va = self.get(y, x);
                let vb = rhs.get(y, x);
                assert(fits_i64(self@[y as int][x as int] + rhs@[y as int][x as int]));
                data.push(va + vb);
                proof {
                    assert forall|i: int, j: int|
                        (0 <= i < y && 0 <= j < cols) || (i == y && 0 <= j < x + 1) implies #[trigger] data[i
                        * cols + j] as int == self@[i][j] + rhs@[i][j] by {
                        if i < y || (i == y && j < x) {
                            lemma_flat_lt(i, j, y as int, x as int, cols as int);
                        }
                        lemma_flat_bound(i, j, y as int + 1, cols as int);
                    }
                }
                x = x + 1;
            }
            proof {
                assert((y + 1) * cols == y * cols + cols) by (nonlinear_arith);
            }
            y = y + 1;
        }
        let r = Matrix { data, rows, cols };
        proof {
            assert forall|i: int, j: int|
                0 <= i < rows && 0 <= j < cols implies #[trigger] r@[i][j] == self@[i][j]
                + rhs@[i][j] by {
                lemma_flat_bound(i, j, rows as int, cols as int);
            }
            assert(r@ =~~= madd(self@, rhs@));
        }
        r
    }

    /// Elementwise difference; both operands must have identical shape.
    #[verifier::loop_isolation(false)]
    pub fn subtract(&self, rhs: &Matrix) -> (r: Matrix)
        requires
            self.wf(),
            rhs.wf(),
            self@.len() == rhs@.len(),
            self@[0].len() == rhs@[0].len(),
            sub_fits(self@, rhs@),
        ensures
            r.wf(),
            r@ == msub(self@, rhs@),
    {
        let rows = self.rows;
        let cols = self.cols;
        let mut data: Vec<i64> = Vec::new();
        let mut y: usize = 0;
        while y < rows
            invariant
                y <= rows,
                data.len() == y * cols,
                forall|i: int, j: int|
                    0 <= i < y && 0 <= j < cols ==> #[trigger] data[i * cols + j] as int
                        == self@[i][j] - rhs@[i][j],
            decreases rows - y,
        {
            let mut x: usize = 0;
            while x < cols
                invariant
                    x <= cols,
                    data.len() == y * cols + x,
                    forall|i: int, j: int|
                        (0 <= i < y && 0 <= j < cols) || (i == y && 0 <= j < x)
                            ==> #[trigger] data[i * cols + j] as int == self@[i][j] - rhs@[i][j],
                decreases cols - x,
            {
                let va = self.get(y, x);
                let vb = rhs.get(y, x);
                assert(fits_i64(self@[y as int][x as int] - rhs@[y as int][x as int]));
                data.push(va - vb);
                proof {
                    assert forall|i: int, j: int|
                        (0 <= i < y && 0 <= j < cols) || (i == y && 0 <= j < x + 1) implies #[trigger] data[i
                        * cols + j] as int == self@[i][j] - rhs@[i][j] by {
                        if i < y || (i == y && j < x) {
                            lemma_flat_lt(i, j, y as int, x as int, cols as int);
                        }
                        lemma_flat_bound(i, j, y as int + 1, cols as int);
                    }
                }
                x = x + 1;
            }
            proof {
                assert((y + 1) * cols == y * cols + cols) by (nonlinear_arith);
            }
            y = y + 1;
        }
        let r = Matrix { data, rows, cols };
        proof {
            assert forall|i: int, j: int|
                0 <= i < rows && 0 <= j < cols implies #[trigger] r@[i][j] == self@[i][j]
                - rhs@[i][j] by {
                lemma_flat_bound(i, j, rows as int, cols as int);
            }
            assert(r@ =~~= msub(self@, rhs@));
        }
        r
    }

    /// Elementwise fixed-point product; both operands must have identical shape.
    #[verifier::loop_isolation(false)]
    pub fn pointwise_multiply(&self, rhs: &Matrix) -> (r: Matrix)
        requires
            self.wf(),
            rhs.wf(),
            self@.len() == rhs@.len(),
            self@[0].len() == rhs@[0].len(),
            pointwise_fits(self@, rhs@),
        ensures
            r.wf(),
            r@ == mpointwise(self@, rhs@),
    {
        let rows = self.rows;
        let cols = self.cols;
        let mut data: Vec<i64> = Vec::new();
        let mut y: usize = 0;
        while y < rows
            invariant
                y <= rows,
                data.len() == y * cols,
                forall|i: int, j: int|
                    0 <= i < y && 0 <= j < cols ==> #[trigger] data[i * cols + j] as int
                        == scale_down(self@[i][j] * rhs@[i][j]),
            decreases rows - y,
        {
            let mut x: usize = 0;
            while x < cols
                invariant
                    x <= cols,
                    data.len() == y * cols + x,
                    forall|i: int, j: int|
                        (0 <= i < y && 0 <= j < cols) || (i == y && 0 <= j < x)
                            ==> #[trigger] data[i * cols + j] as int == scale_down(
                            self@[i][j] * rhs@[i][j],
                        ),
                decreases cols - x,
            {
                let va = self.get(y, x);
                let vb = rhs.get(y, x);
                assert(fits_i64(self@[y as int][x as int] * rhs@[y as int][x as int]));
                data.push(Matrix::rescale(va * vb));
                proof {
                    assert forall|i: int, j: int|
                        (0 <= i < y && 0 <= j < cols) || (i == y && 0 <= j < x + 1) implies #[trigger] data[i
                        * cols + j] as int == scale_down(self@[i][j] * rhs@[i][j]) by {
                        if i < y || (i == y && j < x) {
                            lemma_flat_lt(i, j, y as int, x as int, cols as int);
                        }
                        lemma_flat_bound(i, j, y as int + 1, cols as int);
                    }
                }
                x = x + 1;
            }
            proof {
                assert((y + 1) * cols == y * cols + cols) by (nonlinear_arith);
            }
            y = y + 1;
        }
        let r = Matrix { data, rows, cols };
        proof {
            assert forall|i: int, j: int|
                0 <= i < rows && 0 <= j < cols implies #[trigger] r@[i][j] == scale_down(
                self@[i][j] * rhs@[i][j],
            ) by {
                lemma_flat_bound(i, j, rows as int, cols as int);
            }
            assert(r@ =~~= mpointwise(self@, rhs@));
        }
        r
    }

    /// Fixed-point product of every element with the scalar `scale`.
    #[verifier::loop_isolation(false)]
    pub fn scalar_multiply(&self, scale: i64) -> (r: Matrix)
        requires
            self.wf(),
            scalar_fits(scale as int, self@),
        ensures
            r.wf(),
            r@ == mscalar(scale as int, self@),
    {
        let rows = self.rows;
        let cols = self.cols;
        let mut data: Vec<i64> = Vec::new();
        let mut y: usize = 0;
        while y < rows
            invariant
                y <= rows,
                data.len() == y * cols,
                forall|i: int, j: int|
                    0 <= i < y && 0 <= j < cols ==> #[trigger] data[i * cols + j] as int
                        == scale_down(scale * self@[i][j]),
            decreases rows - y,
        {
            let mut x: usize = 0;
            while x < cols
                invariant
                    x <= cols,
                    data.len() == y * cols + x,
                    forall|i: int, j: int|
                        (0 <= i < y && 0 <= j < cols) || (i == y && 0 <= j < x)
                            ==> #[trigger] data[i * cols + j] as int == scale_down(
                            scale * self@[i][j],
                        ),
                decreases cols - x,
            {
                let va = self.get(y, x);
                assert(fits_i64(scale * self@[y as int][x as int]));
                data.push(Matrix::rescale(scale * va));
                proof {
                    assert forall|i: int, j: int|
                        (0 <= i < y && 0 <= j < cols) || (i == y && 0 <= j < x + 1) implies #[trigger] data[i
                        * cols + j] as int == scale_down(scale * self@[i][j]) by {
                        if i < y || (i == y && j < x) {
                            lemma_flat_lt(i, j, y as int, x as int, cols as int);
                        }
                        lemma_flat_bound(i, j, y as int + 1, cols as int);
                    }
                }
                x = x + 1;
            }
            proof {
                assert((y + 1) * cols == y * cols + cols) by (nonlinear_arith);
            }
            y = y + 1;
        }
        let r = Matrix { data, rows, cols };
        proof {
            assert forall|i: int, j: int|
                0 <= i < rows && 0 <= j < cols implies #[trigger] r@[i][j] == scale_down(
                scale * self@[i][j],
            ) by {
                lemma_flat_bound(i, j, rows as int, cols as int);
            }
            assert(r@ =~~= mscalar(scale as int, self@));
        }
        r
    }

    /// Matrix product; the column count of `self` must equal the row count of
    /// `rhs`. The result has shape `(self.rows, rhs.cols)` and cell `(y, x)`
    /// is the fixed-point dot product of row `y` of `self` and column `x` of
    /// `rhs`.
    #[verifier::loop_isolation(false)]
    pub fn multiply(&self, rhs: &Matrix) -> (r: Matrix)
        requires
            self.wf(),
            rhs.wf(),
            self@[0].len() == rhs@.len(),
            mul_fits(self@, rhs@),
        ensures
            r.wf(),
            r@ == mmul(self@, rhs@),
    {
        let rows = self.rows;
        let cols = rhs.cols;
        let inner = self.cols;
        let mut data: Vec<i64> = Vec::new();
        let mut y: usize = 0;
        while y < rows
            invariant
                y <= rows,
                data.len() == y * cols,
                forall|i: int, j: int|
                    0 <= i < y && 0 <= j < cols ==> #[trigger] data[i * cols + j] as int
                        == scale_down(dot(self@[i], gcol(rhs@, j), inner as int)),
            decreases rows - y,
        {
            let mut x: usize = 0;
            while x < cols
                invariant
                    x <= cols,
                    data.len() == y * cols + x,
                    forall|i: int, j: int|
                        (0 <= i < y && 0 <= j < cols) || (i == y && 0 <= j < x)
                            ==> #[trigger] data[i * cols + j] as int == scale_down(
                            dot(self@[i], gcol(rhs@, j), inner as int),
                        ),
                decreases cols - x,
            {
                let mut acc: i64 = 0;
                let mut k: usize = 0;
                while k < inner
                    invariant
                        k <= inner,
                        acc as int == dot(self@[y as int], gcol(rhs@, x as int), k as int),
                    decreases inner - k,
                {
                    let va = self.get(y, k);
                    let vb = rhs.get(k, x);
                    proof {
                        assert(fits_i64(self@[y as int][k as int] * rhs@[k as int][x as int]));
                        assert(gcol(rhs@, x as int)[k as int] == rhs@[k as int][x as int]);
                        assert(dot(self@[y as int], gcol(rhs@, x as int), k + 1) == dot(
                            self@[y as int],
                            gcol(rhs@, x as int),
                            k as int,
                        ) + self@[y as int][k as int] * rhs@[k as int][x as int]);
                        assert(fits_i64(dot(self@[y as int], gcol(rhs@, x as int), k + 1)));
                    }
                    acc = acc + va * vb;
                    k = k + 1;
                }
                data.push(Matrix::rescale(acc));
                proof {
                    assert forall|i: int, j: int|
                        (0 <= i < y && 0 <= j < cols) || (i == y && 0 <= j < x + 1) implies #[trigger] data[i
                        * cols + j] as int == scale_down(
                        dot(self@[i], gcol(rhs@, j), inner as int),
                    ) by {
                        if i < y || (i == y && j < x) {
                            lemma_flat_lt(i, j, y as int, x as int, cols as int);
                        }
                        lemma_flat_bound(i, j, y as int + 1, cols as int);
                    }
                }
                x = x + 1;
            }
            proof {
                assert((y + 1) * cols == y * cols + cols) by (nonlinear_arith);
            }
            y = y + 1;
        }
        let r = Matrix { data, rows, cols };
        proof {
            assert forall|i: int, j: int|
                0 <= i < rows && 0 <= j < cols implies #[trigger] r@[i][j] == scale_down(
                dot(self@[i], gcol(rhs@, j), inner as int),
            ) by {
                lemma_flat_bound(i, j, rows as int, cols as int);
            }
            assert(r@ =~~= mmul(self@, rhs@));
        }
        r
    }

    /// Clamp every negative entry to zero, in place; non-negative entries
    /// and the shape are unchanged.
    #[verifier::loop_isolation(false)]
    pub fn relu(&mut self)
        requires
            old(self).wf(),
        ensures
            final(self).wf(),
            final(self)@ == mrelu(old(self)@),
    {
        let n = self.data.len();
        let mut idx: usize = 0;
        while idx < n
            invariant
                idx <= n,
                self.rows == old(self).rows,
                self.cols == old(self).cols,
                self.data.len() == n,
                forall|k: int|
                    0 <= k < idx ==> #[trigger] self.data[k] as int == (if old(self).data[k] < 0 {
                        0int
                    } else {
                        old(self).data[k] as int
                    }),
                forall|k: int| idx <= k < n ==> #[trigger] self.data[k] == old(self).data[k],
            decreases n - idx,
        {
            if self.data[idx] < 0 {
                self.data.set(idx, 0);
            }
            idx = idx + 1;
        }
        proof {
            assert forall|i: int, j: int|
                0 <= i < self.rows && 0 <= j < self.cols implies #[trigger] self@[i][j] == mrelu(
                old(self)@,
            )[i][j] by {
                lemma_flat_bound(i, j, self.rows as int, self.cols as int);
            }
            assert(self@ =~~= mrelu(old(self)@));
        }
    }

    /// A new matrix holding the ReLU subgradient of every entry: one where
    /// the entry is strictly positive, else zero.
    #[verifier::loop_isolation(false)]
    pub fn relu_derivative(&self) -> (r: Matrix)
        requires
            self.wf(),
        ensures
            r.wf(),
            r@ == mrelu_deriv(self@),
    {
        let rows = self.rows;
        let cols = self.cols;
        let mut data: Vec<i64> = Vec::new();
        let mut y: usize = 0;
        while y < rows
            invariant
                y <= rows,
                data.len() == y * cols,
                forall|i: int, j: int|
                    0 <= i < y && 0 <= j < cols ==> #[trigger] data[i * cols + j] as int == (if self@[i][j]
                        > 0 {
                        SCALE as int
                    } else {
                        0int
                    }),
            decreases rows - y,
        {
            let mut x: usize = 0;
            while x < cols
                invariant
                    x <= cols,
                    data.len() == y * cols + x,
                    forall|i: int, j: int|
                        (0 <= i < y && 0 <= j < cols) || (i == y && 0 <= j < x)
                            ==> #[trigger] data[i * cols + j] as int == (if self@[i][j] > 0 {
                            SCALE as int
                        } else {
                            0int
                        }),
                decreases cols - x,
            {
                let va = self.get(y, x);
                let d: i64 = if va > 0 {
                    SCALE
                } else {
                    0
                };
                data.push(d);
                proof {
                    assert forall|i: int, j: int|
                        (0 <= i < y && 0 <= j < cols) || (i == y && 0 <= j < x + 1) implies #[trigger] data[i
                        * cols + j] as int == (if self@[i][j] > 0 {
                        SCALE as int
                    } else {
                        0int
                    }) by {
                        if i < y || (i == y && j < x) {
                            lemma_flat_lt(i, j, y as int, x as int, cols as int);
                        }
                        lemma_flat_bound(i, j, y as int + 1, cols as int);
                    }
                }
                x = x + 1;
            }
            proof {
                assert((y + 1) * cols == y * cols + cols) by (nonlinear_arith);
            }
            y = y + 1;
        }
        let r = Matrix { data, rows, cols };
        proof {
            assert forall|i: int, j: int|
                0 <= i < rows && 0 <= j < cols implies #[trigger] r@[i][j] == (if self@[i][j] > 0 {
                SCALE as int
            } else {
                0int
            }) by {
                lemma_flat_bound(i, j, rows as int, cols as int);
            }
            assert(r@ =~~= mrelu_deriv(self@));
        }
        r
    }

    /// A new matrix of shape `(cols, rows)` with cell `(j, i)` equal to cell
    /// `(i, j)` of `self`.
    #[verifier::loop_isolation(false)]
    pub fn transpose(&self) -> (r: Matrix)
        requires
            self.wf(),
        ensures
            r.wf(),
            r@ == mtranspose(self@),
    {
        let rows = self.cols;
        let cols = self.rows;
        let mut data: Vec<i64> = Vec::new();
        let mut y: usize = 0;
        while y < rows
            invariant
                y <= rows,
                data.len() == y * cols,
                forall|i: int, j: int|
                    0 <= i < y && 0 <= j < cols ==> #[trigger] data[i * cols + j] as int
                        == self@[j][i],
            decreases rows - y,
        {
            let mut x: usize = 0;
            while x < cols
                invariant
                    x <= cols,
                    data.len() == y * cols + x,
                    forall|i: int, j: int|
                        (0 <= i < y && 0 <= j < cols) || (i == y && 0 <= j < x)
                            ==> #[trigger] data[i * cols + j] as int == self@[j][i],
                decreases cols - x,
            {
                let v = self.get(x, y);
                data.push(v);
                proof {
                    assert forall|i: int, j: int|
                        (0 <= i < y && 0 <= j < cols) || (i == y && 0 <= j < x + 1) implies #[trigger] data[i
                        * cols + j] as int == self@[j][i] by {
                        if i < y || (i == y && j < x) {
                            lemma_flat_lt(i, j, y as int, x as int, cols as int);
                        }
                        lemma_flat_bound(i, j, y as int + 1, cols as int);
                    }
                }
                x = x + 1;
            }
            proof {
                assert((y + 1) * cols == y * cols + cols) by (nonlinear_arith);
            }
            y = y + 1;
        }
        let r = Matrix { data, rows, cols };
        proof {
            assert forall|i: int, j: int|
                0 <= i < rows && 0 <= j < cols implies #[trigger] r@[i][j] == self@[j][i] by {
                lemma_flat_bound(i, j, rows as int, cols as int);
            }
            assert(r@ =~~= mtranspose(self@));
        }
        r
    }
}

/// Subtracting an addend again gives back the original grid: for any two
/// grids of the same shape, `(a + b) - b == a`. Fixed-point addition and
/// subtraction are exact, so this holds with no tolerance.
pub proof fn lemma_add_then_subtract(a: Seq<Seq<int>>, b: Seq<Seq<int>>, rows: int, cols: int)
    requires
        is_grid(a, rows, cols),
        is_grid(b, rows, cols),
    ensures
        msub(madd(a, b), b) == a,
{
    assert(msub(madd(a, b), b) =~~= a);
}

/// Transposition is an involution: transposing twice gives back the grid.
pub proof fn lemma_transpose_involution(g: Seq<Seq<int>>, rows: int, cols: int)
    requires
        is_grid(g, rows, cols),
        rows > 0,
        cols > 0,
    ensures
        mtranspose(mtranspose(g)) == g,
{
    assert(mtranspose(mtranspose(g)) =~~= g);
}

} // verus!
