//! Dense row-major matrices over an abstract scalar.
//!
//! Every operation states its result element by element in terms of the
//! scalar's abstract spec functions, so that graph execution can be
//! specified exactly without knowing the scalar's arithmetic.

use vstd::prelude::*;

use crate::scalar::{sigmoid_s, sign_s, zero_s, Scalar};

verus! {

/// The mathematical model of a matrix: a shape and the row-major sequence
/// of its entries.
pub struct MatV<S> {
    pub rows: nat,
    pub cols: nat,
    pub data: Seq<S>,
}

impl<S> MatV<S> {
    /// A model is well formed when its storage matches its shape.
    pub open spec fn wf(self) -> bool {
        self.data.len() == self.rows * self.cols
    }

    /// The entry in row `r`, column `c`.
    pub open spec fn at(self, r: int, c: int) -> S {
        self.data[r * self.cols + c]
    }
}

/// A dense row-major matrix with exclusively owned storage.
pub struct Matrix<S> {
    rows: usize,
    cols: usize,
    data: Vec<S>,
}

impl<S> View for Matrix<S> {
    type V = MatV<S>;

    closed spec fn view(&self) -> MatV<S> {
        MatV { rows: self.rows as nat, cols: self.cols as nat, data: self.data@ }
    }
}

/// The model of an elementwise scaling: every entry multiplied by `k`.
pub open spec fn scale_v<S: Scalar>(m: MatV<S>, k: S) -> MatV<S> {
    MatV { rows: m.rows, cols: m.cols, data: Seq::new(m.data.len(), |i: int| S::mul_s(m.data[i], k)) }
}

/// The model of clamping from below: every entry below `k` replaced by `k`.
pub open spec fn max_v<S: Scalar>(m: MatV<S>, k: S) -> MatV<S> {
    MatV {
        rows: m.rows,
        cols: m.cols,
        data: Seq::new(m.data.len(), |i: int| if S::gt_s(m.data[i], k) { m.data[i] } else { k }),
    }
}

/// The model of clamping from above: every entry above `k` replaced by `k`.
pub open spec fn min_v<S: Scalar>(m: MatV<S>, k: S) -> MatV<S> {
    MatV {
        rows: m.rows,
        cols: m.cols,
        data: Seq::new(m.data.len(), |i: int| if S::lt_s(m.data[i], k) { m.data[i] } else { k }),
    }
}

/// The model of the elementwise logistic curve.
pub open spec fn sigmoid_v<S: Scalar>(m: MatV<S>) -> MatV<S> {
    MatV { rows: m.rows, cols: m.cols, data: Seq::new(m.data.len(), |i: int| sigmoid_s(m.data[i])) }
}

/// The model of the elementwise sign.
pub open spec fn sign_v<S: Scalar>(m: MatV<S>) -> MatV<S> {
    MatV { rows: m.rows, cols: m.cols, data: Seq::new(m.data.len(), |i: int| sign_s(m.data[i])) }
}

/// The model of elementwise negation.
pub open spec fn neg_v<S: Scalar>(m: MatV<S>) -> MatV<S> {
    MatV { rows: m.rows, cols: m.cols, data: Seq::new(m.data.len(), |i: int| S::neg_s(m.data[i])) }
}

/// The model of elementwise addition of two same-shaped matrices.
pub open spec fn add_v<S: Scalar>(a: MatV<S>, b: MatV<S>) -> MatV<S> {
    MatV {
        rows: a.rows,
        cols: a.cols,
        data: Seq::new(a.data.len(), |i: int| S::add_s(a.data[i], b.data[i])),
    }
}

/// The model of elementwise subtraction.
pub open spec fn sub_v<S: Scalar>(a: MatV<S>, b: MatV<S>) -> MatV<S> {
    MatV {
        rows: a.rows,
        cols: a.cols,
        data: Seq::new(a.data.len(), |i: int| S::sub_s(a.data[i], b.data[i])),
    }
}

/// The model of the elementwise (Hadamard) product.
pub open spec fn hadamard_v<S: Scalar>(a: MatV<S>, b: MatV<S>) -> MatV<S> {
    MatV {
        rows: a.rows,
        cols: a.cols,
        data: Seq::new(a.data.len(), |i: int| S::mul_s(a.data[i], b.data[i])),
    }
}

/// The model of transposition: entry `(r, c)` moves to `(c, r)`.
pub open spec fn transpose_v<S>(m: MatV<S>) -> MatV<S> {
    MatV {
        rows: m.cols,
        cols: m.rows,
        data: Seq::new(
            m.cols * m.rows,
            |i: int| m.data[(i % (m.rows as int)) * m.cols + i / (m.rows as int)],
        ),
    }
}

/// The left-to-right dot product of two equally long sequences, folded
/// from zero exactly as the executable inner loop accumulates it.
pub open spec fn dot_s<S: Scalar>(l: Seq<S>, r: Seq<S>) -> S
    decreases l.len(),
{
    if l.len() == 0 {
        zero_s::<S>()
    } else {
        S::add_s(dot_s(l.drop_last(), r.drop_last()), S::mul_s(l.last(), r.last()))
    }
}

/// Row `r` of `m` as a sequence.
pub open spec fn row_seq<S>(m: MatV<S>, r: int) -> Seq<S> {
    Seq::new(m.cols, |k: int| m.data[r * m.cols + k])
}

/// Column `c` of `m` as a sequence.
pub open spec fn col_seq<S>(m: MatV<S>, c: int) -> Seq<S> {
    Seq::new(m.rows, |k: int| m.data[k * m.cols + c])
}

/// The model of the matrix product: entry `(r, c)` is the dot product of
/// row `r` of `a` and column `c` of `b`.
pub open spec fn mul_v<S: Scalar>(a: MatV<S>, b: MatV<S>) -> MatV<S> {
    MatV {
        rows: a.rows,
        cols: b.cols,
        data: Seq::new(
            a.rows * b.cols,
            |i: int| dot_s(row_seq(a, i / (b.cols as int)), col_seq(b, i % (b.cols as int))),
        ),
    }
}

/// Whether some entry of `m` is a not-a-number value.
pub open spec fn has_nan_v<S: Scalar>(m: MatV<S>) -> bool {
    exists|i: int| 0 <= i < m.data.len() && S::nan_s(m.data[i])
}

impl<S: Scalar> Matrix<S> {
    /// A matrix of the given shape, every entry zero.
    pub fn new(rows: usize, cols: usize) -> (r: Self)
        requires
            rows * cols <= usize::MAX,
        ensures
            r@.wf(),
            r@.rows == rows,
            r@.cols == cols,
            forall|i: int| 0 <= i < r@.data.len() ==> r@.data[i] == zero_s::<S>(),
    {
        let n = rows * cols;
        let zero = S::from_count(0);
        let mut data: Vec<S> = Vec::new();
        let mut i: usize = 0;
        while i < n
            invariant
                i <= n,
                zero == zero_s::<S>(),
                data@.len() == i,
                forall|j: int| 0 <= j < i ==> data@[j] == zero_s::<S>(),
            decreases n - i,
        {
            data.push(zero);
            i = i + 1;
        }
        Matrix { rows, cols, data }
    }

    pub fn rows(&self) -> (r: usize)
        ensures
            r == self@.rows,
    {
        self.rows
    }

    pub fn cols(&self) -> (r: usize)
        ensures
            r == self@.cols,
    {
        self.cols
    }

    /// A single-column matrix holding the given entries.
    pub fn from_col(col: Vec<S>) -> (r: Self)
        ensures
            r@.wf(),
            r@.rows == col@.len(),
            r@.cols == 1,
            r@.data == col@,
    {
        let rows = col.len();
        let r = Matrix { rows, cols: 1, data: col };
        proof {
            assert(r@.data.len() == r@.rows * r@.cols);
        }
        r
    }

    /// The entries of column `column`, top to bottom.
    pub fn col(&self, column: usize) -> (r: Vec<S>)
        requires
            self@.wf(),
            column < self@.cols,
        ensures
            r@ == col_seq(self@, column as int),
    {
        let mut out: Vec<S> = Vec::new();
        let n = self.data.len();
        let mut row: usize = 0;
        while row < self.rows
            invariant
                self@.wf(),
                n == self@.data.len(),
                column < self@.cols,
                row <= self@.rows,
                out@.len() == row,
                forall|k: int| 0 <= k < row ==> out@[k] == self@.data[k * self@.cols + column],
            decreases self.rows - row,
        {
            proof {
                lemma_flat_index(self@.rows, self@.cols, row as int, column as int);
            }
            out.push(self.data[row * self.cols + column]);
            row = row + 1;
        }
        proof {
            assert(out@ =~= col_seq(self@, column as int));
        }
        out
    }

    /// The entry in row `r`, column `c`.
    pub fn get(&self, r: usize, c: usize) -> (v: S)
        requires
            self@.wf(),
            r < self@.rows,
            c < self@.cols,
        ensures
            v == self@.at(r as int, c as int),
    {
        let n = self.data.len();
        proof {
            lemma_flat_index(self@.rows, self@.cols, r as int, c as int);
        }
        self.data[r * self.cols + c]
    }

    /// Replaces the entry in row `r`, column `c`.
    pub fn set(&mut self, r: usize, c: usize, v: S)
        requires
            old(self)@.wf(),
            r < old(self)@.rows,
            c < old(self)@.cols,
        ensures
            final(self)@.wf(),
            final(self)@.rows == old(self)@.rows,
            final(self)@.cols == old(self)@.cols,
            final(self)@.data == old(self)@.data.update(r * old(self)@.cols + c, v),
    {
        let n = self.data.len();
        proof {
            lemma_flat_index(self@.rows, self@.cols, r as int, c as int);
        }
        let i = r * self.cols + c;
        self.data.set(i, v);
    }

    /// An identical, independently owned copy.
    pub fn duplicate(&self) -> (r: Self)
        ensures
            r@ == self@,
    {
        let mut data: Vec<S> = Vec::new();
        let mut i: usize = 0;
        while i < self.data.len()
            invariant
                i <= self.data@.len(),
                data@ == self.data@.take(i as int),
            decreases self.data@.len() - i,
        {
            data.push(self.data[i]);
            proof {
                assert(data@ =~= self.data@.take(i + 1));
            }
            i = i + 1;
        }
        proof {
            assert(data@ =~= self.data@);
        }
        Matrix { rows: self.rows, cols: self.cols, data }
    }

    /// Multiplies every entry by `rhs`.
    pub fn scale(self, rhs: S) -> (r: Self)
        ensures
            r@ == scale_v(self@, rhs),
    {
        let ghost orig = self@;
        let mut m = self;
        let mut i: usize = 0;
        while i < m.data.len()
            invariant
                m.rows == orig.rows,
                m.cols == orig.cols,
                m.data@.len() == orig.data.len(),
                i <= orig.data.len(),
                forall|j: int| 0 <= j < i ==> m.data@[j] == S::mul_s(orig.data[j], rhs),
                forall|j: int| i <= j < orig.data.len() ==> m.data@[j] == orig.data[j],
            decreases m.data@.len() - i,
        {
            let v = S::mul(m.data[i], rhs);
            m.data.set(i, v);
            i = i + 1;
        }
        proof {
            assert(m@.data =~= scale_v(orig, rhs).data);
        }
        m
    }

    /// Replaces every entry smaller than `rhs` by `rhs`.
    pub fn max(self, rhs: S) -> (r: Self)
        ensures
            r@ == max_v(self@, rhs),
    {
        let ghost orig = self@;
        let mut m = self;
        let mut i: usize = 0;
        while i < m.data.len()
            invariant
                m.rows == orig.rows,
                m.cols == orig.cols,
                m.data@.len() == orig.data.len(),
                i <= orig.data.len(),
                forall|j: int| 0 <= j < i ==> m.data@[j] == (if S::gt_s(orig.data[j], rhs) {
                    orig.data[j]
                } else {
                    rhs
                }),
                forall|j: int| i <= j < orig.data.len() ==> m.data@[j] == orig.data[j],
            decreases m.data@.len() - i,
        {
            let v = if S::gt(m.data[i], rhs) {
                m.data[i]
            } else {
                rhs
            };
            m.data.set(i, v);
            i = i + 1;
        }
        proof {
            assert(m@.data =~= max_v(orig, rhs).data);
        }
        m
    }

    /// Replaces every entry greater than `rhs` by `rhs`.
    pub fn min(self, rhs: S) -> (r: Self)
        ensures
            r@ == min_v(self@, rhs),
    {
        let ghost orig = self@;
        let mut m = self;
        let mut i: usize = 0;
        while i < m.data.len()
            invariant
                m.rows == orig.rows,
                m.cols == orig.cols,
                m.data@.len() == orig.data.len(),
                i <= orig.data.len(),
                forall|j: int| 0 <= j < i ==> m.data@[j] == (if S::lt_s(orig.data[j], rhs) {
                    orig.data[j]
                } else {
                    rhs
                }),
                forall|j: int| i <= j < orig.data.len() ==> m.data@[j] == orig.data[j],
            decreases m.data@.len() - i,
        {
            let v = if S::lt(m.data[i], rhs) {
                m.data[i]
            } else {
                rhs
            };
            m.data.set(i, v);
            i = i + 1;
        }
        proof {
            assert(m@.data =~= min_v(orig, rhs).data);
        }
        m
    }

    /// Applies the logistic curve `1 / (1 + e^(-x))` to every entry.
    pub fn sigmoid(self) -> (r: Self)
        ensures
            r@ == sigmoid_v(self@),
    {
        let ghost orig = self@;
        let mut m = self;
        let one = S::from_count(1);
        let e = S::euler();
        let mut i: usize = 0;
        while i < m.data.len()
            invariant
                one == crate::scalar::one_s::<S>(),
                e == S::euler_s(),
                m.rows == orig.rows,
                m.cols == orig.cols,
                m.data@.len() == orig.data.len(),
                i <= orig.data.len(),
                forall|j: int| 0 <= j < i ==> m.data@[j] == sigmoid_s(orig.data[j]),
                forall|j: int| i <= j < orig.data.len() ==> m.data@[j] == orig.data[j],
            decreases m.data@.len() - i,
        {
            let v = S::div(one, S::add(one, S::power(e, S::neg(m.data[i]))));
            m.data.set(i, v);
            i = i + 1;
        }
        proof {
            assert(m@.data =~= sigmoid_v(orig).data);
        }
        m
    }

    /// Replaces every entry by its sign: one, minus one, or zero.
    pub fn sign(self) -> (r: Self)
        ensures
            r@ == sign_v(self@),
            forall|i: int|
                0 <= i < r@.data.len() ==> r@.data[i] == crate::scalar::one_s::<S>()
                    || r@.data[i] == S::neg_s(crate::scalar::one_s::<S>()) || r@.data[i]
                    == zero_s::<S>(),
    {
        let ghost orig = self@;
        let mut m = self;
        let zero = S::from_count(0);
        let one = S::from_count(1);
        let mut i: usize = 0;
        while i < m.data.len()
            invariant
                zero == zero_s::<S>(),
                one == crate::scalar::one_s::<S>(),
                m.rows == orig.rows,
                m.cols == orig.cols,
                m.data@.len() == orig.data.len(),
                i <= orig.data.len(),
                forall|j: int| 0 <= j < i ==> m.data@[j] == sign_s(orig.data[j]),
                forall|j: int| i <= j < orig.data.len() ==> m.data@[j] == orig.data[j],
            decreases m.data@.len() - i,
        {
            let v = if S::gt(m.data[i], zero) {
                one
            } else if S::lt(m.data[i], zero) {
                S::neg(one)
            } else {
                zero
            };
            m.data.set(i, v);
            i = i + 1;
        }
        proof {
            assert(m@.data =~= sign_v(orig).data);
        }
        m
    }

    /// Replaces every entry by `with`.
    pub fn fill(self, with: S) -> (r: Self)
        ensures
            r@.rows == self@.rows,
            r@.cols == self@.cols,
            r@.data.len() == self@.data.len(),
            forall|i: int| 0 <= i < r@.data.len() ==> r@.data[i] == with,
    {
        let mut m = self;
        let ghost orig = m@;
        let mut i: usize = 0;
        while i < m.data.len()
            invariant
                m.rows == orig.rows,
                m.cols == orig.cols,
                m.data@.len() == orig.data.len(),
                i <= orig.data.len(),
                forall|j: int| 0 <= j < i ==> m.data@[j] == with,
            decreases m.data@.len() - i,
        {
            m.data.set(i, with);
            i = i + 1;
        }
        m
    }

    /// Whether some entry is a not-a-number value.
    pub fn has_nan(&self) -> (r: bool)
        ensures
            r == has_nan_v(self@),
    {
        let mut i: usize = 0;
        while i < self.data.len()
            invariant
                i <= self.data@.len(),
                forall|j: int| 0 <= j < i ==> !S::nan_s(self.data@[j]),
            decreases self.data@.len() - i,
        {
            if S::is_nan(self.data[i]) {
                proof {
                    assert(S::nan_s(self@.data[i as int]));
                }
                return true;
            }
            i = i + 1;
        }
        false
    }

    /// The elementwise (Hadamard) product. Shapes must agree.
    pub fn hadamard_mul(self, rhs: &Matrix<S>) -> (r: Self)
        requires
            self@.rows == rhs@.rows,
            self@.cols == rhs@.cols,
            self@.data.len() == rhs@.data.len(),
        ensures
            r@ == hadamard_v(self@, rhs@),
    {
        let ghost orig = self@;
        let mut m = self;
        let mut i: usize = 0;
        while i < m.data.len()
            invariant
                m.rows == orig.rows,
                m.cols == orig.cols,
                m.data@.len() == orig.data.len(),
                orig.data.len() == rhs@.data.len(),
                i <= orig.data.len(),
                forall|j: int| 0 <= j < i ==> m.data@[j] == S::mul_s(orig.data[j], rhs@.data[j]),
                forall|j: int| i <= j < orig.data.len() ==> m.data@[j] == orig.data[j],
            decreases m.data@.len() - i,
        {
            let v = S::mul(m.data[i], rhs.data[i]);
            m.data.set(i, v);
            i = i + 1;
        }
        proof {
            assert(m@.data =~= hadamard_v(orig, rhs@).data);
        }
        m
    }

    /// Elementwise addition. Shapes must agree.
    pub fn add(self, rhs: &Matrix<S>) -> (r: Self)
        requires
            self@.rows == rhs@.rows,
            self@.cols == rhs@.cols,
            self@.data.len() == rhs@.data.len(),
        ensures
            r@ == add_v(self@, rhs@),
    {
        let ghost orig = self@;
        let mut m = self;
        let mut i: usize = 0;
        while i < m.data.len()
            invariant
                m.rows == orig.rows,
                m.cols == orig.cols,
                m.data@.len() == orig.data.len(),
                orig.data.len() == rhs@.data.len(),
                i <= orig.data.len(),
                forall|j: int| 0 <= j < i ==> m.data@[j] == S::add_s(orig.data[j], rhs@.data[j]),
                forall|j: int| i <= j < orig.data.len() ==> m.data@[j] == orig.data[j],
            decreases m.data@.len() - i,
        {
            let v = S::add(m.data[i], rhs.data[i]);
            m.data.set(i, v);
            i = i + 1;
        }
        proof {
            assert(m@.data =~= add_v(orig, rhs@).data);
        }
        m
    }

    /// Elementwise subtraction. Shapes must agree.
    pub fn sub(self, rhs: &Matrix<S>) -> (r: Self)
        requires
            self@.rows == rhs@.rows,
            self@.cols == rhs@.cols,
            self@.data.len() == rhs@.data.len(),
        ensures
            r@ == sub_v(self@, rhs@),
    {
        let ghost orig = self@;
        let mut m = self;
        let mut i: usize = 0;
        while i < m.data.len()
            invariant
                m.rows == orig.rows,
                m.cols == orig.cols,
                m.data@.len() == orig.data.len(),
                orig.data.len() == rhs@.data.len(),
                i <= orig.data.len(),
                forall|j: int| 0 <= j < i ==> m.data@[j] == S::sub_s(orig.data[j], rhs@.data[j]),
                forall|j: int| i <= j < orig.data.len() ==> m.data@[j] == orig.data[j],
            decreases m.data@.len() - i,
        {
            let v = S::sub(m.data[i], rhs.data[i]);
            m.data.set(i, v);
            i = i + 1;
        }
        proof {
            assert(m@.data =~= sub_v(orig, rhs@).data);
        }
        m
    }

    /// Elementwise negation.
    pub fn neg(self) -> (r: Self)
        ensures
            r@ == neg_v(self@),
    {
        let ghost orig = self@;
        let mut m = self;
        let mut i: usize = 0;
        while i < m.data.len()
            invariant
                m.rows == orig.rows,
                m.cols == orig.cols,
                m.data@.len() == orig.data.len(),
                i <= orig.data.len(),
                forall|j: int| 0 <= j < i ==> m.data@[j] == S::neg_s(orig.data[j]),
                forall|j: int| i <= j < orig.data.len() ==> m.data@[j] == orig.data[j],
            decreases m.data@.len() - i,
        {
            let v = S::neg(m.data[i]);
            m.data.set(i, v);
            i = i + 1;
        }
        proof {
            assert(m@.data =~= neg_v(orig).data);
        }
        m
    }
}

impl<S: Scalar> Matrix<S> {
    /// The transposed matrix: entry `(r, c)` moves to `(c, r)`.
    pub fn transpose(&self) -> (r: Self)
        requires
            self@.wf(),
        ensures
            r@ == transpose_v(self@),
            r@.wf(),
    {
        let ghost tv = transpose_v(self@);
        proof {
            assert(self@.cols * self@.rows == self@.rows * self@.cols) by (nonlinear_arith);
        }
        let n = self.data.len();
        let mut data: Vec<S> = Vec::new();
        let mut c: usize = 0;
        while c < self.cols
            invariant
                self@.wf(),
                n == self@.data.len(),
                tv == transpose_v(self@),
                c <= self@.cols,
                data@.len() == c * self@.rows,
                data@.len() <= n,
                forall|p: int| 0 <= p < data@.len() ==> data@[p] == tv.data[p],
            decreases self.cols - c,
        {
            let mut row: usize = 0;
            while row < self.rows
                invariant
                    self@.wf(),
                    n == self@.data.len(),
                    tv == transpose_v(self@),
                    c < self@.cols,
                    row <= self@.rows,
                    data@.len() == c * self@.rows + row,
                    data@.len() <= n,
                    forall|p: int| 0 <= p < data@.len() ==> data@[p] == tv.data[p],
                decreases self.rows - row,
            {
                proof {
                    lemma_flat_index(self@.rows, self@.cols, row as int, c as int);
                    lemma_flat_index(self@.cols, self@.rows, c as int, row as int);
                }
                data.push(self.data[row * self.cols + c]);
                row = row + 1;
            }
            proof {
                assert((c + 1) * self@.rows == c * self@.rows + self@.rows) by (nonlinear_arith);
            }
            c = c + 1;
        }
        let r = Matrix { rows: self.cols, cols: self.rows, data };
        proof {
            assert(r@.data =~= tv.data);
        }
        r
    }

    /// The matrix product. The left operand's column count must equal the
    /// right operand's row count; the result has the left operand's rows
    /// and the right operand's columns.
    pub fn mul(&self, rhs: &Matrix<S>) -> (r: Self)
        requires
            self@.wf(),
            rhs@.wf(),
            self@.cols == rhs@.rows,
        ensures
            r@ == mul_v(self@, rhs@),
            r@.wf(),
    {
        let ghost a = self@;
        let ghost b = rhs@;
        let ghost mv = mul_v(a, b);
        let n1 = self.data.len();
        let n2 = rhs.data.len();
        let mut data: Vec<S> = Vec::new();
        let mut i: usize = 0;
        while i < self.rows
            invariant
                a == self@,
                b == rhs@,
                mv == mul_v(a, b),
                a.wf(),
                b.wf(),
                a.cols == b.rows,
                n1 == a.data.len(),
                n2 == b.data.len(),
                i <= a.rows,
                data@.len() == i * b.cols,
                forall|p: int| 0 <= p < data@.len() ==> data@[p] == mv.data[p],
            decreases self.rows - i,
        {
            let mut j: usize = 0;
            while j < rhs.cols
                invariant
                    a == self@,
                    b == rhs@,
                    mv == mul_v(a, b),
                    a.wf(),
                    b.wf(),
                    a.cols == b.rows,
                    n1 == a.data.len(),
                    n2 == b.data.len(),
                    i < a.rows,
                    j <= b.cols,
                    data@.len() == i * b.cols + j,
                    forall|p: int| 0 <= p < data@.len() ==> data@[p] == mv.data[p],
                decreases rhs.cols - j,
            {
                let ghost row = row_seq(a, i as int);
                let ghost column = col_seq(b, j as int);
                let mut acc = S::from_count(0);
                let mut k: usize = 0;
                proof {
                    assert(row.take(0) =~= Seq::<S>::empty());
                    assert(column.take(0) =~= Seq::<S>::empty());
                }
                while k < self.cols
                    invariant
                        a == self@,
                        b == rhs@,
                        a.wf(),
                        b.wf(),
                        a.cols == b.rows,
                        n1 == a.data.len(),
                        n2 == b.data.len(),
                        i < a.rows,
                        j < b.cols,
                        k <= a.cols,
                        row == row_seq(a, i as int),
                        column == col_seq(b, j as int),
                        acc == dot_s(row.take(k as int), column.take(k as int)),
                    decreases self.cols - k,
                {
                    proof {
                        lemma_flat_index(a.rows, a.cols, i as int, k as int);
                        lemma_flat_index(b.rows, b.cols, k as int, j as int);
                    }
                    let left = self.data[i * self.cols + k];
                    let right = rhs.data[k * rhs.cols + j];
                    acc = S::add(acc, S::mul(left, right));
                    proof {
                        assert(row.take(k + 1).drop_last() =~= row.take(k as int));
                        assert(column.take(k + 1).drop_last() =~= column.take(k as int));
                        assert(row.take(k + 1).last() == row[k as int]);
                    }
                    k = k + 1;
                }
                proof {
                    assert(row.take(a.cols as int) =~= row);
                    assert(column.take(b.rows as int) =~= column);
                    lemma_flat_index(a.rows, b.cols, i as int, j as int);
                }
                data.push(acc);
                j = j + 1;
            }
            proof {
                assert((i + 1) * b.cols == i * b.cols + b.cols) by (nonlinear_arith);
            }
            i = i + 1;
        }
        let r = Matrix { rows: self.rows, cols: rhs.cols, data };
        proof {
            assert(r@.data =~= mv.data);
        }
        r
    }
}

/// Transposing twice gives back the original matrix.
pub proof fn lemma_transpose_involution<S>(m: MatV<S>)
    requires
        m.wf(),
    ensures
        transpose_v(transpose_v(m)) == m,
{
    let t = transpose_v(m);
    let u = transpose_v(t);
    assert(m.cols * m.rows == m.rows * m.cols) by (nonlinear_arith);
    assert(u.data.len() == m.data.len());
    assert forall|i: int| 0 <= i < u.data.len() implies u.data[i] == m.data[i] by {
        let r = i / (m.cols as int);
        let c = i % (m.cols as int);
        assert(0 <= c < m.cols && 0 <= r < m.rows && i == r * m.cols + c) by (nonlinear_arith)
            requires
                0 <= i < m.rows * m.cols,
                r == i / (m.cols as int),
                c == i % (m.cols as int),
        ;
        lemma_flat_index(m.rows, m.cols, r, c);
        lemma_flat_index(m.cols, m.rows, c, r);
    }
    assert(u.data =~= m.data);
}

/// A row-major flat index stays inside the storage of a well-formed shape.
pub proof fn lemma_flat_index(rows: nat, cols: nat, r: int, c: int)
    requires
        0 <= r < rows,
        0 <= c < cols,
    ensures
        0 <= r * cols + c < rows * cols,
        (r * cols + c) % (cols as int) == c,
        (r * cols + c) / (cols as int) == r,
{
    assert(0 <= r * cols + c < rows * cols && (r * cols + c) % (cols as int) == c && (r * cols + c)
        / (cols as int) == r) by (nonlinear_arith)
        requires
            0 <= r < rows,
            0 <= c < cols,
    ;
}

} // verus!
