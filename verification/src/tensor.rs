use vstd::prelude::*;

use crate::fold::{
    argmax_scan, folds_pairs_to, folds_to, law_folds_is_fold_left, law_folds_pairs_is_fold_left,
    is_strict_total_order, law_argmax_scan_is_first_maximum, lemma_argmax_step,
    lemma_folds_pairs_step, lemma_folds_step, zip_seqs,
};

verus! {

/// Position of element `(r, c)` in the flat row-major buffer of a tensor with `cols` columns.
pub open spec fn flat_index(r: int, c: int, cols: int) -> int {
    r * cols + c
}

/// Row-major index arithmetic: the cell `(r, c)` of a `rows x cols` grid lies
/// inside the buffer, and every cell of an earlier row lies before row `r`.
pub proof fn lemma_flat_index_bounds(r: int, c: int, rows: int, cols: int)
    requires
        0 <= r < rows,
        0 <= c < cols,
    ensures
        0 <= flat_index(r, c, cols),
        flat_index(r, c, cols) < rows * cols,
        r * cols + cols <= rows * cols,
        r * cols <= flat_index(r, c, cols) < (r + 1) * cols,
{
    assert(r * cols + cols <= rows * cols) by (nonlinear_arith)
        requires
            0 <= r < rows,
            0 <= c < cols,
    ;
    assert((r + 1) * cols == r * cols + cols) by (nonlinear_arith);
    assert(0 <= r * cols) by (nonlinear_arith)
        requires
            0 <= r,
            0 <= c < cols,
    ;
}

/// In a grid of width `w`, every cell of an earlier row, and every earlier
/// cell of row `k`, comes before cell `(k, j)`.
pub proof fn lemma_flat_index_before(kk: int, jj: int, k: int, j: int, w: int)
    requires
        0 <= jj < w,
        0 <= j,
        kk < k || (kk == k && jj < j),
    ensures
        flat_index(kk, jj, w) < flat_index(k, j, w),
{
    if kk < k {
        assert(kk * w + w <= k * w) by (nonlinear_arith)
            requires
                kk < k,
                0 <= jj < w,
        ;
    }
}

/// Distinct cells of a grid of width `w` have distinct flat positions.
pub proof fn lemma_flat_index_injective(r1: int, c1: int, r2: int, c2: int, w: int)
    requires
        0 <= c1 < w,
        0 <= c2 < w,
        r1 != r2 || c1 != c2,
    ensures
        flat_index(r1, c1, w) != flat_index(r2, c2, w),
{
    if r1 < r2 || (r1 == r2 && c1 < c2) {
        lemma_flat_index_before(r1, c1, r2, c2, w);
    } else {
        lemma_flat_index_before(r2, c2, r1, c1, w);
    }
}

/// Every position of a `rows x cols` buffer is the flat position of exactly
/// the cell `(i / cols, i % cols)`.
pub proof fn lemma_flat_index_split(i: int, rows: int, cols: int)
    requires
        0 <= i < rows * cols,
        0 < cols,
    ensures
        0 <= i / cols < rows,
        0 <= i % cols < cols,
        flat_index(i / cols, i % cols, cols) == i,
{
    vstd::arithmetic::div_mod::lemma_fundamental_div_mod(i, cols);
    assert(i / cols * cols == cols * (i / cols)) by (nonlinear_arith);
    assert(0 <= i / cols) by (nonlinear_arith)
        requires
            0 <= i,
            0 < cols,
    ;
    assert(i / cols < rows) by (nonlinear_arith)
        requires
            0 <= i < rows * cols,
            0 < cols,
            i == cols * (i / cols) + i % cols,
            0 <= i % cols,
    ;
}

/// The row numbers `start, start + 1, ..., end - 1`.
pub open spec fn row_range(start: int, end: int) -> Seq<usize> {
    Seq::new((end - start) as nat, |k: int| (start + k) as usize)
}

/// A dense two-dimensional tensor: `data` holds `shape.0` rows of `shape.1`
/// elements each, row after row.
#[derive(Debug, PartialEq)]
pub struct Tensor<T> {
    pub data: Vec<T>,
    pub shape: (usize, usize),
}

impl<T> Tensor<T> {
    /// The buffer holds exactly one element per cell.
    pub open spec fn wf(&self) -> bool {
        self.data@.len() == self.shape.0 * self.shape.1
    }

    pub open spec fn rows(&self) -> int {
        self.shape.0 as int
    }

    pub open spec fn cols(&self) -> int {
        self.shape.1 as int
    }

    /// The element at row `r`, column `c`.
    pub open spec fn at(&self, r: int, c: int) -> T {
        self.data@[flat_index(r, c, self.cols())]
    }

    /// Row `r`, as a sequence of its `cols` elements.
    pub open spec fn row_seq(&self, r: int) -> Seq<T> {
        Seq::new(self.shape.1 as nat, |c: int| self.at(r, c))
    }

    /// Column `c`, as a sequence of its `rows` elements.
    pub open spec fn col_seq(&self, c: int) -> Seq<T> {
        Seq::new(self.shape.0 as nat, |r: int| self.at(r, c))
    }

    /// The buffer after cell `(r, c)` has been overwritten with `v`.
    pub open spec fn with_cell(&self, r: int, c: int, v: T) -> Seq<T> {
        self.data@.update(flat_index(r, c, self.cols()), v)
    }

    /// `self` is the transpose of `t`: its shape is swapped and its cell
    /// `(c, r)` is the cell `(r, c)` of `t`.
    pub open spec fn is_transpose_of(&self, t: &Tensor<T>) -> bool {
        &&& self.wf()
        &&& self.shape == (t.shape.1, t.shape.0)
        &&& forall|r: int, c: int|
            0 <= r < t.rows() && 0 <= c < t.cols() ==> #[trigger] self.at(c, r) == t.at(r, c)
    }

    /// `self` holds, row after row, the rows of `t` named by `idx`.
    pub open spec fn is_rows_of(&self, t: &Tensor<T>, idx: Seq<usize>) -> bool {
        &&& self.wf()
        &&& self.shape == (idx.len() as usize, t.shape.1)
        &&& idx.len() <= usize::MAX
        &&& forall|k: int, c: int|
            0 <= k < idx.len() && 0 <= c < t.cols() ==> #[trigger] self.at(k, c) == t.at(
                idx[k] as int,
                c,
            )
    }
}

impl<T: Copy> Clone for Tensor<T> {
    /// An element-by-element copy.
    fn clone(&self) -> (res: Self)
        ensures
            res.data@ == self.data@,
            res.shape == self.shape,
    {
        let n = self.data.len();
        let mut data: Vec<T> = Vec::with_capacity(n);
        let mut i: usize = 0;
        while i < n
            invariant
                n == self.data@.len(),
                i <= n,
                data@ == self.data@.take(i as int),
            decreases n - i,
        {
            data.push(self.data[i]);
            i += 1;
            assert(data@ =~= self.data@.take(i as int));
        }
        assert(data@ =~= self.data@);
        Tensor { data, shape: self.shape }
    }
}

impl<T: Copy> Tensor<T> {
    /// Wraps a row-major buffer; the buffer must hold `shape.0 * shape.1` elements.
    pub fn new(data: Vec<T>, shape: (usize, usize)) -> (t: Self)
        requires
            data@.len() == shape.0 * shape.1,
        ensures
            t.wf(),
            t.data@ == data@,
            t.shape == shape,
    {
        Tensor { data, shape }
    }

    /// A tensor of the given shape whose every cell holds `value`.
    pub fn full(shape: (usize, usize), value: T) -> (t: Self)
        requires
            shape.0 * shape.1 <= usize::MAX,
        ensures
            t.wf(),
            t.shape == shape,
            forall|i: int| 0 <= i < t.data@.len() ==> #[trigger] t.data@[i] == value,
    {
        let n = shape.0 * shape.1;
        let mut data: Vec<T> = Vec::with_capacity(n);
        let mut i: usize = 0;
        while i < n
            invariant
                i <= n,
                data@.len() == i,
                forall|k: int| 0 <= k < i ==> #[trigger] data@[k] == value,
            decreases n - i,
        {
            data.push(value);
            i += 1;
        }
        Tensor { data, shape }
    }

    /// Whether the buffer holds exactly one element per cell (`wf`), which
    /// the other operations require.
    pub fn is_well_formed(&self) -> (b: bool)
        ensures
            b == self.wf(),
    {
        let len = self.data.len();
        match self.shape.0.checked_mul(self.shape.1) {
            Some(n) => n == len,
            None => false,
        }
    }

    /// The pair `(rows, cols)`.
    pub fn shape(&self) -> (s: (usize, usize))
        ensures
            s == self.shape,
    {
        self.shape
    }

    /// The element at `(row, col)`.
    pub fn get(&self, row: usize, col: usize) -> (v: T)
        requires
            self.wf(),
            row < self.shape.0,
            col < self.shape.1,
        ensures
            v == self.at(row as int, col as int),
    {
        // The buffer's length is a usize, so every flat index below it fits in one.
        let _len = self.data.len();
        proof {
            lemma_flat_index_bounds(row as int, col as int, self.rows(), self.cols());
        }
        self.data[row * self.shape.1 + col]
    }

    /// Overwrites the element at `(row, col)` with `val`.
    pub fn set(&mut self, row: usize, col: usize, val: T)
        requires
            old(self).wf(),
            row < old(self).shape.0,
            col < old(self).shape.1,
        ensures
            final(self).shape == old(self).shape,
            final(self).data@ == old(self).with_cell(row as int, col as int, val),
            final(self).wf(),
    {
        // The buffer's length is a usize, so every flat index below it fits in one.
        let _len = self.data.len();
        proof {
            lemma_flat_index_bounds(row as int, col as int, self.rows(), self.cols());
        }
        let i = row * self.shape.1 + col;
        self.data.set(i, val);
    }

    /// The rows named by `indices`, in that order (an index may repeat).
    pub fn get_rows(&self, indices: &Vec<usize>) -> (res: Self)
        requires
            self.wf(),
            indices@.len() * self.shape.1 <= usize::MAX,
            forall|k: int| 0 <= k < indices@.len() ==> #[trigger] indices@[k] < self.shape.0,
        ensures
            res.is_rows_of(self, indices@),
    {
        let cols = self.shape.1;
        let n = indices.len();
        let mut data: Vec<T> = Vec::with_capacity(n * cols);
        let mut k: usize = 0;
        while k < n
            invariant
                self.wf(),
                cols == self.shape.1,
                n == indices@.len(),
                n * cols <= usize::MAX,
                forall|k: int| 0 <= k < indices@.len() ==> #[trigger] indices@[k] < self.shape.0,
                k <= n,
                data@.len() == k * cols,
                forall|kk: int, cc: int|
                    0 <= kk < k && 0 <= cc < cols ==> #[trigger] data@[flat_index(kk, cc, cols as int)]
                        == self.at(indices@[kk] as int, cc),
            decreases n - k,
        {
            let row = indices[k];
            let mut c: usize = 0;
            while c < cols
                invariant
                    self.wf(),
                    cols == self.shape.1,
                    row < self.shape.0,
                    row == indices@[k as int],
                    k < n,
                    c <= cols,
                    data@.len() == k * cols + c,
                    forall|kk: int, cc: int|
                        (0 <= kk < k && 0 <= cc < cols) || (kk == k && 0 <= cc < c)
                            ==> #[trigger] data@[flat_index(kk, cc, cols as int)] == self.at(
                            indices@[kk] as int,
                            cc,
                        ),
                decreases cols - c,
            {
                let v = self.get(row, c);
                proof {
                    assert forall|kk: int, cc: int|
                        (0 <= kk < k && 0 <= cc < cols) || (kk == k && 0 <= cc < c) implies
                        flat_index(kk, cc, cols as int) < data@.len() by {
                        lemma_flat_index_before(kk, cc, k as int, c as int, cols as int);
                    }
                }
                data.push(v);
                c += 1;
            }
            proof {
                assert(k * cols + cols == (k + 1) * cols) by (nonlinear_arith);
            }
            k += 1;
        }
        Tensor { data, shape: (n, cols) }
    }

    /// Rows `start` up to, not including, `end`.
    pub fn slice_rows(&self, start: usize, end: usize) -> (res: Self)
        requires
            self.wf(),
            start <= end <= self.shape.0,
        ensures
            res.is_rows_of(self, row_range(start as int, end as int)),
    {
        // The buffer's length is a usize, so every flat index below it fits in one.
        let _len = self.data.len();
        let cols = self.shape.1;
        proof {
            assert(end * cols <= self.shape.0 * cols) by (nonlinear_arith)
                requires
                    end <= self.shape.0,
            ;
            assert(start * cols <= end * cols) by (nonlinear_arith)
                requires
                    start <= end,
            ;
        }
        let lo = start * cols;
        let hi = end * cols;
        let mut data: Vec<T> = Vec::with_capacity(hi - lo);
        let mut i: usize = lo;
        while i < hi
            invariant
                self.wf(),
                lo <= i <= hi,
                hi <= self.data@.len(),
                data@ == self.data@.subrange(lo as int, i as int),
            decreases hi - i,
        {
            data.push(self.data[i]);
            i += 1;
            assert(data@ =~= self.data@.subrange(lo as int, i as int));
        }
        let ghost idx = row_range(start as int, end as int);
        proof {
            assert(hi - lo == (end - start) * cols) by (nonlinear_arith)
                requires
                    lo == start * cols,
                    hi == end * cols,
            ;
            assert forall|k: int, c: int| 0 <= k < idx.len() && 0 <= c < cols implies data@[flat_index(
                k,
                c,
                cols as int,
            )] == self.at(idx[k] as int, c) by {
                lemma_flat_index_bounds(k, c, (end - start) as int, cols as int);
                assert(flat_index(k, c, cols as int) + lo == flat_index(start + k, c, cols as int))
                    by (nonlinear_arith)
                    requires
                        lo == start * cols,
                ;
            }
        }
        Tensor { data, shape: ((end - start) as usize, cols) }
    }

    /// Applies `f` to every element; the shape is kept.
    pub fn map<U, F: Fn(T) -> U>(&self, f: F) -> (res: Tensor<U>)
        requires
            self.wf(),
            forall|i: int| 0 <= i < self.data@.len() ==> call_requires(f, (self.data@[i],)),
        ensures
            res.wf(),
            res.shape == self.shape,
            forall|i: int|
                0 <= i < self.data@.len() ==> call_ensures(f, (self.data@[i],), #[trigger] res.data@[i]),
    {
        let n = self.data.len();
        let mut data: Vec<U> = Vec::with_capacity(n);
        let mut i: usize = 0;
        while i < n
            invariant
                n == self.data@.len(),
                i <= n,
                data@.len() == i,
                forall|k: int| 0 <= k < self.data@.len() ==> call_requires(f, (self.data@[k],)),
                forall|k: int| 0 <= k < i ==> call_ensures(f, (self.data@[k],), #[trigger] data@[k]),
            decreases n - i,
        {
            let v = f(self.data[i]);
            data.push(v);
            i += 1;
        }
        Tensor { data, shape: self.shape }
    }

    /// Combines the elements of `self` and `other` cell by cell with `f`;
    /// both tensors must have the same shape.
    pub fn zip_with<F: Fn(T, T) -> T>(&self, other: &Self, f: F) -> (res: Self)
        requires
            self.wf(),
            other.wf(),
            self.shape == other.shape,
            forall|i: int|
                0 <= i < self.data@.len() ==> call_requires(f, (self.data@[i], other.data@[i])),
        ensures
            res.wf(),
            res.shape == self.shape,
            forall|i: int|
                0 <= i < self.data@.len() ==> call_ensures(
                    f,
                    (self.data@[i], other.data@[i]),
                    #[trigger] res.data@[i],
                ),
    {
        let n = self.data.len();
        let mut data: Vec<T> = Vec::with_capacity(n);
        let mut i: usize = 0;
        while i < n
            invariant
                n == self.data@.len(),
                n == other.data@.len(),
                i <= n,
                data@.len() == i,
                forall|k: int|
                    0 <= k < self.data@.len() ==> call_requires(f, (self.data@[k], other.data@[k])),
                forall|k: int|
                    0 <= k < i ==> call_ensures(f, (self.data@[k], other.data@[k]), #[trigger] data@[k]),
            decreases n - i,
        {
            let v = f(self.data[i], other.data[i]);
            data.push(v);
            i += 1;
        }
        Tensor { data, shape: (self.shape.0, other.shape.1) }
    }

    /// Combines every row of `self` with the first row of `bias`, cell by
    /// cell, with `f`: the cell `(r, c)` of the result is `f(self(r, c), bias(0, c))`.
    pub fn add_bias_with<F: Fn(T, T) -> T>(&self, bias: &Self, f: F) -> (res: Self)
        requires
            self.wf(),
            bias.wf(),
            self.shape.1 == bias.shape.1,
            self.shape.0 > 0 && self.shape.1 > 0 ==> bias.shape.0 > 0,
            forall|x: T, y: T| call_requires(f, (x, y)),
        ensures
            res.wf(),
            res.shape == self.shape,
            forall|r: int, c: int|
                0 <= r < self.rows() && 0 <= c < self.cols() ==> call_ensures(
                    f,
                    (self.at(r, c), bias.at(0, c)),
                    #[trigger] res.at(r, c),
                ),
    {
        let n = self.data.len();
        let cols = bias.shape.1;
        let mut data: Vec<T> = Vec::with_capacity(n);
        let mut i: usize = 0;
        let mut j: usize = 0;
        let ghost mut r: int = 0;
        while i < n
            invariant
                self.wf(),
                bias.wf(),
                n == self.data@.len(),
                cols == self.shape.1,
                cols == bias.shape.1,
                self.shape.0 > 0 && self.shape.1 > 0 ==> bias.shape.0 > 0,
                forall|x: T, y: T| call_requires(f, (x, y)),
                i <= n,
                data@.len() == i,
                i < n ==> j < cols,
                0 <= r,
                i == flat_index(r, j as int, cols as int),
                i < n ==> r < self.rows(),
                forall|rr: int, cc: int|
                    0 <= cc < cols && flat_index(rr, cc, cols as int) < i && 0 <= rr ==> call_ensures(
                        f,
                        (self.at(rr, cc), bias.at(0, cc)),
                        #[trigger] data@[flat_index(rr, cc, cols as int)],
                    ),
            decreases n - i,
        {
            proof {
                lemma_flat_index_bounds(r, j as int, self.rows(), cols as int);
                lemma_flat_index_bounds(0, j as int, bias.rows(), cols as int);
            }
            let x = f(self.data[i], bias.data[j]);
            data.push(x);
            proof {
                assert forall|rr: int, cc: int|
                    0 <= cc < cols && flat_index(rr, cc, cols as int) < i + 1 && 0 <= rr implies call_ensures(
                    f,
                    (self.at(rr, cc), bias.at(0, cc)),
                    #[trigger] data@[flat_index(rr, cc, cols as int)],
                ) by {
                    if flat_index(rr, cc, cols as int) == i {
                        if rr != r || cc != j {
                            lemma_flat_index_injective(rr, cc, r, j as int, cols as int);
                        }
                    }
                }
            }
            i += 1;
            j += 1;
            if j >= cols {
                j = 0;
                proof {
                    r = r + 1;
                    assert(flat_index(r - 1, cols as int, cols as int) == flat_index(r, 0, cols as int))
                        by (nonlinear_arith);
                }
            }
            proof {
                if i < n {
                    if r >= self.rows() {
                        assert(flat_index(r, j as int, cols as int) >= self.rows() * cols)
                            by (nonlinear_arith)
                            requires
                                r >= self.rows(),
                                0 <= j,
                                0 <= cols,
                        ;
                    }
                }
            }
        }
        proof {
            assert forall|rr: int, cc: int|
                0 <= rr < self.rows() && 0 <= cc < self.cols() implies call_ensures(
                f,
                (self.at(rr, cc), bias.at(0, cc)),
                #[trigger] data@[flat_index(rr, cc, cols as int)],
            ) by {
                lemma_flat_index_bounds(rr, cc, self.rows(), cols as int);
            }
        }
        Tensor { data, shape: self.shape }
    }

    /// Folds every column with `plus`, starting from `zero`, into a `1 x cols`
    /// tensor: the cell `(0, c)` of the result is the fold of column `c` from
    /// its first row to its last.
    pub fn sum_axis0_with<F: Fn(T, T) -> T>(&self, zero: T, plus: F) -> (res: Self)
        requires
            self.wf(),
            forall|x: T, y: T| call_requires(plus, (x, y)),
        ensures
            res.wf(),
            res.shape == (1usize, self.shape.1),
            forall|c: int|
                0 <= c < self.cols() ==> folds_to(plus, zero, self.col_seq(c), #[trigger] res.at(0, c)),
    {
        let rows = self.shape.0;
        let cols = self.shape.1;
        let mut data: Vec<T> = Vec::with_capacity(cols);
        let mut c: usize = 0;
        while c < cols
            invariant
                self.wf(),
                rows == self.shape.0,
                cols == self.shape.1,
                forall|x: T, y: T| call_requires(plus, (x, y)),
                c <= cols,
                data@.len() == c,
                forall|cc: int| 0 <= cc < c ==> folds_to(plus, zero, self.col_seq(cc), #[trigger] data@[cc]),
            decreases cols - c,
        {
            let ghost xs = self.col_seq(c as int);
            let mut acc = zero;
            let mut r: usize = 0;
            proof {
                assert(xs.skip(0) =~= xs);
            }
            while r < rows
                invariant
                    self.wf(),
                    rows == self.shape.0,
                    cols == self.shape.1,
                    c < cols,
                    xs == self.col_seq(c as int),
                    forall|x: T, y: T| call_requires(plus, (x, y)),
                    r <= rows,
                    forall|v: T| #[trigger] folds_to(plus, acc, xs.skip(r as int), v) ==> folds_to(plus, zero, xs, v),
                decreases rows - r,
            {
                let x = self.get(r, c);
                let next = plus(acc, x);
                proof {
                    lemma_folds_step(plus, zero, acc, next, xs, r as int);
                }
                acc = next;
                r += 1;
            }
            proof {
                assert(xs.skip(rows as int).len() == 0);
                assert(folds_to(plus, acc, xs.skip(rows as int), acc));
            }
            data.push(acc);
            c += 1;
        }
        Tensor { data, shape: (1, cols) }
    }

    /// The matrix product pattern: `self` is `n x k`, `other` is `k x m`, and
    /// the cell `(i, j)` of the `n x m` result folds `mul_add(acc, self(i, t), other(t, j))`
    /// over `t = 0, 1, ..., k - 1`, starting from `zero`.
    pub fn matmul_with<F: Fn(T, T, T) -> T>(&self, other: &Self, zero: T, mul_add: F) -> (res: Self)
        requires
            self.wf(),
            other.wf(),
            self.shape.1 == other.shape.0,
            self.shape.0 * other.shape.1 <= usize::MAX,
            forall|a: T, x: T, y: T| call_requires(mul_add, (a, x, y)),
        ensures
            res.wf(),
            res.shape == (self.shape.0, other.shape.1),
            forall|i: int, j: int|
                0 <= i < self.rows() && 0 <= j < other.cols() ==> folds_pairs_to(
                    mul_add,
                    zero,
                    self.row_seq(i),
                    other.col_seq(j),
                    #[trigger] res.at(i, j),
                ),
    {
        let n = self.shape.0;
        let m = other.shape.1;
        let inner = self.shape.1;
        let mut data: Vec<T> = Vec::with_capacity(n * m);
        let mut i: usize = 0;
        while i < n
            invariant
                self.wf(),
                other.wf(),
                n == self.shape.0,
                m == other.shape.1,
                inner == self.shape.1,
                inner == other.shape.0,
                forall|a: T, x: T, y: T| call_requires(mul_add, (a, x, y)),
                i <= n,
                data@.len() == i * m,
                forall|ii: int, jj: int|
                    0 <= ii < i && 0 <= jj < m ==> folds_pairs_to(
                        mul_add,
                        zero,
                        self.row_seq(ii),
                        other.col_seq(jj),
                        #[trigger] data@[flat_index(ii, jj, m as int)],
                    ),
            decreases n - i,
        {
            let mut j: usize = 0;
            while j < m
                invariant
                    self.wf(),
                    other.wf(),
                    n == self.shape.0,
                    m == other.shape.1,
                    inner == self.shape.1,
                    inner == other.shape.0,
                    forall|a: T, x: T, y: T| call_requires(mul_add, (a, x, y)),
                    i < n,
                    j <= m,
                    data@.len() == i * m + j,
                    forall|ii: int, jj: int|
                        (0 <= ii < i && 0 <= jj < m) || (ii == i && 0 <= jj < j) ==> folds_pairs_to(
                            mul_add,
                            zero,
                            self.row_seq(ii),
                            other.col_seq(jj),
                            #[trigger] data@[flat_index(ii, jj, m as int)],
                        ),
                decreases m - j,
            {
                let ghost xs = self.row_seq(i as int);
                let ghost ys = other.col_seq(j as int);
                let mut acc = zero;
                let mut t: usize = 0;
                proof {
                    assert(xs.skip(0) =~= xs);
                    assert(ys.skip(0) =~= ys);
                }
                while t < inner
                    invariant
                        self.wf(),
                        other.wf(),
                        n == self.shape.0,
                        m == other.shape.1,
                        inner == self.shape.1,
                        inner == other.shape.0,
                        i < n,
                        j < m,
                        xs == self.row_seq(i as int),
                        ys == other.col_seq(j as int),
                        forall|a: T, x: T, y: T| call_requires(mul_add, (a, x, y)),
                        t <= inner,
                        forall|v: T| #[trigger]
                            folds_pairs_to(mul_add, acc, xs.skip(t as int), ys.skip(t as int), v)
                                ==> folds_pairs_to(mul_add, zero, xs, ys, v),
                    decreases inner - t,
                {
                    let x = self.get(i, t);
                    let y = other.get(t, j);
                    let next = mul_add(acc, x, y);
                    proof {
                        lemma_folds_pairs_step(mul_add, zero, acc, next, xs, ys, t as int);
                    }
                    acc = next;
                    t += 1;
                }
                proof {
                    assert(xs.skip(inner as int).len() == 0);
                    assert(folds_pairs_to(mul_add, acc, xs.skip(inner as int), ys.skip(inner as int), acc));
                    assert forall|ii: int, jj: int|
                        (0 <= ii < i && 0 <= jj < m) || (ii == i && 0 <= jj < j) implies flat_index(
                        ii,
                        jj,
                        m as int,
                    ) < data@.len() by {
                        lemma_flat_index_before(ii, jj, i as int, j as int, m as int);
                    }
                }
                data.push(acc);
                j += 1;
            }
            proof {
                assert(i * m + m == (i + 1) * m) by (nonlinear_arith);
            }
            i += 1;
        }
        Tensor { data, shape: (n, m) }
    }

    /// For every row, the column of its largest element: a scan from column 0
    /// that starts out holding `lowest` (and column 0), and moves to column `c`
    /// whenever `greater(self(r, c), best so far)` holds.
    pub fn argmax_rows_with<G: Fn(T, T) -> bool + Copy>(&self, lowest: T, greater: G) -> (res: Vec<
        usize,
    >)
        requires
            self.wf(),
            forall|x: T, y: T| call_requires(greater, (x, y)),
        ensures
            res@.len() == self.shape.0,
            forall|r: int|
                0 <= r < self.rows() ==> argmax_scan(
                    greater,
                    lowest,
                    0,
                    self.row_seq(r),
                    0,
                    #[trigger] res@[r] as int,
                ),
            forall|r: int| 0 <= r < self.rows() && self.cols() > 0 ==> #[trigger] res@[r] < self.shape.1,
    {
        let rows = self.shape.0;
        let cols = self.shape.1;
        let mut res: Vec<usize> = Vec::with_capacity(rows);
        let mut r: usize = 0;
        while r < rows
            invariant
                self.wf(),
                rows == self.shape.0,
                cols == self.shape.1,
                forall|x: T, y: T| call_requires(greater, (x, y)),
                r <= rows,
                res@.len() == r,
                forall|rr: int|
                    0 <= rr < r ==> argmax_scan(
                        greater,
                        lowest,
                        0,
                        self.row_seq(rr),
                        0,
                        #[trigger] res@[rr] as int,
                    ),
                forall|rr: int| 0 <= rr < r && cols > 0 ==> #[trigger] res@[rr] < cols,
            decreases rows - r,
        {
            let ghost xs = self.row_seq(r as int);
            let mut best = lowest;
            let mut best_idx: usize = 0;
            let mut c: usize = 0;
            while c < cols
                invariant
                    self.wf(),
                    rows == self.shape.0,
                    cols == self.shape.1,
                    r < rows,
                    xs == self.row_seq(r as int),
                    forall|x: T, y: T| call_requires(greater, (x, y)),
                    c <= cols,
                    best_idx == 0 || best_idx < c,
                    forall|v: int| #[trigger]
                        argmax_scan(greater, best, best_idx as int, xs, c as int, v) ==> argmax_scan(
                            greater,
                            lowest,
                            0,
                            xs,
                            0,
                            v,
                        ),
                decreases cols - c,
            {
                let x = self.get(r, c);
                let b = greater(x, best);
                proof {
                    lemma_argmax_step(greater, lowest, best, best_idx as int, xs, c as int, b);
                }
                if b {
                    best = x;
                    best_idx = c;
                }
                c += 1;
            }
            proof {
                assert(argmax_scan(greater, best, best_idx as int, xs, cols as int, best_idx as int));
            }
            res.push(best_idx);
            r += 1;
        }
        res
    }

    /// The transpose: a `cols x rows` tensor whose cell `(c, r)` is the cell
    /// `(r, c)` of `self`.
    pub fn transpose(&self) -> (res: Self)
        requires
            self.wf(),
        ensures
            res.is_transpose_of(self),
    {
        let rows = self.shape.0;
        let cols = self.shape.1;
        let mut data: Vec<T> = Vec::with_capacity(self.data.len());
        let mut c: usize = 0;
        while c < cols
            invariant
                self.wf(),
                rows == self.shape.0,
                cols == self.shape.1,
                c <= cols,
                data@.len() == c * rows,
                forall|cc: int, rr: int|
                    0 <= cc < c && 0 <= rr < rows ==> #[trigger] data@[flat_index(cc, rr, rows as int)]
                        == self.at(rr, cc),
            decreases cols - c,
        {
            let mut r: usize = 0;
            while r < rows
                invariant
                    self.wf(),
                    rows == self.shape.0,
                    cols == self.shape.1,
                    c < cols,
                    r <= rows,
                    data@.len() == c * rows + r,
                    forall|cc: int, rr: int|
                        (0 <= cc < c && 0 <= rr < rows) || (cc == c && 0 <= rr < r)
                            ==> #[trigger] data@[flat_index(cc, rr, rows as int)] == self.at(rr, cc),
                decreases rows - r,
            {
                let v = self.get(r, c);
                proof {
                    assert forall|cc: int, rr: int|
                        (0 <= cc < c && 0 <= rr < rows) || (cc == c && 0 <= rr < r) implies
                        flat_index(cc, rr, rows as int) < data@.len() by {
                        lemma_flat_index_before(cc, rr, c as int, r as int, rows as int);
                    }
                }
                data.push(v);
                r += 1;
            }
            proof {
                assert(c * rows + rows == (c + 1) * rows) by (nonlinear_arith);
            }
            c += 1;
        }
        proof {
            assert(cols * rows == rows * cols) by (nonlinear_arith);
        }
        Tensor { data, shape: (cols, rows) }
    }
}

/// Two well-formed tensors of one shape that agree on every cell have the same buffer.
pub proof fn lemma_eq_by_cells<T>(a: &Tensor<T>, b: &Tensor<T>)
    requires
        a.wf(),
        b.wf(),
        a.shape == b.shape,
        forall|r: int, c: int|
            0 <= r < a.rows() && 0 <= c < a.cols() ==> #[trigger] a.at(r, c) == b.at(r, c),
    ensures
        a.data@ == b.data@,
{
    if a.cols() > 0 {
        assert forall|i: int| 0 <= i < a.data@.len() implies a.data@[i] == b.data@[i] by {
            lemma_flat_index_split(i, a.rows(), a.cols());
            assert(a.at(i / a.cols(), i % a.cols()) == b.at(i / a.cols(), i % a.cols()));
        }
    } else {
        assert(a.rows() * 0 == 0);
    }
    assert(a.data@ =~= b.data@);
}

/// Law: writing a cell and reading it back gives the written value, and
/// every other cell keeps its value.
pub proof fn law_get_after_set<T>(t: &Tensor<T>, r: int, c: int, v: T, r2: int, c2: int)
    requires
        t.wf(),
        0 <= r < t.rows(),
        0 <= c < t.cols(),
        0 <= r2 < t.rows(),
        0 <= c2 < t.cols(),
    ensures
        t.with_cell(r, c, v)[flat_index(r2, c2, t.cols())] == (if r2 == r && c2 == c {
            v
        } else {
            t.at(r2, c2)
        }),
        t.with_cell(r, c, v).len() == t.data@.len(),
{
    lemma_flat_index_bounds(r, c, t.rows(), t.cols());
    lemma_flat_index_bounds(r2, c2, t.rows(), t.cols());
    if r2 != r || c2 != c {
        lemma_flat_index_injective(r, c, r2, c2, t.cols());
    }
}

/// The rows of a transpose are the columns of the original, and its columns the rows.
pub proof fn lemma_transpose_seqs<T>(u: &Tensor<T>, t: &Tensor<T>)
    requires
        u.is_transpose_of(t),
    ensures
        forall|i: int| 0 <= i < t.cols() ==> #[trigger] u.row_seq(i) == t.col_seq(i),
        forall|j: int| 0 <= j < t.rows() ==> #[trigger] u.col_seq(j) == t.row_seq(j),
{
    assert forall|i: int| 0 <= i < t.cols() implies #[trigger] u.row_seq(i) == t.col_seq(i) by {
        assert(u.row_seq(i) =~= t.col_seq(i));
    }
    assert forall|j: int| 0 <= j < t.rows() implies #[trigger] u.col_seq(j) == t.row_seq(j) by {
        assert(u.col_seq(j) =~= t.row_seq(j));
    }
}

/// Law (matrix product): when `mul_add` computes `g`, each cell `(i, j)` of
/// what `matmul_with` returns is the left fold of `g` from `zero` over every
/// pair `(a(i, t), b(t, j))`, `t = 0, 1, ..., k - 1`: for `g(acc, x, y) = acc + x * y`
/// it is the sum of all `k` products.
pub proof fn law_matmul_cells<T, F: Fn(T, T, T) -> T>(
    a: &Tensor<T>,
    b: &Tensor<T>,
    res: &Tensor<T>,
    zero: T,
    mul_add: F,
    g: spec_fn(T, T, T) -> T,
)
    requires
        a.wf(),
        b.wf(),
        a.shape.1 == b.shape.0,
        forall|acc: T, x: T, y: T, v: T| call_ensures(mul_add, (acc, x, y), v) ==> v == g(acc, x, y),
        res.wf(),
        res.shape == (a.shape.0, b.shape.1),
        forall|i: int, j: int|
            0 <= i < a.rows() && 0 <= j < b.cols() ==> folds_pairs_to(
                mul_add,
                zero,
                a.row_seq(i),
                b.col_seq(j),
                #[trigger] res.at(i, j),
            ),
    ensures
        forall|i: int, j: int|
            0 <= i < a.rows() && 0 <= j < b.cols() ==> #[trigger] res.at(i, j) == zip_seqs(
                a.row_seq(i),
                b.col_seq(j),
            ).fold_left(zero, |acc: T, p: (T, T)| g(acc, p.0, p.1)),
{
    assert forall|i: int, j: int| 0 <= i < a.rows() && 0 <= j < b.cols() implies #[trigger] res.at(
        i,
        j,
    ) == zip_seqs(a.row_seq(i), b.col_seq(j)).fold_left(zero, |acc: T, p: (T, T)| g(acc, p.0, p.1))
        by {
        law_folds_pairs_is_fold_left(mul_add, g, zero, a.row_seq(i), b.col_seq(j), res.at(i, j));
    }
}

/// Law (column sums): when `plus` computes `g`, cell `(0, c)` of what
/// `sum_axis0_with` returns is the left fold of `g` from `zero` over every
/// element of column `c`, from the first row to the last.
pub proof fn law_sum_axis0_cells<T, F: Fn(T, T) -> T>(
    a: &Tensor<T>,
    res: &Tensor<T>,
    zero: T,
    plus: F,
    g: spec_fn(T, T) -> T,
)
    requires
        a.wf(),
        forall|acc: T, x: T, v: T| call_ensures(plus, (acc, x), v) ==> v == g(acc, x),
        res.wf(),
        res.shape == (1usize, a.shape.1),
        forall|c: int| 0 <= c < a.cols() ==> folds_to(plus, zero, a.col_seq(c), #[trigger] res.at(0, c)),
    ensures
        forall|c: int| 0 <= c < a.cols() ==> #[trigger] res.at(0, c) == a.col_seq(c).fold_left(zero, g),
{
    assert forall|c: int| 0 <= c < a.cols() implies #[trigger] res.at(0, c) == a.col_seq(c).fold_left(
        zero,
        g,
    ) by {
        law_folds_is_fold_left(plus, g, zero, a.col_seq(c), res.at(0, c));
    }
}

/// Law (row-wise argmax): when `greater` computes a strict total order `gt`
/// and `lowest` lies below or at every element, the class that
/// `argmax_rows_with` gives a row is the first column holding the row's
/// largest element: no element of the row exceeds it, and every earlier
/// element is strictly smaller.
pub proof fn law_argmax_rows_are_first_maxima<T, G: Fn(T, T) -> bool>(
    t: &Tensor<T>,
    res: Seq<usize>,
    lowest: T,
    greater: G,
    gt: spec_fn(T, T) -> bool,
)
    requires
        t.wf(),
        t.cols() > 0,
        is_strict_total_order(gt),
        forall|x: T, y: T, b: bool| call_ensures(greater, (x, y), b) ==> b == gt(x, y),
        forall|r: int, c: int|
            0 <= r < t.rows() && 0 <= c < t.cols() ==> !gt(lowest, #[trigger] t.at(r, c)),
        res.len() == t.shape.0,
        forall|r: int|
            0 <= r < t.rows() ==> argmax_scan(greater, lowest, 0, t.row_seq(r), 0, #[trigger] res[r] as int),
    ensures
        forall|r: int| 0 <= r < t.rows() ==> #[trigger] res[r] < t.shape.1,
        forall|r: int, c: int|
            0 <= r < t.rows() && 0 <= c < t.cols() ==> !gt(#[trigger] t.at(r, c), t.at(r, res[r] as int)),
        forall|r: int, c: int|
            0 <= r < t.rows() && 0 <= c < res[r] ==> gt(t.at(r, res[r] as int), #[trigger] t.at(r, c)),
{
    assert forall|r: int| 0 <= r < t.rows() implies {
        &&& #[trigger] res[r] < t.shape.1
        &&& forall|c: int| 0 <= c < t.cols() ==> !gt(#[trigger] t.at(r, c), t.at(r, res[r] as int))
        &&& forall|c: int| 0 <= c < res[r] ==> gt(t.at(r, res[r] as int), #[trigger] t.at(r, c))
    } by {
        let xs = t.row_seq(r);
        assert forall|c: int| 0 <= c < xs.len() implies !gt(lowest, #[trigger] xs[c]) by {
            assert(xs[c] == t.at(r, c));
        }
        law_argmax_scan_is_first_maximum(greater, gt, lowest, xs, res[r] as int);
        assert forall|c: int| 0 <= c < t.cols() implies !gt(#[trigger] t.at(r, c), t.at(r, res[r] as int)) by {
            assert(xs[c] == t.at(r, c));
        }
        assert forall|c: int| 0 <= c < res[r] implies gt(t.at(r, res[r] as int), #[trigger] t.at(r, c)) by {
            assert(xs[c] == t.at(r, c));
        }
    }
}

/// Law: transposing twice gives back the original tensor.
pub proof fn law_transpose_involution<T>(t: &Tensor<T>, u: &Tensor<T>, w: &Tensor<T>)
    requires
        t.wf(),
        u.is_transpose_of(t),
        w.is_transpose_of(u),
    ensures
        w.shape == t.shape,
        w.data@ == t.data@,
{
    assert forall|r: int, c: int| 0 <= r < w.rows() && 0 <= c < w.cols() implies #[trigger] w.at(r, c)
        == t.at(r, c) by {
        assert(w.at(r, c) == u.at(c, r));
    }
    lemma_eq_by_cells(w, t);
}

/// Law: two tensors that both hold the rows `idx` of `t` are the same tensor;
/// in particular `slice_rows(start, end)` and `get_rows` of `start..end` agree.
pub proof fn law_rows_of_determined<T>(a: &Tensor<T>, b: &Tensor<T>, t: &Tensor<T>, idx: Seq<usize>)
    requires
        a.is_rows_of(t, idx),
        b.is_rows_of(t, idx),
    ensures
        a.shape == b.shape,
        a.data@ == b.data@,
{
    assert forall|r: int, c: int| 0 <= r < a.rows() && 0 <= c < a.cols() implies #[trigger] a.at(r, c)
        == b.at(r, c) by {
        assert(a.at(r, c) == t.at(idx[r] as int, c));
    }
    lemma_eq_by_cells(a, b);
}

/// Law: taking the rows `0, 1, ..., rows - 1` of a tensor, in order, gives the tensor back.
pub proof fn law_all_rows_in_order<T>(t: &Tensor<T>, s: &Tensor<T>)
    requires
        t.wf(),
        s.is_rows_of(t, row_range(0, t.rows())),
    ensures
        s.shape == t.shape,
        s.data@ == t.data@,
{
    assert forall|r: int, c: int| 0 <= r < s.rows() && 0 <= c < s.cols() implies #[trigger] s.at(r, c)
        == t.at(r, c) by {
        assert(row_range(0, t.rows())[r] == r);
    }
    lemma_eq_by_cells(s, t);
}

} // verus!
