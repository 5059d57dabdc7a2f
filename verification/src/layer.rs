use vstd::prelude::*;

use crate::fold::{folds_pairs_to, folds_to};
use crate::tensor::{lemma_flat_index_bounds, lemma_transpose_seqs, Tensor};

verus! {

/// A fully connected layer `Y = X W + b`, with what its backward pass and
/// its optimizers keep between calls.
pub struct Linear<T> {
    /// `in_features x out_features`.
    pub weights: Tensor<T>,
    /// `1 x out_features`, added to every row of `X W`.
    pub bias: Tensor<T>,
    /// The input of the last forward pass.
    pub input: Option<Tensor<T>>,
    /// The gradient of the loss with respect to `weights`, from the last backward pass.
    pub d_weights: Option<Tensor<T>>,
    /// The gradient of the loss with respect to `bias`, from the last backward pass.
    pub d_bias: Option<Tensor<T>>,
    /// Adam's running first moment of the weight gradients.
    pub m_weights: Option<Tensor<T>>,
    /// Adam's running second moment of the weight gradients.
    pub v_weights: Option<Tensor<T>>,
    /// Adam's running first moment of the bias gradients.
    pub m_bias: Option<Tensor<T>>,
    /// Adam's running second moment of the bias gradients.
    pub v_bias: Option<Tensor<T>>,
    /// The number of Adam steps taken.
    pub t: usize,
}

impl<T> Linear<T> {
    /// Weights and bias are well formed and fit together.
    pub open spec fn wf(&self) -> bool {
        &&& self.weights.wf()
        &&& self.bias.wf()
        &&& self.bias.shape == (1usize, self.weights.shape.1)
    }

    /// The parameters and the optimizer state of `self` and `other` are the same.
    pub open spec fn same_parameters(&self, other: &Self) -> bool {
        &&& self.weights == other.weights
        &&& self.bias == other.bias
        &&& self.m_weights == other.m_weights
        &&& self.v_weights == other.v_weights
        &&& self.m_bias == other.m_bias
        &&& self.v_bias == other.v_bias
        &&& self.t == other.t
    }
}

/// Cell `(i, j)` of `out` is `plus(p, b(0, j))` for a value `p` that the fold
/// of `mul_add` over row `i` of `x` and column `j` of `w` gives.
pub open spec fn affine_cell<T, F: Fn(T, T, T) -> T, G: Fn(T, T) -> T>(
    out: Tensor<T>,
    x: Tensor<T>,
    w: Tensor<T>,
    b: Tensor<T>,
    zero: T,
    mul_add: F,
    plus: G,
    i: int,
    j: int,
) -> bool {
    exists|p: T|
        folds_pairs_to(mul_add, zero, x.row_seq(i), w.col_seq(j), p) && #[trigger] call_ensures(
            plus,
            (p, b.at(0, j)),
            out.at(i, j),
        )
}

/// `out` is `x w + b`, cell by cell (see `affine_cell`).
pub open spec fn is_affine_of<T, F: Fn(T, T, T) -> T, G: Fn(T, T) -> T>(
    out: Tensor<T>,
    x: Tensor<T>,
    w: Tensor<T>,
    b: Tensor<T>,
    zero: T,
    mul_add: F,
    plus: G,
) -> bool {
    &&& out.wf()
    &&& out.shape == (x.shape.0, w.shape.1)
    &&& forall|i: int, j: int|
        0 <= i < x.rows() && 0 <= j < w.cols() ==> #[trigger] affine_cell(
            out,
            x,
            w,
            b,
            zero,
            mul_add,
            plus,
            i,
            j,
        )
}

/// The running moment at position `i`: the stored one, or `zero` before the first step.
pub open spec fn moment_or<T>(moment: Option<Tensor<T>>, zero: T, i: int) -> T {
    match moment {
        Some(m) => m.data@[i],
        None => zero,
    }
}

/// A stored moment is missing or holds at least one value per parameter (`n` of them).
pub open spec fn moment_fits<T>(moment: Option<Tensor<T>>, n: int) -> bool {
    moment matches Some(m) ==> m.data@.len() >= n
}

/// `after` is the moment `before` once a step over `n` parameters of shape
/// `shape` has run: a missing moment becomes a well-formed tensor of that
/// shape; a stored one keeps its shape, its length and its values from
/// position `n` on.
pub open spec fn moment_kept<T>(
    before: Option<Tensor<T>>,
    after: Tensor<T>,
    shape: (usize, usize),
    n: int,
) -> bool {
    match before {
        Some(m) => {
            &&& after.shape == m.shape
            &&& after.data@.len() == m.data@.len()
            &&& forall|i: int| n <= i < m.data@.len() ==> #[trigger] after.data@[i] == m.data@[i]
        },
        None => after.wf() && after.shape == shape,
    }
}

/// One Adam pass over a parameter tensor: cell `i` of `params`, with its
/// gradient and its two moments, becomes what `rule(m, v, w, g)` returns.
fn adam_pass<T: Copy, F: Fn(T, T, T, T) -> (T, T, T) + Copy>(
    params: &mut Tensor<T>,
    grads: &Tensor<T>,
    m: &mut Tensor<T>,
    v: &mut Tensor<T>,
    rule: F,
)
    requires
        old(params).wf(),
        grads.data@.len() >= old(params).data@.len(),
        old(m).data@.len() >= old(params).data@.len(),
        old(v).data@.len() >= old(params).data@.len(),
        forall|a: T, b: T, c: T, d: T| call_requires(rule, (a, b, c, d)),
    ensures
        final(params).shape == old(params).shape,
        final(m).shape == old(m).shape,
        final(v).shape == old(v).shape,
        final(params).data@.len() == old(params).data@.len(),
        final(m).data@.len() == old(m).data@.len(),
        final(v).data@.len() == old(v).data@.len(),
        forall|i: int|
            old(params).data@.len() <= i < old(m).data@.len() ==> #[trigger] final(m).data@[i]
                == old(m).data@[i],
        forall|i: int|
            old(params).data@.len() <= i < old(v).data@.len() ==> #[trigger] final(v).data@[i]
                == old(v).data@[i],
        forall|i: int|
            0 <= i < old(params).data@.len() ==> call_ensures(
                rule,
                (old(m).data@[i], old(v).data@[i], old(params).data@[i], grads.data@[i]),
                (final(m).data@[i], final(v).data@[i], #[trigger] final(params).data@[i]),
            ),
{
    let n = params.data.len();
    let mut i: usize = 0;
    while i < n
        invariant
            n == params.data@.len(),
            n == old(params).data@.len(),
            n <= grads.data@.len(),
            n <= m.data@.len(),
            n <= v.data@.len(),
            m.data@.len() == old(m).data@.len(),
            v.data@.len() == old(v).data@.len(),
            params.shape == old(params).shape,
            m.shape == old(m).shape,
            v.shape == old(v).shape,
            i <= n,
            forall|a: T, b: T, c: T, d: T| call_requires(rule, (a, b, c, d)),
            forall|k: int| i <= k < m.data@.len() ==> #[trigger] m.data@[k] == old(m).data@[k],
            forall|k: int| i <= k < v.data@.len() ==> #[trigger] v.data@[k] == old(v).data@[k],
            forall|k: int| i <= k < n ==> #[trigger] params.data@[k] == old(params).data@[k],
            forall|k: int|
                0 <= k < i ==> call_ensures(
                    rule,
                    (old(m).data@[k], old(v).data@[k], old(params).data@[k], grads.data@[k]),
                    (m.data@[k], v.data@[k], #[trigger] params.data@[k]),
                ),
        decreases n - i,
    {
        let (m2, v2, w2) = rule(m.data[i], v.data[i], params.data[i], grads.data[i]);
        m.data.set(i, m2);
        v.data.set(i, v2);
        params.data.set(i, w2);
        i += 1;
    }
}

/// `prev` is a stored gradient that a new gradient of shape `shape` is added onto.
pub open spec fn accumulates_into<T>(prev: Option<Tensor<T>>, shape: (usize, usize)) -> bool {
    prev matches Some(p) && p.wf() && p.shape == shape
}

/// Cell `(i, j)` of an accumulated gradient: `plus(prev(i, j), fresh)` when
/// `prev` accumulates (see `accumulates_into`), otherwise `fresh` itself.
pub open spec fn added_to_previous<T, G: Fn(T, T) -> T>(
    prev: Option<Tensor<T>>,
    shape: (usize, usize),
    plus: G,
    i: int,
    j: int,
    fresh: T,
    v: T,
) -> bool {
    if accumulates_into(prev, shape) {
        call_ensures(plus, (prev.unwrap().at(i, j), fresh), v)
    } else {
        v == fresh
    }
}

/// Cell `(i, j)` of the accumulated weight gradient `dw`: the fold of
/// `mul_add` over column `i` of `x` and column `j` of `grad` (one cell of
/// `x^T grad`), added onto the stored gradient `prev`.
pub open spec fn weight_grad_cell<T, F: Fn(T, T, T) -> T, G: Fn(T, T) -> T>(
    prev: Option<Tensor<T>>,
    x: Tensor<T>,
    grad: Tensor<T>,
    zero: T,
    mul_add: F,
    plus: G,
    dw: Tensor<T>,
    i: int,
    j: int,
) -> bool {
    exists|g: T|
        folds_pairs_to(mul_add, zero, x.col_seq(i), grad.col_seq(j), g) && #[trigger] added_to_previous(
            prev,
            dw.shape,
            plus,
            i,
            j,
            g,
            dw.at(i, j),
        )
}

/// Cell `(0, j)` of the accumulated bias gradient `db`: the fold of `plus`
/// over column `j` of `grad`, added onto the stored gradient `prev`.
pub open spec fn bias_grad_cell<T, G: Fn(T, T) -> T>(
    prev: Option<Tensor<T>>,
    grad: Tensor<T>,
    zero: T,
    plus: G,
    db: Tensor<T>,
    j: int,
) -> bool {
    exists|g: T|
        folds_to(plus, zero, grad.col_seq(j), g) && #[trigger] added_to_previous(
            prev,
            db.shape,
            plus,
            0,
            j,
            g,
            db.at(0, j),
        )
}

/// Adds `fresh` onto the stored gradient `prev`, cell by cell with `plus`,
/// when `prev` has the same shape; otherwise the result is `fresh`.
fn accumulate<T: Copy, G: Fn(T, T) -> T + Copy>(
    prev: &Option<Tensor<T>>,
    fresh: Tensor<T>,
    plus: G,
) -> (res: Tensor<T>)
    requires
        fresh.wf(),
        forall|x: T, y: T| call_requires(plus, (x, y)),
    ensures
        res.wf(),
        res.shape == fresh.shape,
        forall|i: int, j: int|
            0 <= i < fresh.rows() && 0 <= j < fresh.cols() ==> #[trigger] added_to_previous(
                *prev,
                fresh.shape,
                plus,
                i,
                j,
                fresh.at(i, j),
                res.at(i, j),
            ),
{
    match prev {
        Some(p) => {
            if p.is_well_formed() && p.shape.0 == fresh.shape.0 && p.shape.1 == fresh.shape.1 {
                let res = p.zip_with(&fresh, plus);
                proof {
                    assert forall|i: int, j: int|
                        0 <= i < fresh.rows() && 0 <= j < fresh.cols() implies #[trigger] added_to_previous(
                        *prev,
                        fresh.shape,
                        plus,
                        i,
                        j,
                        fresh.at(i, j),
                        res.at(i, j),
                    ) by {
                        lemma_flat_index_bounds(i, j, fresh.rows(), fresh.cols());
                    }
                }
                res
            } else {
                fresh
            }
        },
        None => fresh,
    }
}

impl<T: Copy> Linear<T> {
    /// A layer with the given weights and bias; `bias` must be `1 x weights.cols`.
    pub fn from_weights(weights: Tensor<T>, bias: Tensor<T>) -> (res: Self)
        requires
            weights.wf(),
            bias.wf(),
            bias.shape == (1usize, weights.shape.1),
        ensures
            res.wf(),
            res.weights == weights,
            res.bias == bias,
            res.input is None,
            res.d_weights is None,
            res.d_bias is None,
            res.m_weights is None,
            res.v_weights is None,
            res.m_bias is None,
            res.v_bias is None,
            res.t == 0,
    {
        Linear {
            weights,
            bias,
            input: None,
            d_weights: None,
            d_bias: None,
            m_weights: None,
            v_weights: None,
            m_bias: None,
            v_bias: None,
            t: 0,
        }
    }

    /// The forward pass `input * weights + bias`, with `mul_add(acc, x, w)`
    /// for one term of a product and `plus` for adding the bias. The input is
    /// kept for the backward pass.
    pub fn forward_with<F: Fn(T, T, T) -> T + Copy, G: Fn(T, T) -> T + Copy>(
        &mut self,
        input: &Tensor<T>,
        zero: T,
        mul_add: F,
        plus: G,
    ) -> (out: Tensor<T>)
        requires
            old(self).wf(),
            input.wf(),
            input.shape.1 == old(self).weights.shape.0,
            input.shape.0 * old(self).weights.shape.1 <= usize::MAX,
            forall|a: T, x: T, y: T| call_requires(mul_add, (a, x, y)),
            forall|x: T, y: T| call_requires(plus, (x, y)),
        ensures
            final(self).wf(),
            final(self).same_parameters(old(self)),
            final(self).d_weights == old(self).d_weights,
            final(self).d_bias == old(self).d_bias,
            final(self).input matches Some(kept) && kept.data@ == input.data@ && kept.shape
                == input.shape,
            is_affine_of(out, *input, old(self).weights, old(self).bias, zero, mul_add, plus),
    {
        self.input = Some(input.clone());
        let product = input.matmul_with(&self.weights, zero, mul_add);
        let out = product.add_bias_with(&self.bias, plus);
        proof {
            assert forall|i: int, j: int|
                0 <= i < input.rows() && 0 <= j < self.weights.cols() implies #[trigger] affine_cell(
                out,
                *input,
                self.weights,
                self.bias,
                zero,
                mul_add,
                plus,
                i,
                j,
            ) by {
                let p = product.at(i, j);
                assert(folds_pairs_to(mul_add, zero, input.row_seq(i), self.weights.col_seq(j), p));
                assert(call_ensures(plus, (p, self.bias.at(0, j)), out.at(i, j)));
            }
        }
        out
    }

    /// The backward pass, given the gradient `grad` of the loss with respect
    /// to the last output. With `X` the input kept by the forward pass, it
    /// adds `X^T grad` onto `d_weights` and the column sums of `grad` onto
    /// `d_bias` (gradients accumulate until `zero_grad`; a missing gradient,
    /// or one of another shape, is replaced), and returns the gradient with
    /// respect to the input, `grad W^T`.
    pub fn backward_with<F: Fn(T, T, T) -> T + Copy, G: Fn(T, T) -> T + Copy>(
        &mut self,
        grad: &Tensor<T>,
        zero: T,
        mul_add: F,
        plus: G,
    ) -> (grad_input: Tensor<T>)
        requires
            old(self).wf(),
            old(self).input matches Some(x) && x.wf() && x.shape.0 == grad.shape.0 && x.shape.1
                * grad.shape.1 <= usize::MAX,
            grad.wf(),
            grad.shape.1 == old(self).weights.shape.1,
            grad.shape.0 * old(self).weights.shape.0 <= usize::MAX,
            forall|a: T, x: T, y: T| call_requires(mul_add, (a, x, y)),
            forall|x: T, y: T| call_requires(plus, (x, y)),
        ensures
            final(self).wf(),
            final(self).same_parameters(old(self)),
            final(self).input == old(self).input,
            final(self).d_weights matches Some(dw) && dw.wf() && dw.shape == (
                old(self).input.unwrap().shape.1,
                grad.shape.1,
            ) && forall|i: int, j: int|
                0 <= i < dw.rows() && 0 <= j < dw.cols() ==> #[trigger] weight_grad_cell(
                    old(self).d_weights,
                    old(self).input.unwrap(),
                    *grad,
                    zero,
                    mul_add,
                    plus,
                    dw,
                    i,
                    j,
                ),
            final(self).d_bias matches Some(db) && db.wf() && db.shape == (1usize, grad.shape.1)
                && forall|j: int|
                0 <= j < grad.cols() ==> #[trigger] bias_grad_cell(
                    old(self).d_bias,
                    *grad,
                    zero,
                    plus,
                    db,
                    j,
                ),
            grad_input.wf(),
            grad_input.shape == (grad.shape.0, old(self).weights.shape.0),
            forall|i: int, j: int|
                0 <= i < grad.rows() && 0 <= j < old(self).weights.rows() ==> folds_pairs_to(
                    mul_add,
                    zero,
                    grad.row_seq(i),
                    old(self).weights.row_seq(j),
                    #[trigger] grad_input.at(i, j),
                ),
    {
        let x = match &self.input {
            Some(x) => x,
            None => {
                proof {
                    assert(false);
                }
                return grad.clone();
            },
        };
        let xt = x.transpose();
        let fresh_dw = xt.matmul_with(grad, zero, mul_add);
        let fresh_db = grad.sum_axis0_with(zero, plus);
        let wt = self.weights.transpose();
        let grad_input = grad.matmul_with(&wt, zero, mul_add);
        let ghost fdw = fresh_dw;
        let ghost fdb = fresh_db;
        let dw = accumulate(&self.d_weights, fresh_dw, plus);
        let db = accumulate(&self.d_bias, fresh_db, plus);
        proof {
            lemma_transpose_seqs(&xt, x);
            lemma_transpose_seqs(&wt, &self.weights);
            assert forall|i: int, j: int| 0 <= i < dw.rows() && 0 <= j < dw.cols() implies #[trigger] weight_grad_cell(
                old(self).d_weights,
                *x,
                *grad,
                zero,
                mul_add,
                plus,
                dw,
                i,
                j,
            ) by {
                assert(xt.row_seq(i) == x.col_seq(i));
                let g = fdw.at(i, j);
                assert(folds_pairs_to(mul_add, zero, x.col_seq(i), grad.col_seq(j), g));
                assert(added_to_previous(old(self).d_weights, dw.shape, plus, i, j, g, dw.at(i, j)));
            }
            assert forall|j: int| 0 <= j < grad.cols() implies #[trigger] bias_grad_cell(
                old(self).d_bias,
                *grad,
                zero,
                plus,
                db,
                j,
            ) by {
                let g = fdb.at(0, j);
                assert(folds_to(plus, zero, grad.col_seq(j), g));
                assert(added_to_previous(old(self).d_bias, db.shape, plus, 0, j, g, db.at(0, j)));
            }
            assert forall|i: int, j: int|
                0 <= i < grad.rows() && 0 <= j < self.weights.rows() implies folds_pairs_to(
                mul_add,
                zero,
                grad.row_seq(i),
                self.weights.row_seq(j),
                #[trigger] grad_input.at(i, j),
            ) by {
                assert(wt.col_seq(j) == self.weights.row_seq(j));
            }
        }
        self.d_weights = Some(dw);
        self.d_bias = Some(db);
        grad_input
    }

    /// Moves every parameter by its gradient: each weight `w` becomes
    /// `step(w, dw)` for its gradient `dw`, and each bias likewise.
    pub fn update_with<F: Fn(T, T) -> T + Copy>(&mut self, step: F)
        requires
            old(self).wf(),
            old(self).d_weights matches Some(dw) && dw.wf() && dw.shape == old(self).weights.shape,
            old(self).d_bias matches Some(db) && db.wf() && db.shape == old(self).bias.shape,
            forall|x: T, y: T| call_requires(step, (x, y)),
        ensures
            final(self).wf(),
            final(self).weights.shape == old(self).weights.shape,
            final(self).bias.shape == old(self).bias.shape,
            forall|i: int|
                0 <= i < old(self).weights.data@.len() ==> call_ensures(
                    step,
                    (old(self).weights.data@[i], old(self).d_weights.unwrap().data@[i]),
                    #[trigger] final(self).weights.data@[i],
                ),
            forall|i: int|
                0 <= i < old(self).bias.data@.len() ==> call_ensures(
                    step,
                    (old(self).bias.data@[i], old(self).d_bias.unwrap().data@[i]),
                    #[trigger] final(self).bias.data@[i],
                ),
            final(self).input == old(self).input,
            final(self).d_weights == old(self).d_weights,
            final(self).d_bias == old(self).d_bias,
            final(self).m_weights == old(self).m_weights,
            final(self).v_weights == old(self).v_weights,
            final(self).m_bias == old(self).m_bias,
            final(self).v_bias == old(self).v_bias,
            final(self).t == old(self).t,
    {
        let new_weights = match &self.d_weights {
            Some(dw) => self.weights.zip_with(dw, step),
            None => {
                proof {
                    assert(false);
                }
                self.weights.clone()
            },
        };
        let new_bias = match &self.d_bias {
            Some(db) => self.bias.zip_with(db, step),
            None => {
                proof {
                    assert(false);
                }
                self.bias.clone()
            },
        };
        self.weights = new_weights;
        self.bias = new_bias;
    }

    /// One Adam step. The step count goes up by one; the running moments
    /// start at `zero` on the first step (a stored moment may hold more
    /// values than there are parameters; the extra ones are left alone); then every weight `w` with gradient
    /// `g` and moments `m`, `v` becomes what `rule(m, v, w, g)` returns as
    /// `(m', v', w')`, and likewise every bias. `rule` holds the update
    /// itself (moment decay, bias correction for the new step count, scaling).
    pub fn update_adam_with<F: Fn(T, T, T, T) -> (T, T, T) + Copy>(&mut self, zero: T, rule: F)
        requires
            old(self).wf(),
            old(self).t < usize::MAX,
            old(self).d_weights matches Some(dw) && dw.data@.len() >= old(self).weights.data@.len(),
            old(self).d_bias matches Some(db) && db.data@.len() >= old(self).bias.data@.len(),
            moment_fits(old(self).m_weights, old(self).weights.data@.len() as int),
            moment_fits(old(self).v_weights, old(self).weights.data@.len() as int),
            moment_fits(old(self).m_bias, old(self).bias.data@.len() as int),
            moment_fits(old(self).v_bias, old(self).bias.data@.len() as int),
            forall|a: T, b: T, c: T, d: T| call_requires(rule, (a, b, c, d)),
        ensures
            final(self).wf(),
            final(self).t == old(self).t + 1,
            final(self).weights.shape == old(self).weights.shape,
            final(self).bias.shape == old(self).bias.shape,
            final(self).input == old(self).input,
            final(self).d_weights == old(self).d_weights,
            final(self).d_bias == old(self).d_bias,
            final(self).m_weights matches Some(mw) && final(self).v_weights matches Some(vw)
                && moment_kept(
                old(self).m_weights,
                mw,
                old(self).weights.shape,
                old(self).weights.data@.len() as int,
            ) && moment_kept(
                old(self).v_weights,
                vw,
                old(self).weights.shape,
                old(self).weights.data@.len() as int,
            ) && forall|i: int|
                0 <= i < old(self).weights.data@.len() ==> call_ensures(
                    rule,
                    (
                        moment_or(old(self).m_weights, zero, i),
                        moment_or(old(self).v_weights, zero, i),
                        old(self).weights.data@[i],
                        old(self).d_weights.unwrap().data@[i],
                    ),
                    (mw.data@[i], vw.data@[i], #[trigger] final(self).weights.data@[i]),
                ),
            final(self).m_bias matches Some(mb) && final(self).v_bias matches Some(vb) && moment_kept(
                old(self).m_bias,
                mb,
                old(self).bias.shape,
                old(self).bias.data@.len() as int,
            ) && moment_kept(
                old(self).v_bias,
                vb,
                old(self).bias.shape,
                old(self).bias.data@.len() as int,
            ) && forall|i: int|
                0 <= i < old(self).bias.data@.len() ==> call_ensures(
                    rule,
                    (
                        moment_or(old(self).m_bias, zero, i),
                        moment_or(old(self).v_bias, zero, i),
                        old(self).bias.data@[i],
                        old(self).d_bias.unwrap().data@[i],
                    ),
                    (mb.data@[i], vb.data@[i], #[trigger] final(self).bias.data@[i]),
                ),
    {
        self.t = self.t + 1;
        let wshape = self.weights.shape;
        let bshape = self.bias.shape;
        // Both buffers have usize lengths, so zero-filled moments of their shapes fit.
        let _weights_len = self.weights.data.len();
        let _bias_len = self.bias.data.len();
        let mut mw = match &self.m_weights {
            Some(m) => m.clone(),
            None => Tensor::full(wshape, zero),
        };
        let mut vw = match &self.v_weights {
            Some(v) => v.clone(),
            None => Tensor::full(wshape, zero),
        };
        let mut mb = match &self.m_bias {
            Some(m) => m.clone(),
            None => Tensor::full(bshape, zero),
        };
        let mut vb = match &self.v_bias {
            Some(v) => v.clone(),
            None => Tensor::full(bshape, zero),
        };
        let ghost mw0 = mw;
        let ghost vw0 = vw;
        let ghost mb0 = mb;
        let ghost vb0 = vb;
        proof {
            assert forall|i: int| 0 <= i < self.weights.data@.len() implies mw0.data@[i] == moment_or(
                old(self).m_weights,
                zero,
                i,
            ) && vw0.data@[i] == moment_or(old(self).v_weights, zero, i) by {}
            assert forall|i: int| 0 <= i < self.bias.data@.len() implies mb0.data@[i] == moment_or(
                old(self).m_bias,
                zero,
                i,
            ) && vb0.data@[i] == moment_or(old(self).v_bias, zero, i) by {}
        }
        let mut weights = self.weights.clone();
        let mut bias = self.bias.clone();
        match &self.d_weights {
            Some(dw) => adam_pass(&mut weights, dw, &mut mw, &mut vw, rule),
            None => {
                proof {
                    assert(false);
                }
            },
        }
        match &self.d_bias {
            Some(db) => adam_pass(&mut bias, db, &mut mb, &mut vb, rule),
            None => {
                proof {
                    assert(false);
                }
            },
        }
        self.weights = weights;
        self.bias = bias;
        self.m_weights = Some(mw);
        self.v_weights = Some(vw);
        self.m_bias = Some(mb);
        self.v_bias = Some(vb);
    }

    /// Forgets the gradients of the last backward pass.
    pub fn zero_grad(&mut self)
        ensures
            final(self).d_weights is None,
            final(self).d_bias is None,
            final(self).same_parameters(old(self)),
            final(self).input == old(self).input,
    {
        self.d_weights = None;
        self.d_bias = None;
    }
}

} // verus!
