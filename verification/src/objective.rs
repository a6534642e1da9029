use vstd::prelude::*;
use crate::data::FloatData;

verus! {

/// The objectives that can be trained.
#[derive(Debug)]
pub enum ObjectiveType {
    LogLoss,
    SquaredLoss,
}

/// One kernel of an objective. It is picked once, when training is set up,
/// and then called once per round on the whole columns.
#[derive(Debug, Clone, Copy, PartialEq, Eq)]
pub enum ObjFn {
    LogLossGrad,
    LogLossHess,
    SquaredLossGrad,
    SquaredLossHess,
}

/// The logistic function of a raw score: `1 / (1 + exp(-x))`.
pub open spec fn sigmoid_spec<T: FloatData>(x: T) -> T {
    T::ONE.div_spec(T::ONE.add_spec(x.neg_spec().exp_spec()))
}

/// Binary cross-entropy of the score `yhat` against the label `y`, times `w`:
/// `-(y * ln(p) + (1 - y) * ln(1 - p)) * w` with `p` the logistic function of
/// `yhat`.
pub open spec fn log_loss_spec<T: FloatData>(y: T, yhat: T, w: T) -> T {
    let p = sigmoid_spec(yhat);
    y.mul_spec(p.ln_spec()).add_spec(
        T::ONE.sub_spec(y).mul_spec(T::ONE.sub_spec(p).ln_spec()),
    ).neg_spec().mul_spec(w)
}

/// `(p - y) * w` with `p` the logistic function of `yhat`.
pub open spec fn log_loss_grad_spec<T: FloatData>(y: T, yhat: T, w: T) -> T {
    sigmoid_spec(yhat).sub_spec(y).mul_spec(w)
}

/// `p * (1 - p) * w` with `p` the logistic function of `yhat`.
pub open spec fn log_loss_hess_spec<T: FloatData>(yhat: T, w: T) -> T {
    let p = sigmoid_spec(yhat);
    p.mul_spec(T::ONE.sub_spec(p)).mul_spec(w)
}

/// `(y - yhat)^2 * w`.
pub open spec fn squared_loss_spec<T: FloatData>(y: T, yhat: T, w: T) -> T {
    let s = y.sub_spec(yhat);
    s.mul_spec(s).mul_spec(w)
}

/// `(yhat - y) * w`.
pub open spec fn squared_loss_grad_spec<T: FloatData>(y: T, yhat: T, w: T) -> T {
    yhat.sub_spec(y).mul_spec(w)
}

/// The logistic function of a raw score.
pub fn sigmoid<T: FloatData>(x: T) -> (p: T)
    ensures
        p == sigmoid_spec(x),
{
    T::ONE.div(T::ONE.add(x.neg().exp()))
}

/// Loss, gradient and hessian of an objective, row by row: each takes the
/// labels, the raw predictions and the weights of the rows, and gives one
/// value per row.
pub trait ObjectiveFunction<T: FloatData> {
    /// The loss of one row with the label `y`, the raw prediction `yhat` and
    /// the weight `w`.
    spec fn loss_spec(y: T, yhat: T, w: T) -> T;

    /// The gradient of the loss of one row.
    spec fn grad_spec(y: T, yhat: T, w: T) -> T;

    /// The hessian of the loss of one row.
    spec fn hess_spec(y: T, yhat: T, w: T) -> T;

    /// The loss of each row.
    fn calc_loss(y: &[T], yhat: &[T], sample_weight: &[T]) -> (r: Vec<T>)
        requires
            y@.len() == yhat@.len(),
            yhat@.len() == sample_weight@.len(),
        ensures
            r@.len() == y@.len(),
            forall|i: int|
                0 <= i < r@.len() ==> #[trigger] r@[i] == Self::loss_spec(
                    y@[i],
                    yhat@[i],
                    sample_weight@[i],
                ),
    ;

    /// The gradient of each row.
    fn calc_grad(y: &[T], yhat: &[T], sample_weight: &[T]) -> (r: Vec<T>)
        requires
            y@.len() == yhat@.len(),
            yhat@.len() == sample_weight@.len(),
        ensures
            r@.len() == y@.len(),
            forall|i: int|
                0 <= i < r@.len() ==> #[trigger] r@[i] == Self::grad_spec(
                    y@[i],
                    yhat@[i],
                    sample_weight@[i],
                ),
    ;

    /// The hessian of each row.
    fn calc_hess(y: &[T], yhat: &[T], sample_weight: &[T]) -> (r: Vec<T>)
        requires
            y@.len() == yhat@.len(),
            yhat@.len() == sample_weight@.len(),
        ensures
            r@.len() == y@.len(),
            forall|i: int|
                0 <= i < r@.len() ==> #[trigger] r@[i] == Self::hess_spec(
                    y@[i],
                    yhat@[i],
                    sample_weight@[i],
                ),
    ;
}

/// Binary classification on raw scores.
#[derive(Default)]
pub struct LogLoss {}

impl<T: FloatData> ObjectiveFunction<T> for LogLoss {
    open spec fn loss_spec(y: T, yhat: T, w: T) -> T {
        log_loss_spec(y, yhat, w)
    }

    open spec fn grad_spec(y: T, yhat: T, w: T) -> T {
        log_loss_grad_spec(y, yhat, w)
    }

    open spec fn hess_spec(y: T, yhat: T, w: T) -> T {
        log_loss_hess_spec(yhat, w)
    }

    fn calc_loss(y: &[T], yhat: &[T], sample_weight: &[T]) -> (r: Vec<T>) {
        let n: usize = y.len();
        let mut r: Vec<T> = Vec::new();
        let mut i: usize = 0;
        while i < n
            invariant
                n == y@.len(),
                n == yhat@.len(),
                n == sample_weight@.len(),
                i <= n,
                r@.len() == i,
                forall|k: int|
                    0 <= k < i ==> #[trigger] r@[k] == log_loss_spec(
                        y@[k],
                        yhat@[k],
                        sample_weight@[k],
                    ),
            decreases n - i,
        {
            let p: T = sigmoid(yhat[i]);
            let l: T = y[i].mul(p.ln()).add(T::ONE.sub(y[i]).mul(T::ONE.sub(p).ln())).neg().mul(
                sample_weight[i],
            );
            r.push(l);
            i = i + 1;
        }
        r
    }

    fn calc_grad(y: &[T], yhat: &[T], sample_weight: &[T]) -> (r: Vec<T>) {
        let n: usize = y.len();
        let mut r: Vec<T> = Vec::new();
        let mut i: usize = 0;
        while i < n
            invariant
                n == y@.len(),
                n == yhat@.len(),
                n == sample_weight@.len(),
                i <= n,
                r@.len() == i,
                forall|k: int|
                    0 <= k < i ==> #[trigger] r@[k] == log_loss_grad_spec(
                        y@[k],
                        yhat@[k],
                        sample_weight@[k],
                    ),
            decreases n - i,
        {
            let p: T = sigmoid(yhat[i]);
            r.push(p.sub(y[i]).mul(sample_weight[i]));
            i = i + 1;
        }
        r
    }

    fn calc_hess(y: &[T], yhat: &[T], sample_weight: &[T]) -> (r: Vec<T>) {
        let n: usize = yhat.len();
        let mut r: Vec<T> = Vec::new();
        let mut i: usize = 0;
        while i < n
            invariant
                n == yhat@.len(),
                n == sample_weight@.len(),
                i <= n,
                r@.len() == i,
                forall|k: int|
                    0 <= k < i ==> #[trigger] r@[k] == log_loss_hess_spec(
                        yhat@[k],
                        sample_weight@[k],
                    ),
            decreases n - i,
        {
            let p: T = sigmoid(yhat[i]);
            r.push(p.mul(T::ONE.sub(p)).mul(sample_weight[i]));
            i = i + 1;
        }
        r
    }
}

/// Regression on the squared error.
#[derive(Default)]
pub struct SquaredLoss {}

impl<T: FloatData> ObjectiveFunction<T> for SquaredLoss {
    open spec fn loss_spec(y: T, yhat: T, w: T) -> T {
        squared_loss_spec(y, yhat, w)
    }

    open spec fn grad_spec(y: T, yhat: T, w: T) -> T {
        squared_loss_grad_spec(y, yhat, w)
    }

    open spec fn hess_spec(y: T, yhat: T, w: T) -> T {
        w
    }

    fn calc_loss(y: &[T], yhat: &[T], sample_weight: &[T]) -> (r: Vec<T>) {
        let n: usize = y.len();
        let mut r: Vec<T> = Vec::new();
        let mut i: usize = 0;
        while i < n
            invariant
                n == y@.len(),
                n == yhat@.len(),
                n == sample_weight@.len(),
                i <= n,
                r@.len() == i,
                forall|k: int|
                    0 <= k < i ==> #[trigger] r@[k] == squared_loss_spec(
                        y@[k],
                        yhat@[k],
                        sample_weight@[k],
                    ),
            decreases n - i,
        {
            let s: T = y[i].sub(yhat[i]);
            r.push(s.mul(s).mul(sample_weight[i]));
            i = i + 1;
        }
        r
    }

    fn calc_grad(y: &[T], yhat: &[T], sample_weight: &[T]) -> (r: Vec<T>) {
        let n: usize = y.len();
        let mut r: Vec<T> = Vec::new();
        let mut i: usize = 0;
        while i < n
            invariant
                n == y@.len(),
                n == yhat@.len(),
                n == sample_weight@.len(),
                i <= n,
                r@.len() == i,
                forall|k: int|
                    0 <= k < i ==> #[trigger] r@[k] == squared_loss_grad_spec(
                        y@[k],
                        yhat@[k],
                        sample_weight@[k],
                    ),
            decreases n - i,
        {
            r.push(yhat[i].sub(y[i]).mul(sample_weight[i]));
            i = i + 1;
        }
        r
    }

    fn calc_hess(y: &[T], yhat: &[T], sample_weight: &[T]) -> (r: Vec<T>) {
        vstd::slice::slice_to_vec(sample_weight)
    }
}

impl ObjFn {
    /// What the kernel gives for one row.
    pub open spec fn row_spec<T: FloatData>(self, y: T, yhat: T, w: T) -> T {
        match self {
            ObjFn::LogLossGrad => log_loss_grad_spec(y, yhat, w),
            ObjFn::LogLossHess => log_loss_hess_spec(yhat, w),
            ObjFn::SquaredLossGrad => squared_loss_grad_spec(y, yhat, w),
            ObjFn::SquaredLossHess => w,
        }
    }

    /// Runs the kernel on the rows.
    pub fn call<T: FloatData>(&self, y: &[T], yhat: &[T], sample_weight: &[T]) -> (r: Vec<T>)
        requires
            y@.len() == yhat@.len(),
            yhat@.len() == sample_weight@.len(),
        ensures
            r@.len() == y@.len(),
            forall|i: int|
                0 <= i < r@.len() ==> #[trigger] r@[i] == self.row_spec(
                    y@[i],
                    yhat@[i],
                    sample_weight@[i],
                ),
    {
        match self {
            ObjFn::LogLossGrad => LogLoss::calc_grad(y, yhat, sample_weight),
            ObjFn::LogLossHess => LogLoss::calc_hess(y, yhat, sample_weight),
            ObjFn::SquaredLossGrad => SquaredLoss::calc_grad(y, yhat, sample_weight),
            ObjFn::SquaredLossHess => SquaredLoss::calc_hess(y, yhat, sample_weight),
        }
    }
}

/// The gradient kernel and the hessian kernel of an objective, in this
/// order.
pub fn gradient_hessian_callables(objective_type: &ObjectiveType) -> (r: (ObjFn, ObjFn))
    ensures
        r == match objective_type {
            ObjectiveType::LogLoss => (ObjFn::LogLossGrad, ObjFn::LogLossHess),
            ObjectiveType::SquaredLoss => (ObjFn::SquaredLossGrad, ObjFn::SquaredLossHess),
        },
{
    match objective_type {
        ObjectiveType::LogLoss => (ObjFn::LogLossGrad, ObjFn::LogLossHess),
        ObjectiveType::SquaredLoss => (ObjFn::SquaredLossGrad, ObjFn::SquaredLossHess),
    }
}

} // verus!
