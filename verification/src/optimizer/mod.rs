//! Optimizer strategies that turn a weight matrix and its gradient into
//! updated weights.

use vstd::prelude::*;

pub mod learning_rate;
pub use learning_rate::LearningRate;

pub mod sgd;
pub use sgd::StochasticGradientDescent;

use crate::matrix::{MatV, Matrix};
use crate::scalar::Scalar;

verus! {

/// An optimizer: turns a weight matrix and its gradient into updated
/// weights, one training step at a time.
pub trait Optimizer<S: Scalar>: Sized {
    /// The weights this optimizer returns for the given weights,
    /// gradient and step index.
    spec fn optimize_spec(&self, weights: MatV<S>, gradient: MatV<S>, step: nat) -> MatV<S>;

    fn optimize(&mut self, weights: Matrix<S>, gradient: Matrix<S>, step: usize) -> (r: Matrix<S>)
        requires
            weights@.wf(),
            gradient@.wf(),
            weights@.rows == gradient@.rows,
            weights@.cols == gradient@.cols,
        ensures
            *final(self) == *old(self),
            r@ == old(self).optimize_spec(weights@, gradient@, step as nat),
            r@.wf(),
            r@.rows == weights@.rows,
            r@.cols == weights@.cols,
    ;
}

} // verus!
