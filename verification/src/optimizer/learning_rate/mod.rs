//! Learning-rate strategies keyed by the training step index.

use vstd::prelude::*;

use crate::scalar::Scalar;

pub mod exp;
pub use exp::ExponentialLearningRate;

verus! {

/// A learning rate per training step. A bare scalar is a constant rate.
pub trait LearningRate<S: Scalar>: Sized {
    /// The rate this strategy yields at `step`.
    spec fn rate_spec(&self, step: nat) -> S;

    fn rate(&self, step: usize) -> (r: S)
        ensures
            r == self.rate_spec(step as nat),
    ;
}

impl<S: Scalar> LearningRate<S> for S {
    open spec fn rate_spec(&self, step: nat) -> S {
        *self
    }

    fn rate(&self, _step: usize) -> (r: S) {
        *self
    }
}

} // verus!
