//! Stochastic gradient descent with optional clamping of the updated
//! weights.

use vstd::prelude::*;

use super::{LearningRate, Optimizer};
use crate::matrix::{has_nan_v, max_v, min_v, scale_v, sub_v, MatV, Matrix};
use crate::scalar::Scalar;

verus! {

/// The weights stochastic gradient descent returns: the gradient scaled
/// by the step's learning rate and subtracted from the weights, the
/// result clamped into the configured range — unless the scaled gradient
/// holds a not-a-number value, in which case the weights come back
/// unchanged.
pub open spec fn sgd_spec<S: Scalar>(
    weights: MatV<S>,
    gradient: MatV<S>,
    rate: S,
    minimum: Option<S>,
    maximum: Option<S>,
) -> MatV<S> {
    let scaled = scale_v(gradient, rate);
    if has_nan_v(scaled) {
        weights
    } else {
        let stepped = sub_v(weights, scaled);
        let capped = match maximum {
            Some(mx) => min_v(stepped, mx),
            None => stepped,
        };
        match minimum {
            Some(mn) => max_v(capped, mn),
            None => capped,
        }
    }
}

/// Stochastic gradient descent: one update step per call, driven by a
/// learning-rate strategy, optionally clamping updated weights.
pub struct StochasticGradientDescent<S, L> {
    learning_rate: L,
    minimum: Option<S>,
    maximum: Option<S>,
}

impl<S: Scalar, L: LearningRate<S>> StochasticGradientDescent<S, L> {
    /// Spec view of the configured lower bound.
    pub closed spec fn minimum_spec(&self) -> Option<S> {
        self.minimum
    }

    /// Spec view of the configured upper bound.
    pub closed spec fn maximum_spec(&self) -> Option<S> {
        self.maximum
    }

    /// Spec view of the learning-rate strategy.
    pub closed spec fn rate_strategy_spec(&self) -> L {
        self.learning_rate
    }

    /// An optimizer with the given learning-rate strategy and no
    /// clamping.
    pub fn new(learning_rate: L) -> (r: Self)
        ensures
            r.rate_strategy_spec() == learning_rate,
            r.minimum_spec() is None,
            r.maximum_spec() is None,
    {
        StochasticGradientDescent { learning_rate, minimum: None, maximum: None }
    }

    /// Clamps every updated weight from below by `minimum`.
    pub fn set_minimum(&mut self, minimum: S)
        ensures
            final(self).minimum_spec() == Some(minimum),
            final(self).maximum_spec() == old(self).maximum_spec(),
            final(self).rate_strategy_spec() == old(self).rate_strategy_spec(),
    {
        self.minimum = Some(minimum);
    }

    /// Clamps every updated weight from above by `maximum`.
    pub fn set_maximum(&mut self, maximum: S)
        ensures
            final(self).maximum_spec() == Some(maximum),
            final(self).minimum_spec() == old(self).minimum_spec(),
            final(self).rate_strategy_spec() == old(self).rate_strategy_spec(),
    {
        self.maximum = Some(maximum);
    }

    /// Clamps every updated weight into the range from minus one to one.
    pub fn norm(&mut self)
        ensures
            final(self).maximum_spec() == Some(crate::scalar::one_s::<S>()),
            final(self).minimum_spec() == Some(S::neg_s(crate::scalar::one_s::<S>())),
            final(self).rate_strategy_spec() == old(self).rate_strategy_spec(),
    {
        let one = S::from_count(1);
        self.maximum = Some(one);
        self.minimum = Some(S::neg(one));
    }

}

impl<S: Scalar, L: LearningRate<S>> Optimizer<S> for StochasticGradientDescent<S, L> {
    /// The descent step, as a value: see [`sgd_spec`]. A not-a-number
    /// entry in the scaled gradient leaves the weights unchanged.
    open spec fn optimize_spec(&self, weights: MatV<S>, gradient: MatV<S>, step: nat) -> MatV<S> {
        sgd_spec(
            weights,
            gradient,
            self.rate_strategy_spec().rate_spec(step),
            self.minimum_spec(),
            self.maximum_spec(),
        )
    }

    /// One descent step. If the scaled gradient holds a not-a-number
    /// value the update is skipped and the weights come back unchanged.
    fn optimize(&mut self, weights: Matrix<S>, gradient: Matrix<S>, step: usize) -> (r: Matrix<S>) {
        let rate = self.learning_rate.rate(step);
        let gradient = gradient.scale(rate);
        if gradient.has_nan() {
            return weights;
        }
        let mut out = weights.sub(&gradient);
        if let Some(maximum) = self.maximum {
            out = out.min(maximum);
        }
        if let Some(minimum) = self.minimum {
            out = out.max(minimum);
        }
        out
    }
}

} // verus!
