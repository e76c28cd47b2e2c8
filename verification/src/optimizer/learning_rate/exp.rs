//! An exponentially decaying learning rate.

use vstd::prelude::*;

use super::LearningRate;
use crate::scalar::Scalar;

verus! {

/// A rate that starts at `initial` and decays by the factor `decay_rate`
/// every `decay_steps` steps: `initial * decay_rate^(step / decay_steps)`.
pub struct ExponentialLearningRate<S> {
    initial: S,
    decay_steps: S,
    decay_rate: S,
}

impl<S: Scalar> ExponentialLearningRate<S> {
    /// A decaying rate from its three parameters.
    pub fn new(initial: S, decay_steps: S, decay_rate: S) -> (r: Self)
        ensures
            forall|step: nat|
                r.rate_spec(step) == S::mul_s(
                    initial,
                    S::pow_s(decay_rate, S::div_s(S::from_count_s(step as usize), decay_steps)),
                ),
    {
        ExponentialLearningRate { initial, decay_steps, decay_rate }
    }
}

impl<S: Scalar> LearningRate<S> for ExponentialLearningRate<S> {
    closed spec fn rate_spec(&self, step: nat) -> S {
        S::mul_s(
            self.initial,
            S::pow_s(self.decay_rate, S::div_s(S::from_count_s(step as usize), self.decay_steps)),
        )
    }

    fn rate(&self, step: usize) -> (r: S) {
        S::mul(
            self.initial,
            S::power(self.decay_rate, S::div(S::from_count(step), self.decay_steps)),
        )
    }
}

} // verus!
