//! Deferred computation graphs over dense matrices, with a verified CPU
//! executor and a backprop assembler for simple feed-forward networks.
//!
//! The numeric scalar itself is an external collaborator: the library is
//! generic over the [`Scalar`] trait, whose arithmetic is specified only
//! through abstract spec functions. Everything built on top of it — the
//! matrix container, the plan graph, the executor, the layer rules and the
//! optimizer — is verified.

use vstd::prelude::*;

pub mod scalar;
pub use scalar::Scalar;

pub mod layer;
pub use layer::DenseLayer;

pub mod matrix;
pub use matrix::Matrix;

pub mod activation;
pub use activation::{Activation, ActivationKind, Linear, Relu, Sigmoid};

pub mod bindings;
pub use bindings::MatrixMap;

pub mod names;

pub mod nn;
pub use nn::NeuralNetworkBuilder;

pub mod optimizer;
pub use optimizer::{LearningRate, Optimizer, StochasticGradientDescent};

pub mod plan;
pub use plan::{MatrixPlan, PlanError};

verus! {

} // verus!
