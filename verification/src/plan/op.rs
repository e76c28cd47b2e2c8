//! The operation variants of plan nodes.

use vstd::prelude::*;

use crate::matrix::Matrix;

verus! {

/// The operation a plan node performs. Child nodes are referred to by
/// their index in the owning plan's arena; well-formedness requires every
/// child index to be smaller than the node's own, which keeps the graph
/// acyclic by construction.
pub enum MatrixOp<S> {
    /// A named leaf resolved from the caller's bindings at execution time.
    Input { name: String },
    /// A named tap: evaluates to its child and records the value aside.
    Output { name: String, matrix: usize },
    /// A leaf carrying a fixed value.
    Constant { matrix: Matrix<S> },
    /// Every entry multiplied by a fixed scalar.
    Scale { matrix: usize, scalar: S },
    /// Every entry clamped from below by a fixed scalar.
    Max { matrix: usize, scalar: S },
    /// Elementwise negation.
    Neg { matrix: usize },
    /// Transposition.
    Transpose { matrix: usize },
    /// Elementwise sign.
    Sign { matrix: usize },
    /// Elementwise logistic curve.
    Sigmoid { matrix: usize },
    /// Matrix product.
    Mul { left: usize, right: usize },
    /// Elementwise product.
    HadamardMul { left: usize, right: usize },
    /// Elementwise sum.
    Add { left: usize, right: usize },
    /// Elementwise difference.
    Sub { left: usize, right: usize },
    /// A bundle of roots evaluated only for their taps; its own value is a
    /// degenerate empty matrix.
    Combine { inner: Vec<usize> },
}

/// One node of a plan: its declared output shape and its operation.
pub struct PlanNode<S> {
    pub rows: usize,
    pub cols: usize,
    pub op: MatrixOp<S>,
}

} // verus!
