//! Activation strategies: the identity, the rectifier, and the logistic
//! curve, as a closed set of variants dispatched through one interface.

use vstd::prelude::*;

use crate::matrix::Matrix;
use crate::plan::op::MatrixOp;
use crate::plan::{plan_wf, MatrixPlan};
use crate::scalar::{one_s, zero_s, Scalar};

verus! {

/// The closed set of activation functions.
#[derive(Clone, Copy, Debug, PartialEq, Eq, Structural)]
pub enum ActivationKind {
    Linear,
    Relu,
    Sigmoid,
}

/// An activation strategy. Every implementation names one of the closed
/// set of variants; graph construction is dispatched through that
/// variant.
pub trait Activation: Sized {
    /// Which variant this strategy is.
    spec fn kind_spec(&self) -> ActivationKind;

    fn kind(&self) -> (k: ActivationKind)
        ensures
            k == self.kind_spec(),
    ;
}

/// The identity activation.
pub struct Linear;

/// The rectifier: negative entries clamped to zero.
pub struct Relu;

/// The logistic curve.
pub struct Sigmoid;

impl Activation for Linear {
    open spec fn kind_spec(&self) -> ActivationKind {
        ActivationKind::Linear
    }

    fn kind(&self) -> (k: ActivationKind) {
        ActivationKind::Linear
    }
}

impl Activation for Relu {
    open spec fn kind_spec(&self) -> ActivationKind {
        ActivationKind::Relu
    }

    fn kind(&self) -> (k: ActivationKind) {
        ActivationKind::Relu
    }
}

impl Activation for Sigmoid {
    open spec fn kind_spec(&self) -> ActivationKind {
        ActivationKind::Sigmoid
    }

    fn kind(&self) -> (k: ActivationKind) {
        ActivationKind::Sigmoid
    }
}

impl Activation for ActivationKind {
    open spec fn kind_spec(&self) -> ActivationKind {
        *self
    }

    fn kind(&self) -> (k: ActivationKind) {
        *self
    }
}

/// What the forward graph of an activation looks like: `r` is `from`
/// itself for the identity, a clamp at zero for the rectifier, and a
/// logistic node for the curve.
pub open spec fn act_forward_applied<S: Scalar>(
    nodes: Seq<crate::plan::op::PlanNode<S>>,
    kind: ActivationKind,
    from: int,
    r: int,
) -> bool {
    match kind {
        ActivationKind::Linear => r == from,
        ActivationKind::Relu => nodes[r].op matches MatrixOp::Max { matrix, scalar } && matrix
            == from && scalar == zero_s::<S>(),
        ActivationKind::Sigmoid => nodes[r].op matches MatrixOp::Sigmoid { matrix } && matrix
            == from,
    }
}

/// What the derivative graph of an activation looks like, evaluated on
/// the activation's own output `from`: all ones for the identity, the
/// clamped sign for the rectifier, and `s * (1 - s)` with `s` the
/// logistic of `from` for the curve.
pub open spec fn act_derivative_applied<S: Scalar>(
    nodes: Seq<crate::plan::op::PlanNode<S>>,
    kind: ActivationKind,
    from: int,
    r: int,
) -> bool {
    match kind {
        ActivationKind::Linear => nodes[r].op matches MatrixOp::Constant { matrix } && matrix@.rows
            == nodes[from].rows && matrix@.cols == nodes[from].cols && (forall|i: int|
            0 <= i < matrix@.data.len() ==> matrix@.data[i] == one_s::<S>()),
        ActivationKind::Relu => nodes[r].op matches MatrixOp::Max { matrix: s, scalar } && scalar
            == zero_s::<S>() && s < nodes.len() && (nodes[s as int].op matches MatrixOp::Sign {
            matrix,
        } && matrix == from),
        ActivationKind::Sigmoid => nodes[r].op matches MatrixOp::HadamardMul { left, right } && left
            < nodes.len() && right < nodes.len() && (nodes[left as int].op matches
            MatrixOp::Sigmoid { matrix } && matrix == from) && (nodes[right as int].op matches
            MatrixOp::Sub { left: c, right: s } && s == left && c < nodes.len() && (
        nodes[c as int].op matches MatrixOp::Constant { matrix: ones } && ones@.rows
            == nodes[from].rows && ones@.cols == nodes[from].cols && (forall|i: int|
            0 <= i < ones@.data.len() ==> ones@.data[i] == one_s::<S>()))),
    }
}

/// Both activation-shape predicates read only nodes that already exist,
/// so appending nodes to the arena never disturbs them.
pub proof fn lemma_act_forward_frame<S: Scalar>(
    s1: Seq<crate::plan::op::PlanNode<S>>,
    s2: Seq<crate::plan::op::PlanNode<S>>,
    kind: ActivationKind,
    from: int,
    r: int,
)
    requires
        s1.len() <= s2.len(),
        forall|i: int| 0 <= i < s1.len() ==> s2[i] == s1[i],
        0 <= from < s1.len(),
        0 <= r < s1.len(),
        act_forward_applied(s1, kind, from, r),
    ensures
        act_forward_applied(s2, kind, from, r),
{
    assert(s2[r] == s1[r]);
}

/// See [`lemma_act_forward_frame`].
pub proof fn lemma_act_derivative_frame<S: Scalar>(
    s1: Seq<crate::plan::op::PlanNode<S>>,
    s2: Seq<crate::plan::op::PlanNode<S>>,
    kind: ActivationKind,
    from: int,
    r: int,
)
    requires
        s1.len() <= s2.len(),
        forall|i: int| 0 <= i < s1.len() ==> s2[i] == s1[i],
        0 <= from < s1.len(),
        0 <= r < s1.len(),
        act_derivative_applied(s1, kind, from, r),
    ensures
        act_derivative_applied(s2, kind, from, r),
{
    assert(s2[r] == s1[r]);
    assert(s2[from] == s1[from]);
    match kind {
        ActivationKind::Linear => {},
        ActivationKind::Relu => {
            if let MatrixOp::Max { matrix: s, .. } = s1[r].op {
                assert(s2[s as int] == s1[s as int]);
            }
        },
        ActivationKind::Sigmoid => {
            if let MatrixOp::HadamardMul { left, right } = s1[r].op {
                assert(s2[left as int] == s1[left as int]);
                assert(s2[right as int] == s1[right as int]);
                if let MatrixOp::Sub { left: c, .. } = s1[right as int].op {
                    assert(s2[c as int] == s1[c as int]);
                }
            }
        },
    }
}

impl ActivationKind {
    /// Extends `g` with this activation's forward computation applied to
    /// `from`, returning the resulting node. The new node keeps `from`'s
    /// shape, adds no leaves or taps, and reaches no leaf that `from`
    /// does not reach.
    pub fn forward_plan<S: Scalar>(&self, g: &mut MatrixPlan<S>, from: usize) -> (r: usize)
        requires
            plan_wf(old(g)@),
            from < old(g)@.len(),
        ensures
            plan_wf(final(g)@),
            old(g)@.len() <= final(g)@.len(),
            forall|j: int| 0 <= j < old(g)@.len() ==> final(g)@[j] == old(g)@[j],
            r < final(g)@.len(),
            from <= r,
            final(g)@[r as int].rows == old(g)@[from as int].rows,
            final(g)@[r as int].cols == old(g)@[from as int].cols,
            forall|j: int|
                old(g)@.len() <= j < final(g)@.len() ==> !crate::plan::cpu_eval::is_input(
                    final(g)@,
                    j,
                ) && !crate::plan::cpu_eval::is_output(final(g)@, j),
            forall|t: int|
                0 <= t < final(g)@.len() && #[trigger] crate::plan::cpu_eval::reaches(
                    final(g)@,
                    r as int,
                    t,
                ) && crate::plan::cpu_eval::is_input(final(g)@, t)
                    ==> crate::plan::cpu_eval::reaches(final(g)@, from as int, t),
            act_forward_applied(final(g)@, *self, from as int, r as int),
    {
        match self {
            ActivationKind::Linear => {
                proof {
                    assert(crate::plan::cpu_eval::reaches(final(g)@, from as int, from as int));
                }
                from
            },
            ActivationKind::Relu => {
                let r = g.max(from, S::from_count(0));
                proof {
                    crate::plan::cpu_eval::lemma_reach_one(g@, r as int, from as int);
                }
                r
            },
            ActivationKind::Sigmoid => {
                let r = g.sigmoid(from);
                proof {
                    crate::plan::cpu_eval::lemma_reach_one(g@, r as int, from as int);
                }
                r
            },
        }
    }

    /// Extends `g` with this activation's derivative, evaluated on the
    /// activation's own output node `from`. The new node keeps `from`'s
    /// shape, adds no leaves or taps, and reaches no leaf that `from`
    /// does not reach.
    pub fn derivative<S: Scalar>(&self, g: &mut MatrixPlan<S>, from: usize) -> (r: usize)
        requires
            plan_wf(old(g)@),
            from < old(g)@.len(),
            old(g)@[from as int].rows * old(g)@[from as int].cols <= usize::MAX,
        ensures
            plan_wf(final(g)@),
            old(g)@.len() <= final(g)@.len(),
            forall|j: int| 0 <= j < old(g)@.len() ==> final(g)@[j] == old(g)@[j],
            r < final(g)@.len(),
            final(g)@[r as int].rows == old(g)@[from as int].rows,
            final(g)@[r as int].cols == old(g)@[from as int].cols,
            forall|j: int|
                old(g)@.len() <= j < final(g)@.len() ==> !crate::plan::cpu_eval::is_input(
                    final(g)@,
                    j,
                ) && !crate::plan::cpu_eval::is_output(final(g)@, j),
            forall|t: int|
                0 <= t < final(g)@.len() && #[trigger] crate::plan::cpu_eval::reaches(
                    final(g)@,
                    r as int,
                    t,
                ) && crate::plan::cpu_eval::is_input(final(g)@, t)
                    ==> crate::plan::cpu_eval::reaches(final(g)@, from as int, t),
            act_derivative_applied(final(g)@, *self, from as int, r as int),
    {
        match self {
            ActivationKind::Linear => {
                let rows = g.rows(from);
                let cols = g.cols(from);
                let ones = Matrix::new(rows, cols).fill(S::from_count(1));
                let r = g.constant(ones);
                proof {
                    crate::plan::cpu_eval::lemma_reach_leaf(g@, r as int);
                }
                r
            },
            ActivationKind::Relu => {
                let s = g.sign(from);
                let r = g.max(s, S::from_count(0));
                proof {
                    crate::plan::cpu_eval::lemma_reach_one(g@, s as int, from as int);
                    crate::plan::cpu_eval::lemma_reach_one(g@, r as int, s as int);
                }
                r
            },
            ActivationKind::Sigmoid => {
                let rows = g.rows(from);
                let cols = g.cols(from);
                let ones = Matrix::new(rows, cols).fill(S::from_count(1));
                let c = g.constant(ones);
                let s = g.sigmoid(from);
                let d = match g.sub(c, s) {
                    Ok(d) => d,
                    Err(_) => {
                        proof {
                            assert(false);
                        }
                        0
                    },
                };
                let r = match g.hadamard_mul(s, d) {
                    Ok(r) => r,
                    Err(_) => {
                        proof {
                            assert(false);
                        }
                        0
                    },
                };
                proof {
                    crate::plan::cpu_eval::lemma_reach_leaf(g@, c as int);
                    crate::plan::cpu_eval::lemma_reach_one(g@, s as int, from as int);
                    crate::plan::cpu_eval::lemma_reach_two(g@, d as int, c as int, s as int);
                    crate::plan::cpu_eval::lemma_reach_two(g@, r as int, s as int, d as int);
                }
                r
            },
        }
    }
}

} // verus!
