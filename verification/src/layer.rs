//! The dense layer: a weight matrix behind a named placeholder leaf, with
//! forward-graph construction and the hand-written backward rule.

use vstd::prelude::*;

use crate::activation::{
    act_derivative_applied, act_forward_applied, lemma_act_derivative_frame,
    lemma_act_forward_frame, Activation, ActivationKind,
};
use crate::bindings::MatrixMap;
use crate::matrix::Matrix;
use crate::names::{weights_name, weights_name_spec};
use crate::plan::cpu_eval::{is_input, is_output, reaches};
use crate::plan::op::MatrixOp;
use crate::plan::{plan_wf, MatrixPlan};
use crate::scalar::Scalar;

verus! {

/// What one layer's forward step looks like in the plan: a product of
/// the layer's weight placeholder with `from`, passed through the
/// layer's activation into `r`.
#[verifier::opaque]
pub open spec fn layer_forward_applied<S: Scalar>(
    nodes: Seq<crate::plan::op::PlanNode<S>>,
    layer: DenseLayer<S>,
    from: int,
    r: int,
) -> bool {
    exists|m: int|
        0 <= m < nodes.len() && (#[trigger] nodes[m].op matches MatrixOp::Mul { left, right }
            && left as int == layer.input_spec()->0 && right as int == from)
            && act_forward_applied(nodes, layer.activation_spec(), m, r)
}

/// What one layer's backward rule looks like in the plan: with `d` the
/// activation derivative on the layer's own output and
/// `sigma = prior ⊙ d`, the downstream signal is the transposed weight
/// placeholder times `sigma`, and the weight gradient is `sigma` times
/// the transposed lower layer value.
#[verifier::opaque]
pub open spec fn layer_backward_applied<S: Scalar>(
    nodes: Seq<crate::plan::op::PlanNode<S>>,
    layer: DenseLayer<S>,
    prior: int,
    layer_value: int,
    lower: int,
    downstream: int,
    gradient: int,
) -> bool {
    exists|d: int, sigma: int, wt: int, lt: int|
        #![trigger nodes[d], nodes[sigma], nodes[wt], nodes[lt]]
        {
            &&& 0 <= d < nodes.len()
            &&& 0 <= sigma < nodes.len()
            &&& 0 <= wt < nodes.len()
            &&& 0 <= lt < nodes.len()
            &&& act_derivative_applied(nodes, layer.activation_spec(), layer_value, d)
            &&& (nodes[sigma].op matches MatrixOp::HadamardMul { left, right } && left as int
                == prior && right as int == d)
            &&& (nodes[wt].op matches MatrixOp::Transpose { matrix } && matrix as int
                == layer.input_spec()->0)
            &&& (nodes[downstream].op matches MatrixOp::Mul { left, right } && left as int == wt
                && right as int == sigma)
            &&& (nodes[lt].op matches MatrixOp::Transpose { matrix } && matrix as int == lower)
            &&& (nodes[gradient].op matches MatrixOp::Mul { left, right } && left as int == sigma
                && right as int == lt)
        }
}

/// The two layer-shape predicates read only nodes that already exist, so
/// appending nodes to the arena never disturbs them.
pub proof fn lemma_layer_forward_frame<S: Scalar>(
    s1: Seq<crate::plan::op::PlanNode<S>>,
    s2: Seq<crate::plan::op::PlanNode<S>>,
    layer: DenseLayer<S>,
    from: int,
    r: int,
)
    requires
        s1.len() <= s2.len(),
        forall|i: int| 0 <= i < s1.len() ==> s2[i] == s1[i],
        0 <= from < s1.len(),
        0 <= r < s1.len(),
        layer_forward_applied(s1, layer, from, r),
    ensures
        layer_forward_applied(s2, layer, from, r),
{
    reveal(layer_forward_applied);
    let m = choose|m: int|
        0 <= m < s1.len() && (#[trigger] s1[m].op matches MatrixOp::Mul { left, right } && left
            as int == layer.input_spec()->0 && right as int == from) && act_forward_applied(
            s1,
            layer.activation_spec(),
            m,
            r,
        );
    assert(s2[m] == s1[m]);
    lemma_act_forward_frame(s1, s2, layer.activation_spec(), m, r);
    assert((#[trigger] s2[m].op matches MatrixOp::Mul { left, right } && left as int
        == layer.input_spec()->0 && right as int == from) && act_forward_applied(
        s2,
        layer.activation_spec(),
        m,
        r,
    ));
}

/// See [`lemma_layer_forward_frame`].
pub proof fn lemma_layer_backward_frame<S: Scalar>(
    s1: Seq<crate::plan::op::PlanNode<S>>,
    s2: Seq<crate::plan::op::PlanNode<S>>,
    layer: DenseLayer<S>,
    prior: int,
    layer_value: int,
    lower: int,
    downstream: int,
    gradient: int,
)
    requires
        s1.len() <= s2.len(),
        forall|i: int| 0 <= i < s1.len() ==> s2[i] == s1[i],
        0 <= layer_value < s1.len(),
        0 <= downstream < s1.len(),
        0 <= gradient < s1.len(),
        layer_backward_applied(s1, layer, prior, layer_value, lower, downstream, gradient),
    ensures
        layer_backward_applied(s2, layer, prior, layer_value, lower, downstream, gradient),
{
    reveal(layer_backward_applied);
    let (d, sigma, wt, lt) = choose|d: int, sigma: int, wt: int, lt: int|
        #![trigger s1[d], s1[sigma], s1[wt], s1[lt]]
        {
            &&& 0 <= d < s1.len()
            &&& 0 <= sigma < s1.len()
            &&& 0 <= wt < s1.len()
            &&& 0 <= lt < s1.len()
            &&& act_derivative_applied(s1, layer.activation_spec(), layer_value, d)
            &&& (s1[sigma].op matches MatrixOp::HadamardMul { left, right } && left as int == prior
                && right as int == d)
            &&& (s1[wt].op matches MatrixOp::Transpose { matrix } && matrix as int
                == layer.input_spec()->0)
            &&& (s1[downstream].op matches MatrixOp::Mul { left, right } && left as int == wt
                && right as int == sigma)
            &&& (s1[lt].op matches MatrixOp::Transpose { matrix } && matrix as int == lower)
            &&& (s1[gradient].op matches MatrixOp::Mul { left, right } && left as int == sigma
                && right as int == lt)
        };
    lemma_act_derivative_frame(s1, s2, layer.activation_spec(), layer_value, d);
    assert(s2[d] == s1[d] && s2[sigma] == s1[sigma] && s2[wt] == s1[wt] && s2[lt] == s1[lt]);
    assert(s2[downstream] == s1[downstream] && s2[gradient] == s1[gradient]);
}

/// A fully connected layer: a weight matrix, the identifier it was
/// prepared with, the arena node of its weight placeholder, and its
/// activation.
pub struct DenseLayer<S> {
    weights: Matrix<S>,
    id: Option<usize>,
    input: Option<usize>,
    activation: ActivationKind,
}

impl<S: Scalar> DenseLayer<S> {
    /// Spec view of the weight matrix.
    pub closed spec fn weights_spec(&self) -> crate::matrix::MatV<S> {
        self.weights@
    }

    /// Spec view of the assigned identifier.
    pub closed spec fn id_spec(&self) -> Option<usize> {
        self.id
    }

    /// Spec view of the weight-placeholder node.
    pub closed spec fn input_spec(&self) -> Option<usize> {
        self.input
    }

    /// Spec view of the activation variant.
    pub closed spec fn activation_spec(&self) -> ActivationKind {
        self.activation
    }

    /// Whether this layer has been prepared against the plan `nodes`: it
    /// holds an identifier and a placeholder leaf named after it, of the
    /// weight matrix's shape.
    pub open spec fn prepared(&self, nodes: Seq<crate::plan::op::PlanNode<S>>) -> bool {
        &&& self.weights_spec().wf()
        &&& self.id_spec() is Some
        &&& self.input_spec() matches Some(node) && node < nodes.len() && (
        nodes[node as int].op matches MatrixOp::Input { name } && name@ == weights_name_spec(
            self.id_spec()->0 as nat,
        )) && nodes[node as int].rows == self.weights_spec().rows && nodes[node as int].cols
            == self.weights_spec().cols
    }

    /// A layer over the given weights and activation strategy, not yet
    /// prepared.
    pub fn new<A: Activation>(weights: Matrix<S>, activation: A) -> (r: Self)
        requires
            weights@.wf(),
        ensures
            r.weights_spec() == weights@,
            r.id_spec() is None,
            r.input_spec() is None,
            r.activation_spec() == activation.kind_spec(),
    {
        let kind = activation.kind();
        DenseLayer { weights, id: None, input: None, activation: kind }
    }

    /// The shape of one instance this layer consumes: its weight matrix's
    /// column count, one column wide.
    pub fn input_shape(&self) -> (r: (usize, usize))
        ensures
            r.0 == self.weights_spec().cols,
            r.1 == 1,
    {
        (self.weights.cols(), 1)
    }

    /// The shape of one instance this layer produces: its weight matrix's
    /// row count, one column wide.
    pub fn output_shape(&self) -> (r: (usize, usize))
        ensures
            r.0 == self.weights_spec().rows,
            r.1 == 1,
    {
        (self.weights.rows(), 1)
    }

    /// Assigns the layer's stable identifier and materializes its weight
    /// placeholder leaf, named `weights_<id>`, in the plan.
    pub fn prepare_input(&mut self, g: &mut MatrixPlan<S>, id: usize)
        requires
            plan_wf(old(g)@),
            old(self).weights_spec().wf(),
        ensures
            plan_wf(final(g)@),
            final(g)@.len() == old(g)@.len() + 1,
            forall|j: int| 0 <= j < old(g)@.len() ==> final(g)@[j] == old(g)@[j],
            final(self).prepared(final(g)@),
            final(self).id_spec() == Some(id),
            final(self).input_spec() == Some(old(g)@.len() as usize),
            final(self).weights_spec() == old(self).weights_spec(),
            final(self).activation_spec() == old(self).activation_spec(),
            final(g)@[old(g)@.len() as int].op matches MatrixOp::Input { name } && name@
                == weights_name_spec(id as nat),
            final(g)@[old(g)@.len() as int].rows == old(self).weights_spec().rows,
            final(g)@[old(g)@.len() as int].cols == old(self).weights_spec().cols,
    {
        let name = weights_name(id);
        let rows = self.weights.rows();
        let cols = self.weights.cols();
        let node = g.input(rows, cols, name);
        self.id = Some(id);
        self.input = Some(node);
    }

    /// Writes this layer's current weights into the bindings under its
    /// placeholder name, so that executing a plan using the placeholder
    /// succeeds.
    pub fn assign_input(&self, output: &mut MatrixMap<S>)
        requires
            old(output).wf(),
            self.id_spec() is Some,
            self.weights_spec().wf(),
        ensures
            final(output).wf(),
            final(output)@ == old(output)@.insert(
                weights_name_spec(self.id_spec()->0 as nat),
                self.weights_spec(),
            ),
    {
        let id = match self.id {
            Some(id) => id,
            None => {
                proof {
                    assert(false);
                }
                0
            },
        };
        output.insert(weights_name(id), self.weights.duplicate());
    }

    /// Replaces the weight matrix. The new weights keep the old shape, so
    /// the placeholder leaf stays valid.
    pub fn set_weights(&mut self, weights: Matrix<S>)
        requires
            weights@.wf(),
            weights@.rows == old(self).weights_spec().rows,
            weights@.cols == old(self).weights_spec().cols,
        ensures
            final(self).weights_spec() == weights@,
            final(self).id_spec() == old(self).id_spec(),
            final(self).input_spec() == old(self).input_spec(),
            final(self).activation_spec() == old(self).activation_spec(),
    {
        self.weights = weights;
    }

    /// The current weight matrix.
    pub fn get_weights(&self) -> (r: Option<&Matrix<S>>)
        ensures
            r matches Some(w) && w@ == self.weights_spec(),
    {
        Some(&self.weights)
    }

    /// Extends `g` with this layer's forward computation on `from`: the
    /// weight placeholder times `from`, passed through the activation.
    /// The result has the weight matrix's row count and `from`'s width;
    /// the only leaf it reaches beyond `from`'s is the placeholder.
    pub fn forward_plan(&self, g: &mut MatrixPlan<S>, from: usize) -> (r: usize)
        requires
            plan_wf(old(g)@),
            from < old(g)@.len(),
            self.prepared(old(g)@),
            old(g)@[from as int].rows == self.weights_spec().cols,
        ensures
            plan_wf(final(g)@),
            old(g)@.len() <= final(g)@.len(),
            forall|j: int| 0 <= j < old(g)@.len() ==> final(g)@[j] == old(g)@[j],
            r < final(g)@.len(),
            final(g)@[r as int].rows == self.weights_spec().rows,
            final(g)@[r as int].cols == old(g)@[from as int].cols,
            forall|j: int|
                old(g)@.len() <= j < final(g)@.len() ==> !is_input(final(g)@, j) && !is_output(
                    final(g)@,
                    j,
                ),
            forall|t: int|
                0 <= t < final(g)@.len() && #[trigger] reaches(final(g)@, r as int, t) && is_input(
                    final(g)@,
                    t,
                ) ==> t == self.input_spec()->0 || reaches(final(g)@, from as int, t),
            layer_forward_applied(final(g)@, *self, from as int, r as int),
    {
        let node = match self.input {
            Some(node) => node,
            None => {
                proof {
                    assert(false);
                }
                0
            },
        };
        let m = match g.mul(node, from) {
            Ok(m) => m,
            Err(_) => {
                proof {
                    assert(false);
                }
                0
            },
        };
        let ghost g1 = g@;
        proof {
            crate::plan::cpu_eval::lemma_reach_two(g1, m as int, node as int, from as int);
            crate::plan::cpu_eval::lemma_reach_leaf(g1, node as int);
        }
        let r = self.activation.forward_plan(g, m);
        proof {
            reveal(layer_forward_applied);
            assert forall|t: int|
                0 <= t < g@.len() && #[trigger] reaches(g@, r as int, t) && is_input(
                    g@,
                    t,
                ) implies t == self.input_spec()->0 || reaches(g@, from as int, t) by {
                assert(reaches(g@, m as int, t));
                assert(t < g1.len());
                crate::plan::cpu_eval::lemma_reaches_prefix(g1, g@, m as int, t);
                assert(reaches(g1, m as int, t));
                assert(is_input(g1, t));
                if t != node && t != m {
                    assert(reaches(g1, from as int, t));
                    crate::plan::cpu_eval::lemma_reaches_prefix(g1, g@, from as int, t);
                }
            }
        }
        r
    }

    /// Extends `g` with this layer's backward rule. `prior` is the error
    /// signal from above, `layer_value` this layer's own forward output
    /// node, and `lower_layer_value` the node feeding this layer. Returns
    /// the signal for the layer below and this layer's weight-gradient
    /// node, of the weight matrix's shape.
    #[verifier::rlimit(100)]
    pub fn backward_plan(
        &self,
        g: &mut MatrixPlan<S>,
        prior: usize,
        layer_value: usize,
        lower_layer_value: usize,
    ) -> (r: (usize, usize))
        requires
            plan_wf(old(g)@),
            prior < old(g)@.len(),
            layer_value < old(g)@.len(),
            lower_layer_value < old(g)@.len(),
            self.prepared(old(g)@),
            old(g)@[prior as int].rows == self.weights_spec().rows,
            old(g)@[layer_value as int].rows == old(g)@[prior as int].rows,
            old(g)@[layer_value as int].cols == old(g)@[prior as int].cols,
            old(g)@[lower_layer_value as int].rows == self.weights_spec().cols,
            old(g)@[lower_layer_value as int].cols == old(g)@[prior as int].cols,
            old(g)@[layer_value as int].rows * old(g)@[layer_value as int].cols <= usize::MAX,
        ensures
            plan_wf(final(g)@),
            old(g)@.len() <= final(g)@.len(),
            forall|j: int| 0 <= j < old(g)@.len() ==> final(g)@[j] == old(g)@[j],
            r.0 < final(g)@.len(),
            r.1 < final(g)@.len(),
            final(g)@[r.0 as int].rows == self.weights_spec().cols,
            final(g)@[r.0 as int].cols == old(g)@[prior as int].cols,
            final(g)@[r.1 as int].rows == self.weights_spec().rows,
            final(g)@[r.1 as int].cols == self.weights_spec().cols,
            forall|j: int|
                old(g)@.len() <= j < final(g)@.len() ==> !is_input(final(g)@, j) && !is_output(
                    final(g)@,
                    j,
                ),
            forall|t: int|
                0 <= t < final(g)@.len() && (#[trigger] reaches(final(g)@, r.0 as int, t)
                    || #[trigger] reaches(final(g)@, r.1 as int, t)) && is_input(final(g)@, t) ==> t
                    == self.input_spec()->0 || reaches(final(g)@, prior as int, t) || reaches(
                    final(g)@,
                    layer_value as int,
                    t,
                ) || reaches(final(g)@, lower_layer_value as int, t),
            layer_backward_applied(
                final(g)@,
                *self,
                prior as int,
                layer_value as int,
                lower_layer_value as int,
                r.0 as int,
                r.1 as int,
            ),
    {
        let node = match self.input {
            Some(node) => node,
            None => {
                proof {
                    assert(false);
                }
                0
            },
        };
        let d = self.activation.derivative(g, layer_value);
        let ghost g2 = g@;
        let sigma = match g.hadamard_mul(prior, d) {
            Ok(s) => s,
            Err(_) => {
                proof {
                    assert(false);
                }
                0
            },
        };
        let wt = g.transpose(node);
        let downstream = match g.mul(wt, sigma) {
            Ok(s) => s,
            Err(_) => {
                proof {
                    assert(false);
                }
                0
            },
        };
        let lt = g.transpose(lower_layer_value);
        let gradient = match g.mul(sigma, lt) {
            Ok(s) => s,
            Err(_) => {
                proof {
                    assert(false);
                }
                0
            },
        };
        proof {
            crate::plan::cpu_eval::lemma_reach_leaf(g@, node as int);
            crate::plan::cpu_eval::lemma_reach_two(g@, sigma as int, prior as int, d as int);
            crate::plan::cpu_eval::lemma_reach_one(g@, wt as int, node as int);
            crate::plan::cpu_eval::lemma_reach_two(g@, downstream as int, wt as int, sigma as int);
            crate::plan::cpu_eval::lemma_reach_one(g@, lt as int, lower_layer_value as int);
            crate::plan::cpu_eval::lemma_reach_two(g@, gradient as int, sigma as int, lt as int);
            assert forall|j: int|
                old(g)@.len() <= j < g@.len() implies !is_input(g@, j) && !is_output(g@, j) by {
                if j < g2.len() {
                    assert(!is_input(g2, j) && !is_output(g2, j));
                    assert(g@[j] == g2[j]);
                } else {
                    assert(j == sigma || j == wt || j == downstream || j == lt || j == gradient);
                }
            }
            assert forall|t: int|
                0 <= t < g@.len() && (#[trigger] reaches(g@, downstream as int, t)
                    || #[trigger] reaches(g@, gradient as int, t)) && is_input(g@, t) implies t
                == self.input_spec()->0 || reaches(g@, prior as int, t) || reaches(
                g@,
                layer_value as int,
                t,
            ) || reaches(g@, lower_layer_value as int, t) by {
                if reaches(g@, d as int, t) && t != d {
                    crate::plan::cpu_eval::lemma_reaches_prefix(g2, g@, d as int, t);
                    assert(reaches(g2, d as int, t));
                    assert(is_input(g2, t));
                    assert(reaches(g2, layer_value as int, t));
                    crate::plan::cpu_eval::lemma_reaches_prefix(g2, g@, layer_value as int, t);
                }
                if reaches(g@, prior as int, t) && t < g2.len() {
                }
            }
            lemma_act_derivative_frame(g2, g@, self.activation_spec(), layer_value as int, d as int);
            reveal(layer_backward_applied);
            assert(layer_backward_applied(
                g@,
                *self,
                prior as int,
                layer_value as int,
                lower_layer_value as int,
                downstream as int,
                gradient as int,
            )) by {
                assert(g@[d as int] == g@[d as int] && g@[sigma as int] == g@[sigma as int]
                    && g@[wt as int] == g@[wt as int] && g@[lt as int] == g@[lt as int]);
                assert(act_derivative_applied(g@, self.activation_spec(), layer_value as int, d as int));
                assert(g@[sigma as int].op matches MatrixOp::HadamardMul { left, right } && left
                    == prior && right == d);
                assert(g@[wt as int].op matches MatrixOp::Transpose { matrix } && matrix == node);
                assert(g@[downstream as int].op matches MatrixOp::Mul { left, right } && left == wt
                    && right == sigma);
                assert(g@[lt as int].op matches MatrixOp::Transpose { matrix } && matrix
                    == lower_layer_value);
                assert(g@[gradient as int].op matches MatrixOp::Mul { left, right } && left
                    == sigma && right == lt);
            }
        }
        (downstream, gradient)
    }
}

} // verus!
