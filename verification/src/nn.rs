//! The network builder: a linear stack of dense layers over one plan
//! arena, with evaluation and backprop assembly.

use vstd::prelude::*;

use crate::activation::Activation;
use crate::bindings::MatrixMap;
use crate::layer::{
    layer_backward_applied, layer_forward_applied, lemma_layer_backward_frame,
    lemma_layer_forward_frame, DenseLayer,
};
use crate::matrix::{col_seq, MatV, Matrix};
use crate::names::{gradient_name, gradient_name_spec, lemma_names_injective, weights_name_spec};
use crate::optimizer::Optimizer;
use crate::plan::cpu_eval::{
    binds_shaped, input_name, inputs_ok, is_input, is_output, node_val, output_child, output_name,
    reaches, tap_names,
};
use crate::plan::op::{MatrixOp, PlanNode};
use crate::plan::{plan_wf, MatrixPlan};
use crate::scalar::{one_s, Scalar};
use vstd::string::StringExecFns;

verus! {

/// The name-to-matrix map after writing the first `k` layers' weights
/// into `m0`, each under its `weights_<id>` placeholder name.
pub open spec fn binds_after<S: Scalar>(
    layers: Seq<DenseLayer<S>>,
    m0: Map<Seq<char>, MatV<S>>,
    k: int,
) -> Map<Seq<char>, MatV<S>>
    decreases k,
{
    if k <= 0 {
        m0
    } else {
        binds_after(layers, m0, k - 1).insert(
            weights_name_spec((k - 1) as nat),
            layers[k - 1].weights_spec(),
        )
    }
}

/// The bindings `eval` executes against: the evaluated column under
/// `"input"`, and every layer's weights under its placeholder name.
pub open spec fn eval_binds<S: Scalar>(layers: Seq<DenseLayer<S>>, data: Seq<S>) -> Map<
    Seq<char>,
    MatV<S>,
> {
    binds_after(
        layers,
        Map::empty().insert("input"@, MatV { rows: data.len(), cols: 1, data }),
        layers.len() as int,
    )
}

/// The assembled backprop structure over the arena: a fresh `"inputs"`
/// leaf (`vals[0]`) feeds the layers' forward chain (`vals`), a fresh
/// `"targets"` leaf is subtracted from the final forward value to form
/// the initial error signal (`sigs[n]`), and each layer's backward rule
/// turns the signal from above (`sigs[k+1]`) into its own downstream
/// signal (`sigs[k]`) and weight-gradient node (`grads[k]`).
pub open spec fn backprop_assembled<S: Scalar>(
    nodes: Seq<PlanNode<S>>,
    layers: Seq<DenseLayer<S>>,
    in_width: int,
    out_width: int,
    batch: int,
    vals: Seq<usize>,
    sigs: Seq<usize>,
    grads: Seq<usize>,
) -> bool {
    let n = layers.len() as int;
    &&& vals.len() == n + 1
    &&& sigs.len() == n + 1
    &&& grads.len() == n
    &&& (forall|i: int| 0 <= i <= n ==> #[trigger] vals[i] < nodes.len())
    &&& (forall|i: int| 0 <= i <= n ==> #[trigger] sigs[i] < nodes.len())
    &&& (forall|i: int| 0 <= i < n ==> #[trigger] grads[i] < nodes.len())
    &&& (nodes[vals[0] as int].op matches MatrixOp::Input { name } && name@ == "inputs"@)
    &&& nodes[vals[0] as int].rows == in_width
    &&& nodes[vals[0] as int].cols == batch
    &&& (forall|k: int|
        0 <= k < n ==> layer_forward_applied(
            nodes,
            #[trigger] layers[k],
            vals[k] as int,
            vals[k + 1] as int,
        ))
    &&& (exists|tn: int|
        0 <= tn < nodes.len() && (#[trigger] nodes[tn].op matches MatrixOp::Input { name } && name@
            == "targets"@) && nodes[tn].rows == out_width && nodes[tn].cols == batch && (
        nodes[sigs[n] as int].op matches MatrixOp::Sub { left, right } && left == vals[n] && right
            as int == tn))
    &&& (forall|k: int|
        0 <= k < n ==> layer_backward_applied(
            nodes,
            #[trigger] layers[k],
            sigs[k + 1] as int,
            vals[k + 1] as int,
            vals[k] as int,
            sigs[k] as int,
            grads[k] as int,
        ))
}

/// A feed-forward network under construction: one plan arena, the
/// forward plan's root, and the layer stack.
pub struct NeuralNetworkBuilder<S> {
    graph: MatrixPlan<S>,
    plan: Option<usize>,
    layers: Vec<DenseLayer<S>>,
    inputs: usize,
    trained_steps: usize,
}

impl<S: Scalar> NeuralNetworkBuilder<S> {
    /// Spec view of the plan arena.
    pub closed spec fn graph_spec(&self) -> Seq<PlanNode<S>> {
        self.graph@
    }

    /// Spec view of the forward plan's root node.
    pub closed spec fn plan_spec(&self) -> Option<usize> {
        self.plan
    }

    /// Spec view of the layer stack.
    pub closed spec fn layers_spec(&self) -> Seq<DenseLayer<S>> {
        self.layers@
    }

    /// Spec view of the declared input width.
    pub closed spec fn input_width(&self) -> usize {
        self.inputs
    }

    /// Spec view of the number of applied training steps.
    pub closed spec fn steps_spec(&self) -> usize {
        self.trained_steps
    }

    /// The network's output width: the last layer's row count, or the
    /// input width while no layer has been added.
    pub open spec fn output_width(&self) -> usize {
        if self.layers_spec().len() == 0 {
            self.input_width()
        } else {
            self.layers_spec().last().weights_spec().rows as usize
        }
    }

    /// Every named leaf in the arena is the `"input"` leaf of the
    /// declared width, a layer's weight placeholder, or one of the
    /// backprop leaves `"inputs"` / `"targets"`, which sit above the
    /// forward root.
    pub open spec fn inputs_classified(&self) -> bool {
        forall|j: int|
            0 <= j < self.graph_spec().len() && #[trigger] is_input(self.graph_spec(), j) ==> (
            input_name(self.graph_spec(), j) == "input"@ && self.graph_spec()[j].rows
                == self.input_width() && self.graph_spec()[j].cols == 1) || (exists|k: int|
                0 <= k < self.layers_spec().len() && ((#[trigger] self.layers_spec()[k]).input_spec()
                    matches Some(nd) && nd as int == j)) || ((input_name(self.graph_spec(), j) == "inputs"@
                || input_name(self.graph_spec(), j) == "targets"@) && (self.plan_spec() matches Some(
                root,
            ) ==> j > root))
    }

    /// The builder's invariant.
    pub open spec fn wf(&self) -> bool {
        &&& plan_wf(self.graph_spec())
        &&& (self.plan_spec() is None ==> self.graph_spec().len() == 0 && self.layers_spec().len()
            == 0)
        &&& (self.plan_spec() matches Some(root) ==> root < self.graph_spec().len()
            && self.graph_spec()[root as int].cols == 1 && self.graph_spec()[root as int].rows
            == self.output_width())
        &&& (forall|k: int|
            0 <= k < self.layers_spec().len() ==> (#[trigger] self.layers_spec()[k]).prepared(
                self.graph_spec(),
            ) && (self.layers_spec()[k].id_spec() matches Some(id) && id as int == k))
        &&& (self.layers_spec().len() > 0 ==> self.layers_spec()[0].weights_spec().cols
            == self.input_width())
        &&& (forall|k: int|
            0 < k < self.layers_spec().len() ==> (#[trigger] self.layers_spec()[k]).weights_spec().cols
                == self.layers_spec()[k - 1].weights_spec().rows)
        &&& self.inputs_classified()
    }

    /// Whether the arena holds no taps and no backprop leaves yet: true
    /// until backprop assembly.
    pub open spec fn untapped(&self) -> bool {
        forall|j: int|
            0 <= j < self.graph_spec().len() ==> !#[trigger] is_output(self.graph_spec(), j) && !(
            is_input(self.graph_spec(), j) && (input_name(self.graph_spec(), j) == "inputs"@
                || input_name(self.graph_spec(), j) == "targets"@))
    }

    /// An empty builder.
    pub fn new() -> (r: Self)
        ensures
            r.wf(),
            r.untapped(),
            r.plan_spec() is None,
            r.layers_spec().len() == 0,
            r.steps_spec() == 0,
    {
        NeuralNetworkBuilder {
            graph: MatrixPlan::new(),
            plan: None,
            layers: Vec::new(),
            inputs: 0,
            trained_steps: 0,
        }
    }

    /// Declares the network's input width: a `count`-high, one-wide
    /// `"input"` leaf becomes the forward plan's root.
    pub fn input(self, count: usize) -> (r: Self)
        requires
            self.wf(),
            self.plan_spec() is None,
        ensures
            r.wf(),
            r.untapped(),
            r.plan_spec() is Some,
            r.input_width() == count,
            r.layers_spec().len() == 0,
            r.steps_spec() == self.steps_spec(),
    {
        let mut this = self;
        let name: String = String::from_str("input");
        let id = this.graph.input(count, 1, name);
        this.plan = Some(id);
        this.inputs = count;
        proof {
            lemma_special_names_distinct();
        }
        this
    }

    /// The plan arena the network builds into; execute backprop roots
    /// against it.
    pub fn plan_graph(&self) -> (r: &MatrixPlan<S>)
        ensures
            r@ == self.graph_spec(),
    {
        &self.graph
    }

    /// The forward plan's root node, once the input width is declared.
    pub fn plan_root(&self) -> (r: Option<usize>)
        ensures
            r == self.plan_spec(),
    {
        self.plan
    }

    /// The number of layers added so far.
    pub fn hidden_layers(&self) -> (r: usize)
        ensures
            r == self.layers_spec().len(),
    {
        self.layers.len()
    }

    /// Appends a dense layer with the given weight matrix and activation.
    /// The weight matrix's column count must match the current output
    /// width.
    pub fn add_dense_layer_weighted<A: Activation>(self, weights: Matrix<S>, activation: A) -> (r:
        Self)
        requires
            self.wf(),
            self.untapped(),
            self.plan_spec() is Some,
            weights@.wf(),
            weights@.cols == self.output_width(),
        ensures
            r.wf(),
            r.untapped(),
            r.plan_spec() is Some,
            r.input_width() == self.input_width(),
            r.layers_spec().len() == self.layers_spec().len() + 1,
            forall|k: int|
                0 <= k < self.layers_spec().len() ==> #[trigger] r.layers_spec()[k].weights_spec()
                    == self.layers_spec()[k].weights_spec(),
            r.layers_spec().last().weights_spec() == weights@,
            r.layers_spec().last().activation_spec() == activation.kind_spec(),
            r.output_width() == weights@.rows,
            r.steps_spec() == self.steps_spec(),
            r.plan_spec() matches Some(nr) && layer_forward_applied(
                r.graph_spec(),
                r.layers_spec().last(),
                self.plan_spec()->0 as int,
                nr as int,
            ),
    {
        let mut this = self;
        let ghost pre = this;
        let mut layer = DenseLayer::new(weights, activation);
        let id = this.layers.len();
        let placeholder_at = this.graph.len();
        layer.prepare_input(&mut this.graph, id);
        let ghost g1 = this.graph@;
        let root = match this.plan {
            Some(root) => root,
            None => {
                proof {
                    assert(false);
                }
                0
            },
        };
        proof {
            assert(layer.prepared(g1));
        }
        let new_root = layer.forward_plan(&mut this.graph, root);
        this.plan = Some(new_root);
        this.layers.push(layer);
        proof {
            let g2 = this.graph@;
            assert forall|k: int|
                0 <= k < this.layers@.len() implies (#[trigger] this.layers@[k]).prepared(g2)
                && (this.layers@[k].id_spec() matches Some(idv) && idv as int == k) by {
                if k < pre.layers@.len() {
                    assert(pre.layers@[k].prepared(pre.graph@));
                    assert(this.layers@[k] == pre.layers@[k]);
                } else {
                    assert(this.layers@[k] == layer);
                    assert(layer.prepared(g1));
                }
            }
            assert forall|j: int|
                0 <= j < g2.len() && #[trigger] is_input(g2, j) implies (input_name(g2, j)
                == "input"@ && g2[j].rows == this.inputs && g2[j].cols == 1) || (exists|k: int|
                0 <= k < this.layers@.len() && ((#[trigger] this.layers@[k]).input_spec() matches Some(
                    nd,
                ) && nd as int == j)) || ((input_name(g2, j) == "inputs"@ || input_name(g2, j)
                == "targets"@) && (this.plan matches Some(rt) ==> j > rt)) by {
                if j < pre.graph@.len() {
                    assert(is_input(pre.graph@, j));
                    if !(input_name(pre.graph@, j) == "input"@ && pre.graph@[j].rows == pre.inputs
                        && pre.graph@[j].cols == 1) {
                        if exists|k: int|
                            0 <= k < pre.layers@.len()
                                && ((#[trigger] pre.layers@[k]).input_spec() matches Some(nd)
                                && nd as int == j) {
                            let k = choose|k: int|
                                0 <= k < pre.layers@.len()
                                    && ((#[trigger] pre.layers@[k]).input_spec() matches Some(nd)
                                    && nd as int == j);
                            assert(this.layers@[k].input_spec() == pre.layers@[k].input_spec());
                        } else {
                            assert(input_name(pre.graph@, j) == "inputs"@ || input_name(
                                pre.graph@,
                                j,
                            ) == "targets"@);
                            assert(!is_output(pre.graph@, j));
                            assert(false);
                        }
                    }
                } else if j == pre.graph@.len() {
                    assert(this.layers@[pre.layers@.len() as int] == layer);
                    assert(placeholder_at as int == j);
                    assert(layer.input_spec() == Some(placeholder_at));
                    assert(this.layers@[pre.layers@.len() as int].input_spec() matches Some(nd)
                        && nd as int == j);
                } else {
                    assert(!is_input(g2, j));
                }
            }
            assert forall|j: int| 0 <= j < g2.len() implies !is_output(g2, j) && !(is_input(g2, j)
                && (input_name(g2, j) == "inputs"@ || input_name(g2, j) == "targets"@)) by {
                if j < pre.graph@.len() {
                    assert(!is_output(pre.graph@, j));
                    assert(g2[j] == pre.graph@[j]);
                } else if j == pre.graph@.len() {
                    crate::names::lemma_names_not_special(id as nat);
                    assert(g2[j].op matches MatrixOp::Input { name } && name@ == weights_name_spec(
                        id as nat,
                    ));
                } else {
                    assert(!is_input(g2, j) && !is_output(g2, j));
                }
            }
        }
        this
    }

    /// Appends a dense layer of `count` units whose weights are all one
    /// half, with the given activation.
    pub fn add_dense_layer<A: Activation>(self, count: usize, activation: A) -> (r: Self)
        requires
            self.wf(),
            self.untapped(),
            self.plan_spec() is Some,
            count * self.output_width() <= usize::MAX,
        ensures
            r.wf(),
            r.untapped(),
            r.plan_spec() is Some,
            r.input_width() == self.input_width(),
            r.layers_spec().len() == self.layers_spec().len() + 1,
            r.layers_spec().last().weights_spec().rows == count,
            r.layers_spec().last().weights_spec().cols == self.output_width(),
            forall|i: int|
                0 <= i < r.layers_spec().last().weights_spec().data.len()
                    ==> r.layers_spec().last().weights_spec().data[i] == S::div_s(
                    one_s::<S>(),
                    S::from_count_s(2),
                ),
            r.layers_spec().last().activation_spec() == activation.kind_spec(),
            r.output_width() == count,
            r.steps_spec() == self.steps_spec(),
    {
        let last_count = if self.layers.len() == 0 {
            self.inputs
        } else {
            match self.layers[self.layers.len() - 1].get_weights() {
                Some(w) => w.rows(),
                None => 0,
            }
        };
        let half = S::div(S::from_count(1), S::from_count(2));
        let weights = Matrix::new(count, last_count).fill(half);
        self.add_dense_layer_weighted(weights, activation)
    }

    /// Writes every layer's current weights into `output` under its
    /// placeholder name.
    pub fn fill_plan_weights(&self, output: &mut MatrixMap<S>)
        requires
            self.wf(),
            old(output).wf(),
        ensures
            final(output).wf(),
            final(output)@ == binds_after(
                self.layers_spec(),
                old(output)@,
                self.layers_spec().len() as int,
            ),
    {
        let n = self.layers.len();
        let mut i: usize = 0;
        while i < n
            invariant
                self.wf(),
                n == self.layers@.len(),
                i <= n,
                output.wf(),
                output@ == binds_after(self.layers@, old(output)@, i as int),
            decreases n - i,
        {
            proof {
                assert(self.layers@[i as int].prepared(self.graph@));
            }
            self.layers[i].assign_input(output);
            i = i + 1;
        }
    }
    /// Evaluates the network on one instance: the column `inputs` is
    /// bound to the `"input"` leaf, every layer's weights to its
    /// placeholder, and the forward plan is executed; the result is the
    /// output column.
    pub fn eval(&self, inputs: &Vec<S>) -> (r: Vec<S>)
        requires
            self.wf(),
            self.plan_spec() is Some,
            inputs@.len() == self.input_width(),
        ensures
            r@ == col_seq(
                node_val(
                    self.graph_spec(),
                    eval_binds(self.layers_spec(), inputs@),
                    self.plan_spec()->0 as int,
                ),
                0,
            ),
            r@.len() == self.output_width(),
    {
        let ghost binds = eval_binds(self.layers_spec(), inputs@);
        let n = inputs.len();
        let mut data: Vec<S> = Vec::new();
        let mut i: usize = 0;
        while i < n
            invariant
                n == inputs@.len(),
                i <= n,
                data@ == inputs@.take(i as int),
            decreases n - i,
        {
            data.push(inputs[i]);
            proof {
                assert(data@ =~= inputs@.take(i + 1));
            }
            i = i + 1;
        }
        proof {
            assert(data@ =~= inputs@);
        }
        let m = Matrix::from_col(data);
        let mut map = MatrixMap::new();
        map.insert(String::from_str("input"), m);
        self.fill_plan_weights(&mut map);
        let root = match self.plan {
            Some(root) => root,
            None => {
                proof {
                    assert(false);
                }
                0
            },
        };
        proof {
            assert(map@ == binds);
            lemma_binds_after(self.layers_spec(), binds_base(inputs@), self.layers@.len() as int);
            assert forall|j: int|
                0 <= j < self.graph@.len() && #[trigger] is_input(self.graph@, j)
                    && binds.contains_key(input_name(self.graph@, j)) implies {
                let mv = binds[input_name(self.graph@, j)];
                mv.wf() && mv.rows == self.graph@[j].rows && mv.cols == self.graph@[j].cols
            } by {
                self.classify_leaf(j, inputs@);
            }
            assert(binds_shaped(self.graph@, binds));
            assert forall|j: int|
                0 <= j < self.graph@.len() && #[trigger] reaches(self.graph@, root as int, j)
                    && is_input(self.graph@, j) implies binds.contains_key(
                input_name(self.graph@, j),
            ) by {
                crate::plan::cpu_eval::lemma_reaches_le(self.graph@, root as int, j);
                self.classify_leaf(j, inputs@);
            }
            assert(inputs_ok(self.graph@, binds, root as int));
        }
        let out = match self.graph.execute_cpu(root, &map) {
            Ok((out, _taps)) => out,
            Err(_) => {
                proof {
                    assert(false);
                }
                Matrix::new(0, 0)
            },
        };
        out.col(0)
    }

    /// Facts about one classified leaf under the evaluation bindings.
    #[verifier::rlimit(100)]
    proof fn classify_leaf(&self, j: int, data: Seq<S>)
        requires
            self.wf(),
            self.plan_spec() is Some,
            data.len() == self.input_width(),
            0 <= j < self.graph_spec().len(),
            is_input(self.graph_spec(), j),
        ensures
            ({
                let binds = eval_binds(self.layers_spec(), data);
                let name = input_name(self.graph_spec(), j);
                &&& (binds.contains_key(name) ==> binds[name].wf() && binds[name].rows
                    == self.graph_spec()[j].rows && binds[name].cols == self.graph_spec()[j].cols)
                &&& (j <= self.plan_spec()->0 ==> binds.contains_key(name))
            }),
    {
        let g = self.graph_spec();
        let binds = eval_binds(self.layers_spec(), data);
        let name = input_name(g, j);
        let m0 = binds_base::<S>(data);
        let nl = self.layers_spec().len() as int;
        lemma_binds_after(self.layers_spec(), m0, nl);
        lemma_special_names_distinct();
        if name == "input"@ && g[j].rows == self.input_width() && g[j].cols == 1 {
            assert forall|k: int| 0 <= k < nl implies name != #[trigger] weights_name_spec(
                k as nat,
            ) by {
                crate::names::lemma_names_not_special(k as nat);
            }
            assert(m0.contains_key(name));
            assert(binds[name] == m0[name]);
            assert(binds.contains_key(name));
        } else if exists|k: int|
            0 <= k < nl && ((#[trigger] self.layers_spec()[k]).input_spec() matches Some(nd) && nd
                as int == j) {
            let k = choose|k: int|
                0 <= k < nl && ((#[trigger] self.layers_spec()[k]).input_spec() matches Some(nd)
                    && nd as int == j);
            assert(self.layers_spec()[k].prepared(g));
            let node = self.layers_spec()[k].input_spec()->0;
            assert(node as int == j);
            assert(self.layers_spec()[k].id_spec()->0 as int == k);
            assert(g[node as int].op matches MatrixOp::Input { name: nm } && nm@
                == weights_name_spec(self.layers_spec()[k].id_spec()->0 as nat));
            assert(name == weights_name_spec(k as nat));
            assert(exists|k2: int| 0 <= k2 < nl && name == #[trigger] weights_name_spec(k2 as nat));
            assert(binds.contains_key(name));
            assert(binds[weights_name_spec(k as nat)] == self.layers_spec()[k].weights_spec());
            assert(binds[name] == self.layers_spec()[k].weights_spec());
        } else {
            assert(name == "inputs"@ || name == "targets"@);
            assert(j > self.plan_spec()->0);
            if binds.contains_key(name) {
                assert(!m0.contains_key(name)) by {
                    crate::names::lemma_names_not_special(0);
                }
                let k = choose|k: int|
                    0 <= k < nl && name == #[trigger] weights_name_spec(k as nat);
                crate::names::lemma_names_not_special(k as nat);
                assert(false);
            }
        }
    }

    /// Applies one optimizer step to every layer, consuming one gradient
    /// matrix per layer, and advances the step counter.
    #[verifier::rlimit(100)]
    pub fn apply_backprop<O: Optimizer<S>>(&mut self, optimizer: &mut O, gradients: Vec<Matrix<S>>)
        requires
            old(self).wf(),
            gradients@.len() == old(self).layers_spec().len(),
            forall|k: int|
                0 <= k < gradients@.len() ==> (#[trigger] gradients@[k])@.wf() && gradients@[k]@.rows
                    == old(self).layers_spec()[k].weights_spec().rows && gradients@[k]@.cols == old(
                    self,
                ).layers_spec()[k].weights_spec().cols,
            old(self).steps_spec() < usize::MAX,
        ensures
            final(self).wf(),
            *final(optimizer) == *old(optimizer),
            final(self).graph_spec() == old(self).graph_spec(),
            final(self).plan_spec() == old(self).plan_spec(),
            final(self).input_width() == old(self).input_width(),
            final(self).steps_spec() == old(self).steps_spec() + 1,
            final(self).layers_spec().len() == old(self).layers_spec().len(),
            forall|k: int|
                0 <= k < gradients@.len() ==> (#[trigger] final(self).layers_spec()[k]).weights_spec()
                    == old(optimizer).optimize_spec(
                    old(self).layers_spec()[k].weights_spec(),
                    gradients@[k]@,
                    old(self).steps_spec() as nat,
                ),
    {
        let n = self.layers.len();
        let mut k: usize = 0;
        while k < n
            invariant
                self.wf(),
                *optimizer == *old(optimizer),
                n == self.layers@.len(),
                n == gradients@.len(),
                k <= n,
                self.graph@ == old(self).graph@,
                self.plan == old(self).plan,
                self.inputs == old(self).inputs,
                self.trained_steps == old(self).trained_steps,
                forall|t: int|
                    0 <= t < gradients@.len() ==> (#[trigger] gradients@[t])@.wf()
                        && gradients@[t]@.rows == old(self).layers_spec()[t].weights_spec().rows
                        && gradients@[t]@.cols == old(self).layers_spec()[t].weights_spec().cols,
                forall|t: int|
                    0 <= t < k ==> (#[trigger] self.layers@[t]).weights_spec() == old(
                        optimizer,
                    ).optimize_spec(
                        old(self).layers_spec()[t].weights_spec(),
                        gradients@[t]@,
                        old(self).trained_steps as nat,
                    ),
                forall|t: int|
                    k <= t < n ==> #[trigger] self.layers@[t] == old(self).layers@[t],
                forall|t: int|
                    0 <= t < n ==> (#[trigger] self.layers@[t]).id_spec() == old(
                        self,
                    ).layers@[t].id_spec() && self.layers@[t].input_spec() == old(
                        self,
                    ).layers@[t].input_spec() && self.layers@[t].weights_spec().rows == old(
                        self,
                    ).layers@[t].weights_spec().rows && self.layers@[t].weights_spec().cols == old(
                        self,
                    ).layers@[t].weights_spec().cols,
            decreases n - k,
        {
            let w = match self.layers[k].get_weights() {
                Some(w) => w.duplicate(),
                None => {
                    proof {
                        assert(false);
                    }
                    Matrix::new(0, 0)
                },
            };
            let grad = gradients[k].duplicate();
            let step = self.trained_steps;
            let updated = optimizer.optimize(w, grad, step);
            let ghost pre = *self;
            self.layers[k].set_weights(updated);
            proof {
                assert forall|t: int|
                    0 <= t < self.layers@.len() implies (#[trigger] self.layers@[t]).prepared(
                    self.graph@,
                ) && (self.layers@[t].id_spec() matches Some(idv) && idv as int == t) by {
                    assert(pre.layers@[t].prepared(pre.graph@));
                    if t != k {
                        assert(self.layers@[t] == pre.layers@[t]);
                    }
                }
                assert forall|j: int|
                    0 <= j < self.graph@.len() && #[trigger] is_input(self.graph@, j) implies (
                input_name(self.graph@, j) == "input"@ && self.graph@[j].rows == self.inputs
                    && self.graph@[j].cols == 1) || (exists|t: int|
                    0 <= t < self.layers@.len() && ((#[trigger] self.layers@[t]).input_spec()
                        matches Some(nd) && nd as int == j)) || ((input_name(self.graph@, j)
                    == "inputs"@
                    || input_name(self.graph@, j) == "targets"@) && (self.plan matches Some(rt)
                    ==> j > rt)) by {
                    if !(input_name(self.graph@, j) == "input"@ && self.graph@[j].rows
                        == self.inputs && self.graph@[j].cols == 1) && !((input_name(self.graph@, j)
                        == "inputs"@ || input_name(self.graph@, j) == "targets"@) && (self.plan
                        matches Some(rt) ==> j > rt)) {
                        let t = choose|t: int|
                            0 <= t < pre.layers@.len() && ((#[trigger] pre.layers@[t]).input_spec()
                                matches Some(nd) && nd as int == j);
                        assert(self.layers@[t].input_spec() == pre.layers@[t].input_spec());
                    }
                }
            }
            k = k + 1;
        }
        self.trained_steps = self.trained_steps + 1;
    }

    /// Assembles the backprop plan: one graph that, executed with
    /// `"inputs"`, `"targets"` and every weight placeholder bound, yields
    /// the predictions under the `"outputs"` tap and layer `k`'s weight
    /// gradient under the `"gradient_<k>"` tap, in a single traversal.
    /// The returned root's taps are exactly those names, one tap each.
    #[verifier::rlimit(100)]
    #[verifier::spinoff_prover]
    pub fn plan_backprop(&mut self, batch_size: usize) -> (r: usize)
        requires
            old(self).wf(),
            old(self).untapped(),
            old(self).layers_spec().len() > 0,
            forall|k: int|
                0 <= k < old(self).layers_spec().len() ==> (#[trigger] old(
                    self,
                ).layers_spec()[k]).weights_spec().rows * batch_size <= usize::MAX,
        ensures
            final(self).wf(),
            final(self).plan_spec() == old(self).plan_spec(),
            final(self).layers_spec() == old(self).layers_spec(),
            final(self).input_width() == old(self).input_width(),
            final(self).steps_spec() == old(self).steps_spec(),
            r < final(self).graph_spec().len(),
            old(self).graph_spec().len() <= final(self).graph_spec().len(),
            forall|j: int|
                0 <= j < old(self).graph_spec().len() ==> final(self).graph_spec()[j] == old(
                    self,
                ).graph_spec()[j],
            tap_names(final(self).graph_spec(), r as int) == Set::new(
                |nm: Seq<char>|
                    nm == "outputs"@ || exists|k: int|
                        0 <= k < old(self).layers_spec().len() && nm == #[trigger] gradient_name_spec(
                            k as nat,
                        ),
            ),
            forall|j1: int, j2: int|
                0 <= j1 < final(self).graph_spec().len() && 0 <= j2
                    < final(self).graph_spec().len() && #[trigger] is_output(final(self).graph_spec(), j1)
                    && #[trigger] is_output(final(self).graph_spec(), j2) && output_name(
                    final(self).graph_spec(),
                    j1,
                ) == output_name(final(self).graph_spec(), j2) ==> j1 == j2,
            exists|vals: Seq<usize>, sigs: Seq<usize>, grads: Seq<usize>|
                {
                    &&& #[trigger] backprop_assembled(
                        final(self).graph_spec(),
                        old(self).layers_spec(),
                        old(self).input_width() as int,
                        old(self).output_width() as int,
                        batch_size as int,
                        vals,
                        sigs,
                        grads,
                    )
                    &&& (forall|j: int|
                        0 <= j < final(self).graph_spec().len() && #[trigger] is_output(
                            final(self).graph_spec(),
                            j,
                        ) && output_name(final(self).graph_spec(), j) == "outputs"@
                            ==> output_child(final(self).graph_spec(), j) == vals[old(
                            self,
                        ).layers_spec().len() as int] as int)
                    &&& (forall|j: int, k: int|
                        #![trigger is_output(final(self).graph_spec(), j), gradient_name_spec(k as nat)]
                        0 <= j < final(self).graph_spec().len() && 0 <= k < old(
                            self,
                        ).layers_spec().len() && is_output(final(self).graph_spec(), j)
                            && output_name(final(self).graph_spec(), j) == gradient_name_spec(
                            k as nat,
                        ) ==> output_child(final(self).graph_spec(), j) == grads[k] as int)
                },
    {
        let ghost g0 = self.graph@;
        let n = self.layers.len();
        let root = match self.plan {
            Some(root) => root,
            None => {
                proof {
                    assert(false);
                }
                0
            },
        };
        let out_w = self.graph.rows(root);
        let targets = self.graph.input(out_w, batch_size, String::from_str("targets"));
        let inputs_node = self.graph.input(self.inputs, batch_size, String::from_str("inputs"));
        proof {
            lemma_prepared_frame(self.layers@, g0, self.graph@);
            assert forall|j: int| 0 <= j < self.graph@.len() implies !#[trigger] is_output(
                self.graph@,
                j,
            ) by {
                if j < g0.len() {
                    assert(!is_output(g0, j));
                    assert(self.graph@[j] == g0[j]);
                }
            }
        }
        let mut layer_values: Vec<usize> = Vec::new();
        let mut state = inputs_node;
        layer_values.push(state);
        let mut k: usize = 0;
        while k < n
            invariant
                plan_wf(self.graph@),
                n == self.layers@.len(),
                n > 0,
                k <= n,
                self.layers@ == old(self).layers@,
                self.plan == old(self).plan,
                self.inputs == old(self).inputs,
                self.trained_steps == old(self).trained_steps,
                old(self).wf(),
                g0 == old(self).graph@,
                g0.len() + 2 <= self.graph@.len(),
                forall|j: int| 0 <= j < g0.len() ==> self.graph@[j] == g0[j],
                forall|t: int|
                    0 <= t < self.layers@.len() ==> (#[trigger] self.layers@[t]).prepared(
                        self.graph@,
                    ),
                targets < self.graph@.len(),
                inputs_node < self.graph@.len(),
                targets == g0.len(),
                inputs_node == g0.len() + 1,
                self.graph@[targets as int].op matches MatrixOp::Input { name } && name@
                    == "targets"@,
                self.graph@[inputs_node as int].op matches MatrixOp::Input { name } && name@
                    == "inputs"@,
                self.graph@[targets as int].rows == old(self).output_width(),
                self.graph@[targets as int].cols == batch_size,
                forall|j: int|
                    g0.len() + 2 <= j < self.graph@.len() ==> !is_input(self.graph@, j),
                forall|j: int| 0 <= j < self.graph@.len() ==> !#[trigger] is_output(self.graph@, j),
                layer_values@.len() == k + 1,
                layer_values@[0] == inputs_node,
                self.graph@[inputs_node as int].rows == self.inputs,
                self.graph@[inputs_node as int].cols == batch_size,
                forall|i: int| 0 <= i <= k ==> #[trigger] layer_values@[i] < self.graph@.len(),
                state == layer_values@[k as int],
                forall|i: int|
                    0 <= i < k ==> layer_forward_applied(
                        self.graph@,
                        #[trigger] self.layers@[i],
                        layer_values@[i] as int,
                        layer_values@[i + 1] as int,
                    ),
                forall|i: int|
                    0 <= i <= k ==> self.graph@[#[trigger] layer_values@[i] as int].cols
                        == batch_size,
                self.graph@[layer_values@[0] as int].rows == self.inputs,
                forall|i: int|
                    1 <= i <= k ==> self.graph@[#[trigger] layer_values@[i] as int].rows
                        == self.layers@[i - 1].weights_spec().rows,
            decreases n - k,
        {
            let ghost gpre = self.graph@;
            proof {
                assert(self.layers@[k as int].prepared(gpre));
                if k > 0 {
                    assert(self.layers@[k as int].weights_spec().cols == self.layers@[k as int
                        - 1].weights_spec().rows);
                } else {
                    assert(self.layers@[0].weights_spec().cols == self.inputs);
                }
            }
            state = self.layers[k].forward_plan(&mut self.graph, state);
            layer_values.push(state);
            proof {
                lemma_prepared_frame(self.layers@, gpre, self.graph@);
                assert forall|j: int|
                    g0.len() + 2 <= j < self.graph@.len() implies !is_input(self.graph@, j) by {
                    if j < gpre.len() {
                        assert(!is_input(gpre, j));
                        assert(self.graph@[j] == gpre[j]);
                    }
                }
                assert forall|j: int| 0 <= j < self.graph@.len() implies !#[trigger] is_output(
                    self.graph@,
                    j,
                ) by {
                    if j < gpre.len() {
                        assert(!is_output(gpre, j));
                        assert(self.graph@[j] == gpre[j]);
                    }
                }
                assert forall|i: int|
                    0 <= i < k + 1 implies layer_forward_applied(
                    self.graph@,
                    #[trigger] self.layers@[i],
                    layer_values@[i] as int,
                    layer_values@[i + 1] as int,
                ) by {
                    if i < k {
                        lemma_layer_forward_frame(
                            gpre,
                            self.graph@,
                            self.layers@[i],
                            layer_values@[i] as int,
                            layer_values@[i + 1] as int,
                        );
                    }
                }
            }
            k = k + 1;
        }
        let last = state;
        let ghost g_fwd = self.graph@;
        let outputs_tap = self.graph.output(last, String::from_str("outputs"));
        let ghost g_ot = self.graph@;
        let diff = match self.graph.sub(last, targets) {
            Ok(d) => d,
            Err(_) => {
                proof {
                    assert(false);
                }
                0
            },
        };
        proof {
            lemma_prepared_frame(self.layers@, g_ot, self.graph@);
            assert forall|j: int|
                g0.len() + 2 <= j < self.graph@.len() implies !is_input(self.graph@, j) by {
                if j < g_fwd.len() {
                    assert(!is_input(g_fwd, j));
                    assert(self.graph@[j] == g_fwd[j]);
                } else if j == g_fwd.len() {
                    assert(self.graph@[j] == g_ot[j]);
                    assert(self.graph@[j].op is Output);
                } else {
                    assert(j == g_ot.len());
                    assert(self.graph@[j].op is Sub);
                }
            }
            assert forall|j: int|
                0 <= j < self.graph@.len() && j != outputs_tap implies !#[trigger] is_output(
                self.graph@,
                j,
            ) by {
                if j < g_fwd.len() {
                    assert(!is_output(g_fwd, j));
                    assert(self.graph@[j] == g_fwd[j]);
                } else if j == g_fwd.len() {
                    assert(j == outputs_tap);
                } else {
                    assert(j == g_ot.len());
                    assert(self.graph@[j].op is Sub);
                }
            }
            assert forall|i: int|
                0 <= i < n implies layer_forward_applied(
                self.graph@,
                #[trigger] self.layers@[i],
                layer_values@[i] as int,
                layer_values@[i + 1] as int,
            ) by {
                lemma_layer_forward_frame(
                    g_fwd,
                    self.graph@,
                    self.layers@[i],
                    layer_values@[i] as int,
                    layer_values@[i + 1] as int,
                );
            }
        }
        let ghost g_diff = self.graph@;
        let mut prior = diff;
        let mut grads_rev: Vec<usize> = Vec::new();
        let ghost mut sigs: Seq<usize> = Seq::new((n + 1) as nat, |i: int| diff);
        let mut k2 = n;
        while k2 > 0
            invariant
                plan_wf(self.graph@),
                n == self.layers@.len(),
                n > 0,
                k2 <= n,
                self.layers@ == old(self).layers@,
                self.plan == old(self).plan,
                self.inputs == old(self).inputs,
                self.trained_steps == old(self).trained_steps,
                old(self).wf(),
                g0 == old(self).graph@,
                g0.len() + 2 <= self.graph@.len(),
                forall|j: int| 0 <= j < g0.len() ==> self.graph@[j] == g0[j],
                forall|t: int|
                    0 <= t < self.layers@.len() ==> (#[trigger] self.layers@[t]).prepared(
                        self.graph@,
                    ),
                targets == g0.len(),
                inputs_node == g0.len() + 1,
                self.graph@[targets as int].op matches MatrixOp::Input { name } && name@
                    == "targets"@,
                self.graph@[inputs_node as int].op matches MatrixOp::Input { name } && name@
                    == "inputs"@,
                forall|j: int|
                    g0.len() + 2 <= j < self.graph@.len() ==> !is_input(self.graph@, j),
                outputs_tap < self.graph@.len(),
                is_output(self.graph@, outputs_tap as int),
                output_name(self.graph@, outputs_tap as int) == "outputs"@,
                forall|j: int|
                    0 <= j < self.graph@.len() && j != outputs_tap ==> !#[trigger] is_output(
                        self.graph@,
                        j,
                    ),
                forall|k3: int|
                    0 <= k3 < n ==> (#[trigger] self.layers@[k3]).weights_spec().rows * batch_size
                        <= usize::MAX,
                layer_values@.len() == n + 1,
                layer_values@[0] == inputs_node,
                last == layer_values@[n as int],
                self.graph@[inputs_node as int].rows == self.inputs,
                self.graph@[inputs_node as int].cols == batch_size,
                self.graph@[targets as int].rows == old(self).output_width(),
                self.graph@[targets as int].cols == batch_size,
                g_diff.len() <= self.graph@.len(),
                forall|j: int| 0 <= j < g_diff.len() ==> self.graph@[j] == g_diff[j],
                diff < g_diff.len(),
                self.graph@[diff as int].op matches MatrixOp::Sub { left, right } && left == last
                    && right == targets,
                self.graph@[outputs_tap as int].op matches MatrixOp::Output { name, matrix }
                    && name@ == "outputs"@ && matrix == last,
                sigs.len() == n + 1,
                sigs[n as int] == diff,
                forall|i: int| 0 <= i <= n ==> #[trigger] sigs[i] < self.graph@.len(),
                prior == sigs[k2 as int],
                forall|kk: int|
                    k2 <= kk < n ==> layer_backward_applied(
                        self.graph@,
                        #[trigger] self.layers@[kk],
                        sigs[kk + 1] as int,
                        layer_values@[kk + 1] as int,
                        layer_values@[kk] as int,
                        sigs[kk] as int,
                        grads_rev@[n - 1 - kk] as int,
                    ),
                forall|i: int| 0 <= i <= n ==> #[trigger] layer_values@[i] < self.graph@.len(),
                forall|i: int|
                    0 <= i <= n ==> self.graph@[#[trigger] layer_values@[i] as int].cols
                        == batch_size,
                forall|i: int|
                    1 <= i <= n ==> self.graph@[#[trigger] layer_values@[i] as int].rows
                        == self.layers@[i - 1].weights_spec().rows,
                prior < self.graph@.len(),
                self.graph@[prior as int].cols == batch_size,
                self.graph@[prior as int].rows == (if k2 == n {
                    old(self).output_width() as int
                } else {
                    self.layers@[k2 as int].weights_spec().cols as int
                }),
                grads_rev@.len() == n - k2,
                forall|i: int|
                    0 <= i < grads_rev@.len() ==> #[trigger] grads_rev@[i] < self.graph@.len()
                        && self.graph@[grads_rev@[i] as int].rows == self.layers@[n - 1
                        - i].weights_spec().rows && self.graph@[grads_rev@[i] as int].cols
                        == self.layers@[n - 1 - i].weights_spec().cols,
            decreases k2,
        {
            k2 = k2 - 1;
            let ghost gpre = self.graph@;
            proof {
                assert(self.layers@[k2 as int].prepared(gpre));
                if k2 + 1 < n {
                    assert(self.layers@[k2 + 1].weights_spec().cols == self.layers@[
                        k2 as int].weights_spec().rows);
                }
                if k2 == n - 1 {
                    assert(old(self).output_width() == self.layers@[n - 1].weights_spec().rows);
                }
            }
            let lv = layer_values[k2 + 1];
            let lower = layer_values[k2];
            let (np, gnode) = self.layers[k2].backward_plan(&mut self.graph, prior, lv, lower);
            prior = np;
            grads_rev.push(gnode);
            proof {
                sigs = sigs.update(k2 as int, np);
                lemma_prepared_frame(self.layers@, gpre, self.graph@);
                assert(sigs[k2 as int] == np && grads_rev@[n - 1 - k2] == gnode);
                lemma_backward_step(
                    gpre,
                    self.graph@,
                    self.layers@,
                    layer_values@,
                    sigs,
                    grads_rev@,
                    n as int,
                    k2 as int,
                );
                assert forall|j: int|
                    g0.len() + 2 <= j < self.graph@.len() implies !is_input(self.graph@, j) by {
                    if j < gpre.len() {
                        assert(!is_input(gpre, j));
                        assert(self.graph@[j] == gpre[j]);
                    }
                }
                assert forall|j: int|
                    0 <= j < self.graph@.len() && j != outputs_tap implies !#[trigger] is_output(
                    self.graph@,
                    j,
                ) by {
                    if j < gpre.len() {
                        assert(!is_output(gpre, j));
                        assert(self.graph@[j] == gpre[j]);
                    }
                }
            }
        }
        let ghost g_bw = self.graph@;
        let mut merged: Vec<usize> = Vec::new();
        let mut t: usize = 0;
        #[verifier::loop_isolation(false)]
        while t < n
            invariant
                plan_wf(self.graph@),
                n == self.layers@.len(),
                n > 0,
                t <= n,
                self.layers@ == old(self).layers@,
                self.plan == old(self).plan,
                self.inputs == old(self).inputs,
                self.trained_steps == old(self).trained_steps,
                old(self).wf(),
                g0 == old(self).graph@,
                g0.len() + 2 <= self.graph@.len(),
                forall|j: int| 0 <= j < g0.len() ==> self.graph@[j] == g0[j],
                forall|tt: int|
                    0 <= tt < self.layers@.len() ==> (#[trigger] self.layers@[tt]).prepared(
                        self.graph@,
                    ),
                targets == g0.len(),
                inputs_node == g0.len() + 1,
                self.graph@[targets as int].op matches MatrixOp::Input { name } && name@
                    == "targets"@,
                self.graph@[inputs_node as int].op matches MatrixOp::Input { name } && name@
                    == "inputs"@,
                forall|j: int|
                    g0.len() + 2 <= j < self.graph@.len() ==> !is_input(self.graph@, j),
                outputs_tap < self.graph@.len(),
                is_output(self.graph@, outputs_tap as int),
                output_name(self.graph@, outputs_tap as int) == "outputs"@,
                grads_rev@.len() == n,
                forall|i: int| 0 <= i < n ==> #[trigger] grads_rev@[i] < self.graph@.len(),
                g_bw.len() <= self.graph@.len(),
                forall|j: int| 0 <= j < g_bw.len() ==> self.graph@[j] == g_bw[j],
                merged@.len() == t,
                forall|i: int| 0 <= i < t ==> #[trigger] merged@[i] < self.graph@.len(),
                forall|i: int|
                    0 <= i < t ==> is_output(self.graph@, #[trigger] merged@[i] as int)
                        && output_name(self.graph@, merged@[i] as int) == gradient_name_spec(
                        i as nat,
                    ),
                forall|i: int|
                    0 <= i < t ==> (self.graph@[#[trigger] merged@[i] as int].op matches
                        MatrixOp::Output { name, matrix } && name@ == gradient_name_spec(i as nat)
                        && matrix == grads_rev@[n - 1 - i]),
                forall|j: int|
                    0 <= j < self.graph@.len() && j != outputs_tap && !merged@.contains(j as usize)
                        ==> !#[trigger] is_output(self.graph@, j),
            decreases n - t,
        {
            let gnode = grads_rev[n - 1 - t];
            let ghost pre_merged = merged@;
            let ghost gpre = self.graph@;
            let tap = self.graph.output(gnode, gradient_name(t));
            merged.push(tap);
            proof {
                assert(merged@ =~= pre_merged.push(tap));
                assert forall|j: int|
                    0 <= j < self.graph@.len() && j != outputs_tap && !merged@.contains(
                        j as usize,
                    ) implies !#[trigger] is_output(self.graph@, j) by {
                    if j < gpre.len() {
                        if pre_merged.contains(j as usize) {
                            let i = choose|i: int|
                                0 <= i < pre_merged.len() && pre_merged[i] == j as usize;
                            assert(merged@[i] == j as usize);
                            assert(false);
                        }
                        assert(!is_output(gpre, j));
                        assert(self.graph@[j] == gpre[j]);
                    } else {
                        assert(j == tap);
                        assert(merged@[t as int] == tap);
                        assert(false);
                    }
                }
                assert forall|j: int|
                    g0.len() + 2 <= j < self.graph@.len() implies !is_input(self.graph@, j) by {
                    if j < gpre.len() {
                        assert(!is_input(gpre, j));
                        assert(self.graph@[j] == gpre[j]);
                    } else {
                        assert(self.graph@[j].op is Output);
                    }
                }
            }
            t = t + 1;
        }
        let ghost final_taps = merged@;
        merged.push(outputs_tap);
        proof {
            assert(merged@ =~= final_taps.push(outputs_tap));
        }
        let ghost g_taps = self.graph@;
        let r = self.graph.merge_outputs(merged);
        proof {
            let g = self.graph@;
            let nlay = n as int;
            assert forall|tt: int|
                0 <= tt < self.layers@.len() implies (#[trigger] self.layers@[tt]).prepared(g)
                && (self.layers@[tt].id_spec() matches Some(idv) && idv as int == tt) by {
                let node = self.layers@[tt].input_spec()->0;
                assert(old(self).layers@[tt].prepared(old(self).graph@));
                assert(g[node as int] == old(self).graph@[node as int]);
            }
            // classification of leaves
            assert forall|j: int|
                0 <= j < g.len() && #[trigger] is_input(g, j) implies (input_name(g, j) == "input"@
                && g[j].rows == self.inputs && g[j].cols == 1) || (exists|k4: int|
                0 <= k4 < self.layers@.len() && ((#[trigger] self.layers@[k4]).input_spec()
                    matches Some(nd) && nd as int == j)) || ((input_name(g, j) == "inputs"@
                || input_name(g, j) == "targets"@) && (self.plan matches Some(rt) ==> j > rt)) by {
                if j < g0.len() {
                    assert(is_input(g0, j));
                    if !(input_name(g0, j) == "input"@ && g0[j].rows == self.inputs && g0[j].cols
                        == 1) {
                        if exists|k4: int|
                            0 <= k4 < old(self).layers@.len() && ((#[trigger] old(
                                self,
                            ).layers@[k4]).input_spec() matches Some(nd) && nd as int == j) {
                        } else {
                            assert(input_name(g0, j) == "inputs"@ || input_name(g0, j)
                                == "targets"@);
                            assert(!is_output(g0, j));
                            assert(false);
                        }
                    }
                } else if j == targets || j == inputs_node {
                    assert(self.plan matches Some(rt) ==> j > rt);
                } else if j < g_taps.len() {
                    assert(!is_input(g_taps, j));
                    assert(g[j] == g_taps[j]);
                    assert(false);
                } else {
                    assert(j == g_taps.len());
                    assert(g[j].op is Combine);
                    assert(false);
                }
            }
            // tap name set
            let target_set = Set::new(
                |nm: Seq<char>|
                    nm == "outputs"@ || exists|k5: int|
                        0 <= k5 < nlay && nm == #[trigger] gradient_name_spec(k5 as nat),
            );
            assert forall|nm: Seq<char>| tap_names(g, r as int).contains(nm) implies
                target_set.contains(nm) by {
                let j = choose|j: int|
                    0 <= j < g.len() && #[trigger] reaches(g, r as int, j) && is_output(g, j)
                        && output_name(g, j) == nm;
                if j != outputs_tap {
                    if j < g_taps.len() {
                        assert(g[j] == g_taps[j]);
                        assert(is_output(g_taps, j));
                    } else {
                        assert(j == g_taps.len());
                        assert(g[j].op is Combine);
                        assert(false);
                    }
                    assert(final_taps.contains(j as usize));
                    let i = choose|i: int| 0 <= i < final_taps.len() && final_taps[i] == j as usize;
                    assert(output_name(g, j) == gradient_name_spec(i as nat));
                }
            }
            assert forall|nm: Seq<char>| target_set.contains(nm) implies tap_names(
                g,
                r as int,
            ).contains(nm) by {
                if nm == "outputs"@ {
                    assert(crate::plan::cpu_eval::is_child(g, r as int, outputs_tap as int)) by {
                        assert(g[r as int].op matches MatrixOp::Combine { inner: inn2 } && inn2@[
                            nlay] == outputs_tap);
                    }
                    crate::plan::cpu_eval::lemma_reaches_child(g, r as int, outputs_tap as int);
                    assert(reaches(g, r as int, outputs_tap as int) && is_output(
                        g,
                        outputs_tap as int,
                    ) && output_name(g, outputs_tap as int) == nm);
                } else {
                    let k5 = choose|k5: int|
                        0 <= k5 < nlay && nm == #[trigger] gradient_name_spec(k5 as nat);
                    let tapn = final_taps[k5];
                    assert(crate::plan::cpu_eval::is_child(g, r as int, tapn as int)) by {
                        assert(g[r as int].op matches MatrixOp::Combine { inner: inn2 } && inn2@[
                            k5] == tapn);
                    }
                    crate::plan::cpu_eval::lemma_reaches_child(g, r as int, tapn as int);
                    assert(reaches(g, r as int, tapn as int) && is_output(g, tapn as int)
                        && output_name(g, tapn as int) == nm);
                }
            }
            assert(tap_names(g, r as int) =~= target_set);
            // uniqueness
            assert forall|j1: int, j2: int|
                0 <= j1 < g.len() && 0 <= j2 < g.len() && #[trigger] is_output(g, j1)
                    && #[trigger] is_output(g, j2) && output_name(g, j1) == output_name(g, j2)
                    implies j1 == j2 by {
                if j1 != j2 {
                    if j1 != outputs_tap && j1 < g_taps.len() {
                        assert(g[j1] == g_taps[j1]);
                        assert(is_output(g_taps, j1));
                        assert(final_taps.contains(j1 as usize));
                    }
                    if j2 != outputs_tap && j2 < g_taps.len() {
                        assert(g[j2] == g_taps[j2]);
                        assert(is_output(g_taps, j2));
                        assert(final_taps.contains(j2 as usize));
                    }
                    if j1 == g_taps.len() || j2 == g_taps.len() {
                        assert(false);
                    }
                    if j1 == outputs_tap || j2 == outputs_tap {
                        let other = if j1 == outputs_tap {
                            j2
                        } else {
                            j1
                        };
                        assert(final_taps.contains(other as usize));
                        assert(output_name(g, other) == "outputs"@);
                        let i = choose|i: int|
                            0 <= i < final_taps.len() && final_taps[i] == other as usize;
                        crate::names::lemma_names_not_special(i as nat);
                        assert(false);
                    } else {
                        let i1 = choose|i: int|
                            0 <= i < final_taps.len() && final_taps[i] == j1 as usize;
                        let i2 = choose|i: int|
                            0 <= i < final_taps.len() && final_taps[i] == j2 as usize;
                        assert(i1 != i2);
                        crate::names::lemma_names_injective(i1 as nat, i2 as nat);
                        assert(false);
                    }
                }
            }
            // the assembled value structure, carried over from the loops
            let vals = layer_values@;
            let gseq = Seq::new(n as nat, |kk: int| grads_rev@[n - 1 - kk]);
            assert forall|j: int| 0 <= j < g_bw.len() implies g[j] == g_bw[j] by {
                assert(g_taps[j] == g_bw[j]);
            }
            assert forall|j: int| 0 <= j < g_diff.len() implies g[j] == g_diff[j] by {
                assert(g_bw[j] == g_diff[j]);
            }
            assert forall|kk: int|
                0 <= kk < nlay implies layer_forward_applied(
                g,
                #[trigger] self.layers@[kk],
                vals[kk] as int,
                vals[kk + 1] as int,
            ) by {
                lemma_layer_forward_frame(
                    g_diff,
                    g,
                    self.layers@[kk],
                    vals[kk] as int,
                    vals[kk + 1] as int,
                );
            }
            assert forall|kk: int|
                0 <= kk < nlay implies layer_backward_applied(
                g,
                #[trigger] self.layers@[kk],
                sigs[kk + 1] as int,
                vals[kk + 1] as int,
                vals[kk] as int,
                sigs[kk] as int,
                gseq[kk] as int,
            ) by {
                assert(gseq[kk] == grads_rev@[n - 1 - kk]);
                lemma_layer_backward_frame(
                    g_bw,
                    g,
                    self.layers@[kk],
                    sigs[kk + 1] as int,
                    vals[kk + 1] as int,
                    vals[kk] as int,
                    sigs[kk] as int,
                    grads_rev@[n - 1 - kk] as int,
                );
            }
            assert(g[inputs_node as int] == g_bw[inputs_node as int]);
            assert(g[targets as int] == g_bw[targets as int]);
            assert(g[diff as int] == g_bw[diff as int]);
            assert(g[outputs_tap as int] == g_bw[outputs_tap as int]);
            assert(backprop_assembled(
                g,
                self.layers@,
                self.inputs as int,
                old(self).output_width() as int,
                batch_size as int,
                vals,
                sigs,
                gseq,
            )) by {
                assert(g[vals[0] as int].op matches MatrixOp::Input { name } && name@
                    == "inputs"@);
                assert(g[targets as int].op matches MatrixOp::Input { name } && name@
                    == "targets"@);
                assert(g[targets as int].rows == old(self).output_width() && g[
                    targets as int].cols == batch_size);
                assert(g[sigs[nlay] as int].op matches MatrixOp::Sub { left, right } && left
                    == vals[nlay] && right as int == targets as int);
            }
            // every "outputs" tap wraps the final forward value, and every
            // gradient tap wraps its layer's gradient node
            assert forall|j: int|
                0 <= j < g.len() && #[trigger] is_output(g, j) && output_name(g, j)
                    == "outputs"@ implies output_child(g, j) == vals[nlay] as int by {
                assert(is_output(g, outputs_tap as int) && output_name(g, outputs_tap as int)
                    == "outputs"@);
                assert(j == outputs_tap);
                assert(output_child(g, outputs_tap as int) == last as int);
            }
            assert forall|j: int, kk: int|
                #![trigger is_output(g, j), gradient_name_spec(kk as nat)]
                0 <= j < g.len() && 0 <= kk < nlay && is_output(g, j) && output_name(g, j)
                    == gradient_name_spec(kk as nat) implies output_child(g, j) == gseq[
                kk] as int by {
                let tapn = final_taps[kk];
                assert(g[tapn as int] == g_taps[tapn as int]);
                assert(g_taps[tapn as int].op matches MatrixOp::Output { name, matrix } && name@
                    == gradient_name_spec(kk as nat) && matrix == grads_rev@[n - 1 - kk]);
                assert(is_output(g, tapn as int) && output_name(g, tapn as int)
                    == gradient_name_spec(kk as nat));
                assert(j == tapn);
                assert(output_child(g, tapn as int) == grads_rev@[n - 1 - kk] as int);
            }
        }
        r
    }
}

/// One backward step extends the arena: every forward- and backward-rule
/// fact recorded so far survives, and the newly proved rule joins them.
proof fn lemma_backward_step<S: Scalar>(
    gpre: Seq<PlanNode<S>>,
    gnew: Seq<PlanNode<S>>,
    layers: Seq<DenseLayer<S>>,
    layer_values: Seq<usize>,
    sigs: Seq<usize>,
    grads_rev: Seq<usize>,
    n: int,
    k2: int,
)
    requires
        gpre.len() <= gnew.len(),
        forall|j: int| 0 <= j < gpre.len() ==> gnew[j] == gpre[j],
        layers.len() == n,
        layer_values.len() == n + 1,
        sigs.len() == n + 1,
        grads_rev.len() == n - k2,
        0 <= k2 < n,
        forall|i: int| 0 <= i <= n ==> #[trigger] layer_values[i] < gpre.len(),
        forall|i: int| k2 < i <= n ==> #[trigger] sigs[i] < gpre.len(),
        forall|i: int| 0 <= i < n - k2 - 1 ==> #[trigger] grads_rev[i] < gpre.len(),
        forall|kk: int|
            k2 < kk < n ==> layer_backward_applied(
                gpre,
                #[trigger] layers[kk],
                sigs[kk + 1] as int,
                layer_values[kk + 1] as int,
                layer_values[kk] as int,
                sigs[kk] as int,
                grads_rev[n - 1 - kk] as int,
            ),
        layer_backward_applied(
            gnew,
            layers[k2],
            sigs[k2 + 1] as int,
            layer_values[k2 + 1] as int,
            layer_values[k2] as int,
            sigs[k2] as int,
            grads_rev[n - 1 - k2] as int,
        ),
    ensures
        forall|kk: int|
            k2 <= kk < n ==> layer_backward_applied(
                gnew,
                #[trigger] layers[kk],
                sigs[kk + 1] as int,
                layer_values[kk + 1] as int,
                layer_values[kk] as int,
                sigs[kk] as int,
                grads_rev[n - 1 - kk] as int,
            ),
{
    assert forall|kk: int|
        k2 <= kk < n implies layer_backward_applied(
        gnew,
        #[trigger] layers[kk],
        sigs[kk + 1] as int,
        layer_values[kk + 1] as int,
        layer_values[kk] as int,
        sigs[kk] as int,
        grads_rev[n - 1 - kk] as int,
    ) by {
        if kk > k2 {
            lemma_layer_backward_frame(
                gpre,
                gnew,
                layers[kk],
                sigs[kk + 1] as int,
                layer_values[kk + 1] as int,
                layer_values[kk] as int,
                sigs[kk] as int,
                grads_rev[n - 1 - kk] as int,
            );
        }
    }
}

/// Prepared layers stay prepared when the arena grows.
proof fn lemma_prepared_frame<S: Scalar>(
    layers: Seq<DenseLayer<S>>,
    g1: Seq<PlanNode<S>>,
    g2: Seq<PlanNode<S>>,
)
    requires
        g1.len() <= g2.len(),
        forall|j: int| 0 <= j < g1.len() ==> g2[j] == g1[j],
        forall|k: int| 0 <= k < layers.len() ==> (#[trigger] layers[k]).prepared(g1),
    ensures
        forall|k: int| 0 <= k < layers.len() ==> (#[trigger] layers[k]).prepared(g2),
{
    assert forall|k: int| 0 <= k < layers.len() implies (#[trigger] layers[k]).prepared(g2) by {
        assert(layers[k].prepared(g1));
        let node = layers[k].input_spec()->0;
        assert(g2[node as int] == g1[node as int]);
    }
}

/// The three fixed leaf names are pairwise distinct.
pub proof fn lemma_special_names_distinct()
    ensures
        "input"@ != "inputs"@,
        "input"@ != "targets"@,
        "inputs"@ != "targets"@,
{
    reveal_strlit("input");
    reveal_strlit("inputs");
    reveal_strlit("targets");
    assert("input"@.len() == 5 && "inputs"@.len() == 6 && "targets"@.len() == 7);
}

/// The base bindings of an evaluation: the input column alone.
pub open spec fn binds_base<S: Scalar>(data: Seq<S>) -> Map<Seq<char>, MatV<S>> {
    Map::empty().insert("input"@, MatV { rows: data.len(), cols: 1, data })
}

/// What `binds_after` binds: everything of the base map, and each written
/// layer's weights under its placeholder name, which wins over the base.
pub proof fn lemma_binds_after<S: Scalar>(
    layers: Seq<DenseLayer<S>>,
    m0: Map<Seq<char>, MatV<S>>,
    n: int,
)
    requires
        0 <= n <= layers.len(),
    ensures
        forall|key: Seq<char>| #![trigger binds_after(layers, m0, n).contains_key(key)]
            binds_after(layers, m0, n).contains_key(key) <==> (m0.contains_key(key) || exists|
                k: int,
            | 0 <= k < n && key == #[trigger] weights_name_spec(k as nat)),
        forall|k: int|
            0 <= k < n ==> binds_after(layers, m0, n)[#[trigger] weights_name_spec(k as nat)]
                == layers[k].weights_spec(),
        forall|key: Seq<char>|
            m0.contains_key(key) && (forall|k: int|
                0 <= k < n ==> key != #[trigger] weights_name_spec(k as nat)) ==> binds_after(
                layers,
                m0,
                n,
            )[key] == m0[key],
    decreases n,
{
    if n > 0 {
        lemma_binds_after(layers, m0, n - 1);
        assert forall|k: int| 0 <= k < n implies binds_after(layers, m0, n)[
            #[trigger] weights_name_spec(k as nat)] == layers[k].weights_spec() by {
            if k < n - 1 {
                lemma_names_injective(k as nat, (n - 1) as nat);
            }
        }
        assert forall|key: Seq<char>|
            binds_after(layers, m0, n).contains_key(key) <==> (m0.contains_key(key) || exists|
                k: int,
            | 0 <= k < n && key == #[trigger] weights_name_spec(k as nat)) by {
            if binds_after(layers, m0, n).contains_key(key) {
                if key == weights_name_spec((n - 1) as nat) {
                    assert(0 <= n - 1 < n && key == weights_name_spec((n - 1) as nat));
                } else {
                    assert(binds_after(layers, m0, n - 1).contains_key(key));
                    if !m0.contains_key(key) {
                        let k = choose|k: int|
                            0 <= k < n - 1 && key == #[trigger] weights_name_spec(k as nat);
                        assert(0 <= k < n && key == weights_name_spec(k as nat));
                    }
                }
            }
            if m0.contains_key(key) {
                assert(binds_after(layers, m0, n - 1).contains_key(key));
                assert(binds_after(layers, m0, n).contains_key(key));
            }
            if exists|k: int| 0 <= k < n && key == #[trigger] weights_name_spec(k as nat) {
                let k = choose|k: int|
                    0 <= k < n && key == #[trigger] weights_name_spec(k as nat);
                assert(binds_after(layers, m0, n) == binds_after(layers, m0, n - 1).insert(
                    weights_name_spec((n - 1) as nat),
                    layers[n - 1].weights_spec(),
                ));
                if k == n - 1 {
                    assert(key == weights_name_spec((n - 1) as nat));
                    assert(binds_after(layers, m0, n).contains_key(key));
                } else {
                    assert(0 <= k < n - 1 && key == weights_name_spec(k as nat));
                    assert(binds_after(layers, m0, n - 1).contains_key(key));
                    assert(binds_after(layers, m0, n).contains_key(key));
                }
            }
        }
    }
}

} // verus!
