//! Deferred matrix computation plans.
//!
//! A plan is an arena of immutable nodes addressed by index. Every child
//! reference points at a smaller index, so plans are acyclic by
//! construction, and a node reused as the child of several parents is the
//! same arena entry — the in-degree of an entry is what the executor's
//! reuse detection is based on. Shape compatibility is validated eagerly
//! when a node is constructed, never at execution time.

use vstd::prelude::*;

use crate::matrix::Matrix;

pub mod cpu_eval;
pub mod op;

use op::{MatrixOp, PlanNode};

verus! {

/// Why a plan operation was refused or an execution failed.
#[derive(Debug)]
pub enum PlanError {
    /// Two operands with incompatible shapes met at construction time;
    /// carries both operand shapes as (rows, columns) pairs.
    ShapeMismatch { left: (usize, usize), right: (usize, usize) },
    /// A named leaf had no binding at execution time; carries the name.
    MissingInput { name: String },
}

/// Well-formedness of the node at index `i`: every child index is smaller
/// than `i`, and the node's declared shape is consistent with its
/// children's declared shapes.
pub open spec fn wf_node<S>(nodes: Seq<PlanNode<S>>, i: int) -> bool {
    match nodes[i].op {
        MatrixOp::Input { .. } => true,
        MatrixOp::Output { matrix, .. } => matrix < i && nodes[matrix as int].rows == nodes[i].rows
            && nodes[matrix as int].cols == nodes[i].cols,
        MatrixOp::Constant { matrix } => matrix@.wf() && matrix@.rows == nodes[i].rows
            && matrix@.cols == nodes[i].cols,
        MatrixOp::Scale { matrix, .. } => matrix < i && nodes[matrix as int].rows == nodes[i].rows
            && nodes[matrix as int].cols == nodes[i].cols,
        MatrixOp::Max { matrix, .. } => matrix < i && nodes[matrix as int].rows == nodes[i].rows
            && nodes[matrix as int].cols == nodes[i].cols,
        MatrixOp::Neg { matrix } => matrix < i && nodes[matrix as int].rows == nodes[i].rows
            && nodes[matrix as int].cols == nodes[i].cols,
        MatrixOp::Transpose { matrix } => matrix < i && nodes[matrix as int].cols == nodes[i].rows
            && nodes[matrix as int].rows == nodes[i].cols,
        MatrixOp::Sign { matrix } => matrix < i && nodes[matrix as int].rows == nodes[i].rows
            && nodes[matrix as int].cols == nodes[i].cols,
        MatrixOp::Sigmoid { matrix } => matrix < i && nodes[matrix as int].rows == nodes[i].rows
            && nodes[matrix as int].cols == nodes[i].cols,
        MatrixOp::Mul { left, right } => left < i && right < i && nodes[left as int].cols
            == nodes[right as int].rows && nodes[i].rows == nodes[left as int].rows
            && nodes[i].cols == nodes[right as int].cols,
        MatrixOp::HadamardMul { left, right } => left < i && right < i && nodes[left as int].rows
            == nodes[right as int].rows && nodes[left as int].cols == nodes[right as int].cols
            && nodes[i].rows == nodes[left as int].rows && nodes[i].cols
            == nodes[left as int].cols,
        MatrixOp::Add { left, right } => left < i && right < i && nodes[left as int].rows
            == nodes[right as int].rows && nodes[left as int].cols == nodes[right as int].cols
            && nodes[i].rows == nodes[left as int].rows && nodes[i].cols
            == nodes[left as int].cols,
        MatrixOp::Sub { left, right } => left < i && right < i && nodes[left as int].rows
            == nodes[right as int].rows && nodes[left as int].cols == nodes[right as int].cols
            && nodes[i].rows == nodes[left as int].rows && nodes[i].cols
            == nodes[left as int].cols,
        MatrixOp::Combine { inner } => (forall|k: int|
            0 <= k < inner@.len() ==> inner@[k] < i) && nodes[i].rows == 0 && nodes[i].cols == 0,
    }
}

/// Well-formedness of a whole arena.
pub open spec fn plan_wf<S>(nodes: Seq<PlanNode<S>>) -> bool {
    forall|i: int| 0 <= i < nodes.len() ==> #[trigger] wf_node(nodes, i)
}

/// An arena of plan nodes. Nodes are appended by the construction methods
/// and never mutated afterwards; node indices returned by those methods
/// stay valid for the life of the plan.
pub struct MatrixPlan<S> {
    nodes: Vec<PlanNode<S>>,
}

impl<S> View for MatrixPlan<S> {
    type V = Seq<PlanNode<S>>;

    closed spec fn view(&self) -> Seq<PlanNode<S>> {
        self.nodes@
    }
}

impl<S: crate::scalar::Scalar> MatrixPlan<S> {
    /// An empty plan.
    pub fn new() -> (r: Self)
        ensures
            r@ == Seq::<PlanNode<S>>::empty(),
            plan_wf(r@),
    {
        let r = MatrixPlan { nodes: Vec::new() };
        proof {
            assert(r@ =~= Seq::<PlanNode<S>>::empty());
        }
        r
    }

    /// The number of nodes in the arena.
    pub fn len(&self) -> (r: usize)
        ensures
            r == self@.len(),
    {
        self.nodes.len()
    }

    /// The declared row count of node `node`.
    pub fn rows(&self, node: usize) -> (r: usize)
        requires
            node < self@.len(),
        ensures
            r == self@[node as int].rows,
    {
        self.nodes[node].rows
    }

    /// The declared column count of node `node`.
    pub fn cols(&self, node: usize) -> (r: usize)
        requires
            node < self@.len(),
        ensures
            r == self@[node as int].cols,
    {
        self.nodes[node].cols
    }

    /// A named leaf of the given shape, resolved from the bindings
    /// supplied at execution time.
    pub fn input(&mut self, rows: usize, cols: usize, name: String) -> (id: usize)
        requires
            plan_wf(old(self)@),
        ensures
            plan_wf(final(self)@),
            id == old(self)@.len(),
            final(self)@ == old(self)@.push(
                PlanNode { rows, cols, op: MatrixOp::Input { name } },
            ),
    {
        let id = self.nodes.len();
        self.nodes.push(PlanNode { rows, cols, op: MatrixOp::Input { name } });
        proof {
            lemma_wf_push(old(self)@, self@);
        }
        id
    }

    /// Wraps `node` as a named tap: at execution time its value is
    /// recorded under `name` in the taps mapping and returned unchanged.
    pub fn output(&mut self, node: usize, name: String) -> (id: usize)
        requires
            plan_wf(old(self)@),
            node < old(self)@.len(),
        ensures
            plan_wf(final(self)@),
            id == old(self)@.len(),
            final(self)@ == old(self)@.push(
                PlanNode {
                    rows: old(self)@[node as int].rows,
                    cols: old(self)@[node as int].cols,
                    op: MatrixOp::Output { name, matrix: node },
                },
            ),
    {
        let id = self.nodes.len();
        let rows = self.nodes[node].rows;
        let cols = self.nodes[node].cols;
        self.nodes.push(PlanNode { rows, cols, op: MatrixOp::Output { name, matrix: node } });
        proof {
            lemma_wf_push(old(self)@, self@);
        }
        id
    }

    /// A leaf carrying the fixed value `matrix`.
    pub fn constant(&mut self, matrix: Matrix<S>) -> (id: usize)
        requires
            plan_wf(old(self)@),
            matrix@.wf(),
        ensures
            plan_wf(final(self)@),
            id == old(self)@.len(),
            final(self)@ == old(self)@.push(
                PlanNode {
                    rows: matrix@.rows as usize,
                    cols: matrix@.cols as usize,
                    op: MatrixOp::Constant { matrix },
                },
            ),
    {
        let id = self.nodes.len();
        let rows = matrix.rows();
        let cols = matrix.cols();
        self.nodes.push(PlanNode { rows, cols, op: MatrixOp::Constant { matrix } });
        proof {
            lemma_wf_push(old(self)@, self@);
        }
        id
    }

    /// Bundles several roots (typically taps) into one node whose own
    /// value is a degenerate empty matrix; executing it evaluates every
    /// listed node so that all their taps are captured in one call.
    pub fn merge_outputs(&mut self, inner: Vec<usize>) -> (id: usize)
        requires
            plan_wf(old(self)@),
            forall|k: int| 0 <= k < inner@.len() ==> inner@[k] < old(self)@.len(),
        ensures
            plan_wf(final(self)@),
            id == old(self)@.len(),
            final(self)@ == old(self)@.push(
                PlanNode { rows: 0, cols: 0, op: MatrixOp::Combine { inner } },
            ),
    {
        let id = self.nodes.len();
        self.nodes.push(PlanNode { rows: 0, cols: 0, op: MatrixOp::Combine { inner } });
        proof {
            lemma_wf_push(old(self)@, self@);
        }
        id
    }

    /// Every entry of `node` multiplied by `rhs`.
    pub fn scale(&mut self, node: usize, rhs: S) -> (id: usize)
        requires
            plan_wf(old(self)@),
            node < old(self)@.len(),
        ensures
            plan_wf(final(self)@),
            id == old(self)@.len(),
            final(self)@ == old(self)@.push(
                PlanNode {
                    rows: old(self)@[node as int].rows,
                    cols: old(self)@[node as int].cols,
                    op: MatrixOp::Scale { matrix: node, scalar: rhs },
                },
            ),
    {
        let id = self.nodes.len();
        let rows = self.nodes[node].rows;
        let cols = self.nodes[node].cols;
        self.nodes.push(PlanNode { rows, cols, op: MatrixOp::Scale { matrix: node, scalar: rhs } });
        proof {
            lemma_wf_push(old(self)@, self@);
        }
        id
    }

    /// Every entry of `node` clamped from below by `rhs`.
    pub fn max(&mut self, node: usize, rhs: S) -> (id: usize)
        requires
            plan_wf(old(self)@),
            node < old(self)@.len(),
        ensures
            plan_wf(final(self)@),
            id == old(self)@.len(),
            final(self)@ == old(self)@.push(
                PlanNode {
                    rows: old(self)@[node as int].rows,
                    cols: old(self)@[node as int].cols,
                    op: MatrixOp::Max { matrix: node, scalar: rhs },
                },
            ),
    {
        let id = self.nodes.len();
        let rows = self.nodes[node].rows;
        let cols = self.nodes[node].cols;
        self.nodes.push(PlanNode { rows, cols, op: MatrixOp::Max { matrix: node, scalar: rhs } });
        proof {
            lemma_wf_push(old(self)@, self@);
        }
        id
    }

    /// Elementwise negation of `node`.
    pub fn neg(&mut self, node: usize) -> (id: usize)
        requires
            plan_wf(old(self)@),
            node < old(self)@.len(),
        ensures
            plan_wf(final(self)@),
            id == old(self)@.len(),
            final(self)@ == old(self)@.push(
                PlanNode {
                    rows: old(self)@[node as int].rows,
                    cols: old(self)@[node as int].cols,
                    op: MatrixOp::Neg { matrix: node },
                },
            ),
    {
        let id = self.nodes.len();
        let rows = self.nodes[node].rows;
        let cols = self.nodes[node].cols;
        self.nodes.push(PlanNode { rows, cols, op: MatrixOp::Neg { matrix: node } });
        proof {
            lemma_wf_push(old(self)@, self@);
        }
        id
    }

    /// The transpose of `node`: the new node's shape has rows and columns
    /// swapped.
    pub fn transpose(&mut self, node: usize) -> (id: usize)
        requires
            plan_wf(old(self)@),
            node < old(self)@.len(),
        ensures
            plan_wf(final(self)@),
            id == old(self)@.len(),
            final(self)@ == old(self)@.push(
                PlanNode {
                    rows: old(self)@[node as int].cols,
                    cols: old(self)@[node as int].rows,
                    op: MatrixOp::Transpose { matrix: node },
                },
            ),
    {
        let id = self.nodes.len();
        let rows = self.nodes[node].cols;
        let cols = self.nodes[node].rows;
        self.nodes.push(PlanNode { rows, cols, op: MatrixOp::Transpose { matrix: node } });
        proof {
            lemma_wf_push(old(self)@, self@);
        }
        id
    }

    /// The elementwise sign of `node`.
    pub fn sign(&mut self, node: usize) -> (id: usize)
        requires
            plan_wf(old(self)@),
            node < old(self)@.len(),
        ensures
            plan_wf(final(self)@),
            id == old(self)@.len(),
            final(self)@ == old(self)@.push(
                PlanNode {
                    rows: old(self)@[node as int].rows,
                    cols: old(self)@[node as int].cols,
                    op: MatrixOp::Sign { matrix: node },
                },
            ),
    {
        let id = self.nodes.len();
        let rows = self.nodes[node].rows;
        let cols = self.nodes[node].cols;
        self.nodes.push(PlanNode { rows, cols, op: MatrixOp::Sign { matrix: node } });
        proof {
            lemma_wf_push(old(self)@, self@);
        }
        id
    }

    /// The elementwise logistic curve of `node`.
    pub fn sigmoid(&mut self, node: usize) -> (id: usize)
        requires
            plan_wf(old(self)@),
            node < old(self)@.len(),
        ensures
            plan_wf(final(self)@),
            id == old(self)@.len(),
            final(self)@ == old(self)@.push(
                PlanNode {
                    rows: old(self)@[node as int].rows,
                    cols: old(self)@[node as int].cols,
                    op: MatrixOp::Sigmoid { matrix: node },
                },
            ),
    {
        let id = self.nodes.len();
        let rows = self.nodes[node].rows;
        let cols = self.nodes[node].cols;
        self.nodes.push(PlanNode { rows, cols, op: MatrixOp::Sigmoid { matrix: node } });
        proof {
            lemma_wf_push(old(self)@, self@);
        }
        id
    }

    /// The matrix product of `left` and `right`. Fails with
    /// `ShapeMismatch` — and leaves the plan unchanged — unless the left
    /// operand's column count equals the right operand's row count.
    pub fn mul(&mut self, left: usize, right: usize) -> (r: Result<usize, PlanError>)
        requires
            plan_wf(old(self)@),
            left < old(self)@.len(),
            right < old(self)@.len(),
        ensures
            plan_wf(final(self)@),
            r is Ok <==> old(self)@[left as int].cols == old(self)@[right as int].rows,
            r is Err ==> *final(self) == *old(self) && (r matches Err(
                PlanError::ShapeMismatch { .. },
            )),
            r matches Ok(id) ==> id == old(self)@.len() && final(self)@ == old(self)@.push(
                PlanNode {
                    rows: old(self)@[left as int].rows,
                    cols: old(self)@[right as int].cols,
                    op: MatrixOp::Mul { left, right },
                },
            ),
    {
        if self.nodes[left].cols != self.nodes[right].rows {
            return Err(
                PlanError::ShapeMismatch {
                    left: (self.nodes[left].rows, self.nodes[left].cols),
                    right: (self.nodes[right].rows, self.nodes[right].cols),
                },
            );
        }
        let id = self.nodes.len();
        let rows = self.nodes[left].rows;
        let cols = self.nodes[right].cols;
        self.nodes.push(PlanNode { rows, cols, op: MatrixOp::Mul { left, right } });
        proof {
            lemma_wf_push(old(self)@, self@);
        }
        Ok(id)
    }

    /// The elementwise product of `left` and `right`. Fails with
    /// `ShapeMismatch` — and leaves the plan unchanged — unless the two
    /// shapes are identical.
    pub fn hadamard_mul(&mut self, left: usize, right: usize) -> (r: Result<usize, PlanError>)
        requires
            plan_wf(old(self)@),
            left < old(self)@.len(),
            right < old(self)@.len(),
        ensures
            plan_wf(final(self)@),
            r is Ok <==> old(self)@[left as int].rows == old(self)@[right as int].rows && old(
                self,
            )@[left as int].cols == old(self)@[right as int].cols,
            r is Err ==> *final(self) == *old(self) && (r matches Err(
                PlanError::ShapeMismatch { .. },
            )),
            r matches Ok(id) ==> id == old(self)@.len() && final(self)@ == old(self)@.push(
                PlanNode {
                    rows: old(self)@[left as int].rows,
                    cols: old(self)@[left as int].cols,
                    op: MatrixOp::HadamardMul { left, right },
                },
            ),
    {
        if self.nodes[left].rows != self.nodes[right].rows || self.nodes[left].cols
            != self.nodes[right].cols {
            return Err(
                PlanError::ShapeMismatch {
                    left: (self.nodes[left].rows, self.nodes[left].cols),
                    right: (self.nodes[right].rows, self.nodes[right].cols),
                },
            );
        }
        let id = self.nodes.len();
        let rows = self.nodes[left].rows;
        let cols = self.nodes[left].cols;
        self.nodes.push(PlanNode { rows, cols, op: MatrixOp::HadamardMul { left, right } });
        proof {
            lemma_wf_push(old(self)@, self@);
        }
        Ok(id)
    }

    /// The elementwise sum of `left` and `right`. Fails with
    /// `ShapeMismatch` — and leaves the plan unchanged — unless the two
    /// shapes are identical.
    pub fn add(&mut self, left: usize, right: usize) -> (r: Result<usize, PlanError>)
        requires
            plan_wf(old(self)@),
            left < old(self)@.len(),
            right < old(self)@.len(),
        ensures
            plan_wf(final(self)@),
            r is Ok <==> old(self)@[left as int].rows == old(self)@[right as int].rows && old(
                self,
            )@[left as int].cols == old(self)@[right as int].cols,
            r is Err ==> *final(self) == *old(self) && (r matches Err(
                PlanError::ShapeMismatch { .. },
            )),
            r matches Ok(id) ==> id == old(self)@.len() && final(self)@ == old(self)@.push(
                PlanNode {
                    rows: old(self)@[left as int].rows,
                    cols: old(self)@[left as int].cols,
                    op: MatrixOp::Add { left, right },
                },
            ),
    {
        if self.nodes[left].rows != self.nodes[right].rows || self.nodes[left].cols
            != self.nodes[right].cols {
            return Err(
                PlanError::ShapeMismatch {
                    left: (self.nodes[left].rows, self.nodes[left].cols),
                    right: (self.nodes[right].rows, self.nodes[right].cols),
                },
            );
        }
        let id = self.nodes.len();
        let rows = self.nodes[left].rows;
        let cols = self.nodes[left].cols;
        self.nodes.push(PlanNode { rows, cols, op: MatrixOp::Add { left, right } });
        proof {
            lemma_wf_push(old(self)@, self@);
        }
        Ok(id)
    }

    /// The elementwise difference of `left` and `right`. Fails with
    /// `ShapeMismatch` — and leaves the plan unchanged — unless the two
    /// shapes are identical.
    pub fn sub(&mut self, left: usize, right: usize) -> (r: Result<usize, PlanError>)
        requires
            plan_wf(old(self)@),
            left < old(self)@.len(),
            right < old(self)@.len(),
        ensures
            plan_wf(final(self)@),
            r is Ok <==> old(self)@[left as int].rows == old(self)@[right as int].rows && old(
                self,
            )@[left as int].cols == old(self)@[right as int].cols,
            r is Err ==> *final(self) == *old(self) && (r matches Err(
                PlanError::ShapeMismatch { .. },
            )),
            r matches Ok(id) ==> id == old(self)@.len() && final(self)@ == old(self)@.push(
                PlanNode {
                    rows: old(self)@[left as int].rows,
                    cols: old(self)@[left as int].cols,
                    op: MatrixOp::Sub { left, right },
                },
            ),
    {
        if self.nodes[left].rows != self.nodes[right].rows || self.nodes[left].cols
            != self.nodes[right].cols {
            return Err(
                PlanError::ShapeMismatch {
                    left: (self.nodes[left].rows, self.nodes[left].cols),
                    right: (self.nodes[right].rows, self.nodes[right].cols),
                },
            );
        }
        let id = self.nodes.len();
        let rows = self.nodes[left].rows;
        let cols = self.nodes[left].cols;
        self.nodes.push(PlanNode { rows, cols, op: MatrixOp::Sub { left, right } });
        proof {
            lemma_wf_push(old(self)@, self@);
        }
        Ok(id)
    }
}

/// Whether some listed pair carries the name and shape of leaf `t`.
pub open spec fn input_listed<S>(
    out: Seq<(String, (usize, usize))>,
    nodes: Seq<PlanNode<S>>,
    t: int,
) -> bool {
    exists|p: int|
        0 <= p < out.len() && (#[trigger] out[p].0)@ == cpu_eval::input_name(nodes, t)
            && out[p].1.0 == nodes[t].rows && out[p].1.1 == nodes[t].cols
}

/// Whether every leaf in the subgraph of each visited node is listed.
pub open spec fn visited_covered<S>(
    visited: Seq<bool>,
    out: Seq<(String, (usize, usize))>,
    nodes: Seq<PlanNode<S>>,
) -> bool {
    forall|j: int, t: int|
        0 <= j < nodes.len() && visited[j] && 0 <= t < nodes.len() && #[trigger] cpu_eval::reaches(
            nodes,
            j,
            t,
        ) && cpu_eval::is_input(nodes, t) ==> input_listed(out, nodes, t)
}

/// Whether the listed pair at `p` carries the name and shape of leaf `j`.
pub open spec fn entry_from<S>(
    out: Seq<(String, (usize, usize))>,
    nodes: Seq<PlanNode<S>>,
    p: int,
    j: int,
) -> bool {
    0 <= j < nodes.len() && cpu_eval::is_input(nodes, j) && (out[p].0)@ == cpu_eval::input_name(
        nodes,
        j,
    ) && out[p].1.0 == nodes[j].rows && out[p].1.1 == nodes[j].cols
}

/// Whether the listed pair at `p` comes from some visited leaf.
pub open spec fn sourced_at<S>(
    visited: Seq<bool>,
    out: Seq<(String, (usize, usize))>,
    nodes: Seq<PlanNode<S>>,
    p: int,
) -> bool {
    exists|j: int| #[trigger] entry_from(out, nodes, p, j) && visited[j]
}

/// Whether the listed pair at `p` comes from a leaf reachable from
/// `root`.
pub open spec fn listed_reachable<S>(
    out: Seq<(String, (usize, usize))>,
    nodes: Seq<PlanNode<S>>,
    root: int,
    p: int,
) -> bool {
    exists|j: int| #[trigger] entry_from(out, nodes, p, j) && cpu_eval::reaches(nodes, root, j)
}

/// Whether the listed pair at `p` is sourced from the leaf `srcs[p]`,
/// which is visited.
pub open spec fn source_ok<S>(
    visited: Seq<bool>,
    out: Seq<(String, (usize, usize))>,
    nodes: Seq<PlanNode<S>>,
    srcs: Seq<int>,
    p: int,
) -> bool {
    entry_from(out, nodes, p, srcs[p]) && visited[srcs[p]]
}

/// Whether `srcs` assigns a distinct visited leaf to every listed pair.
pub open spec fn sources_witness<S>(
    visited: Seq<bool>,
    out: Seq<(String, (usize, usize))>,
    nodes: Seq<PlanNode<S>>,
    srcs: Seq<int>,
) -> bool {
    &&& srcs.len() == out.len()
    &&& (forall|p: int| 0 <= p < out.len() ==> #[trigger] source_ok(visited, out, nodes, srcs, p))
    &&& (forall|p1: int, p2: int|
        #![trigger srcs[p1], srcs[p2]]
        0 <= p1 < p2 < out.len() ==> srcs[p1] != srcs[p2])
}

/// Whether `srcs` assigns a distinct reachable leaf to every listed
/// pair: the listing covers no leaf twice.
pub open spec fn listed_distinctly<S>(
    out: Seq<(String, (usize, usize))>,
    nodes: Seq<PlanNode<S>>,
    root: int,
    srcs: Seq<int>,
) -> bool {
    &&& srcs.len() == out.len()
    &&& (forall|p: int|
        0 <= p < out.len() ==> #[trigger] entry_from(out, nodes, p, srcs[p]) && cpu_eval::reaches(
            nodes,
            root,
            srcs[p],
        ))
    &&& (forall|p1: int, p2: int| 0 <= p1 < p2 < out.len() ==> srcs[p1] != srcs[p2])
}

/// Whether every listed pair comes from its own visited leaf: no leaf is
/// listed twice.
pub open spec fn listed_sourced<S>(
    visited: Seq<bool>,
    out: Seq<(String, (usize, usize))>,
    nodes: Seq<PlanNode<S>>,
) -> bool {
    exists|srcs: Seq<int>| #[trigger] sources_witness(visited, out, nodes, srcs)
}

impl<S: crate::scalar::Scalar> MatrixPlan<S> {
    /// Evaluates node `root` against `inputs` on the CPU: the root's
    /// value and the captured taps, or the name of an unbound leaf.
    pub fn execute_cpu(&self, root: usize, inputs: &crate::bindings::MatrixMap<S>) -> (r: Result<
        (Matrix<S>, crate::bindings::MatrixMap<S>),
        PlanError,
    >)
        requires
            plan_wf(self@),
            root < self@.len(),
            inputs.wf(),
            cpu_eval::binds_shaped(self@, inputs@),
        ensures
            r is Ok <==> cpu_eval::inputs_ok(self@, inputs@, root as int),
            r matches Ok((m, taps)) ==> m@ == cpu_eval::node_val(self@, inputs@, root as int)
                && m@.wf() && m@.rows == self@[root as int].rows && m@.cols
                == self@[root as int].cols && taps.wf() && taps@.dom() == cpu_eval::tap_names(
                self@,
                root as int,
            ) && cpu_eval::taps_consistent(self@, inputs@, taps@) && cpu_eval::unique_taps_exact(
                self@,
                inputs@,
                taps@,
                root as int,
            ),
            r matches Err(e) ==> e matches PlanError::MissingInput { name }
                && cpu_eval::missing_input(self@, inputs@, root as int, name@),
    {
        cpu_eval::MatrixPlanCPUContext::execute(self, root, inputs)
    }

    /// The distinct named leaves in the subgraph of `root`, each with its
    /// declared shape, in depth-first first-visit order. The contract
    /// states coverage (every reachable leaf is listed), soundness (every
    /// entry comes from a reachable leaf), and distinctness (no leaf is
    /// listed twice); the visit order is left to the implementation.
    pub fn inputs(&self, root: usize) -> (r: Vec<(String, (usize, usize))>)
        requires
            plan_wf(self@),
            root < self@.len(),
        ensures
            forall|t: int|
                0 <= t < self@.len() && #[trigger] cpu_eval::reaches(self@, root as int, t)
                    && cpu_eval::is_input(self@, t) ==> input_listed(r@, self@, t),
            forall|p: int|
                0 <= p < r@.len() ==> #[trigger] listed_reachable(r@, self@, root as int, p),
            exists|srcs: Seq<int>| #[trigger] listed_distinctly(r@, self@, root as int, srcs),
    {
        let n = self.nodes.len();
        let mut visited: Vec<bool> = Vec::new();
        let mut z: usize = 0;
        while z < n
            invariant
                z <= n,
                visited@.len() == z,
                forall|t: int| 0 <= t < z ==> !visited@[t],
            decreases n - z,
        {
            visited.push(false);
            z = z + 1;
        }
        let mut out: Vec<(String, (usize, usize))> = Vec::new();
        proof {
            assert(sources_witness(visited@, out@, self@, Seq::<int>::empty()));
        }
        self.inputs_recur(root, &mut visited, &mut out);
        proof {
            assert(cpu_eval::reaches(self@, root as int, root as int));
            let srcs = choose|srcs: Seq<int>|
                #[trigger] sources_witness(visited@, out@, self@, srcs);
            assert(sources_witness(visited@, out@, self@, srcs));
            assert forall|p: int|
                0 <= p < out@.len() implies #[trigger] entry_from(out@, self@, p, srcs[p])
                && cpu_eval::reaches(self@, root as int, srcs[p]) by {
                assert(source_ok(visited@, out@, self@, srcs, p));
                assert(cpu_eval::reaches(self@, root as int, srcs[p]));
            }
            assert forall|p: int| 0 <= p < out@.len() implies listed_reachable(
                out@,
                self@,
                root as int,
                p,
            ) by {
                assert(entry_from(out@, self@, p, srcs[p]) && cpu_eval::reaches(
                    self@,
                    root as int,
                    srcs[p],
                ));
            }
            assert(listed_distinctly(out@, self@, root as int, srcs));
        }
        out
    }

    /// Depth-first collection of named leaves, marking each node once its
    /// whole subgraph has been listed.
    fn inputs_recur(
        &self,
        i: usize,
        visited: &mut Vec<bool>,
        out: &mut Vec<(String, (usize, usize))>,
    )
        requires
            plan_wf(self@),
            i < self@.len(),
            old(visited)@.len() == self@.len(),
            visited_covered(old(visited)@, old(out)@, self@),
            listed_sourced(old(visited)@, old(out)@, self@),
        ensures
            final(visited)@.len() == self@.len(),
            visited_covered(final(visited)@, final(out)@, self@),
            listed_sourced(final(visited)@, final(out)@, self@),
            forall|j: int| 0 <= j < self@.len() && old(visited)@[j] ==> final(visited)@[j],
            forall|j: int|
                0 <= j < self@.len() && !old(visited)@[j] && final(visited)@[j]
                    ==> cpu_eval::reaches(self@, i as int, j),
            final(visited)@[i as int],
        decreases i,
    {
        let ghost nodes = self@;
        if visited[i] {
            return ;
        }
        proof {
            assert(wf_node(nodes, i as int));
            assert(cpu_eval::reaches(nodes, i as int, i as int));
        }
        match &self.nodes[i].op {
            MatrixOp::Input { name } => {
                let ghost preo = out@;
                out.push((name.clone(), (self.nodes[i].rows, self.nodes[i].cols)));
                visited.set(i, true);
                proof {
                    cpu_eval::lemma_reach_leaf(nodes, i as int);
                    let p = out@.len() - 1;
                    assert((out@[p].0)@ == cpu_eval::input_name(nodes, i as int));
                    assert(input_listed(out@, nodes, i as int));
                    lemma_listed_grows(preo, out@, nodes);
                    assert forall|j: int, t: int|
                        0 <= j < nodes.len() && visited@[j] && 0 <= t < nodes.len()
                            && #[trigger] cpu_eval::reaches(nodes, j, t) && cpu_eval::is_input(
                            nodes,
                            t,
                        ) implies input_listed(out@, nodes, t) by {
                        if j != i as int {
                            assert(input_listed(preo, nodes, t));
                        }
                    }
                    assert(preo == old(out)@);
                    assert(listed_sourced(old(visited)@, preo, nodes));
                    let srcs0 = choose|srcs: Seq<int>|
                        #[trigger] sources_witness(old(visited)@, preo, nodes, srcs);
                    assert(sources_witness(old(visited)@, preo, nodes, srcs0));
                    let srcs1 = srcs0.push(i as int);
                    assert forall|p2: int|
                        0 <= p2 < out@.len() implies #[trigger] source_ok(
                        visited@,
                        out@,
                        nodes,
                        srcs1,
                        p2,
                    ) by {
                        if p2 < preo.len() {
                            assert(source_ok(old(visited)@, preo, nodes, srcs0, p2));
                            assert(out@[p2] == preo[p2]);
                            assert(srcs1[p2] == srcs0[p2]);
                        } else {
                            assert(srcs1[p2] == i as int);
                            assert(entry_from(out@, nodes, p2, i as int) && visited@[i as int]);
                        }
                    }
                    assert forall|p1: int, p2: int|
                        #![trigger srcs1[p1], srcs1[p2]]
                        0 <= p1 < p2 < out@.len() implies srcs1[p1] != srcs1[p2] by {
                        if p2 < preo.len() {
                            assert(srcs1[p1] == srcs0[p1] && srcs1[p2] == srcs0[p2]);
                        } else {
                            assert(srcs1[p2] == i as int);
                            assert(source_ok(old(visited)@, preo, nodes, srcs0, p1));
                            assert(!old(visited)@[i as int]);
                        }
                    }
                    assert(sources_witness(visited@, out@, nodes, srcs1));
                }
            },
            MatrixOp::Constant { .. } => {
                visited.set(i, true);
                proof {
                    cpu_eval::lemma_reach_leaf(nodes, i as int);
                    lemma_sourced_grows(old(visited)@, visited@, out@, nodes);
                    assert forall|j: int, t: int|
                        0 <= j < nodes.len() && visited@[j] && 0 <= t < nodes.len()
                            && #[trigger] cpu_eval::reaches(nodes, j, t) && cpu_eval::is_input(
                            nodes,
                            t,
                        ) implies input_listed(out@, nodes, t) by {
                        if j == i as int {
                            assert(t == i as int);
                            assert(false);
                        }
                    }
                }
            },
            MatrixOp::Output { matrix, .. } => {
                let c = *matrix;
                let ghost pre0 = visited@;
                self.inputs_recur(c, visited, out);
                self.mark_one(i, c, Ghost(pre0), visited, out);
            },
            MatrixOp::Scale { matrix, .. } => {
                let c = *matrix;
                let ghost pre0 = visited@;
                self.inputs_recur(c, visited, out);
                self.mark_one(i, c, Ghost(pre0), visited, out);
            },
            MatrixOp::Max { matrix, .. } => {
                let c = *matrix;
                let ghost pre0 = visited@;
                self.inputs_recur(c, visited, out);
                self.mark_one(i, c, Ghost(pre0), visited, out);
            },
            MatrixOp::Neg { matrix } => {
                let c = *matrix;
                let ghost pre0 = visited@;
                self.inputs_recur(c, visited, out);
                self.mark_one(i, c, Ghost(pre0), visited, out);
            },
            MatrixOp::Transpose { matrix } => {
                let c = *matrix;
                let ghost pre0 = visited@;
                self.inputs_recur(c, visited, out);
                self.mark_one(i, c, Ghost(pre0), visited, out);
            },
            MatrixOp::Sign { matrix } => {
                let c = *matrix;
                let ghost pre0 = visited@;
                self.inputs_recur(c, visited, out);
                self.mark_one(i, c, Ghost(pre0), visited, out);
            },
            MatrixOp::Sigmoid { matrix } => {
                let c = *matrix;
                let ghost pre0 = visited@;
                self.inputs_recur(c, visited, out);
                self.mark_one(i, c, Ghost(pre0), visited, out);
            },
            MatrixOp::Mul { left, right } => {
                let l = *left;
                let rr = *right;
                let ghost pre0 = visited@;
                self.inputs_recur(l, visited, out);
                let ghost mid = visited@;
                self.inputs_recur(rr, visited, out);
                self.mark_two(i, l, rr, Ghost(pre0), Ghost(mid), visited, out);
            },
            MatrixOp::HadamardMul { left, right } => {
                let l = *left;
                let rr = *right;
                let ghost pre0 = visited@;
                self.inputs_recur(l, visited, out);
                let ghost mid = visited@;
                self.inputs_recur(rr, visited, out);
                self.mark_two(i, l, rr, Ghost(pre0), Ghost(mid), visited, out);
            },
            MatrixOp::Add { left, right } => {
                let l = *left;
                let rr = *right;
                let ghost pre0 = visited@;
                self.inputs_recur(l, visited, out);
                let ghost mid = visited@;
                self.inputs_recur(rr, visited, out);
                self.mark_two(i, l, rr, Ghost(pre0), Ghost(mid), visited, out);
            },
            MatrixOp::Sub { left, right } => {
                let l = *left;
                let rr = *right;
                let ghost pre0 = visited@;
                self.inputs_recur(l, visited, out);
                let ghost mid = visited@;
                self.inputs_recur(rr, visited, out);
                self.mark_two(i, l, rr, Ghost(pre0), Ghost(mid), visited, out);
            },
            MatrixOp::Combine { inner } => {
                let m = inner.len();
                let mut k: usize = 0;
                while k < m
                    invariant
                        plan_wf(nodes),
                        nodes == self@,
                        i < nodes.len(),
                        wf_node(nodes, i as int),
                        nodes[i as int].op matches MatrixOp::Combine { inner: inn } && inn@
                            == inner@,
                        m == inner@.len(),
                        k <= m,
                        visited@.len() == nodes.len(),
                        visited_covered(visited@, out@, nodes),
                        listed_sourced(visited@, out@, nodes),
                        forall|j: int| 0 <= j < nodes.len() && old(visited)@[j] ==> visited@[j],
                        forall|j: int|
                            0 <= j < nodes.len() && !old(visited)@[j] && visited@[j]
                                ==> cpu_eval::reaches(nodes, i as int, j),
                        forall|t: int| 0 <= t < k ==> visited@[#[trigger] inner@[t] as int],
                    decreases m - k,
                {
                    proof {
                        assert(cpu_eval::is_child(nodes, i as int, inner@[k as int] as int));
                        cpu_eval::lemma_reaches_child(nodes, i as int, inner@[k as int] as int);
                    }
                    let c = inner[k];
                    let ghost pre = visited@;
                    self.inputs_recur(c, visited, out);
                    proof {
                        assert forall|j: int|
                            0 <= j < nodes.len() && !old(visited)@[j] && visited@[j] implies
                            cpu_eval::reaches(nodes, i as int, j) by {
                            if !pre[j] {
                                cpu_eval::lemma_reaches_trans(nodes, i as int, c as int, j);
                            }
                        }
                    }
                    k = k + 1;
                }
                let ghost pre = visited@;
                visited.set(i, true);
                proof {
                    cpu_eval::lemma_reach_list(nodes, i as int, inner@);
                    lemma_sourced_grows(pre, visited@, out@, nodes);
                    assert forall|j: int, t: int|
                        0 <= j < nodes.len() && visited@[j] && 0 <= t < nodes.len()
                            && #[trigger] cpu_eval::reaches(nodes, j, t) && cpu_eval::is_input(
                            nodes,
                            t,
                        ) implies input_listed(out@, nodes, t) by {
                        if j == i as int && t != i as int {
                            let u = choose|u: int|
                                0 <= u < inner@.len() && cpu_eval::reaches(
                                    nodes,
                                    #[trigger] inner@[u] as int,
                                    t,
                                );
                            assert(pre[inner@[u] as int]);
                        }
                    }
                }
            },
        }
    }

    /// Marks a single-child node visited once its child's subgraph has
    /// been listed.
    fn mark_one(
        &self,
        i: usize,
        c: usize,
        Ghost(pre0): Ghost<Seq<bool>>,
        visited: &mut Vec<bool>,
        out: &mut Vec<(String, (usize, usize))>,
    )
        requires
            plan_wf(self@),
            i < self@.len(),
            0 <= c < i,
            forall|d: int| #[trigger] cpu_eval::is_child(self@, i as int, d) <==> d == c,
            !cpu_eval::is_input(self@, i as int),
            old(visited)@.len() == self@.len(),
            pre0.len() == self@.len(),
            old(visited)@[c as int],
            forall|j: int| 0 <= j < self@.len() && pre0[j] ==> old(visited)@[j],
            forall|j: int|
                0 <= j < self@.len() && !pre0[j] && old(visited)@[j] ==> cpu_eval::reaches(
                    self@,
                    c as int,
                    j,
                ),
            visited_covered(old(visited)@, old(out)@, self@),
            listed_sourced(old(visited)@, old(out)@, self@),
        ensures
            final(visited)@.len() == self@.len(),
            final(out)@ == old(out)@,
            visited_covered(final(visited)@, final(out)@, self@),
            listed_sourced(final(visited)@, final(out)@, self@),
            final(visited)@ == old(visited)@.update(i as int, true),
            forall|j: int| 0 <= j < self@.len() && pre0[j] ==> final(visited)@[j],
            forall|j: int|
                0 <= j < self@.len() && !pre0[j] && final(visited)@[j] ==> cpu_eval::reaches(
                    self@,
                    i as int,
                    j,
                ),
        decreases i,
    {
        let ghost nodes = self@;
        let ghost pre = visited@;
        visited.set(i, true);
        proof {
            cpu_eval::lemma_reach_one(nodes, i as int, c as int);
            lemma_sourced_grows(pre, visited@, out@, nodes);
            assert forall|j: int, t: int|
                0 <= j < nodes.len() && visited@[j] && 0 <= t < nodes.len()
                    && #[trigger] cpu_eval::reaches(nodes, j, t) && cpu_eval::is_input(
                    nodes,
                    t,
                ) implies input_listed(out@, nodes, t) by {
                if j == i as int && t != i as int {
                    assert(cpu_eval::reaches(nodes, c as int, t));
                    assert(pre[c as int]);
                }
            }
        }
    }

    /// Marks a two-child node visited once both children's subgraphs have
    /// been listed.
    fn mark_two(
        &self,
        i: usize,
        l: usize,
        r: usize,
        Ghost(pre0): Ghost<Seq<bool>>,
        Ghost(mid): Ghost<Seq<bool>>,
        visited: &mut Vec<bool>,
        out: &mut Vec<(String, (usize, usize))>,
    )
        requires
            plan_wf(self@),
            i < self@.len(),
            0 <= l < i,
            0 <= r < i,
            forall|d: int| #[trigger] cpu_eval::is_child(self@, i as int, d) <==> (d == l || d
                == r),
            !cpu_eval::is_input(self@, i as int),
            !cpu_eval::is_output(self@, i as int),
            old(visited)@.len() == self@.len(),
            pre0.len() == self@.len(),
            mid.len() == self@.len(),
            old(visited)@[l as int],
            old(visited)@[r as int],
            forall|j: int| 0 <= j < self@.len() && pre0[j] ==> mid[j],
            forall|j: int| 0 <= j < self@.len() && mid[j] ==> old(visited)@[j],
            forall|j: int|
                0 <= j < self@.len() && !pre0[j] && mid[j] ==> cpu_eval::reaches(
                    self@,
                    l as int,
                    j,
                ),
            forall|j: int|
                0 <= j < self@.len() && !mid[j] && old(visited)@[j] ==> cpu_eval::reaches(
                    self@,
                    r as int,
                    j,
                ),
            visited_covered(old(visited)@, old(out)@, self@),
            listed_sourced(old(visited)@, old(out)@, self@),
        ensures
            final(visited)@.len() == self@.len(),
            final(out)@ == old(out)@,
            visited_covered(final(visited)@, final(out)@, self@),
            listed_sourced(final(visited)@, final(out)@, self@),
            final(visited)@ == old(visited)@.update(i as int, true),
            forall|j: int| 0 <= j < self@.len() && pre0[j] ==> final(visited)@[j],
            forall|j: int|
                0 <= j < self@.len() && !pre0[j] && final(visited)@[j] ==> cpu_eval::reaches(
                    self@,
                    i as int,
                    j,
                ),
        decreases i,
    {
        let ghost nodes = self@;
        let ghost pre = visited@;
        visited.set(i, true);
        proof {
            cpu_eval::lemma_reach_two(nodes, i as int, l as int, r as int);
            lemma_sourced_grows(pre, visited@, out@, nodes);
            assert forall|j: int, t: int|
                0 <= j < nodes.len() && visited@[j] && 0 <= t < nodes.len()
                    && #[trigger] cpu_eval::reaches(nodes, j, t) && cpu_eval::is_input(
                    nodes,
                    t,
                ) implies input_listed(out@, nodes, t) by {
                if j == i as int && t != i as int {
                    assert(cpu_eval::reaches(nodes, l as int, t) || cpu_eval::reaches(
                        nodes,
                        r as int,
                        t,
                    ));
                }
            }
        }
    }
}

/// A longer list still carries everything a prefix of it listed.
proof fn lemma_listed_grows<S>(
    out1: Seq<(String, (usize, usize))>,
    out2: Seq<(String, (usize, usize))>,
    nodes: Seq<PlanNode<S>>,
)
    requires
        out1.len() <= out2.len(),
        forall|p: int| 0 <= p < out1.len() ==> out2[p] == out1[p],
    ensures
        forall|t: int| input_listed(out1, nodes, t) ==> input_listed(out2, nodes, t),
{
    assert forall|t: int| input_listed(out1, nodes, t) implies input_listed(out2, nodes, t) by {
        let p = choose|p: int|
            0 <= p < out1.len() && (#[trigger] out1[p].0)@ == cpu_eval::input_name(nodes, t)
                && out1[p].1.0 == nodes[t].rows && out1[p].1.1 == nodes[t].cols;
        assert((out2[p].0)@ == cpu_eval::input_name(nodes, t));
    }
}

/// Marking more nodes visited keeps every listed pair sourced.
proof fn lemma_sourced_grows<S>(
    v1: Seq<bool>,
    v2: Seq<bool>,
    out: Seq<(String, (usize, usize))>,
    nodes: Seq<PlanNode<S>>,
)
    requires
        v1.len() == v2.len(),
        v1.len() == nodes.len(),
        forall|j: int| 0 <= j < v1.len() && v1[j] ==> v2[j],
        listed_sourced(v1, out, nodes),
    ensures
        listed_sourced(v2, out, nodes),
{
    let srcs = choose|srcs: Seq<int>| #[trigger] sources_witness(v1, out, nodes, srcs);
    assert(sources_witness(v1, out, nodes, srcs));
    assert forall|p: int| 0 <= p < out.len() implies #[trigger] source_ok(
        v2,
        out,
        nodes,
        srcs,
        p,
    ) by {
        assert(source_ok(v1, out, nodes, srcs, p));
    }
    assert(sources_witness(v2, out, nodes, srcs));
}

/// Appending a node whose children all lie in the old prefix, and whose
/// shape is consistent with them, keeps the whole arena well formed.
proof fn lemma_wf_push<S>(s1: Seq<PlanNode<S>>, s2: Seq<PlanNode<S>>)
    requires
        plan_wf(s1),
        s2.len() == s1.len() + 1,
        forall|i: int| 0 <= i < s1.len() ==> s2[i] == s1[i],
        wf_node(s2, s1.len() as int),
    ensures
        plan_wf(s2),
{
    assert forall|i: int| 0 <= i < s2.len() implies wf_node(s2, i) by {
        if i < s1.len() {
            assert(wf_node(s1, i));
        }
    }
}

} // verus!
