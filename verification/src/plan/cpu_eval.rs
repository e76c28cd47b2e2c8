//! The CPU executor: single-threaded, depth-first, post-order evaluation
//! of a plan node against concrete bindings, with identity-based
//! memoization of shared subgraphs and capture of named taps.
//!
//! The semantics below pin execution down exactly: what a node evaluates
//! to, which leaves it reaches, and which tap names it records. The
//! original defensive check that a computed shape matches the declared
//! one is proved impossible to fail here, so no internal shape error can
//! arise at execution time.

use vstd::prelude::*;

use crate::bindings::MatrixMap;
use crate::matrix::{
    add_v, hadamard_v, max_v, mul_v, neg_v, scale_v, sigmoid_v, sign_v, sub_v, transpose_v, MatV,
    Matrix,
};
use crate::scalar::Scalar;

use super::op::{MatrixOp, PlanNode};
use super::{plan_wf, wf_node, MatrixPlan, PlanError};

verus! {

/// Whether node `child` is a direct child of node `parent`.
pub open spec fn is_child<S>(nodes: Seq<PlanNode<S>>, parent: int, child: int) -> bool {
    match nodes[parent].op {
        MatrixOp::Input { .. } => false,
        MatrixOp::Constant { .. } => false,
        MatrixOp::Output { matrix, .. } => child == matrix,
        MatrixOp::Scale { matrix, .. } => child == matrix,
        MatrixOp::Max { matrix, .. } => child == matrix,
        MatrixOp::Neg { matrix } => child == matrix,
        MatrixOp::Transpose { matrix } => child == matrix,
        MatrixOp::Sign { matrix } => child == matrix,
        MatrixOp::Sigmoid { matrix } => child == matrix,
        MatrixOp::Mul { left, right } => child == left || child == right,
        MatrixOp::HadamardMul { left, right } => child == left || child == right,
        MatrixOp::Add { left, right } => child == left || child == right,
        MatrixOp::Sub { left, right } => child == left || child == right,
        MatrixOp::Combine { inner } => exists|k: int|
            0 <= k < inner@.len() && (#[trigger] inner@[k]) == child,
    }
}

/// Whether node `to` lies in the subgraph rooted at `from`. Children have
/// smaller indices than their parents in a well-formed plan, which is
/// what the recursion descends on.
pub open spec fn reaches<S>(nodes: Seq<PlanNode<S>>, from: int, to: int) -> bool
    decreases from,
{
    from == to || exists|c: int|
        0 <= c < from && #[trigger] is_child(nodes, from, c) && reaches(nodes, c, to)
}

/// Whether node `j` is a named leaf.
pub open spec fn is_input<S>(nodes: Seq<PlanNode<S>>, j: int) -> bool {
    nodes[j].op is Input
}

/// The name of leaf `j` (meaningful only when `is_input` holds).
pub open spec fn input_name<S>(nodes: Seq<PlanNode<S>>, j: int) -> Seq<char> {
    match nodes[j].op {
        MatrixOp::Input { name } => name@,
        _ => Seq::empty(),
    }
}

/// Whether node `j` is a named tap.
pub open spec fn is_output<S>(nodes: Seq<PlanNode<S>>, j: int) -> bool {
    nodes[j].op is Output
}

/// The tap name of node `j` (meaningful only when `is_output` holds).
pub open spec fn output_name<S>(nodes: Seq<PlanNode<S>>, j: int) -> Seq<char> {
    match nodes[j].op {
        MatrixOp::Output { name, .. } => name@,
        _ => Seq::empty(),
    }
}

/// The child of tap `j` (meaningful only when `is_output` holds).
pub open spec fn output_child<S>(nodes: Seq<PlanNode<S>>, j: int) -> int {
    match nodes[j].op {
        MatrixOp::Output { matrix, .. } => matrix as int,
        _ => 0,
    }
}

/// Whether every named leaf reachable from `root` is bound.
pub open spec fn inputs_ok<S>(
    nodes: Seq<PlanNode<S>>,
    binds: Map<Seq<char>, MatV<S>>,
    root: int,
) -> bool {
    forall|j: int|
        0 <= j < nodes.len() && #[trigger] reaches(nodes, root, j) && is_input(nodes, j)
            ==> binds.contains_key(input_name(nodes, j))
}

/// Whether `k` names a leaf reachable from `root` that the bindings lack.
pub open spec fn missing_input<S>(
    nodes: Seq<PlanNode<S>>,
    binds: Map<Seq<char>, MatV<S>>,
    root: int,
    k: Seq<char>,
) -> bool {
    exists|j: int|
        0 <= j < nodes.len() && #[trigger] reaches(nodes, root, j) && is_input(nodes, j)
            && input_name(nodes, j) == k && !binds.contains_key(k)
}

/// Whether every binding that a leaf of the plan can see carries a well
/// formed matrix of that leaf's declared shape.
pub open spec fn binds_shaped<S>(nodes: Seq<PlanNode<S>>, binds: Map<Seq<char>, MatV<S>>) -> bool {
    forall|j: int|
        0 <= j < nodes.len() && #[trigger] is_input(nodes, j) && binds.contains_key(
            input_name(nodes, j),
        ) ==> {
            let m = binds[input_name(nodes, j)];
            m.wf() && m.rows == nodes[j].rows && m.cols == nodes[j].cols
        }
}

/// The value node `i` evaluates to under the given bindings. Meaningful
/// when the plan is well formed and `inputs_ok` holds of `i`.
pub open spec fn node_val<S: Scalar>(
    nodes: Seq<PlanNode<S>>,
    binds: Map<Seq<char>, MatV<S>>,
    i: int,
) -> MatV<S>
    decreases i,
{
    match nodes[i].op {
        MatrixOp::Input { name } => binds[name@],
        MatrixOp::Output { matrix, .. } => if matrix < i {
            node_val(nodes, binds, matrix as int)
        } else {
            arbitrary()
        },
        MatrixOp::Constant { matrix } => matrix@,
        MatrixOp::Scale { matrix, scalar } => if matrix < i {
            scale_v(node_val(nodes, binds, matrix as int), scalar)
        } else {
            arbitrary()
        },
        MatrixOp::Max { matrix, scalar } => if matrix < i {
            max_v(node_val(nodes, binds, matrix as int), scalar)
        } else {
            arbitrary()
        },
        MatrixOp::Neg { matrix } => if matrix < i {
            neg_v(node_val(nodes, binds, matrix as int))
        } else {
            arbitrary()
        },
        MatrixOp::Transpose { matrix } => if matrix < i {
            transpose_v(node_val(nodes, binds, matrix as int))
        } else {
            arbitrary()
        },
        MatrixOp::Sign { matrix } => if matrix < i {
            sign_v(node_val(nodes, binds, matrix as int))
        } else {
            arbitrary()
        },
        MatrixOp::Sigmoid { matrix } => if matrix < i {
            sigmoid_v(node_val(nodes, binds, matrix as int))
        } else {
            arbitrary()
        },
        MatrixOp::Mul { left, right } => if left < i && right < i {
            mul_v(node_val(nodes, binds, left as int), node_val(nodes, binds, right as int))
        } else {
            arbitrary()
        },
        MatrixOp::HadamardMul { left, right } => if left < i && right < i {
            hadamard_v(node_val(nodes, binds, left as int), node_val(nodes, binds, right as int))
        } else {
            arbitrary()
        },
        MatrixOp::Add { left, right } => if left < i && right < i {
            add_v(node_val(nodes, binds, left as int), node_val(nodes, binds, right as int))
        } else {
            arbitrary()
        },
        MatrixOp::Sub { left, right } => if left < i && right < i {
            sub_v(node_val(nodes, binds, left as int), node_val(nodes, binds, right as int))
        } else {
            arbitrary()
        },
        MatrixOp::Combine { .. } => MatV { rows: 0, cols: 0, data: Seq::empty() },
    }
}

/// The set of tap names reachable from `root`.
pub open spec fn tap_names<S>(nodes: Seq<PlanNode<S>>, root: int) -> Set<Seq<char>> {
    Set::new(
        |k: Seq<char>|
            exists|j: int|
                0 <= j < nodes.len() && #[trigger] reaches(nodes, root, j) && is_output(nodes, j)
                    && output_name(nodes, j) == k,
    )
}

/// Whether every captured tap holds the value of some tap node of the
/// plan whose leaves were all bound.
pub open spec fn taps_consistent<S: Scalar>(
    nodes: Seq<PlanNode<S>>,
    binds: Map<Seq<char>, MatV<S>>,
    taps: Map<Seq<char>, MatV<S>>,
) -> bool {
    forall|k: Seq<char>| #[trigger]
        taps.contains_key(k) ==> exists|j: int|
            0 <= j < nodes.len() && #[trigger] is_output(nodes, j) && output_name(nodes, j) == k
                && inputs_ok(nodes, binds, output_child(nodes, j)) && taps[k] == node_val(
                nodes,
                binds,
                output_child(nodes, j),
            )
}

/// Whether the captured taps bind every uniquely named reachable tap to
/// exactly its child's value. Where a tap name is carried by one node
/// only, the captured entry is fully determined — so executions of plans
/// without duplicate tap names are deterministic. Duplicate names remain
/// only existentially pinned (`taps_consistent`): which same-named tap
/// wins is the plan model's documented ambiguity.
pub open spec fn unique_taps_exact<S: Scalar>(
    nodes: Seq<PlanNode<S>>,
    binds: Map<Seq<char>, MatV<S>>,
    taps: Map<Seq<char>, MatV<S>>,
    root: int,
) -> bool {
    forall|j: int|
        0 <= j < nodes.len() && #[trigger] reaches(nodes, root, j) && is_output(nodes, j) && (
        forall|j2: int|
            0 <= j2 < nodes.len() && #[trigger] is_output(nodes, j2) && output_name(nodes, j2)
                == output_name(nodes, j) ==> j2 == j) ==> taps.contains_key(output_name(nodes, j))
            && taps[output_name(nodes, j)] == node_val(nodes, binds, output_child(nodes, j))
}

/// Reachability is transitive.
pub proof fn lemma_reaches_trans<S>(nodes: Seq<PlanNode<S>>, a: int, b: int, c: int)
    requires
        reaches(nodes, a, b),
        reaches(nodes, b, c),
    ensures
        reaches(nodes, a, c),
    decreases a,
{
    if a != b {
        let d = choose|d: int|
            0 <= d < a && #[trigger] is_child(nodes, a, d) && reaches(nodes, d, b);
        lemma_reaches_trans(nodes, d, b, c);
        assert(is_child(nodes, a, d) && reaches(nodes, d, c));
    }
}

/// Reachability from an existing node is unaffected by nodes appended
/// to the arena: children always have smaller indices.
pub proof fn lemma_reaches_prefix<S>(s1: Seq<PlanNode<S>>, s2: Seq<PlanNode<S>>, root: int, t: int)
    requires
        s1.len() <= s2.len(),
        forall|i: int| 0 <= i < s1.len() ==> s2[i] == s1[i],
        0 <= root < s1.len(),
    ensures
        reaches(s2, root, t) == reaches(s1, root, t),
    decreases root,
{
    if reaches(s2, root, t) && root != t {
        let c = choose|c: int|
            0 <= c < root && #[trigger] is_child(s2, root, c) && reaches(s2, c, t);
        assert(s2[root] == s1[root]);
        assert(is_child(s1, root, c));
        lemma_reaches_prefix(s1, s2, c, t);
        assert(reaches(s1, root, t));
    }
    if reaches(s1, root, t) && root != t {
        let c = choose|c: int|
            0 <= c < root && #[trigger] is_child(s1, root, c) && reaches(s1, c, t);
        assert(is_child(s2, root, c));
        lemma_reaches_prefix(s1, s2, c, t);
        assert(reaches(s2, root, t));
    }
}

/// A node only reaches nodes at its own index or below.
pub proof fn lemma_reaches_le<S>(nodes: Seq<PlanNode<S>>, root: int, t: int)
    requires
        reaches(nodes, root, t),
    ensures
        t <= root,
    decreases root,
{
    if root != t {
        let c = choose|c: int|
            0 <= c < root && #[trigger] is_child(nodes, root, c) && reaches(nodes, c, t);
        lemma_reaches_le(nodes, c, t);
    }
}

/// A node reaches its own children.
pub proof fn lemma_reaches_child<S>(nodes: Seq<PlanNode<S>>, parent: int, child: int)
    requires
        0 <= child < parent,
        is_child(nodes, parent, child),
    ensures
        reaches(nodes, parent, child),
{
    assert(reaches(nodes, child, child));
}

/// What a leaf reaches: only itself.
pub proof fn lemma_reach_leaf<S>(nodes: Seq<PlanNode<S>>, i: int)
    requires
        forall|d: int| !is_child(nodes, i, d),
    ensures
        forall|j: int| reaches(nodes, i, j) <==> j == i,
        !is_output(nodes, i) ==> tap_names(nodes, i) == Set::<Seq<char>>::empty(),
{
    assert forall|j: int| reaches(nodes, i, j) implies j == i by {
        if j != i {
            let d = choose|d: int|
                0 <= d < i && #[trigger] is_child(nodes, i, d) && reaches(nodes, d, j);
            assert(false);
        }
    }
    if !is_output(nodes, i) {
        assert(tap_names(nodes, i) =~= Set::<Seq<char>>::empty());
    }
}

/// What a node with exactly one child reaches: itself and whatever the
/// child reaches; its taps are the child's, plus its own name if it is a
/// tap itself.
pub proof fn lemma_reach_one<S>(nodes: Seq<PlanNode<S>>, i: int, c: int)
    requires
        0 <= c < i,
        forall|d: int| #[trigger] is_child(nodes, i, d) <==> d == c,
    ensures
        forall|j: int| reaches(nodes, i, j) <==> (j == i || reaches(nodes, c, j)),
        !is_output(nodes, i) ==> tap_names(nodes, i) == tap_names(nodes, c),
        is_output(nodes, i) && 0 <= i < nodes.len() ==> tap_names(nodes, i) == tap_names(
            nodes,
            c,
        ).insert(output_name(nodes, i)),
{
    assert forall|j: int| reaches(nodes, i, j) implies (j == i || reaches(nodes, c, j)) by {
        if j != i {
            let d = choose|d: int|
                0 <= d < i && #[trigger] is_child(nodes, i, d) && reaches(nodes, d, j);
            assert(d == c);
        }
    }
    assert forall|j: int| (j == i || reaches(nodes, c, j)) implies reaches(nodes, i, j) by {
        if j != i {
            assert(is_child(nodes, i, c) && reaches(nodes, c, j));
        }
    }
    if !is_output(nodes, i) {
        assert forall|k: Seq<char>| tap_names(nodes, i).contains(k) implies tap_names(
            nodes,
            c,
        ).contains(k) by {
            let j = choose|j: int|
                0 <= j < nodes.len() && #[trigger] reaches(nodes, i, j) && is_output(nodes, j)
                    && output_name(nodes, j) == k;
            assert(reaches(nodes, c, j));
        }
        assert forall|k: Seq<char>| tap_names(nodes, c).contains(k) implies tap_names(
            nodes,
            i,
        ).contains(k) by {
            let j = choose|j: int|
                0 <= j < nodes.len() && #[trigger] reaches(nodes, c, j) && is_output(nodes, j)
                    && output_name(nodes, j) == k;
            assert(reaches(nodes, i, j));
        }
        assert(tap_names(nodes, i) =~= tap_names(nodes, c));
    } else if 0 <= i < nodes.len() {
        let target = tap_names(nodes, c).insert(output_name(nodes, i));
        assert forall|k: Seq<char>| tap_names(nodes, i).contains(k) implies target.contains(k) by {
            let j = choose|j: int|
                0 <= j < nodes.len() && #[trigger] reaches(nodes, i, j) && is_output(nodes, j)
                    && output_name(nodes, j) == k;
            if j != i {
                assert(reaches(nodes, c, j));
            }
        }
        assert forall|k: Seq<char>| target.contains(k) implies tap_names(nodes, i).contains(k) by {
            if k == output_name(nodes, i) {
                assert(reaches(nodes, i, i));
            } else {
                let j = choose|j: int|
                    0 <= j < nodes.len() && #[trigger] reaches(nodes, c, j) && is_output(nodes, j)
                        && output_name(nodes, j) == k;
                assert(reaches(nodes, i, j));
            }
        }
        assert(tap_names(nodes, i) =~= target);
    }
}

/// What a node with exactly two children reaches, and its taps.
pub proof fn lemma_reach_two<S>(nodes: Seq<PlanNode<S>>, i: int, l: int, r: int)
    requires
        0 <= l < i,
        0 <= r < i,
        forall|d: int| #[trigger] is_child(nodes, i, d) <==> (d == l || d == r),
        !is_output(nodes, i),
    ensures
        forall|j: int|
            reaches(nodes, i, j) <==> (j == i || reaches(nodes, l, j) || reaches(nodes, r, j)),
        tap_names(nodes, i) == tap_names(nodes, l).union(tap_names(nodes, r)),
{
    assert forall|j: int| reaches(nodes, i, j) implies (j == i || reaches(nodes, l, j) || reaches(
        nodes,
        r,
        j,
    )) by {
        if j != i {
            let d = choose|d: int|
                0 <= d < i && #[trigger] is_child(nodes, i, d) && reaches(nodes, d, j);
            assert(d == l || d == r);
        }
    }
    assert forall|j: int| (j == i || reaches(nodes, l, j) || reaches(nodes, r, j)) implies reaches(
        nodes,
        i,
        j,
    ) by {
        if j != i {
            if reaches(nodes, l, j) {
                assert(is_child(nodes, i, l) && reaches(nodes, l, j));
            } else {
                assert(is_child(nodes, i, r) && reaches(nodes, r, j));
            }
        }
    }
    let target = tap_names(nodes, l).union(tap_names(nodes, r));
    assert forall|k: Seq<char>| tap_names(nodes, i).contains(k) implies target.contains(k) by {
        let j = choose|j: int|
            0 <= j < nodes.len() && #[trigger] reaches(nodes, i, j) && is_output(nodes, j)
                && output_name(nodes, j) == k;
        assert(reaches(nodes, l, j) || reaches(nodes, r, j));
    }
    assert forall|k: Seq<char>| target.contains(k) implies tap_names(nodes, i).contains(k) by {
        if tap_names(nodes, l).contains(k) {
            let j = choose|j: int|
                0 <= j < nodes.len() && #[trigger] reaches(nodes, l, j) && is_output(nodes, j)
                    && output_name(nodes, j) == k;
            assert(reaches(nodes, i, j));
        } else {
            let j = choose|j: int|
                0 <= j < nodes.len() && #[trigger] reaches(nodes, r, j) && is_output(nodes, j)
                    && output_name(nodes, j) == k;
            assert(reaches(nodes, i, j));
        }
    }
    assert(tap_names(nodes, i) =~= target);
}

/// The union of the tap names of the first `k` bundled roots.
pub open spec fn combine_taps_upto<S>(nodes: Seq<PlanNode<S>>, ids: Seq<usize>, k: int) -> Set<
    Seq<char>,
> {
    Set::new(
        |nm: Seq<char>|
            exists|t: int| 0 <= t < k && tap_names(nodes, #[trigger] ids[t] as int).contains(nm),
    )
}

/// What a bundle reaches: itself and whatever its listed roots reach;
/// its taps are the union of theirs.
pub proof fn lemma_reach_list<S>(nodes: Seq<PlanNode<S>>, i: int, ids: Seq<usize>)
    requires
        forall|t: int| 0 <= t < ids.len() ==> #[trigger] ids[t] < i,
        forall|d: int| #[trigger] is_child(nodes, i, d) <==> exists|t: int|
            0 <= t < ids.len() && (#[trigger] ids[t]) == d,
        !is_output(nodes, i),
        0 <= i,
    ensures
        forall|j: int|
            reaches(nodes, i, j) <==> (j == i || exists|t: int|
                0 <= t < ids.len() && reaches(nodes, #[trigger] ids[t] as int, j)),
        tap_names(nodes, i) == combine_taps_upto(nodes, ids, ids.len() as int),
{
    assert forall|j: int| reaches(nodes, i, j) implies (j == i || exists|t: int|
        0 <= t < ids.len() && reaches(nodes, #[trigger] ids[t] as int, j)) by {
        if j != i {
            let d = choose|d: int|
                0 <= d < i && #[trigger] is_child(nodes, i, d) && reaches(nodes, d, j);
            let t = choose|t: int| 0 <= t < ids.len() && (#[trigger] ids[t]) == d;
            assert(reaches(nodes, ids[t] as int, j));
        }
    }
    assert forall|j: int| (j == i || exists|t: int|
        0 <= t < ids.len() && reaches(nodes, #[trigger] ids[t] as int, j)) implies reaches(
        nodes,
        i,
        j,
    ) by {
        if j != i {
            let t = choose|t: int| 0 <= t < ids.len() && reaches(nodes, #[trigger] ids[t] as int, j);
            assert(is_child(nodes, i, ids[t] as int) && reaches(nodes, ids[t] as int, j));
        }
    }
    let target = combine_taps_upto(nodes, ids, ids.len() as int);
    assert forall|k: Seq<char>| tap_names(nodes, i).contains(k) implies target.contains(k) by {
        let j = choose|j: int|
            0 <= j < nodes.len() && #[trigger] reaches(nodes, i, j) && is_output(nodes, j)
                && output_name(nodes, j) == k;
        let t = choose|t: int| 0 <= t < ids.len() && reaches(nodes, #[trigger] ids[t] as int, j);
        assert(tap_names(nodes, ids[t] as int).contains(k));
    }
    assert forall|k: Seq<char>| target.contains(k) implies tap_names(nodes, i).contains(k) by {
        let t = choose|t: int|
            0 <= t < ids.len() && tap_names(nodes, #[trigger] ids[t] as int).contains(k);
        let j = choose|j: int|
            0 <= j < nodes.len() && #[trigger] reaches(nodes, ids[t] as int, j) && is_output(
                nodes,
                j,
            ) && output_name(nodes, j) == k;
        assert(reaches(nodes, i, j));
    }
    assert(tap_names(nodes, i) =~= target);
}

/// How many times `j` occurs in a bundle's root list.
pub open spec fn occ_in_list(ids: Seq<usize>, j: int) -> nat
    decreases ids.len(),
{
    if ids.len() == 0 {
        0
    } else {
        occ_in_list(ids.drop_last(), j) + if ids.last() == j {
            1nat
        } else {
            0nat
        }
    }
}

/// How many child edges of a node point at `j`.
pub open spec fn occ<S>(op: MatrixOp<S>, j: int) -> nat {
    match op {
        MatrixOp::Input { .. } => 0,
        MatrixOp::Constant { .. } => 0,
        MatrixOp::Output { matrix, .. } => if matrix == j {
            1nat
        } else {
            0nat
        },
        MatrixOp::Scale { matrix, .. } => if matrix == j {
            1nat
        } else {
            0nat
        },
        MatrixOp::Max { matrix, .. } => if matrix == j {
            1nat
        } else {
            0nat
        },
        MatrixOp::Neg { matrix } => if matrix == j {
            1nat
        } else {
            0nat
        },
        MatrixOp::Transpose { matrix } => if matrix == j {
            1nat
        } else {
            0nat
        },
        MatrixOp::Sign { matrix } => if matrix == j {
            1nat
        } else {
            0nat
        },
        MatrixOp::Sigmoid { matrix } => if matrix == j {
            1nat
        } else {
            0nat
        },
        MatrixOp::Mul { left, right } => (if left == j {
            1nat
        } else {
            0nat
        }) + (if right == j {
            1nat
        } else {
            0nat
        }),
        MatrixOp::HadamardMul { left, right } => (if left == j {
            1nat
        } else {
            0nat
        }) + (if right == j {
            1nat
        } else {
            0nat
        }),
        MatrixOp::Add { left, right } => (if left == j {
            1nat
        } else {
            0nat
        }) + (if right == j {
            1nat
        } else {
            0nat
        }),
        MatrixOp::Sub { left, right } => (if left == j {
            1nat
        } else {
            0nat
        }) + (if right == j {
            1nat
        } else {
            0nat
        }),
        MatrixOp::Combine { inner } => occ_in_list(inner@, j),
    }
}

/// How many child edges of the first `n` nodes point at `j`.
pub open spec fn indeg_upto<S>(nodes: Seq<PlanNode<S>>, j: int, n: int) -> nat
    decreases n,
{
    if n <= 0 {
        0
    } else {
        indeg_upto(nodes, j, n - 1) + occ(nodes[n - 1].op, j)
    }
}

/// The in-degree of node `j`: how many parent edges point at it. A node
/// with in-degree above one is shared, and worth caching.
pub open spec fn indegree<S>(nodes: Seq<PlanNode<S>>, j: int) -> nat {
    indeg_upto(nodes, j, nodes.len() as int)
}

/// `x` capped at two: all the executor needs to know of an in-degree.
pub open spec fn cap2(x: nat) -> nat {
    if x >= 2 {
        2
    } else {
        x
    }
}

/// Raises the tally for `j` by one, saturating at two.
fn bump(deg: &mut Vec<usize>, j: usize)
    requires
        j < old(deg)@.len(),
    ensures
        final(deg)@.len() == old(deg)@.len(),
        forall|t: int| 0 <= t < old(deg)@.len() && t != j ==> final(deg)@[t] == old(deg)@[t],
        final(deg)@[j as int] == (if old(deg)@[j as int] >= 2 {
            old(deg)@[j as int] as int
        } else {
            old(deg)@[j as int] + 1
        }),
{
    let v = deg[j];
    if v < 2 {
        deg.set(j, v + 1);
    }
}

/// Computes which nodes are shared: referenced as a child by more than
/// one parent edge.
fn compute_shared<S: Scalar>(plan: &MatrixPlan<S>) -> (r: Vec<bool>)
    ensures
        r@.len() == plan@.len(),
        forall|j: int| 0 <= j < plan@.len() ==> (r@[j] == (indegree(plan@, j) >= 2)),
{
    let ghost nodes = plan@;
    let n = plan.nodes.len();
    let mut deg: Vec<usize> = Vec::new();
    let mut z: usize = 0;
    while z < n
        invariant
            z <= n,
            deg@.len() == z,
            forall|t: int| 0 <= t < z ==> deg@[t] == 0,
        decreases n - z,
    {
        deg.push(0);
        z = z + 1;
    }
    let mut i: usize = 0;
    while i < n
        invariant
            nodes == plan@,
            n == nodes.len(),
            i <= n,
            deg@.len() == n,
            forall|t: int| 0 <= t < n ==> deg@[t] == cap2(indeg_upto(nodes, t, i as int)),
        decreases n - i,
    {
        let ghost pre = deg@;
        match &plan.nodes[i].op {
            MatrixOp::Input { .. } => {},
            MatrixOp::Constant { .. } => {},
            MatrixOp::Output { matrix, .. } => {
                if *matrix < n {
                    bump(&mut deg, *matrix);
                }
            },
            MatrixOp::Scale { matrix, .. } => {
                if *matrix < n {
                    bump(&mut deg, *matrix);
                }
            },
            MatrixOp::Max { matrix, .. } => {
                if *matrix < n {
                    bump(&mut deg, *matrix);
                }
            },
            MatrixOp::Neg { matrix } => {
                if *matrix < n {
                    bump(&mut deg, *matrix);
                }
            },
            MatrixOp::Transpose { matrix } => {
                if *matrix < n {
                    bump(&mut deg, *matrix);
                }
            },
            MatrixOp::Sign { matrix } => {
                if *matrix < n {
                    bump(&mut deg, *matrix);
                }
            },
            MatrixOp::Sigmoid { matrix } => {
                if *matrix < n {
                    bump(&mut deg, *matrix);
                }
            },
            MatrixOp::Mul { left, right } => {
                if *left < n {
                    bump(&mut deg, *left);
                }
                if *right < n {
                    bump(&mut deg, *right);
                }
            },
            MatrixOp::HadamardMul { left, right } => {
                if *left < n {
                    bump(&mut deg, *left);
                }
                if *right < n {
                    bump(&mut deg, *right);
                }
            },
            MatrixOp::Add { left, right } => {
                if *left < n {
                    bump(&mut deg, *left);
                }
                if *right < n {
                    bump(&mut deg, *right);
                }
            },
            MatrixOp::Sub { left, right } => {
                if *left < n {
                    bump(&mut deg, *left);
                }
                if *right < n {
                    bump(&mut deg, *right);
                }
            },
            MatrixOp::Combine { inner } => {
                let m = inner.len();
                let mut k: usize = 0;
                proof {
                    assert(inner@.take(0) =~= Seq::<usize>::empty());
                }
                while k < m
                    invariant
                        nodes == plan@,
                        n == nodes.len(),
                        i < n,
                        nodes[i as int].op matches MatrixOp::Combine { inner: inn } && inn@
                            == inner@,
                        m == inner@.len(),
                        k <= m,
                        deg@.len() == n,
                        forall|t: int|
                            0 <= t < n ==> deg@[t] == cap2(
                                indeg_upto(nodes, t, i as int) + occ_in_list(
                                    inner@.take(k as int),
                                    t,
                                ),
                            ),
                    decreases m - k,
                {
                    let c = inner[k];
                    let ghost before = deg@;
                    if c < n {
                        bump(&mut deg, c);
                    }
                    proof {
                        assert(inner@.take(k + 1).drop_last() =~= inner@.take(k as int));
                        assert(inner@.take(k + 1).last() == inner@[k as int]);
                        assert forall|t: int| 0 <= t < n implies deg@[t] == cap2(
                            indeg_upto(nodes, t, i as int) + occ_in_list(inner@.take(k + 1), t),
                        ) by {
                            if t != c {
                                assert(deg@[t] == before[t]);
                            }
                        }
                    }
                    k = k + 1;
                }
                proof {
                    assert(inner@.take(m as int) =~= inner@);
                }
            },
        }
        proof {
            assert forall|t: int| 0 <= t < n implies deg@[t] == cap2(
                indeg_upto(nodes, t, i + 1),
            ) by {
                assert(indeg_upto(nodes, t, i + 1) == indeg_upto(nodes, t, i as int) + occ(
                    nodes[i as int].op,
                    t,
                ));
                assert(pre[t] == cap2(indeg_upto(nodes, t, i as int)));
            }
        }
        i = i + 1;
    }
    let mut shared: Vec<bool> = Vec::new();
    let mut j: usize = 0;
    while j < n
        invariant
            nodes == plan@,
            n == nodes.len(),
            j <= n,
            deg@.len() == n,
            forall|t: int| 0 <= t < n ==> deg@[t] == cap2(indegree(nodes, t)),
            shared@.len() == j,
            forall|t: int| 0 <= t < j ==> shared@[t] == (indegree(nodes, t) >= 2),
        decreases n - j,
    {
        shared.push(deg[j] >= 2);
        j = j + 1;
    }
    shared
}

/// Lifts a missing leaf from a child to its parent.
proof fn lemma_missing_lift<S>(
    nodes: Seq<PlanNode<S>>,
    binds: Map<Seq<char>, MatV<S>>,
    i: int,
    c: int,
    k: Seq<char>,
)
    requires
        0 <= c < i,
        is_child(nodes, i, c),
        missing_input(nodes, binds, c, k),
    ensures
        missing_input(nodes, binds, i, k),
        !inputs_ok(nodes, binds, i),
{
    let j = choose|j: int|
        0 <= j < nodes.len() && #[trigger] reaches(nodes, c, j) && is_input(nodes, j) && input_name(
            nodes,
            j,
        ) == k && !binds.contains_key(k);
    lemma_reaches_child(nodes, i, c);
    lemma_reaches_trans(nodes, i, c, j);
}

/// Every cached entry agrees with the semantics: it holds the node's
/// value, its subtree's leaves were all bound, its taps were already
/// captured, and its subtree's evaluation tallies are positive.
pub open spec fn cache_ok<S: Scalar>(
    nodes: Seq<PlanNode<S>>,
    binds: Map<Seq<char>, MatV<S>>,
    cache: Seq<Option<Matrix<S>>>,
    taps_dom: Set<Seq<char>>,
    counts: Seq<usize>,
) -> bool {
    forall|j: int|
        0 <= j < cache.len() ==> match #[trigger] cache[j] {
            Some(m) => inputs_ok(nodes, binds, j) && m@ == node_val(nodes, binds, j) && m@.wf()
                && m@.rows == nodes[j].rows && m@.cols == nodes[j].cols && tap_names(
                nodes,
                j,
            ).subset_of(taps_dom) && (forall|t: int|
                0 <= t < nodes.len() && #[trigger] reaches(nodes, j, t) ==> counts[t] >= 1),
            None => true,
        }
}

/// The per-call state of one plan execution: the bindings it reads, the
/// taps it captures, the memoization cache, the per-node evaluation
/// tallies, and which nodes are shared.
pub struct MatrixPlanCPUContext<'a, S> {
    inputs: &'a MatrixMap<S>,
    outputs: MatrixMap<S>,
    cache: Vec<Option<Matrix<S>>>,
    counts: Vec<usize>,
    shared: Vec<bool>,
}

impl<'a, S: Scalar> MatrixPlanCPUContext<'a, S> {
    /// The executor's invariant against the plan being executed.
    pub closed spec fn inv(&self, nodes: Seq<PlanNode<S>>) -> bool {
        &&& plan_wf(nodes)
        &&& self.inputs.wf()
        &&& binds_shaped(nodes, self.inputs@)
        &&& self.outputs.wf()
        &&& taps_consistent(nodes, self.inputs@, self.outputs@)
        &&& self.cache@.len() == nodes.len()
        &&& self.counts@.len() == nodes.len()
        &&& self.shared@.len() == nodes.len()
        &&& cache_ok(nodes, self.inputs@, self.cache@, self.outputs@.dom(), self.counts@)
        &&& forall|j: int| 0 <= j < nodes.len() && self.cache@[j] is Some ==> self.shared@[j]
        &&& forall|j: int|
            0 <= j < nodes.len() && self.shared@[j] ==> self.counts@[j] == (
            if self.cache@[j] is Some {
                1int
            } else {
                0int
            })
    }

    /// Evaluates node `i` depth first, reusing cached values of shared
    /// nodes, capturing taps, and tallying uncached evaluations.
    fn execute_cpu_recur(&mut self, plan: &MatrixPlan<S>, i: usize) -> (r: Result<
        Matrix<S>,
        PlanError,
    >)
        requires
            old(self).inv(plan@),
            i < plan@.len(),
        ensures
            final(self).inv(plan@),
            final(self).inputs == old(self).inputs,
            final(self).shared == old(self).shared,
            old(self).outputs@.dom().subset_of(final(self).outputs@.dom()),
            forall|j: int|
                0 <= j < plan@.len() ==> final(self).counts@[j] >= old(self).counts@[j],
            forall|j: int|
                0 <= j < plan@.len() && old(self).cache@[j] is Some ==> final(self).cache@[j]
                    == old(self).cache@[j],
            forall|j: int|
                i < j < plan@.len() ==> #[trigger] final(self).cache@[j] == old(self).cache@[j],
            forall|j: int|
                i < j < plan@.len() ==> #[trigger] final(self).counts@[j] == old(self).counts@[j],
            match r {
                Ok(m) => inputs_ok(plan@, old(self).inputs@, i as int) && m@ == node_val(
                    plan@,
                    old(self).inputs@,
                    i as int,
                ) && m@.wf() && m@.rows == plan@[i as int].rows && m@.cols == plan@[i as int].cols
                    && final(self).outputs@.dom() == old(self).outputs@.dom().union(
                    tap_names(plan@, i as int),
                ) && (forall|t: int|
                    0 <= t < plan@.len() && #[trigger] reaches(plan@, i as int, t)
                        ==> final(self).counts@[t] >= 1),
                Err(e) => !inputs_ok(plan@, old(self).inputs@, i as int) && (e matches
                    PlanError::MissingInput { name } && missing_input(
                    plan@,
                    old(self).inputs@,
                    i as int,
                    name@,
                )),
            },
        decreases i,
    {
        let ghost nodes = plan@;
        let ghost binds = self.inputs@;
        proof {
            assert(wf_node(nodes, i as int));
        }
        match &self.cache[i] {
            Some(m) => {
                let out = m.duplicate();
                proof {
                    assert(old(self).outputs@.dom().union(tap_names(nodes, i as int)) =~= old(
                        self,
                    ).outputs@.dom());
                }
                return Ok(out);
            },
            None => {},
        }
        let out: Matrix<S> = match &plan.nodes[i].op {
            MatrixOp::Input { name } => {
                match self.inputs.get(name.as_str()) {
                    Some(m) => {
                        let out = m.duplicate();
                        proof {
                            lemma_reach_leaf(nodes, i as int);
                            assert(reaches(nodes, i as int, i as int));
                            assert(is_input(nodes, i as int));
                            assert(inputs_ok(nodes, binds, i as int));
                            assert(out@ == node_val(nodes, binds, i as int));
                            assert(self.outputs@.dom() =~= old(self).outputs@.dom().union(
                                tap_names(nodes, i as int),
                            ));
                        }
                        out
                    },
                    None => {
                        proof {
                            lemma_reach_leaf(nodes, i as int);
                            assert(reaches(nodes, i as int, i as int));
                            assert(missing_input(nodes, binds, i as int, name@));
                        }
                        return Err(PlanError::MissingInput { name: name.clone() });
                    },
                }
            },
            MatrixOp::Constant { matrix } => {
                let out = matrix.duplicate();
                proof {
                    lemma_reach_leaf(nodes, i as int);
                    assert(inputs_ok(nodes, binds, i as int));
                    assert(self.outputs@.dom() =~= old(self).outputs@.dom().union(
                        tap_names(nodes, i as int),
                    ));
                }
                out
            },
            MatrixOp::Output { name, matrix } => {
                let c = *matrix;
                let m = match self.execute_cpu_recur(plan, c) {
                    Ok(m) => m,
                    Err(e) => {
                        proof {
                            if let PlanError::MissingInput { name: nm } = &e {
                                lemma_missing_lift(nodes, binds, i as int, c as int, nm@);
                            }
                        }
                        return Err(e);
                    },
                };
                let dup = m.duplicate();
                self.outputs.insert(name.clone(), dup);
                proof {
                    lemma_reach_one(nodes, i as int, c as int);
                    assert(inputs_ok(nodes, binds, i as int));
                    assert(m@ == node_val(nodes, binds, i as int));
                    assert(is_output(nodes, i as int));
                    assert(output_name(nodes, i as int) == name@);
                    assert(output_child(nodes, i as int) == c as int);
                    assert(self.outputs@.dom() =~= old(self).outputs@.dom().union(
                        tap_names(nodes, i as int),
                    ));
                    assert forall|k: Seq<char>| #[trigger]
                        self.outputs@.contains_key(k) implies exists|j: int|
                        0 <= j < nodes.len() && #[trigger] is_output(nodes, j) && output_name(
                            nodes,
                            j,
                        ) == k && inputs_ok(nodes, binds, output_child(nodes, j)) && self.outputs@[k]
                            == node_val(nodes, binds, output_child(nodes, j)) by {
                        if k == name@ {
                            assert(is_output(nodes, i as int) && output_name(nodes, i as int) == k
                                && inputs_ok(nodes, binds, output_child(nodes, i as int))
                                && self.outputs@[k] == node_val(
                                nodes,
                                binds,
                                output_child(nodes, i as int),
                            ));
                        }
                    }
                }
                m
            },
            MatrixOp::Scale { matrix, scalar } => {
                let c = *matrix;
                let k = *scalar;
                let m = match self.execute_cpu_recur(plan, c) {
                    Ok(m) => m,
                    Err(e) => {
                        proof {
                            if let PlanError::MissingInput { name: nm } = &e {
                                lemma_missing_lift(nodes, binds, i as int, c as int, nm@);
                            }
                        }
                        return Err(e);
                    },
                };
                let out = m.scale(k);
                proof {
                    lemma_reach_one(nodes, i as int, c as int);
                    assert(inputs_ok(nodes, binds, i as int));
                    assert(out@ == node_val(nodes, binds, i as int));
                }
                out
            },
            MatrixOp::Max { matrix, scalar } => {
                let c = *matrix;
                let k = *scalar;
                let m = match self.execute_cpu_recur(plan, c) {
                    Ok(m) => m,
                    Err(e) => {
                        proof {
                            if let PlanError::MissingInput { name: nm } = &e {
                                lemma_missing_lift(nodes, binds, i as int, c as int, nm@);
                            }
                        }
                        return Err(e);
                    },
                };
                let out = m.max(k);
                proof {
                    lemma_reach_one(nodes, i as int, c as int);
                    assert(inputs_ok(nodes, binds, i as int));
                    assert(out@ == node_val(nodes, binds, i as int));
                }
                out
            },
            MatrixOp::Neg { matrix } => {
                let c = *matrix;
                let m = match self.execute_cpu_recur(plan, c) {
                    Ok(m) => m,
                    Err(e) => {
                        proof {
                            if let PlanError::MissingInput { name: nm } = &e {
                                lemma_missing_lift(nodes, binds, i as int, c as int, nm@);
                            }
                        }
                        return Err(e);
                    },
                };
                let out = m.neg();
                proof {
                    lemma_reach_one(nodes, i as int, c as int);
                    assert(inputs_ok(nodes, binds, i as int));
                    assert(out@ == node_val(nodes, binds, i as int));
                }
                out
            },
            MatrixOp::Transpose { matrix } => {
                let c = *matrix;
                let m = match self.execute_cpu_recur(plan, c) {
                    Ok(m) => m,
                    Err(e) => {
                        proof {
                            if let PlanError::MissingInput { name: nm } = &e {
                                lemma_missing_lift(nodes, binds, i as int, c as int, nm@);
                            }
                        }
                        return Err(e);
                    },
                };
                let out = m.transpose();
                proof {
                    lemma_reach_one(nodes, i as int, c as int);
                    assert(inputs_ok(nodes, binds, i as int));
                    assert(out@ == node_val(nodes, binds, i as int));
                }
                out
            },
            MatrixOp::Sign { matrix } => {
                let c = *matrix;
                let m = match self.execute_cpu_recur(plan, c) {
                    Ok(m) => m,
                    Err(e) => {
                        proof {
                            if let PlanError::MissingInput { name: nm } = &e {
                                lemma_missing_lift(nodes, binds, i as int, c as int, nm@);
                            }
                        }
                        return Err(e);
                    },
                };
                let out = m.sign();
                proof {
                    lemma_reach_one(nodes, i as int, c as int);
                    assert(inputs_ok(nodes, binds, i as int));
                    assert(out@ == node_val(nodes, binds, i as int));
                }
                out
            },
            MatrixOp::Sigmoid { matrix } => {
                let c = *matrix;
                let m = match self.execute_cpu_recur(plan, c) {
                    Ok(m) => m,
                    Err(e) => {
                        proof {
                            if let PlanError::MissingInput { name: nm } = &e {
                                lemma_missing_lift(nodes, binds, i as int, c as int, nm@);
                            }
                        }
                        return Err(e);
                    },
                };
                let out = m.sigmoid();
                proof {
                    lemma_reach_one(nodes, i as int, c as int);
                    assert(inputs_ok(nodes, binds, i as int));
                    assert(out@ == node_val(nodes, binds, i as int));
                }
                out
            },
            MatrixOp::Mul { left, right } => {
                let l = *left;
                let rr = *right;
                let ghost mid = *self;
                let lm = match self.execute_cpu_recur(plan, l) {
                    Ok(m) => m,
                    Err(e) => {
                        proof {
                            if let PlanError::MissingInput { name: nm } = &e {
                                lemma_missing_lift(nodes, binds, i as int, l as int, nm@);
                            }
                        }
                        return Err(e);
                    },
                };
                let ghost mid2 = *self;
                let rm = match self.execute_cpu_recur(plan, rr) {
                    Ok(m) => m,
                    Err(e) => {
                        proof {
                            if let PlanError::MissingInput { name: nm } = &e {
                                lemma_missing_lift(nodes, binds, i as int, rr as int, nm@);
                            }
                        }
                        return Err(e);
                    },
                };
                let out = lm.mul(&rm);
                proof {
                    lemma_reach_two(nodes, i as int, l as int, rr as int);
                    assert(inputs_ok(nodes, binds, i as int));
                    assert(out@ == node_val(nodes, binds, i as int));
                    assert(self.outputs@.dom() =~= old(self).outputs@.dom().union(
                        tap_names(nodes, i as int),
                    ));
                }
                out
            },
            MatrixOp::HadamardMul { left, right } => {
                let l = *left;
                let rr = *right;
                let lm = match self.execute_cpu_recur(plan, l) {
                    Ok(m) => m,
                    Err(e) => {
                        proof {
                            if let PlanError::MissingInput { name: nm } = &e {
                                lemma_missing_lift(nodes, binds, i as int, l as int, nm@);
                            }
                        }
                        return Err(e);
                    },
                };
                let rm = match self.execute_cpu_recur(plan, rr) {
                    Ok(m) => m,
                    Err(e) => {
                        proof {
                            if let PlanError::MissingInput { name: nm } = &e {
                                lemma_missing_lift(nodes, binds, i as int, rr as int, nm@);
                            }
                        }
                        return Err(e);
                    },
                };
                let out = lm.hadamard_mul(&rm);
                proof {
                    lemma_reach_two(nodes, i as int, l as int, rr as int);
                    assert(inputs_ok(nodes, binds, i as int));
                    assert(out@ == node_val(nodes, binds, i as int));
                    assert(self.outputs@.dom() =~= old(self).outputs@.dom().union(
                        tap_names(nodes, i as int),
                    ));
                }
                out
            },
            MatrixOp::Add { left, right } => {
                let l = *left;
                let rr = *right;
                let lm = match self.execute_cpu_recur(plan, l) {
                    Ok(m) => m,
                    Err(e) => {
                        proof {
                            if let PlanError::MissingInput { name: nm } = &e {
                                lemma_missing_lift(nodes, binds, i as int, l as int, nm@);
                            }
                        }
                        return Err(e);
                    },
                };
                let rm = match self.execute_cpu_recur(plan, rr) {
                    Ok(m) => m,
                    Err(e) => {
                        proof {
                            if let PlanError::MissingInput { name: nm } = &e {
                                lemma_missing_lift(nodes, binds, i as int, rr as int, nm@);
                            }
                        }
                        return Err(e);
                    },
                };
                let out = lm.add(&rm);
                proof {
                    lemma_reach_two(nodes, i as int, l as int, rr as int);
                    assert(inputs_ok(nodes, binds, i as int));
                    assert(out@ == node_val(nodes, binds, i as int));
                    assert(self.outputs@.dom() =~= old(self).outputs@.dom().union(
                        tap_names(nodes, i as int),
                    ));
                }
                out
            },
            MatrixOp::Sub { left, right } => {
                let l = *left;
                let rr = *right;
                let lm = match self.execute_cpu_recur(plan, l) {
                    Ok(m) => m,
                    Err(e) => {
                        proof {
                            if let PlanError::MissingInput { name: nm } = &e {
                                lemma_missing_lift(nodes, binds, i as int, l as int, nm@);
                            }
                        }
                        return Err(e);
                    },
                };
                let rm = match self.execute_cpu_recur(plan, rr) {
                    Ok(m) => m,
                    Err(e) => {
                        proof {
                            if let PlanError::MissingInput { name: nm } = &e {
                                lemma_missing_lift(nodes, binds, i as int, rr as int, nm@);
                            }
                        }
                        return Err(e);
                    },
                };
                let out = lm.sub(&rm);
                proof {
                    lemma_reach_two(nodes, i as int, l as int, rr as int);
                    assert(inputs_ok(nodes, binds, i as int));
                    assert(out@ == node_val(nodes, binds, i as int));
                    assert(self.outputs@.dom() =~= old(self).outputs@.dom().union(
                        tap_names(nodes, i as int),
                    ));
                }
                out
            },
            MatrixOp::Combine { inner } => {
                let m = inner.len();
                let mut k: usize = 0;
                while k < m
                    invariant
                        self.inv(nodes),
                        nodes == plan@,
                        binds == self.inputs@,
                        i < nodes.len(),
                        wf_node(nodes, i as int),
                        nodes[i as int].op matches MatrixOp::Combine { inner: inn } && inn@
                            == inner@,
                        m == inner@.len(),
                        k <= m,
                        self.inputs == old(self).inputs,
                        self.shared == old(self).shared,
                        old(self).outputs@.dom().subset_of(self.outputs@.dom()),
                        forall|j: int|
                            0 <= j < nodes.len() ==> self.counts@[j] >= old(self).counts@[j],
                        forall|j: int|
                            0 <= j < nodes.len() && old(self).cache@[j] is Some ==> self.cache@[j]
                                == old(self).cache@[j],
                        forall|j: int|
                            i <= j < nodes.len() ==> #[trigger] self.cache@[j] == old(
                                self,
                            ).cache@[j],
                        forall|j: int|
                            i <= j < nodes.len() ==> #[trigger] self.counts@[j] == old(
                                self,
                            ).counts@[j],
                        self.outputs@.dom() == old(self).outputs@.dom().union(
                            combine_taps_upto(nodes, inner@, k as int),
                        ),
                        forall|t: int|
                            0 <= t < k ==> inputs_ok(nodes, binds, #[trigger] inner@[t] as int),
                        forall|t: int, u: int|
                            0 <= t < k && 0 <= u < nodes.len() && #[trigger] reaches(
                                nodes,
                                inner@[t] as int,
                                u,
                            ) ==> self.counts@[u] >= 1,
                    decreases m - k,
                {
                    proof {
                        assert(is_child(nodes, i as int, inner@[k as int] as int));
                    }
                    let c = inner[k];
                    let ghost pre_dom = self.outputs@.dom();
                    match self.execute_cpu_recur(plan, c) {
                        Ok(_) => {},
                        Err(e) => {
                            proof {
                                if let PlanError::MissingInput { name: nm } = &e {
                                    lemma_missing_lift(nodes, binds, i as int, c as int, nm@);
                                }
                            }
                            return Err(e);
                        },
                    }
                    proof {
                        assert forall|nm: Seq<char>| self.outputs@.dom().contains(nm) implies old(
                            self,
                        ).outputs@.dom().union(combine_taps_upto(nodes, inner@, k + 1)).contains(
                            nm,
                        ) by {
                            if !pre_dom.contains(nm) {
                                assert(tap_names(nodes, c as int).contains(nm));
                                assert(inner@[k as int] == c);
                                assert(combine_taps_upto(nodes, inner@, k + 1).contains(nm));
                            } else {
                                if !old(self).outputs@.dom().contains(nm) {
                                    let t = choose|t: int|
                                        0 <= t < k && tap_names(
                                            nodes,
                                            #[trigger] inner@[t] as int,
                                        ).contains(nm);
                                    assert(combine_taps_upto(nodes, inner@, k + 1).contains(nm));
                                }
                            }
                        }
                        assert forall|nm: Seq<char>|
                            old(self).outputs@.dom().union(
                                combine_taps_upto(nodes, inner@, k + 1),
                            ).contains(nm) implies self.outputs@.dom().contains(nm) by {
                            if !old(self).outputs@.dom().contains(nm) {
                                let t = choose|t: int|
                                    0 <= t < k + 1 && tap_names(
                                        nodes,
                                        #[trigger] inner@[t] as int,
                                    ).contains(nm);
                                if t < k {
                                    assert(combine_taps_upto(nodes, inner@, k as int).contains(nm));
                                    assert(pre_dom.contains(nm));
                                } else {
                                    assert(inner@[t] == c);
                                }
                            }
                        }
                        assert(self.outputs@.dom() =~= old(self).outputs@.dom().union(
                            combine_taps_upto(nodes, inner@, k + 1),
                        ));
                    }
                    k = k + 1;
                }
                let out = Matrix::new(0, 0);
                proof {
                    lemma_reach_list(nodes, i as int, inner@);
                    assert(inputs_ok(nodes, binds, i as int)) by {
                        assert forall|j: int|
                            0 <= j < nodes.len() && #[trigger] reaches(nodes, i as int, j)
                                && is_input(nodes, j) implies binds.contains_key(
                            input_name(nodes, j),
                        ) by {
                            if j != i {
                                let t = choose|t: int|
                                    0 <= t < inner@.len() && reaches(
                                        nodes,
                                        #[trigger] inner@[t] as int,
                                        j,
                                    );
                                assert(inputs_ok(nodes, binds, inner@[t] as int));
                            }
                        }
                    }
                    assert(out@.data =~= Seq::<S>::empty());
                    assert(out@ == node_val(nodes, binds, i as int));
                    assert(self.outputs@.dom() == old(self).outputs@.dom().union(
                        tap_names(nodes, i as int),
                    ));
                    assert forall|t: int|
                        0 <= t < nodes.len() && #[trigger] reaches(nodes, i as int, t) && t
                            != i implies self.counts@[t] >= 1 by {
                        let u = choose|u: int|
                            0 <= u < inner@.len() && reaches(nodes, #[trigger] inner@[u] as int, t);
                    }
                }
                out
            },
        };
        let c0 = self.counts[i];
        let bumped = if c0 < usize::MAX {
            c0 + 1
        } else {
            c0
        };
        self.counts.set(i, bumped);
        if self.shared[i] {
            let dup = out.duplicate();
            self.cache.set(i, Some(dup));
        }
        proof {
            assert(self.counts@[i as int] >= 1);
        }
        Ok(out)
    }

    /// Evaluates `root` against `inputs`, returning its value, the
    /// captured taps, and for every node the number of times it was
    /// evaluated without a cache hit: shared nodes — in-degree above one —
    /// are evaluated exactly once per call.
    pub fn execute_counting(plan: &MatrixPlan<S>, root: usize, inputs: &MatrixMap<S>) -> (r:
        Result<(Matrix<S>, MatrixMap<S>, Vec<usize>), PlanError>)
        requires
            plan_wf(plan@),
            root < plan@.len(),
            inputs.wf(),
            binds_shaped(plan@, inputs@),
        ensures
            r is Ok <==> inputs_ok(plan@, inputs@, root as int),
            r matches Ok((m, taps, counts)) ==> m@ == node_val(plan@, inputs@, root as int)
                && m@.wf() && m@.rows == plan@[root as int].rows && m@.cols
                == plan@[root as int].cols && taps.wf() && taps@.dom() == tap_names(
                plan@,
                root as int,
            ) && taps_consistent(plan@, inputs@, taps@) && unique_taps_exact(
                plan@,
                inputs@,
                taps@,
                root as int,
            ) && counts@.len() == plan@.len() && (forall|
                j: int,
            |
                0 <= j < plan@.len() && #[trigger] reaches(plan@, root as int, j)
                    ==> counts@[j] >= 1 && (indegree(plan@, j) >= 2 ==> counts@[j] == 1)),
            r matches Err(e) ==> e matches PlanError::MissingInput { name } && missing_input(
                plan@,
                inputs@,
                root as int,
                name@,
            ),
    {
        let ghost nodes = plan@;
        let n = plan.nodes.len();
        let shared = compute_shared(plan);
        let mut cache: Vec<Option<Matrix<S>>> = Vec::new();
        let mut counts: Vec<usize> = Vec::new();
        let mut z: usize = 0;
        while z < n
            invariant
                z <= n,
                cache@.len() == z,
                counts@.len() == z,
                forall|t: int| 0 <= t < z ==> cache@[t] is None,
                forall|t: int| 0 <= t < z ==> counts@[t] == 0,
            decreases n - z,
        {
            cache.push(None);
            counts.push(0);
            z = z + 1;
        }
        let mut ctx = MatrixPlanCPUContext { inputs, outputs: MatrixMap::new(), cache, counts, shared };
        proof {
            assert(ctx.inv(nodes));
        }
        match ctx.execute_cpu_recur(plan, root) {
            Ok(m) => {
                proof {
                    assert(ctx.outputs@.dom() =~= tap_names(nodes, root as int));
                    assert forall|j: int|
                        0 <= j < nodes.len() && #[trigger] reaches(nodes, root as int, j)
                            && is_output(nodes, j) && (forall|j2: int|
                            0 <= j2 < nodes.len() && #[trigger] is_output(nodes, j2) && output_name(
                                nodes,
                                j2,
                            ) == output_name(nodes, j) ==> j2 == j) implies ctx.outputs@.contains_key(
                        output_name(nodes, j),
                    ) && ctx.outputs@[output_name(nodes, j)] == node_val(
                        nodes,
                        inputs@,
                        output_child(nodes, j),
                    ) by {
                        lemma_unique_tap(nodes, inputs@, ctx.outputs@, root as int, j);
                    }
                    assert forall|j: int|
                        0 <= j < nodes.len() && #[trigger] reaches(nodes, root as int, j) implies
                        ctx.counts@[j] >= 1 && (indegree(nodes, j) >= 2 ==> ctx.counts@[j]
                            == 1) by {
                        if indegree(nodes, j) >= 2 {
                            assert(ctx.shared@[j]);
                        }
                    }
                }
                Ok((m, ctx.outputs, ctx.counts))
            },
            Err(e) => Err(e),
        }
    }

    /// Evaluates `root` against `inputs`: the root's value and the
    /// captured taps, or the name of an unbound leaf.
    pub fn execute(plan: &MatrixPlan<S>, root: usize, inputs: &MatrixMap<S>) -> (r: Result<
        (Matrix<S>, MatrixMap<S>),
        PlanError,
    >)
        requires
            plan_wf(plan@),
            root < plan@.len(),
            inputs.wf(),
            binds_shaped(plan@, inputs@),
        ensures
            r is Ok <==> inputs_ok(plan@, inputs@, root as int),
            r matches Ok((m, taps)) ==> m@ == node_val(plan@, inputs@, root as int) && m@.wf()
                && m@.rows == plan@[root as int].rows && m@.cols == plan@[root as int].cols
                && taps.wf() && taps@.dom() == tap_names(plan@, root as int) && taps_consistent(
                plan@,
                inputs@,
                taps@,
            ) && unique_taps_exact(plan@, inputs@, taps@, root as int),
            r matches Err(e) ==> e matches PlanError::MissingInput { name } && missing_input(
                plan@,
                inputs@,
                root as int,
                name@,
            ),
    {
        match Self::execute_counting(plan, root, inputs) {
            Ok((m, taps, _counts)) => Ok((m, taps)),
            Err(e) => Err(e),
        }
    }
}

/// When exactly one tap of the plan carries the name `k`, the captured
/// taps bind `k` to precisely that tap's value — the value that executing
/// the tapped node directly would return.
pub proof fn lemma_unique_tap<S: Scalar>(
    nodes: Seq<PlanNode<S>>,
    binds: Map<Seq<char>, MatV<S>>,
    taps: Map<Seq<char>, MatV<S>>,
    root: int,
    j0: int,
)
    requires
        taps.dom() == tap_names(nodes, root),
        taps_consistent(nodes, binds, taps),
        0 <= j0 < nodes.len(),
        reaches(nodes, root, j0),
        is_output(nodes, j0),
        forall|j: int|
            0 <= j < nodes.len() && #[trigger] is_output(nodes, j) && output_name(nodes, j)
                == output_name(nodes, j0) ==> j == j0,
    ensures
        taps.contains_key(output_name(nodes, j0)),
        taps[output_name(nodes, j0)] == node_val(nodes, binds, output_child(nodes, j0)),
{
    let k = output_name(nodes, j0);
    assert(tap_names(nodes, root).contains(k));
    assert(taps.contains_key(k));
    let j = choose|j: int|
        0 <= j < nodes.len() && #[trigger] is_output(nodes, j) && output_name(nodes, j) == k
            && inputs_ok(nodes, binds, output_child(nodes, j)) && taps[k] == node_val(
            nodes,
            binds,
            output_child(nodes, j),
        );
    assert(j == j0);
}

} // verus!
