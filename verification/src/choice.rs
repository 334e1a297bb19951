//! The node that a pod is placed on is the best there is: it is feasible, and no
//! feasible node is preferred to it.

use crate::bin_packing::{best_node, pods_on};
use crate::filters::feasible;
use crate::fraction::{fraction_rank, Rank};
use crate::model::{AssignmentView, Node, Pod};
use crate::score::{capacity, name_of, prefers, utilization};
use crate::text::{
    lemma_lex_asymmetric, lemma_lex_irreflexive, lemma_lex_total, lemma_lex_transitive, lex_less,
};
use vstd::prelude::*;

verus! {

/// Fractions with positive denominators are ordered like numbers: what is at most
/// a second fraction is at most all that the second is at most, and strictly
/// below it where one of the two steps is strict.
pub proof fn lemma_fractions_chain(n1: int, d1: int, n2: int, d2: int, n3: int, d3: int)
    requires
        d1 > 0,
        d2 > 0,
        d3 > 0,
    ensures
        n1 * d2 <= n2 * d1 && n2 * d3 <= n3 * d2 ==> n1 * d3 <= n3 * d1,
        n1 * d2 < n2 * d1 && n2 * d3 <= n3 * d2 ==> n1 * d3 < n3 * d1,
        n1 * d2 <= n2 * d1 && n2 * d3 < n3 * d2 ==> n1 * d3 < n3 * d1,
{
    if n1 * d2 <= n2 * d1 && n2 * d3 <= n3 * d2 {
        assert((n1 * d2) * d3 <= (n2 * d1) * d3) by (nonlinear_arith)
            requires
                n1 * d2 <= n2 * d1,
                d3 > 0,
        ;
        assert((n2 * d3) * d1 <= (n3 * d2) * d1) by (nonlinear_arith)
            requires
                n2 * d3 <= n3 * d2,
                d1 > 0,
        ;
        assert((n1 * d3) * d2 == (n1 * d2) * d3 && (n2 * d1) * d3 == (n2 * d3) * d1 && (n3 * d2)
            * d1 == (n3 * d1) * d2) by (nonlinear_arith);
        assert(n1 * d3 <= n3 * d1) by (nonlinear_arith)
            requires
                (n1 * d3) * d2 <= (n3 * d1) * d2,
                d2 > 0,
        ;
        if n1 * d2 < n2 * d1 {
            assert((n1 * d2) * d3 < (n2 * d1) * d3) by (nonlinear_arith)
                requires
                    n1 * d2 < n2 * d1,
                    d3 > 0,
            ;
            assert(n1 * d3 < n3 * d1) by (nonlinear_arith)
                requires
                    (n1 * d3) * d2 < (n3 * d1) * d2,
                    d2 > 0,
            ;
        }
        if n2 * d3 < n3 * d2 {
            assert((n2 * d3) * d1 < (n3 * d2) * d1) by (nonlinear_arith)
                requires
                    n2 * d3 < n3 * d2,
                    d1 > 0,
            ;
            assert(n1 * d3 < n3 * d1) by (nonlinear_arith)
                requires
                    (n1 * d3) * d2 < (n3 * d1) * d2,
                    d2 > 0,
            ;
        }
    }
}

/// A utilization has a positive denominator.
pub proof fn lemma_utilization_defined(node: Node, on_node: Seq<Pod>, pod: Pod)
    ensures
        utilization(node, on_node, pod).den > 0,
{
    let cpu = capacity(node, "cpu"@);
    let memory = capacity(node, "memory"@);
    if cpu > 0 && memory > 0 {
        assert(cpu * memory > 0) by (nonlinear_arith)
            requires
                cpu > 0,
                memory > 0,
        ;
    }
}

/// Of two nodes at most one is preferred to the other.
pub proof fn lemma_prefers_asymmetric(
    a: Node,
    a_pods: Seq<Pod>,
    b: Node,
    b_pods: Seq<Pod>,
    pod: Pod,
)
    ensures
        !(prefers(a, a_pods, b, b_pods, pod) && prefers(b, b_pods, a, a_pods, pod)),
{
    let ua = utilization(a, a_pods, pod);
    let ub = utilization(b, b_pods, pod);
    let forth = fraction_rank(ua.num as int, ua.den as int, ub.num as int, ub.den as int);
    let back = fraction_rank(ub.num as int, ub.den as int, ua.num as int, ua.den as int);
    assert(forth == Rank::Higher ==> back == Rank::Lower);
    lemma_lex_asymmetric(name_of(a), name_of(b));
}

/// Where `a` is not preferred to `b` and `b` is not preferred to `c`, `a` is not
/// preferred to `c`.
pub proof fn lemma_not_preferred_chain(
    a: Node,
    a_pods: Seq<Pod>,
    b: Node,
    b_pods: Seq<Pod>,
    c: Node,
    c_pods: Seq<Pod>,
    pod: Pod,
)
    requires
        !prefers(a, a_pods, b, b_pods, pod),
        !prefers(b, b_pods, c, c_pods, pod),
    ensures
        !prefers(a, a_pods, c, c_pods, pod),
{
    let ua = utilization(a, a_pods, pod);
    let ub = utilization(b, b_pods, pod);
    let uc = utilization(c, c_pods, pod);
    lemma_utilization_defined(a, a_pods, pod);
    lemma_utilization_defined(b, b_pods, pod);
    lemma_utilization_defined(c, c_pods, pod);
    lemma_fractions_chain(
        ua.num as int,
        ua.den as int,
        ub.num as int,
        ub.den as int,
        uc.num as int,
        uc.den as int,
    );
    lemma_fractions_chain(
        uc.num as int,
        uc.den as int,
        ub.num as int,
        ub.den as int,
        ua.num as int,
        ua.den as int,
    );
    lemma_lex_total(name_of(a), name_of(b));
    lemma_lex_total(name_of(b), name_of(c));
    lemma_lex_asymmetric(name_of(a), name_of(c));
    lemma_lex_irreflexive(name_of(a));
    if lex_less(name_of(c), name_of(b)) && lex_less(name_of(b), name_of(a)) {
        lemma_lex_transitive(name_of(c), name_of(b), name_of(a));
    }
}

/// Whether the pod may be placed on the node at index `j`, beside the pods on it.
pub open spec fn feasible_at(
    nodes: Seq<Node>,
    assignments: Seq<AssignmentView>,
    pod: Pod,
    j: int,
) -> bool {
    feasible(nodes[j], pods_on(assignments, nodes[j]), pod)
}

/// The best node among the first `upto` is feasible; no feasible node among them
/// is preferred to it, and it is preferred to every feasible node before it.
/// There is none exactly where none of them is feasible.
pub proof fn lemma_best_node_is_best(
    nodes: Seq<Node>,
    assignments: Seq<AssignmentView>,
    pod: Pod,
    upto: int,
)
    requires
        0 <= upto <= nodes.len(),
    ensures
        match best_node(nodes, assignments, pod, upto) {
            Some(b) => {
                &&& 0 <= b < upto
                &&& feasible_at(nodes, assignments, pod, b)
                &&& forall|j: int|
                    0 <= j < upto && feasible_at(nodes, assignments, pod, j) ==> !prefers(
                        nodes[j],
                        pods_on(assignments, nodes[j]),
                        nodes[b],
                        pods_on(assignments, nodes[b]),
                        pod,
                    )
                &&& forall|j: int|
                    0 <= j < b && feasible_at(nodes, assignments, pod, j) ==> prefers(
                        nodes[b],
                        pods_on(assignments, nodes[b]),
                        nodes[j],
                        pods_on(assignments, nodes[j]),
                        pod,
                    )
            },
            None => forall|j: int| 0 <= j < upto ==> !feasible_at(nodes, assignments, pod, j),
        },
    decreases upto,
{
    if upto > 0 {
        lemma_best_node_is_best(nodes, assignments, pod, upto - 1);
        let k = upto - 1;
        let node = nodes[k];
        let on_k = pods_on(assignments, node);
        if feasible(node, on_k, pod) {
            match best_node(nodes, assignments, pod, upto - 1) {
                None => {
                    lemma_prefers_asymmetric(node, on_k, node, on_k, pod);
                },
                Some(b) => {
                    let on_b = pods_on(assignments, nodes[b]);
                    if prefers(node, on_k, nodes[b], on_b, pod) {
                        lemma_prefers_asymmetric(node, on_k, nodes[b], on_b, pod);
                        lemma_prefers_asymmetric(node, on_k, node, on_k, pod);
                        assert forall|j: int|
                            0 <= j < upto && feasible_at(nodes, assignments, pod, j)
                            implies !prefers(
                            nodes[j],
                            pods_on(assignments, nodes[j]),
                            node,
                            on_k,
                            pod,
                        ) by {
                            if j < k {
                                lemma_not_preferred_chain(
                                    nodes[j],
                                    pods_on(assignments, nodes[j]),
                                    nodes[b],
                                    on_b,
                                    node,
                                    on_k,
                                    pod,
                                );
                            }
                        }
                        assert forall|j: int|
                            0 <= j < k && feasible_at(nodes, assignments, pod, j) implies prefers(
                            node,
                            on_k,
                            nodes[j],
                            pods_on(assignments, nodes[j]),
                            pod,
                        ) by {
                            if !prefers(node, on_k, nodes[j], pods_on(assignments, nodes[j]), pod) {
                                lemma_not_preferred_chain(
                                    node,
                                    on_k,
                                    nodes[j],
                                    pods_on(assignments, nodes[j]),
                                    nodes[b],
                                    on_b,
                                    pod,
                                );
                            }
                        }
                    }
                },
            }
        }
    }
}

} // verus!
