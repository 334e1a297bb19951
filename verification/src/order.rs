//! The order in which pods are served is an order: the pods come out sorted by
//! priority key, namespace and name.

use crate::bin_packing::{comes_before, insertion_point, sorted_pods};
use crate::model::Pod;
use crate::partition::lemma_insertion_point_in_range;
use crate::text::{
    lemma_lex_asymmetric, lemma_lex_irreflexive, lemma_lex_total, lemma_lex_transitive, lex_less,
};
use vstd::prelude::*;

verus! {

/// Whether no pod of `pods` stands behind one that it comes before.
pub open spec fn ordered(pods: Seq<Pod>) -> bool {
    forall|i: int, j: int| 0 <= i < j < pods.len() ==> !comes_before(pods[j], pods[i])
}

/// Of two pods at most one comes before the other.
pub proof fn lemma_before_asymmetric(a: Pod, b: Pod)
    ensures
        !(comes_before(a, b) && comes_before(b, a)),
{
    lemma_lex_asymmetric(a.namespace@, b.namespace@);
    lemma_lex_asymmetric(a.name@, b.name@);
    lemma_lex_irreflexive(a.namespace@);
}

/// A pod that comes before neither `b` nor, through `b`, `c`, does not come before
/// `c`: where `a` is not before `b` and `b` is not before `c`, `a` is not before `c`.
pub proof fn lemma_not_before_transitive(a: Pod, b: Pod, c: Pod)
    requires
        !comes_before(a, b),
        !comes_before(b, c),
    ensures
        !comes_before(a, c),
{
    lemma_lex_total(a.namespace@, b.namespace@);
    lemma_lex_total(b.namespace@, c.namespace@);
    lemma_lex_total(a.name@, b.name@);
    lemma_lex_total(b.name@, c.name@);
    lemma_lex_asymmetric(a.namespace@, c.namespace@);
    lemma_lex_asymmetric(a.name@, c.name@);
    lemma_lex_irreflexive(a.namespace@);
    lemma_lex_irreflexive(a.name@);
    if lex_less(c.namespace@, b.namespace@) && lex_less(b.namespace@, a.namespace@) {
        lemma_lex_transitive(c.namespace@, b.namespace@, a.namespace@);
    }
    if lex_less(c.name@, b.name@) && lex_less(b.name@, a.name@) {
        lemma_lex_transitive(c.name@, b.name@, a.name@);
    }
}

/// Where a pod goes in, it comes before every pod behind that place, and not
/// before the pod in front of it.
pub proof fn lemma_insertion_point(sorted: Seq<Pod>, pod: Pod)
    ensures
        0 <= insertion_point(sorted, pod) <= sorted.len(),
        forall|j: int|
            insertion_point(sorted, pod) <= j < sorted.len() ==> comes_before(
                pod,
                #[trigger] sorted[j],
            ),
        insertion_point(sorted, pod) > 0 ==> !comes_before(
            pod,
            sorted[insertion_point(sorted, pod) - 1],
        ),
    decreases sorted.len(),
{
    lemma_insertion_point_in_range(sorted, pod);
    if sorted.len() > 0 && comes_before(pod, sorted.last()) {
        lemma_insertion_point(sorted.drop_last(), pod);
        assert forall|j: int|
            insertion_point(sorted, pod) <= j < sorted.len() implies comes_before(
            pod,
            #[trigger] sorted[j],
        ) by {
            if j < sorted.len() - 1 {
                assert(sorted.drop_last()[j] == sorted[j]);
            }
        }
        if insertion_point(sorted, pod) > 0 {
            assert(sorted.drop_last()[insertion_point(sorted, pod) - 1] == sorted[insertion_point(
                sorted,
                pod,
            ) - 1]);
        }
    }
}

/// A pod that goes into ordered pods at its place leaves them ordered.
pub proof fn lemma_insert_keeps_order(sorted: Seq<Pod>, pod: Pod)
    requires
        ordered(sorted),
    ensures
        ordered(sorted.insert(insertion_point(sorted, pod), pod)),
{
    let at = insertion_point(sorted, pod);
    let next = sorted.insert(at, pod);
    lemma_insertion_point(sorted, pod);
    assert forall|i: int, j: int| 0 <= i < j < next.len() implies !comes_before(
        next[j],
        next[i],
    ) by {
        if j == at {
            assert(next[i] == sorted[i]);
            if i < at - 1 {
                lemma_not_before_transitive(pod, sorted[at - 1], sorted[i]);
            }
        } else if i == at {
            assert(next[j] == sorted[j - 1]);
            lemma_before_asymmetric(pod, sorted[j - 1]);
        } else if j < at {
            assert(next[i] == sorted[i] && next[j] == sorted[j]);
        } else if i < at {
            assert(next[i] == sorted[i] && next[j] == sorted[j - 1]);
        } else {
            assert(next[i] == sorted[i - 1] && next[j] == sorted[j - 1]);
        }
    }
}

/// The pods are served in order: no pod is served after one that it comes
/// before, by priority key, then namespace, then name.
pub proof fn lemma_sorted_is_ordered(pods: Seq<Pod>)
    ensures
        ordered(sorted_pods(pods)),
    decreases pods.len(),
{
    if pods.len() > 0 {
        lemma_sorted_is_ordered(pods.drop_last());
        lemma_insert_keeps_order(sorted_pods(pods.drop_last()), pods.last());
    }
}

} // verus!
