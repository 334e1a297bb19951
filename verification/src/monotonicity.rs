//! Feasibility follows capacity and requests: more capacity on a node never makes
//! it infeasible, and more requests of a pod never make a node feasible.

use crate::affinity::{label_value, requirement_met, term_met, terms_met};
use crate::filters::{
    allocatable_amount, container_requests, containers_total, effect_blocks, feasible,
    pod_affinity_terms, pod_tolerations, request_fits, tolerated_by, tolerates,
};
use crate::model::{
    Container, Label, Node, NodeSelectorTerm, NodeSpec, Pod, ResourceEntry, SelectorRequirement,
    Taint,
};
use vstd::prelude::*;

verus! {

/// The resources that a node states as allocatable; `None` where it states none.
pub open spec fn node_allocatable(node: Node) -> Option<Seq<ResourceEntry>> {
    match node.status {
        Some(status) => match status.allocatable {
            Some(allocatable) => Some(allocatable@),
            None => None,
        },
        None => None,
    }
}

/// Whether the two taints have the same key, value and effect.
pub open spec fn same_taint(a: Taint, b: Taint) -> bool {
    a.key@ == b.key@ && a.value@ == b.value@ && a.effect == b.effect
}

/// Whether the two specs say the same: both mark the node unschedulable or
/// neither does, and their taints are the same, one by one.
pub open spec fn same_spec(a: Option<NodeSpec>, b: Option<NodeSpec>) -> bool {
    match (a, b) {
        (Some(x), Some(y)) => {
            &&& x.unschedulable == y.unschedulable
            &&& x.taints@.len() == y.taints@.len()
            &&& forall|i: int|
                0 <= i < x.taints@.len() ==> same_taint(#[trigger] x.taints@[i], y.taints@[i])
        },
        (None, None) => true,
        _ => false,
    }
}

/// Whether the two lists hold the same labels, one by one.
pub open spec fn same_labels(a: Seq<Label>, b: Seq<Label>) -> bool {
    &&& a.len() == b.len()
    &&& forall|i: int|
        0 <= i < a.len() ==> (#[trigger] a[i]).key@ == b[i].key@ && a[i].value@ == b[i].value@
}

/// Whether `more` is `less` with capacity added: the same labels and spec, and of
/// every resource that `less` offers at least as much.
pub open spec fn offers_at_least(more: Node, less: Node) -> bool {
    &&& same_labels(more.labels@, less.labels@)
    &&& same_spec(more.spec, less.spec)
    &&& match (node_allocatable(less), node_allocatable(more)) {
        (Some(had), Some(has)) => forall|name: Seq<char>|
            match #[trigger] allocatable_amount(had, name, 0) {
                Some(a) => allocatable_amount(has, name, 0) matches Some(b) && a <= b,
                None => true,
            },
        (Some(_), None) => false,
        (None, _) => true,
    }
}

/// The containers of a pod; none where it has no spec.
pub open spec fn pod_containers(pod: Pod) -> Seq<Container> {
    match pod.spec {
        Some(spec) => spec.containers@,
        None => Seq::empty(),
    }
}

/// Whether `more` is `less` with requests added: every request of `less` is one of
/// `more`, `more` requests at least as much of every resource, and nothing else
/// that feasibility looks at differs.
pub open spec fn requests_at_least(more: Pod, less: Pod) -> bool {
    &&& more.spec is Some <==> less.spec is Some
    &&& pod_tolerations(more) == pod_tolerations(less)
    &&& pod_affinity_terms(more) == pod_affinity_terms(less)
    &&& forall|c: int, e: int|
        0 <= c < pod_containers(less).len() && 0 <= e < container_requests(
            pod_containers(less)[c],
        ).len() ==> has_request(
            pod_containers(more),
            #[trigger] container_requests(pod_containers(less)[c])[e],
        )
    &&& forall|name: Seq<char>|
        containers_total(pod_containers(less), name) <= #[trigger] containers_total(
            pod_containers(more),
            name,
        )
}

/// Whether `entry` is a request of one of the containers.
pub open spec fn has_request(containers: Seq<Container>, entry: ResourceEntry) -> bool {
    exists|c: int, e: int|
        0 <= c < containers.len() && 0 <= e < container_requests(containers[c]).len()
            && #[trigger] container_requests(containers[c])[e] == entry
}

/// The same labels give the same value for every key.
proof fn lemma_same_label_values(a: Seq<Label>, b: Seq<Label>, key: Seq<char>, from: int)
    requires
        same_labels(a, b),
    ensures
        label_value(a, key, from) == label_value(b, key, from),
    decreases a.len() - from,
{
    if 0 <= from < a.len() {
        assert(a[from].key@ == b[from].key@);
        lemma_same_label_values(a, b, key, from + 1);
    }
}

/// The same labels meet the same terms.
proof fn lemma_same_labels_same_terms(a: Seq<Label>, b: Seq<Label>, terms: Seq<NodeSelectorTerm>)
    requires
        same_labels(a, b),
    ensures
        terms_met(a, terms) == terms_met(b, terms),
{
    assert forall|r: SelectorRequirement| requirement_met(a, r) == requirement_met(b, r) by {
        lemma_same_label_values(a, b, r.key@, 0);
    }
    assert forall|i: int| 0 <= i < terms.len() implies term_met(a, #[trigger] terms[i]) == term_met(
        b,
        terms[i],
    ) by {
        let term = terms[i];
        assert forall|k: int| 0 <= k < term.match_expressions@.len() implies requirement_met(
            a,
            #[trigger] term.match_expressions@[k],
        ) == requirement_met(b, term.match_expressions@[k]) by {}
    }
}

/// Adding capacity to a node never removes it from the feasible set of a pod.
pub proof fn lemma_capacity_keeps_feasible(more: Node, less: Node, on_node: Seq<Pod>, pod: Pod)
    requires
        offers_at_least(more, less),
        feasible(less, on_node, pod),
    ensures
        feasible(more, on_node, pod),
{
    lemma_same_labels_same_terms(more.labels@, less.labels@, pod_affinity_terms(pod));
    let had = node_allocatable(less).unwrap();
    let has = node_allocatable(more).unwrap();
    let containers = pod_containers(pod);
    let new_taints = more.spec.unwrap().taints@;
    let old_taints = less.spec.unwrap().taints@;
    let tolerations = pod_tolerations(pod);
    assert forall|i: int|
        0 <= i < new_taints.len() && effect_blocks(
            #[trigger] new_taints[i].effect,
        ) implies tolerated_by(tolerations, new_taints[i]) by {
        assert(same_taint(new_taints[i], old_taints[i]));
        assert(effect_blocks(old_taints[i].effect));
        assert(tolerated_by(tolerations, old_taints[i]));
        let j = choose|j: int|
            0 <= j < tolerations.len() && #[trigger] tolerates(tolerations[j], old_taints[i]);
        assert(tolerates(tolerations[j], new_taints[i]));
    }
    assert forall|c: int, e: int|
        0 <= c < containers.len() && 0 <= e < container_requests(
            containers[c],
        ).len() implies #[trigger] request_fits(
        has,
        on_node,
        containers,
        container_requests(containers[c])[e],
    ) by {
        let entry = container_requests(containers[c])[e];
        assert(request_fits(had, on_node, containers, entry));
        assert(allocatable_amount(had, entry.name@, 0) is Some);
    }
}

/// Adding requests to a pod never adds a node to its feasible set: a node that is
/// feasible for the pod with the requests added is feasible for the pod without.
pub proof fn lemma_requests_keep_infeasible(node: Node, on_node: Seq<Pod>, more: Pod, less: Pod)
    requires
        requests_at_least(more, less),
        feasible(node, on_node, more),
    ensures
        feasible(node, on_node, less),
{
    let offered = node_allocatable(node).unwrap();
    let many = pod_containers(more);
    let few = pod_containers(less);
    assert forall|c: int, e: int|
        0 <= c < few.len() && 0 <= e < container_requests(few[c]).len()
        implies #[trigger] request_fits(offered, on_node, few, container_requests(few[c])[e]) by {
        let entry = container_requests(few[c])[e];
        assert(has_request(many, entry));
        let (c2, e2) = choose|c2: int, e2: int|
            0 <= c2 < many.len() && 0 <= e2 < container_requests(many[c2]).len()
                && #[trigger] container_requests(many[c2])[e2] == entry;
        assert(request_fits(offered, on_node, many, container_requests(many[c2])[e2]));
        assert(containers_total(few, entry.name@) <= containers_total(many, entry.name@));
    }
}

/// A pod with one more container requests at least as much as without it.
pub proof fn lemma_container_adds_requests(more: Pod, less: Pod, container: Container)
    requires
        more.spec is Some,
        less.spec is Some,
        more.spec.unwrap().tolerations == less.spec.unwrap().tolerations,
        more.spec.unwrap().node_affinity == less.spec.unwrap().node_affinity,
        more.spec.unwrap().containers@ == less.spec.unwrap().containers@.push(container),
    ensures
        requests_at_least(more, less),
{
    let many = pod_containers(more);
    let few = pod_containers(less);
    assert(many.drop_last() =~= few);
    assert forall|c: int, e: int|
        0 <= c < few.len() && 0 <= e < container_requests(few[c]).len() implies has_request(
        many,
        #[trigger] container_requests(few[c])[e],
    ) by {
        assert(many[c] == few[c]);
        assert(container_requests(many[c])[e] == container_requests(few[c])[e]);
    }
}

} // verus!
