//! Node predicates: which nodes a pod may be placed on.

use crate::affinity::{are_terms_met, terms_met};
use crate::model::{
    Container, Node, NodeSelectorTerm, Pod, ResourceEntry, Taint, TaintEffect, Toleration,
    TolerationOperator,
};
use crate::quantity::{max_amount, parse_spec, Quantity};
use crate::text::str_equal;
use vstd::prelude::*;

verus! {

/// The amount that an entry states, in thousandths; `None` where its text is no
/// quantity.
pub open spec fn entry_amount(entry: ResourceEntry) -> Option<nat> {
    match parse_spec(entry.quantity@) {
        Some((amount, _)) => Some(amount),
        None => None,
    }
}

/// The sum of the amounts of the entries named `name`. An entry whose text is no
/// quantity counts as nothing.
pub open spec fn entries_total(entries: Seq<ResourceEntry>, name: Seq<char>) -> nat
    decreases entries.len(),
{
    if entries.len() == 0 {
        0
    } else {
        let last = entries.last();
        let amount = if last.name@ == name {
            match entry_amount(last) {
                Some(a) => a,
                None => 0,
            }
        } else {
            0
        };
        entries_total(entries.drop_last(), name) + amount
    }
}

/// The requests of one container; none where it states none.
pub open spec fn container_requests(container: Container) -> Seq<ResourceEntry> {
    match container.resources {
        Some(resources) => match resources.requests {
            Some(requests) => requests@,
            None => Seq::empty(),
        },
        None => Seq::empty(),
    }
}

/// What the containers request of the resource `name`, all together.
pub open spec fn containers_total(containers: Seq<Container>, name: Seq<char>) -> nat
    decreases containers.len(),
{
    if containers.len() == 0 {
        0
    } else {
        containers_total(containers.drop_last(), name) + entries_total(
            container_requests(containers.last()),
            name,
        )
    }
}

/// What a pod requests of the resource `name`; nothing where it has no spec.
pub open spec fn pod_requested(pod: Pod, name: Seq<char>) -> nat {
    match pod.spec {
        Some(spec) => containers_total(spec.containers@, name),
        None => 0,
    }
}

/// What the pods request of the resource `name`, all together.
pub open spec fn pods_requested(pods: Seq<Pod>, name: Seq<char>) -> nat
    decreases pods.len(),
{
    if pods.len() == 0 {
        0
    } else {
        pods_requested(pods.drop_last(), name) + pod_requested(pods.last(), name)
    }
}

/// What is left of `offered` once `used` is taken; nothing where more is used than
/// offered.
pub open spec fn available(offered: nat, used: nat) -> nat {
    if offered >= used {
        (offered - used) as nat
    } else {
        0
    }
}

/// The amount of the first entry from `from` on that is named `name`; `None` where
/// there is none or its text is no quantity.
pub open spec fn allocatable_amount(
    entries: Seq<ResourceEntry>,
    name: Seq<char>,
    from: int,
) -> Option<nat>
    decreases entries.len() - from,
{
    if from < 0 || from >= entries.len() {
        None
    } else if entries[from].name@ == name {
        entry_amount(entries[from])
    } else {
        allocatable_amount(entries, name, from + 1)
    }
}

/// Whether one request can be met beside the pods on the node: its text is a
/// quantity, the node offers the resource, and all that the containers request of
/// it is within what the pods on the node leave of the offer.
pub open spec fn request_fits(
    allocatable: Seq<ResourceEntry>,
    on_node: Seq<Pod>,
    containers: Seq<Container>,
    entry: ResourceEntry,
) -> bool {
    entry_amount(entry) is Some && match allocatable_amount(allocatable, entry.name@, 0) {
        Some(offered) => containers_total(containers, entry.name@) <= available(
            offered,
            pods_requested(on_node, entry.name@),
        ),
        None => false,
    }
}

/// Whether the node is open for scheduling: it has a spec that does not mark it
/// unschedulable.
pub open spec fn node_schedulable(node: Node) -> bool {
    match node.spec {
        Some(spec) => spec.unschedulable != Some(true),
        None => false,
    }
}

/// Whether every request of the containers can be met beside the pods on the
/// node.
pub open spec fn requests_fit(
    allocatable: Seq<ResourceEntry>,
    on_node: Seq<Pod>,
    containers: Seq<Container>,
) -> bool {
    forall|c: int, e: int|
        0 <= c < containers.len() && 0 <= e < container_requests(containers[c]).len()
            ==> #[trigger] request_fits(
            allocatable,
            on_node,
            containers,
            container_requests(containers[c])[e],
        )
}

/// Whether the pod fits on the node beside the pods `on_node`: the node offers
/// every resource that the pod requests, and what those pods leave of it is at
/// least the amount requested. False where the node states no allocatable
/// resources or the pod has no spec.
pub open spec fn pod_fits(node: Node, on_node: Seq<Pod>, pod: Pod) -> bool {
    match (node.status, pod.spec) {
        (Some(status), Some(spec)) => match status.allocatable {
            Some(allocatable) => requests_fit(allocatable@, on_node, spec.containers@),
            None => false,
        },
        _ => false,
    }
}

/// Whether the node offers every resource that the pod requests, in at least the
/// amount requested: whether the pod fits on the node when no pod is on it.
pub open spec fn pod_allocatable(node: Node, pod: Pod) -> bool {
    pod_fits(node, Seq::empty(), pod)
}

/// Whether a taint with this effect keeps pods off the node.
pub open spec fn effect_blocks(effect: TaintEffect) -> bool {
    effect == TaintEffect::NoSchedule || effect == TaintEffect::NoExecute
}

/// Whether the toleration matches the taint.
pub open spec fn tolerates(toleration: Toleration, taint: Taint) -> bool {
    &&& toleration.effect is None || toleration.effect == Some(taint.effect)
    &&& match toleration.operator {
        TolerationOperator::Exists => toleration.key@.len() == 0 || toleration.key@ == taint.key@,
        TolerationOperator::Equal => toleration.key@ == taint.key@ && toleration.value@
            == taint.value@,
    }
}

/// Whether one of the tolerations matches the taint.
pub open spec fn tolerated_by(tolerations: Seq<Toleration>, taint: Taint) -> bool {
    exists|j: int| 0 <= j < tolerations.len() && #[trigger] tolerates(tolerations[j], taint)
}

/// The tolerations of a pod; none where it has no spec.
pub open spec fn pod_tolerations(pod: Pod) -> Seq<Toleration> {
    match pod.spec {
        Some(spec) => spec.tolerations@,
        None => Seq::empty(),
    }
}

/// Whether every taint that blocks scheduling is matched by one of the tolerations.
pub open spec fn all_tolerated(taints: Seq<Taint>, tolerations: Seq<Toleration>) -> bool {
    forall|i: int|
        0 <= i < taints.len() && effect_blocks(#[trigger] taints[i].effect) ==> tolerated_by(
            tolerations,
            taints[i],
        )
}

/// The taints of a node; none where it has no spec.
pub open spec fn node_taints(node: Node) -> Seq<Taint> {
    match node.spec {
        Some(spec) => spec.taints@,
        None => Seq::empty(),
    }
}

/// Whether the pod tolerates every taint of the node that blocks scheduling. A
/// node without a spec has no taint; it is kept out as unschedulable.
pub open spec fn taints_tolerated(node: Node, pod: Pod) -> bool {
    all_tolerated(node_taints(node), pod_tolerations(pod))
}

/// The required node affinity terms of a pod; none where it has no spec.
pub open spec fn pod_affinity_terms(pod: Pod) -> Seq<NodeSelectorTerm> {
    match pod.spec {
        Some(spec) => spec.node_affinity@,
        None => Seq::empty(),
    }
}

/// Whether the node meets the pod's required affinity: its labels meet one of the
/// pod's node affinity terms, or the pod has none. Affinity to other pods is not
/// part of the model: it asks nothing.
pub open spec fn affinity_fulfilled(node: Node, pod: Pod) -> bool {
    terms_met(node.labels@, pod_affinity_terms(pod))
}

/// Whether the node meets the pod's required anti-affinity. Anti-affinity to
/// other pods is not part of the model: every node meets it.
pub open spec fn anti_affinity_fulfilled(node: Node, pod: Pod) -> bool {
    true
}

/// Whether the pod may be placed on the node beside the pods `on_node`: all
/// five predicates hold, the second for what those pods leave of the node.
pub open spec fn feasible(node: Node, on_node: Seq<Pod>, pod: Pod) -> bool {
    &&& node_schedulable(node)
    &&& pod_fits(node, on_node, pod)
    &&& taints_tolerated(node, pod)
    &&& affinity_fulfilled(node, pod)
    &&& anti_affinity_fulfilled(node, pod)
}

/// Sums the amounts of the entries named `name`; `None` where the sum is beyond
/// what a quantity holds.
pub fn entries_requested(entries: &Vec<ResourceEntry>, name: &str) -> (total: Option<Quantity>)
    ensures
        match total {
            Some(t) => t@ == entries_total(entries@, name@),
            None => entries_total(entries@, name@) > max_amount(),
        },
{
    let mut acc: Option<Quantity> = Some(Quantity::zero());
    let mut j: usize = 0;
    while j < entries.len()
        invariant
            j <= entries.len(),
            match acc {
                Some(t) => t@ == entries_total(entries@.take(j as int), name@),
                None => entries_total(entries@.take(j as int), name@) > max_amount(),
            },
        decreases entries.len() - j,
    {
        proof {
            assert(entries@.take(j + 1).drop_last() =~= entries@.take(j as int));
        }
        let entry = &entries[j];
        if str_equal(entry.name.as_str(), name) {
            match Quantity::parse(entry.quantity.as_str()) {
                Ok(q) => {
                    acc = match acc {
                        Some(t) => t.checked_add(&q),
                        None => None,
                    };
                },
                Err(_) => {},
            }
        }
        j = j + 1;
    }
    proof {
        assert(entries@.take(j as int) =~= entries@);
    }
    acc
}

/// What two sums make together; `None` where one of them or their sum is beyond
/// what a quantity holds.
fn add_sums(
    a: Option<Quantity>,
    b: Option<Quantity>,
    Ghost(left): Ghost<nat>,
    Ghost(right): Ghost<nat>,
) -> (sum: Option<Quantity>)
    requires
        match a {
            Some(q) => q@ == left,
            None => left > max_amount(),
        },
        match b {
            Some(q) => q@ == right,
            None => right > max_amount(),
        },
    ensures
        match sum {
            Some(q) => q@ == left + right,
            None => left + right > max_amount(),
        },
{
    match (a, b) {
        (Some(x), Some(y)) => x.checked_add(&y),
        _ => None,
    }
}

/// Sums what the containers request of the resource `name`; `None` where the sum
/// is beyond what a quantity holds.
pub fn containers_requested(containers: &Vec<Container>, name: &str) -> (total: Option<Quantity>)
    ensures
        match total {
            Some(t) => t@ == containers_total(containers@, name@),
            None => containers_total(containers@, name@) > max_amount(),
        },
{
    let mut acc: Option<Quantity> = Some(Quantity::zero());
    let mut c: usize = 0;
    while c < containers.len()
        invariant
            c <= containers.len(),
            match acc {
                Some(t) => t@ == containers_total(containers@.take(c as int), name@),
                None => containers_total(containers@.take(c as int), name@) > max_amount(),
            },
        decreases containers.len() - c,
    {
        proof {
            assert(containers@.take(c + 1).drop_last() =~= containers@.take(c as int));
        }
        let part: Option<Quantity> = match &containers[c].resources {
            Some(resources) => match &resources.requests {
                Some(requests) => entries_requested(requests, name),
                None => Some(Quantity::zero()),
            },
            None => Some(Quantity::zero()),
        };
        acc = add_sums(
            acc,
            part,
            Ghost(containers_total(containers@.take(c as int), name@)),
            Ghost(entries_total(container_requests(containers@[c as int]), name@)),
        );
        c = c + 1;
    }
    proof {
        assert(containers@.take(c as int) =~= containers@);
    }
    acc
}

/// Looks up what a node offers of the resource `name`.
pub fn offered_amount(allocatable: &Vec<ResourceEntry>, name: &str) -> (offered: Option<Quantity>)
    ensures
        match offered {
            Some(a) => allocatable_amount(allocatable@, name@, 0) == Some(a@),
            None => allocatable_amount(allocatable@, name@, 0) is None,
        },
{
    let mut i: usize = 0;
    while i < allocatable.len()
        invariant
            i <= allocatable.len(),
            allocatable_amount(allocatable@, name@, 0) == allocatable_amount(
                allocatable@,
                name@,
                i as int,
            ),
        decreases allocatable.len() - i,
    {
        let entry = &allocatable[i];
        if str_equal(entry.name.as_str(), name) {
            return match Quantity::parse(entry.quantity.as_str()) {
                Ok(q) => Some(q),
                Err(_) => None,
            };
        }
        i = i + 1;
    }
    None
}

/// What a pod requests of the resource `name`; `None` where the sum is beyond
/// what a quantity holds.
pub fn pod_request(pod: &Pod, name: &str) -> (total: Option<Quantity>)
    ensures
        match total {
            Some(t) => t@ == pod_requested(*pod, name@),
            None => pod_requested(*pod, name@) > max_amount(),
        },
{
    match &pod.spec {
        Some(spec) => containers_requested(&spec.containers, name),
        None => Some(Quantity::zero()),
    }
}

/// What the pods request of the resource `name`, all together; `None` where the
/// sum is beyond what a quantity holds.
pub fn pods_request(pods: &Vec<Pod>, name: &str) -> (total: Option<Quantity>)
    ensures
        match total {
            Some(t) => t@ == pods_requested(pods@, name@),
            None => pods_requested(pods@, name@) > max_amount(),
        },
{
    let mut acc: Option<Quantity> = Some(Quantity::zero());
    let mut i: usize = 0;
    while i < pods.len()
        invariant
            i <= pods.len(),
            match acc {
                Some(t) => t@ == pods_requested(pods@.take(i as int), name@),
                None => pods_requested(pods@.take(i as int), name@) > max_amount(),
            },
        decreases pods.len() - i,
    {
        proof {
            assert(pods@.take(i + 1).drop_last() =~= pods@.take(i as int));
        }
        acc = add_sums(
            acc,
            pod_request(&pods[i], name),
            Ghost(pods_requested(pods@.take(i as int), name@)),
            Ghost(pod_requested(pods@[i as int], name@)),
        );
        i = i + 1;
    }
    proof {
        assert(pods@.take(i as int) =~= pods@);
    }
    acc
}

/// Decides `request_fits` for one request of a pod.
fn check_request(
    allocatable: &Vec<ResourceEntry>,
    on_node: &Vec<Pod>,
    containers: &Vec<Container>,
    entry: &ResourceEntry,
) -> (fits: bool)
    ensures
        fits == request_fits(allocatable@, on_node@, containers@, *entry),
{
    if Quantity::parse(entry.quantity.as_str()).is_err() {
        return false;
    }
    let offered: Quantity = match offered_amount(allocatable, entry.name.as_str()) {
        Some(offered) => offered,
        None => {
            return false;
        },
    };
    let left: Quantity = match pods_request(on_node, entry.name.as_str()) {
        Some(used) => offered.saturating_sub(&used),
        None => Quantity::zero(),
    };
    proof {
        use_type_invariant(&offered);
        offered.lemma_well_formed();
        use_type_invariant(&left);
        left.lemma_well_formed();
    }
    match containers_requested(containers, entry.name.as_str()) {
        Some(requested) => requested <= left,
        None => false,
    }
}

/// Whether the node is open for scheduling.
pub fn is_node_schedulable(node: &Node) -> (schedulable: bool)
    ensures
        schedulable == node_schedulable(*node),
{
    match &node.spec {
        Some(spec) => match spec.unschedulable {
            Some(unschedulable) => !unschedulable,
            None => true,
        },
        None => false,
    }
}

/// Decides `requests_fit`.
fn check_requests(
    offered: &Vec<ResourceEntry>,
    on_node: &Vec<Pod>,
    containers: &Vec<Container>,
) -> (fit: bool)
    ensures
        fit == requests_fit(offered@, on_node@, containers@),
{
    let mut c: usize = 0;
    while c < containers.len()
        invariant
            c <= containers.len(),
            forall|c2: int, e: int|
                0 <= c2 < c && 0 <= e < container_requests(containers@[c2]).len()
                    ==> #[trigger] request_fits(
                    offered@,
                    on_node@,
                    containers@,
                    container_requests(containers@[c2])[e],
                ),
        decreases containers.len() - c,
    {
        match &containers[c].resources {
            Some(resources) => match &resources.requests {
                Some(requests) => {
                    let mut e: usize = 0;
                    while e < requests.len()
                        invariant
                            e <= requests.len(),
                            c < containers.len(),
                            requests@ == container_requests(containers@[c as int]),
                            forall|e2: int|
                                0 <= e2 < e ==> #[trigger] request_fits(
                                    offered@,
                                    on_node@,
                                    containers@,
                                    requests@[e2],
                                ),
                        decreases requests.len() - e,
                    {
                        if !check_request(offered, on_node, containers, &requests[e]) {
                            assert(!request_fits(
                                offered@,
                                on_node@,
                                containers@,
                                container_requests(containers@[c as int])[e as int],
                            ));
                            return false;
                        }
                        e = e + 1;
                    }
                },
                None => {},
            },
            None => {},
        }
        c = c + 1;
    }
    true
}

/// Whether the pod fits on the node beside the pods `on_node`.
pub fn does_pod_fit(node: &Node, on_node: &Vec<Pod>, pod: &Pod) -> (fits: bool)
    ensures
        fits == pod_fits(*node, on_node@, *pod),
{
    match (&node.status, &pod.spec) {
        (Some(status), Some(spec)) => match &status.allocatable {
            Some(offered) => check_requests(offered, on_node, &spec.containers),
            None => false,
        },
        _ => false,
    }
}

/// Whether the node offers all that the pod requests.
pub fn is_pod_allocatable(node: &Node, pod: &Pod) -> (allocatable: bool)
    ensures
        allocatable == pod_allocatable(*node, *pod),
{
    does_pod_fit(node, &Vec::new(), pod)
}

/// Decides `tolerated_by`.
fn is_taint_tolerated(tolerations: &Vec<Toleration>, taint: &Taint) -> (tolerated: bool)
    ensures
        tolerated == tolerated_by(tolerations@, *taint),
{
    let mut j: usize = 0;
    while j < tolerations.len()
        invariant
            j <= tolerations.len(),
            forall|k: int| 0 <= k < j ==> !#[trigger] tolerates(tolerations@[k], *taint),
        decreases tolerations.len() - j,
    {
        let toleration = &tolerations[j];
        let effect_matches: bool = match toleration.effect {
            Some(effect) => effect == taint.effect,
            None => true,
        };
        let key_matches: bool = str_equal(toleration.key.as_str(), taint.key.as_str());
        let rest_matches: bool = match toleration.operator {
            TolerationOperator::Exists => toleration.key.as_str().unicode_len() == 0 || key_matches,
            TolerationOperator::Equal => key_matches && str_equal(
                toleration.value.as_str(),
                taint.value.as_str(),
            ),
        };
        if effect_matches && rest_matches {
            assert(tolerates(tolerations@[j as int], *taint));
            return true;
        }
        j = j + 1;
    }
    false
}

/// Decides `all_tolerated`.
fn check_taints(taints: &Vec<Taint>, tolerations: &Vec<Toleration>) -> (tolerated: bool)
    ensures
        tolerated == all_tolerated(taints@, tolerations@),
{
    let mut i: usize = 0;
    while i < taints.len()
        invariant
            i <= taints.len(),
            forall|k: int|
                0 <= k < i && effect_blocks(#[trigger] taints@[k].effect) ==> tolerated_by(
                    tolerations@,
                    taints@[k],
                ),
        decreases taints.len() - i,
    {
        let taint = &taints[i];
        let blocks: bool = match taint.effect {
            TaintEffect::NoSchedule => true,
            TaintEffect::NoExecute => true,
            TaintEffect::PreferNoSchedule => false,
        };
        if blocks && !is_taint_tolerated(tolerations, taint) {
            assert(effect_blocks(taints@[i as int].effect));
            return false;
        }
        i = i + 1;
    }
    true
}

/// Whether the pod tolerates every taint of the node that blocks scheduling.
pub fn is_pod_taint_toleration_fulfilled(node: &Node, pod: &Pod) -> (fulfilled: bool)
    ensures
        fulfilled == taints_tolerated(*node, *pod),
{
    let no_taints: Vec<Taint> = Vec::new();
    let no_tolerations: Vec<Toleration> = Vec::new();
    let taints = match &node.spec {
        Some(spec) => &spec.taints,
        None => &no_taints,
    };
    let tolerations = match &pod.spec {
        Some(spec) => &spec.tolerations,
        None => &no_tolerations,
    };
    check_taints(taints, tolerations)
}

/// Whether the node meets the pod's required affinity.
pub fn is_pod_affinity_fulfilled(node: &Node, pod: &Pod) -> (fulfilled: bool)
    ensures
        fulfilled == affinity_fulfilled(*node, *pod),
{
    match &pod.spec {
        Some(spec) => are_terms_met(&node.labels, &spec.node_affinity),
        None => true,
    }
}

/// Whether the node meets the pod's required anti-affinity.
pub fn is_pod_anti_affinity_fulfilled(node: &Node, pod: &Pod) -> (fulfilled: bool)
    ensures
        fulfilled == anti_affinity_fulfilled(*node, *pod),
{
    true
}

/// Whether the pod may be placed on the node beside the pods `on_node`. The
/// predicates are tried in their fixed order and the first that fails decides.
pub fn is_feasible(node: &Node, on_node: &Vec<Pod>, pod: &Pod) -> (ok: bool)
    ensures
        ok == feasible(*node, on_node@, *pod),
{
    is_node_schedulable(node) && does_pod_fit(node, on_node, pod)
        && is_pod_taint_toleration_fulfilled(node, pod) && is_pod_affinity_fulfilled(node, pod)
        && is_pod_anti_affinity_fulfilled(node, pod)
}

} // verus!
