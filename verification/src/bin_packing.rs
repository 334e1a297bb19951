//! Bin-packing placement: pods in order of priority, each on the feasible node
//! that it fills best.

use crate::choice::{feasible_at, lemma_best_node_is_best};
use crate::commitment::{
    lemma_schedule_keeps_names, lemma_schedule_keeps_offers, node_names_differ,
    none_over_committed, record_names_differ,
};
use crate::filters::{feasible, is_feasible};
use crate::model::{
    assignment_views, AssignmentView, Node, NodeAssignment, Placement, PlacementView, Pod,
    QosClass, Reason, TargetState, TargetView, WorldState,
};
use crate::order::{lemma_sorted_is_ordered, ordered};
use crate::partition::{
    lemma_schedule_partitions, lemma_sorted_is_permutation, partitions, records_have_nodes,
};
use crate::score::{prefers, prefers_node};
use crate::text::{lex_less, str_equal, str_less};
use vstd::prelude::*;

verus! {

/// The key by which pods are ordered; a lower key is served earlier.
pub open spec fn priority_key(pod: Pod) -> int {
    match pod.qos_class {
        QosClass::Guaranteed => -997,
        QosClass::Burstable => 0,
        QosClass::BestEffort => 1000,
        QosClass::Unknown => 1000,
    }
}

/// Whether `a` is served strictly before `b`: by priority key, then by namespace,
/// then by name.
pub open spec fn comes_before(a: Pod, b: Pod) -> bool {
    ||| priority_key(a) < priority_key(b)
    ||| priority_key(a) == priority_key(b) && lex_less(a.namespace@, b.namespace@)
    ||| priority_key(a) == priority_key(b) && a.namespace@ == b.namespace@ && lex_less(
        a.name@,
        b.name@,
    )
}

/// Where `pod` goes into `sorted`: behind every pod that it does not come before.
pub open spec fn insertion_point(sorted: Seq<Pod>, pod: Pod) -> int
    decreases sorted.len(),
{
    if sorted.len() > 0 && comes_before(pod, sorted.last()) {
        insertion_point(sorted.drop_last(), pod)
    } else {
        sorted.len() as int
    }
}

/// The pods in the order in which they are served. Pods that neither key nor
/// names tell apart keep the order in which they came.
pub open spec fn sorted_pods(pods: Seq<Pod>) -> Seq<Pod>
    decreases pods.len(),
{
    if pods.len() == 0 {
        Seq::empty()
    } else {
        let rest = sorted_pods(pods.drop_last());
        rest.insert(insertion_point(rest, pods.last()), pods.last())
    }
}

/// The index of the first assignment from `from` on that belongs to the node named
/// `name`.
pub open spec fn record_index(
    assignments: Seq<AssignmentView>,
    name: Seq<char>,
    from: int,
) -> Option<int>
    decreases assignments.len() - from,
{
    if from < 0 || from >= assignments.len() {
        None
    } else if assignments[from].node_name == name {
        Some(from)
    } else {
        record_index(assignments, name, from + 1)
    }
}

/// The pods on a node; none where the node has no name or no assignment.
pub open spec fn pods_on(assignments: Seq<AssignmentView>, node: Node) -> Seq<Pod> {
    match node.name {
        Some(name) => match record_index(assignments, name@, 0) {
            Some(i) => assignments[i].pods,
            None => Seq::empty(),
        },
        None => Seq::empty(),
    }
}

/// The best place for `pod` among the first `upto` nodes: a feasible node that is
/// preferred to every feasible node before it and to which no later one is
/// preferred; `None` where none of them is feasible.
pub open spec fn best_node(
    nodes: Seq<Node>,
    assignments: Seq<AssignmentView>,
    pod: Pod,
    upto: int,
) -> Option<int>
    decreases upto,
{
    if upto <= 0 {
        None
    } else {
        let before = best_node(nodes, assignments, pod, upto - 1);
        let node = nodes[upto - 1];
        if !feasible(node, pods_on(assignments, node), pod) {
            before
        } else {
            match before {
                None => Some(upto - 1),
                Some(b) => if prefers(
                    node,
                    pods_on(assignments, node),
                    nodes[b],
                    pods_on(assignments, nodes[b]),
                    pod,
                ) {
                    Some(upto - 1)
                } else {
                    Some(b)
                },
            }
        }
    }
}

/// The state of a pass before any pod is placed.
pub open spec fn initial_state(assignments: Seq<AssignmentView>) -> TargetView {
    TargetView { assignments, still_unscheduled: Seq::empty(), placements: Seq::empty() }
}

/// The state with `pod` left unscheduled for `reason`.
pub open spec fn left_out(state: TargetView, pod: Pod, reason: Reason) -> TargetView {
    TargetView { still_unscheduled: state.still_unscheduled.push((pod, reason)), ..state }
}

/// The state after one more pod: placed on the best feasible node, or left
/// unscheduled with the reason.
pub open spec fn place_one(nodes: Seq<Node>, state: TargetView, pod: Pod) -> TargetView {
    match best_node(nodes, state.assignments, pod, nodes.len() as int) {
        None => left_out(state, pod, Reason::NoFeasibleNode),
        Some(k) => match nodes[k].name {
            None => left_out(state, pod, Reason::MissingNodeName),
            Some(name) => match record_index(state.assignments, name@, 0) {
                None => left_out(state, pod, Reason::MissingNodeRecord),
                Some(r) => TargetView {
                    assignments: state.assignments.update(
                        r,
                        AssignmentView {
                            node_name: state.assignments[r].node_name,
                            pods: state.assignments[r].pods.push(pod),
                        },
                    ),
                    still_unscheduled: state.still_unscheduled,
                    placements: state.placements.push(
                        PlacementView {
                            pod_namespace: pod.namespace@,
                            pod_name: pod.name@,
                            node_name: name@,
                        },
                    ),
                },
            },
        },
    }
}

/// The state after the pods, one after the other; no decision is revisited.
pub open spec fn place_all(nodes: Seq<Node>, state: TargetView, pods: Seq<Pod>) -> TargetView
    decreases pods.len(),
{
    if pods.len() == 0 {
        state
    } else {
        place_one(nodes, place_all(nodes, state, pods.drop_last()), pods.last())
    }
}

/// What a pass decides for a world.
pub open spec fn schedule_spec(world: WorldState) -> TargetView {
    place_all(
        world.nodes@,
        initial_state(assignment_views(world.assignments@)),
        sorted_pods(world.unscheduled_pods@),
    )
}

/// The key by which a pod is ordered.
pub fn pod_priority(pod: &Pod) -> (key: i32)
    ensures
        key == priority_key(*pod),
{
    match pod.qos_class {
        QosClass::Guaranteed => -997,
        QosClass::Burstable => 0,
        QosClass::BestEffort => 1000,
        QosClass::Unknown => 1000,
    }
}

/// Decides `comes_before`.
pub fn pod_comes_before(a: &Pod, b: &Pod) -> (before: bool)
    ensures
        before == comes_before(*a, *b),
{
    let ka: i32 = pod_priority(a);
    let kb: i32 = pod_priority(b);
    if ka != kb {
        ka < kb
    } else if str_less(a.namespace.as_str(), b.namespace.as_str()) {
        true
    } else if str_equal(a.namespace.as_str(), b.namespace.as_str()) {
        str_less(a.name.as_str(), b.name.as_str())
    } else {
        false
    }
}

/// Puts the pods in the order in which they are served.
pub fn sort_pods(pods: Vec<Pod>) -> (sorted: Vec<Pod>)
    ensures
        sorted@ == sorted_pods(pods@),
        ordered(sorted@),
        sorted@.to_multiset() =~= pods@.to_multiset(),
{
    let ghost all = pods@;
    proof {
        lemma_sorted_is_ordered(all);
        lemma_sorted_is_permutation(all);
    }
    let mut sorted: Vec<Pod> = Vec::new();
    for pod in it: pods
        invariant
            it.seq() == all,
            sorted@ == sorted_pods(all.take(it.index() as int)),
    {
        proof {
            assert(all.take(it.index() + 1).drop_last() =~= all.take(it.index() as int));
        }
        let mut at: usize = sorted.len();
        let mut moving: bool = true;
        proof {
            assert(sorted@.take(at as int) =~= sorted@);
        }
        while moving && at > 0
            invariant
                at <= sorted.len(),
                insertion_point(sorted@, pod) == insertion_point(sorted@.take(at as int), pod),
                !moving ==> at > 0 && !comes_before(pod, sorted@[at - 1]),
            decreases at + if moving { 1nat } else { 0nat },
        {
            if pod_comes_before(&pod, &sorted[at - 1]) {
                proof {
                    assert(sorted@.take(at as int).drop_last() =~= sorted@.take(at - 1));
                }
                at = at - 1;
            } else {
                moving = false;
            }
        }
        sorted.insert(at, pod);
    }
    proof {
        assert(all.take(all.len() as int) =~= all);
    }
    sorted
}

/// Finds the assignment of the node named `name`.
pub fn find_record(assignments: &Vec<NodeAssignment>, name: &str) -> (found: Option<usize>)
    ensures
        match found {
            Some(i) => i < assignments@.len() && record_index(
                assignment_views(assignments@),
                name@,
                0,
            ) == Some(i as int),
            None => record_index(assignment_views(assignments@), name@, 0) is None,
        },
{
    let mut i: usize = 0;
    while i < assignments.len()
        invariant
            i <= assignments.len(),
            record_index(assignment_views(assignments@), name@, 0) == record_index(
                assignment_views(assignments@),
                name@,
                i as int,
            ),
        decreases assignments.len() - i,
    {
        if str_equal(assignments[i].node_name.as_str(), name) {
            return Some(i);
        }
        i = i + 1;
    }
    None
}

/// The pods on a node, or `none` where the node has no name or no assignment.
fn node_pods<'a>(
    assignments: &'a Vec<NodeAssignment>,
    node: &Node,
    none: &'a Vec<Pod>,
) -> (pods: &'a Vec<Pod>)
    requires
        none@.len() == 0,
    ensures
        pods@ == pods_on(assignment_views(assignments@), *node),
{
    match &node.name {
        Some(name) => match find_record(assignments, name.as_str()) {
            Some(i) => &assignments[i].pods,
            None => none,
        },
        None => none,
    }
}

/// Picks the best feasible node for `pod`.
pub fn choose_node(
    nodes: &Vec<Node>,
    assignments: &Vec<NodeAssignment>,
    pod: &Pod,
) -> (best: Option<usize>)
    ensures
        match best {
            Some(k) => k < nodes@.len() && best_node(
                nodes@,
                assignment_views(assignments@),
                *pod,
                nodes@.len() as int,
            ) == Some(k as int),
            None => best_node(nodes@, assignment_views(assignments@), *pod, nodes@.len() as int)
                is None,
        },
        match best {
            Some(k) => feasible_at(nodes@, assignment_views(assignments@), *pod, k as int)
                && forall|j: int|
                0 <= j < nodes@.len() && feasible_at(
                    nodes@,
                    assignment_views(assignments@),
                    *pod,
                    j,
                ) ==> !prefers(
                    nodes@[j],
                    pods_on(assignment_views(assignments@), nodes@[j]),
                    nodes@[k as int],
                    pods_on(assignment_views(assignments@), nodes@[k as int]),
                    *pod,
                ),
            None => forall|j: int|
                0 <= j < nodes@.len() ==> !feasible_at(
                    nodes@,
                    assignment_views(assignments@),
                    *pod,
                    j,
                ),
        },
{
    proof {
        lemma_best_node_is_best(
            nodes@,
            assignment_views(assignments@),
            *pod,
            nodes@.len() as int,
        );
    }
    let none: Vec<Pod> = Vec::new();
    let mut best: Option<usize> = None;
    let mut k: usize = 0;
    while k < nodes.len()
        invariant
            k <= nodes.len(),
            none@.len() == 0,
            match best {
                Some(b) => b < k && best_node(
                    nodes@,
                    assignment_views(assignments@),
                    *pod,
                    k as int,
                ) == Some(b as int),
                None => best_node(nodes@, assignment_views(assignments@), *pod, k as int) is None,
            },
        decreases nodes.len() - k,
    {
        let node = &nodes[k];
        let on_node = node_pods(assignments, node, &none);
        if is_feasible(node, on_node, pod) {
            best = match best {
                None => Some(k),
                Some(b) => if prefers_node(
                    node,
                    on_node,
                    &nodes[b],
                    node_pods(assignments, &nodes[b], &none),
                    pod,
                ) {
                    Some(k)
                } else {
                    Some(b)
                },
            };
        }
        k = k + 1;
    }
    best
}

/// Places the unscheduled pods of `world`, most important first, each on the
/// feasible node that it fills best.
pub fn schedule(world: WorldState) -> (target: TargetState)
    ensures
        target@ == schedule_spec(world),
        partitions(world.unscheduled_pods@, assignment_views(world.assignments@), target@),
        forall|i: int|
            0 <= i < target.still_unscheduled@.len() ==> world.unscheduled_pods@.contains(
                (#[trigger] target.still_unscheduled@[i]).0,
            ),
        target.placements@.len() + target.still_unscheduled@.len()
            == world.unscheduled_pods@.len(),
        records_have_nodes(world.nodes@, assignment_views(world.assignments@))
            ==> records_have_nodes(world.nodes@, target@.assignments),
        record_names_differ(assignment_views(world.assignments@)) ==> record_names_differ(
            target@.assignments,
        ),
        node_names_differ(world.nodes@) && none_over_committed(
            world.nodes@,
            assignment_views(world.assignments@),
        ) ==> none_over_committed(world.nodes@, target@.assignments),
{
    proof {
        if record_names_differ(assignment_views(world.assignments@)) {
            lemma_schedule_keeps_names(world);
        }
        if node_names_differ(world.nodes@) && none_over_committed(
            world.nodes@,
            assignment_views(world.assignments@),
        ) {
            lemma_schedule_keeps_offers(world);
        }
    }
    proof {
        lemma_schedule_partitions(world);
    }
    let ghost start = initial_state(assignment_views(world.assignments@));
    let WorldState { nodes, unscheduled_pods, assignments } = world;
    let queue: Vec<Pod> = sort_pods(unscheduled_pods);
    let ghost order = queue@;
    let mut target = TargetState {
        assignments,
        still_unscheduled: Vec::new(),
        placements: Vec::new(),
    };
    proof {
        assert(target@.placements =~= Seq::empty());
        assert(target@ == start);
    }
    for pod in it: queue
        invariant
            it.seq() == order,
            target@ == place_all(nodes@, start, order.take(it.index() as int)),
    {
        proof {
            assert(order.take(it.index() + 1).drop_last() =~= order.take(it.index() as int));
        }
        place(&nodes, &mut target, pod);
    }
    proof {
        assert(order.take(order.len() as int) =~= order);
    }
    target
}

/// Places one pod, or leaves it unscheduled with the reason.
pub fn place(nodes: &Vec<Node>, target: &mut TargetState, pod: Pod)
    ensures
        final(target)@ == place_one(nodes@, old(target)@, pod),
{
    match choose_node(nodes, &target.assignments, &pod) {
        None => {
            target.still_unscheduled.push((pod, Reason::NoFeasibleNode));
        },
        Some(k) => match &nodes[k].name {
            None => {
                target.still_unscheduled.push((pod, Reason::MissingNodeName));
            },
            Some(name) => match find_record(&target.assignments, name.as_str()) {
                None => {
                    target.still_unscheduled.push((pod, Reason::MissingNodeRecord));
                },
                Some(r) => {
                    target.placements.push(
                        Placement {
                            pod_namespace: pod.namespace.clone(),
                            pod_name: pod.name.clone(),
                            node_name: name.clone(),
                        },
                    );
                    target.assignments[r].pods.push(pod);
                    proof {
                        assert(final(target)@.assignments =~= old(target)@.assignments.update(
                            r as int,
                            AssignmentView {
                                node_name: old(target)@.assignments[r as int].node_name,
                                pods: old(target)@.assignments[r as int].pods.push(pod),
                            },
                        ));
                        assert(final(target)@.placements =~= old(target)@.placements.push(
                            PlacementView {
                                pod_namespace: pod.namespace@,
                                pod_name: pod.name@,
                                node_name: name@,
                            },
                        ));
                    }
                },
            },
        },
    }
}

} // verus!
