//! Every pod that a pass takes up ends in exactly one place: on a node, behind the
//! pods that were there, or among those left unscheduled.

use crate::bin_packing::{
    best_node, initial_state, insertion_point, left_out, place_all, place_one, record_index,
    schedule_spec, sorted_pods,
};
use crate::model::{assignment_views, AssignmentView, Node, Pod, Reason, TargetView, WorldState};
use vstd::multiset::Multiset;
use vstd::prelude::*;
use vstd::seq_lib::{to_multiset_build, to_multiset_insert};

verus! {

/// Whether `after` has the nodes of `before`, in the same order, each with the
/// pods it had before in front.
pub open spec fn extends(before: Seq<AssignmentView>, after: Seq<AssignmentView>) -> bool {
    &&& before.len() == after.len()
    &&& forall|i: int|
        0 <= i < before.len() ==> (#[trigger] after[i]).node_name == before[i].node_name
            && before[i].pods.is_prefix_of(after[i].pods)
}

/// The pods that `after` holds behind those of `before`, over all nodes, each as
/// often as it occurs.
pub open spec fn added_pods(before: Seq<AssignmentView>, after: Seq<AssignmentView>) -> Multiset<
    Pod,
>
    decreases after.len(),
{
    if after.len() == 0 || before.len() != after.len() {
        Multiset::empty()
    } else {
        added_pods(before.drop_last(), after.drop_last()).add(
            after.last().pods.skip(before.last().pods.len() as int).to_multiset(),
        )
    }
}

/// The pods that were left unscheduled, without the reasons.
pub open spec fn left_pods(still: Seq<(Pod, Reason)>) -> Seq<Pod> {
    still.map_values(|entry: (Pod, Reason)| entry.0)
}

/// Whether `outcome` accounts for each of `pods` exactly once: either placed on
/// one node, behind the pods that `before` had there, or left unscheduled.
pub open spec fn partitions(
    pods: Seq<Pod>,
    before: Seq<AssignmentView>,
    outcome: TargetView,
) -> bool {
    &&& extends(before, outcome.assignments)
    &&& pods.to_multiset() =~= added_pods(before, outcome.assignments).add(
        left_pods(outcome.still_unscheduled).to_multiset(),
    )
}

/// Nothing has been added to assignments that did not change.
pub proof fn lemma_nothing_added(before: Seq<AssignmentView>)
    ensures
        added_pods(before, before) =~= Multiset::empty(),
    decreases before.len(),
{
    if before.len() > 0 {
        lemma_nothing_added(before.drop_last());
        let pods = before.last().pods;
        assert(pods.skip(pods.len() as int) =~= Seq::<Pod>::empty());
        Seq::<Pod>::empty().to_multiset_ensures();
        assert(Seq::<Pod>::empty().to_multiset().len() == 0);
    }
}

/// One pod more behind the pods of node `r` is one pod more added.
pub proof fn lemma_one_added(
    before: Seq<AssignmentView>,
    after: Seq<AssignmentView>,
    r: int,
    pod: Pod,
)
    requires
        extends(before, after),
        0 <= r < after.len(),
    ensures
        ({
            let next = after.update(
                r,
                AssignmentView { node_name: after[r].node_name, pods: after[r].pods.push(pod) },
            );
            &&& extends(before, next)
            &&& added_pods(before, next) =~= added_pods(before, after).insert(pod)
        }),
    decreases after.len(),
{
    let grown = AssignmentView { node_name: after[r].node_name, pods: after[r].pods.push(pod) };
    let next = after.update(r, grown);
    assert(extends(before, next)) by {
        assert forall|i: int| 0 <= i < before.len() implies (#[trigger] next[i]).node_name
            == before[i].node_name && before[i].pods.is_prefix_of(next[i].pods) by {
            assert(after[i].node_name == before[i].node_name);
            if i == r {
                assert(before[i].pods =~= next[i].pods.subrange(0, before[i].pods.len() as int));
            }
        }
    }
    assert(extends(before.drop_last(), after.drop_last())) by {
        assert forall|i: int| 0 <= i < before.drop_last().len() implies (
        #[trigger] after.drop_last()[i]).node_name == before.drop_last()[i].node_name
            && before.drop_last()[i].pods.is_prefix_of(after.drop_last()[i].pods) by {
            assert(after[i].node_name == before[i].node_name);
        }
    }
    if r == after.len() - 1 {
        assert(next.drop_last() =~= after.drop_last());
        let had = before.last().pods.len() as int;
        assert(after[r].node_name == before[r].node_name);
        assert(next.last().pods.skip(had) =~= after.last().pods.skip(had).push(pod));
        to_multiset_build(after.last().pods.skip(had), pod);
    } else {
        lemma_one_added(before.drop_last(), after.drop_last(), r, pod);
        assert(next.drop_last() =~= after.drop_last().update(r, grown));
        assert(next.last() == after.last());
    }
}

/// Leaving a pod out adds it to the pods left unscheduled.
proof fn lemma_left_out(state: TargetView, pod: Pod, reason: Reason)
    ensures
        left_pods(left_out(state, pod, reason).still_unscheduled).to_multiset() =~= left_pods(
            state.still_unscheduled,
        ).to_multiset().insert(pod),
        left_out(state, pod, reason).assignments == state.assignments,
{
    assert(left_pods(state.still_unscheduled.push((pod, reason))) =~= left_pods(
        state.still_unscheduled,
    ).push(pod));
    to_multiset_build(left_pods(state.still_unscheduled), pod);
}

/// Placing one more pod keeps the account: the pod is either on one node or left
/// unscheduled.
pub proof fn lemma_place_one_partitions(
    nodes: Seq<Node>,
    before: Seq<AssignmentView>,
    state: TargetView,
    pods: Seq<Pod>,
    pod: Pod,
)
    requires
        partitions(pods, before, state),
    ensures
        partitions(pods.push(pod), before, place_one(nodes, state, pod)),
{
    to_multiset_build(pods, pod);
    lemma_left_out(state, pod, Reason::NoFeasibleNode);
    lemma_left_out(state, pod, Reason::MissingNodeName);
    lemma_left_out(state, pod, Reason::MissingNodeRecord);
    match best_node(nodes, state.assignments, pod, nodes.len() as int) {
        None => {},
        Some(k) => match nodes[k].name {
            None => {},
            Some(name) => match record_index(state.assignments, name@, 0) {
                None => {},
                Some(r) => {
                    lemma_record_in_range(state.assignments, name@, 0);
                    lemma_one_added(before, state.assignments, r, pod);
                },
            },
        },
    }
}

/// A record that is found lies within the assignments, at or behind `from`.
pub proof fn lemma_record_in_range(assignments: Seq<AssignmentView>, name: Seq<char>, from: int)
    ensures
        match record_index(assignments, name, from) {
            Some(r) => from <= r < assignments.len() && assignments[r].node_name == name,
            None => true,
        },
    decreases assignments.len() - from,
{
    if 0 <= from < assignments.len() && assignments[from].node_name != name {
        lemma_record_in_range(assignments, name, from + 1);
    }
}

/// Placing pods one after the other accounts for each of them exactly once.
pub proof fn lemma_place_all_partitions(
    nodes: Seq<Node>,
    before: Seq<AssignmentView>,
    pods: Seq<Pod>,
)
    ensures
        partitions(pods, before, place_all(nodes, initial_state(before), pods)),
    decreases pods.len(),
{
    if pods.len() == 0 {
        lemma_nothing_added(before);
        assert(left_pods(Seq::<(Pod, Reason)>::empty()) =~= Seq::<Pod>::empty());
        assert(pods =~= Seq::<Pod>::empty());
    } else {
        lemma_place_all_partitions(nodes, before, pods.drop_last());
        lemma_place_one_partitions(
            nodes,
            before,
            place_all(nodes, initial_state(before), pods.drop_last()),
            pods.drop_last(),
            pods.last(),
        );
        assert(pods.drop_last().push(pods.last()) =~= pods);
    }
}

/// Where a pod goes into a sequence lies within it.
pub proof fn lemma_insertion_point_in_range(sorted: Seq<Pod>, pod: Pod)
    ensures
        0 <= insertion_point(sorted, pod) <= sorted.len(),
    decreases sorted.len(),
{
    if sorted.len() > 0 {
        lemma_insertion_point_in_range(sorted.drop_last(), pod);
    }
}

/// Ordering the pods neither loses nor invents one.
pub proof fn lemma_sorted_is_permutation(pods: Seq<Pod>)
    ensures
        sorted_pods(pods).to_multiset() =~= pods.to_multiset(),
        sorted_pods(pods).len() == pods.len(),
    decreases pods.len(),
{
    if pods.len() > 0 {
        let rest = sorted_pods(pods.drop_last());
        lemma_sorted_is_permutation(pods.drop_last());
        lemma_insertion_point_in_range(rest, pods.last());
        to_multiset_insert(rest, insertion_point(rest, pods.last()), pods.last());
        to_multiset_build(pods.drop_last(), pods.last());
        assert(pods.drop_last().push(pods.last()) =~= pods);
    } else {
        assert(pods =~= Seq::<Pod>::empty());
    }
}

/// Whether the node has the name `name`.
pub open spec fn is_named(node: Node, name: Seq<char>) -> bool {
    match node.name {
        Some(n) => n@ == name,
        None => false,
    }
}

/// Whether one of the nodes has the name `name`.
pub open spec fn has_node(nodes: Seq<Node>, name: Seq<char>) -> bool {
    exists|k: int| 0 <= k < nodes.len() && is_named(#[trigger] nodes[k], name)
}

/// Whether every assignment belongs to one of the nodes.
pub open spec fn records_have_nodes(nodes: Seq<Node>, assignments: Seq<AssignmentView>) -> bool {
    forall|i: int|
        0 <= i < assignments.len() ==> has_node(nodes, (#[trigger] assignments[i]).node_name)
}

/// Assignments that extend others belong to the same nodes.
pub proof fn lemma_extends_keeps_nodes(
    nodes: Seq<Node>,
    before: Seq<AssignmentView>,
    after: Seq<AssignmentView>,
)
    requires
        extends(before, after),
        records_have_nodes(nodes, before),
    ensures
        records_have_nodes(nodes, after),
{
    assert forall|i: int| 0 <= i < after.len() implies has_node(
        nodes,
        (#[trigger] after[i]).node_name,
    ) by {
        assert(after[i].node_name == before[i].node_name);
    }
}

/// Every pod that a pass takes up is either placed or left unscheduled: the
/// placements and the pods left are as many as the pods.
pub proof fn lemma_place_all_counts(nodes: Seq<Node>, state: TargetView, pods: Seq<Pod>)
    ensures
        place_all(nodes, state, pods).placements.len() + place_all(
            nodes,
            state,
            pods,
        ).still_unscheduled.len() == state.placements.len() + state.still_unscheduled.len()
            + pods.len(),
    decreases pods.len(),
{
    if pods.len() > 0 {
        lemma_place_all_counts(nodes, state, pods.drop_last());
    }
}

/// A pass accounts for every unscheduled pod of the world exactly once: the pod
/// is on one node, behind the pods that were bound there, or it is left
/// unscheduled. No other pod is placed or left, and every pod left unscheduled is
/// one of the world's. There is one placement for each pod placed, and where
/// every assignment of the world belongs to one of its nodes, so does every
/// assignment of the outcome.
pub proof fn lemma_schedule_partitions(world: WorldState)
    ensures
        partitions(
            world.unscheduled_pods@,
            assignment_views(world.assignments@),
            schedule_spec(world),
        ),
        forall|i: int|
            0 <= i < schedule_spec(world).still_unscheduled.len()
                ==> world.unscheduled_pods@.contains(
                (#[trigger] schedule_spec(world).still_unscheduled[i]).0,
            ),
        schedule_spec(world).placements.len() + schedule_spec(world).still_unscheduled.len()
            == world.unscheduled_pods@.len(),
        records_have_nodes(world.nodes@, assignment_views(world.assignments@))
            ==> records_have_nodes(world.nodes@, schedule_spec(world).assignments),
{
    let pods = world.unscheduled_pods@;
    let before = assignment_views(world.assignments@);
    let outcome = schedule_spec(world);
    lemma_place_all_counts(world.nodes@, initial_state(before), sorted_pods(pods));
    lemma_sorted_is_permutation(pods);
    lemma_place_all_partitions(world.nodes@, before, sorted_pods(pods));
    if records_have_nodes(world.nodes@, before) {
        lemma_extends_keeps_nodes(world.nodes@, before, outcome.assignments);
    }
    let left = left_pods(outcome.still_unscheduled);
    assert forall|i: int| 0 <= i < outcome.still_unscheduled.len() implies pods.contains(
        (#[trigger] outcome.still_unscheduled[i]).0,
    ) by {
        let pod = outcome.still_unscheduled[i].0;
        assert(left[i] == pod);
        assert(left.contains(pod));
        left.to_multiset_ensures();
        pods.to_multiset_ensures();
        assert(left.to_multiset().count(pod) > 0);
        assert(pods.to_multiset().count(pod) > 0);
    }
}

} // verus!
