//! What the map from node names to pods gave: names that differ. Where the names
//! of the nodes differ, placement commits no node beyond what it offers.

use crate::bin_packing::{
    best_node, initial_state, place_all, place_one, pods_on, record_index, schedule_spec,
    sorted_pods,
};
use crate::choice::{feasible_at, lemma_best_node_is_best};
use crate::filters::{
    allocatable_amount, container_requests, containers_total, entries_total, entry_amount,
    pod_requested, pods_requested, request_fits,
};
use crate::model::{
    assignment_views, AssignmentView, Container, Node, Pod, ResourceEntry, TargetView, WorldState,
};
use crate::monotonicity::{node_allocatable, pod_containers};
use crate::partition::{
    extends, has_node, is_named, lemma_record_in_range, lemma_schedule_partitions,
    records_have_nodes,
};
use crate::snapshot::node_names;
use crate::text::str_equal;
use vstd::prelude::*;

verus! {

/// Whether no two nodes have the same name.
pub open spec fn node_names_differ(nodes: Seq<Node>) -> bool {
    forall|i: int, j: int, name: Seq<char>|
        0 <= i < nodes.len() && 0 <= j < nodes.len() && #[trigger] is_named(nodes[i], name)
            && #[trigger] is_named(nodes[j], name) ==> i == j
}

/// Whether the two nodes have names, and the same.
pub open spec fn same_name(a: Node, b: Node) -> bool {
    match (a.name, b.name) {
        (Some(x), Some(y)) => x@ == y@,
        _ => false,
    }
}

/// Decides `node_names_differ`.
pub fn do_node_names_differ(nodes: &Vec<Node>) -> (differ: bool)
    ensures
        differ == node_names_differ(nodes@),
{
    let mut i: usize = 0;
    while i < nodes.len()
        invariant
            i <= nodes.len(),
            forall|a: int, b: int| 0 <= a < i && a < b < nodes@.len() ==> !same_name(
                #[trigger] nodes@[a],
                #[trigger] nodes@[b],
            ),
        decreases nodes.len() - i,
    {
        let mut j: usize = i + 1;
        while j < nodes.len()
            invariant
                i < j <= nodes.len(),
                forall|b: int| i < b < j ==> !same_name(nodes@[i as int], #[trigger] nodes@[b]),
            decreases nodes.len() - j,
        {
            let same: bool = match (&nodes[i].name, &nodes[j].name) {
                (Some(x), Some(y)) => str_equal(x.as_str(), y.as_str()),
                _ => false,
            };
            if same {
                proof {
                    let name = nodes@[i as int].name.unwrap()@;
                    assert(is_named(nodes@[i as int], name) && is_named(nodes@[j as int], name));
                }
                return false;
            }
            j = j + 1;
        }
        i = i + 1;
    }
    proof {
        assert forall|a: int, b: int, name: Seq<char>|
            0 <= a < nodes@.len() && 0 <= b < nodes@.len() && #[trigger] is_named(
                nodes@[a],
                name,
            ) && #[trigger] is_named(nodes@[b], name) implies a == b by {
            if a < b {
                assert(same_name(nodes@[a], nodes@[b]));
            } else if b < a {
                assert(same_name(nodes@[b], nodes@[a]));
            }
        }
    }
    true
}

/// Whether no two assignments belong to the same node name.
pub open spec fn record_names_differ(assignments: Seq<AssignmentView>) -> bool {
    forall|i: int, j: int|
        0 <= i < assignments.len() && 0 <= j < assignments.len() && (
        #[trigger] assignments[i]).node_name == (#[trigger] assignments[j]).node_name ==> i == j
}

/// What the node offers of the resource `name`; `None` where it states no such
/// resource, or states it with a text that is no quantity.
pub open spec fn offer(node: Node, name: Seq<char>) -> Option<nat> {
    match node_allocatable(node) {
        Some(allocatable) => allocatable_amount(allocatable, name, 0),
        None => None,
    }
}

/// Whether the pods ask for no more than the node offers, of every resource that
/// it offers.
pub open spec fn within_offer(node: Node, pods: Seq<Pod>) -> bool {
    forall|name: Seq<char>|
        match #[trigger] offer(node, name) {
            Some(offered) => pods_requested(pods, name) <= offered,
            None => true,
        }
}

/// Whether no node is committed beyond what it offers: on every node, the pods
/// on it are within its offer.
pub open spec fn none_over_committed(nodes: Seq<Node>, assignments: Seq<AssignmentView>) -> bool {
    forall|k: int|
        0 <= k < nodes.len() ==> within_offer(#[trigger] nodes[k], pods_on(assignments, nodes[k]))
}

/// Whether no two of the names are the same.
pub open spec fn names_differ(names: Seq<Seq<char>>) -> bool {
    forall|i: int, j: int|
        0 <= i < names.len() && 0 <= j < names.len() && #[trigger] names[i] == #[trigger] names[j]
            ==> i == j
}

/// The names of the nodes are names of nodes, each of one of them; where the
/// names of the nodes differ, so do they.
pub proof fn lemma_node_names(nodes: Seq<Node>)
    ensures
        forall|i: int|
            0 <= i < node_names(nodes).len() ==> has_node(nodes, #[trigger] node_names(nodes)[i]),
        node_names_differ(nodes) ==> names_differ(node_names(nodes)),
    decreases nodes.len(),
{
    if nodes.len() > 0 {
        let earlier = nodes.drop_last();
        lemma_node_names(earlier);
        let names = node_names(nodes);
        let before = node_names(earlier);
        assert forall|i: int| 0 <= i < names.len() implies has_node(nodes, #[trigger] names[i]) by {
            if i < before.len() {
                assert(names[i] == before[i]);
                assert(has_node(earlier, before[i]));
                let k = choose|k: int|
                    0 <= k < earlier.len() && is_named(#[trigger] earlier[k], before[i]);
                assert(is_named(nodes[k], names[i]));
            } else {
                assert(is_named(nodes[nodes.len() - 1], names[i]));
            }
        }
        if node_names_differ(nodes) {
            assert(node_names_differ(earlier)) by {
                assert forall|i: int, j: int, name: Seq<char>|
                    0 <= i < earlier.len() && 0 <= j < earlier.len() && #[trigger] is_named(
                        earlier[i],
                        name,
                    ) && #[trigger] is_named(earlier[j], name) implies i == j by {
                    assert(is_named(nodes[i], name) && is_named(nodes[j], name));
                }
            }
            assert forall|i: int, j: int|
                0 <= i < names.len() && 0 <= j < names.len() && #[trigger] names[i]
                    == #[trigger] names[j] implies i == j by {
                let last = nodes.len() - 1;
                if i < before.len() && j < before.len() {
                    assert(before[i] == before[j]);
                } else if i < before.len() {
                    assert(has_node(earlier, before[i]));
                    let k = choose|k: int|
                        0 <= k < earlier.len() && is_named(#[trigger] earlier[k], before[i]);
                    assert(is_named(nodes[k], names[j]) && is_named(nodes[last], names[j]));
                } else if j < before.len() {
                    assert(has_node(earlier, before[j]));
                    let k = choose|k: int|
                        0 <= k < earlier.len() && is_named(#[trigger] earlier[k], before[j]);
                    assert(is_named(nodes[k], names[i]) && is_named(nodes[last], names[i]));
                }
            }
        }
    }
}

/// Records that are listed for the names of the nodes, one for each name and in
/// their order, belong to the nodes; where the names of the nodes differ, no two
/// of them belong to one name.
pub proof fn lemma_listed_records(nodes: Seq<Node>, records: Seq<AssignmentView>)
    requires
        records.len() == node_names(nodes).len(),
        forall|i: int|
            0 <= i < records.len() ==> (#[trigger] records[i]).node_name == node_names(nodes)[i],
    ensures
        records_have_nodes(nodes, records),
        node_names_differ(nodes) ==> record_names_differ(records),
{
    lemma_node_names(nodes);
    let names = node_names(nodes);
    if node_names_differ(nodes) {
        assert forall|i: int, j: int|
            0 <= i < records.len() && 0 <= j < records.len() && (#[trigger] records[i]).node_name
                == (#[trigger] records[j]).node_name implies i == j by {
            assert(names[i] == names[j]);
        }
    }
}

/// Whether no two entries have the same name, as in a map from names to
/// quantities.
pub open spec fn entry_names_differ(entries: Seq<ResourceEntry>) -> bool {
    forall|i: int, j: int|
        0 <= i < entries.len() && 0 <= j < entries.len() && (#[trigger] entries[i]).name@ == (
        #[trigger] entries[j]).name@ ==> i == j
}

/// Entries whose names differ are a map: what they offer of the name of an
/// entry is the amount of that entry, and what they ask of it is that amount,
/// or nothing where its text is no quantity.
pub proof fn lemma_entries_are_map(entries: Seq<ResourceEntry>, e: int)
    requires
        entry_names_differ(entries),
        0 <= e < entries.len(),
    ensures
        allocatable_amount(entries, entries[e].name@, 0) == entry_amount(entries[e]),
        entries_total(entries, entries[e].name@) == match entry_amount(entries[e]) {
            Some(amount) => amount,
            None => 0,
        },
{
    lemma_first_of_name(entries, e, 0);
    lemma_only_of_name(entries, e, entries.len() as int);
    assert(entries.take(entries.len() as int) =~= entries);
}

/// Looking from `from` on, at or before entry `e`, the first entry of its name
/// is `e`.
proof fn lemma_first_of_name(entries: Seq<ResourceEntry>, e: int, from: int)
    requires
        entry_names_differ(entries),
        0 <= from <= e < entries.len(),
    ensures
        allocatable_amount(entries, entries[e].name@, from) == entry_amount(entries[e]),
    decreases e - from,
{
    if from < e {
        assert(entries[from].name@ != entries[e].name@);
        lemma_first_of_name(entries, e, from + 1);
    }
}

/// Among the first `upto` entries, only entry `e` asks for something of its
/// name.
proof fn lemma_only_of_name(entries: Seq<ResourceEntry>, e: int, upto: int)
    requires
        entry_names_differ(entries),
        0 <= e < entries.len(),
        0 <= upto <= entries.len(),
    ensures
        entries_total(entries.take(upto), entries[e].name@) == if e < upto {
            match entry_amount(entries[e]) {
                Some(amount) => amount,
                None => 0,
            }
        } else {
            0
        },
    decreases upto,
{
    if upto > 0 {
        lemma_only_of_name(entries, e, upto - 1);
        assert(entries.take(upto).drop_last() =~= entries.take(upto - 1));
        assert(entries.take(upto).last() == entries[upto - 1]);
        if upto - 1 != e {
            assert(entries[upto - 1].name@ != entries[e].name@);
        }
    }
}

/// Entries that ask for something of a resource hold an entry of its name.
proof fn lemma_total_has_entry(entries: Seq<ResourceEntry>, name: Seq<char>)
    requires
        entries_total(entries, name) > 0,
    ensures
        exists|e: int| 0 <= e < entries.len() && (#[trigger] entries[e]).name@ == name,
    decreases entries.len(),
{
    if entries.last().name@ != name {
        lemma_total_has_entry(entries.drop_last(), name);
        let e = choose|e: int|
            0 <= e < entries.drop_last().len() && (#[trigger] entries.drop_last()[e]).name@
                == name;
        assert(entries[e].name@ == name);
    } else {
        assert(entries[entries.len() - 1].name@ == name);
    }
}

/// Containers that ask for something of a resource hold a request of its name.
proof fn lemma_request_of_name(containers: Seq<Container>, name: Seq<char>)
    requires
        containers_total(containers, name) > 0,
    ensures
        exists|c: int, e: int|
            0 <= c < containers.len() && 0 <= e < container_requests(containers[c]).len() && (
            #[trigger] container_requests(containers[c])[e]).name@ == name,
    decreases containers.len(),
{
    let last = container_requests(containers.last());
    if entries_total(last, name) > 0 {
        lemma_total_has_entry(last, name);
        let e = choose|e: int| 0 <= e < last.len() && (#[trigger] last[e]).name@ == name;
        let c = containers.len() - 1;
        assert(container_requests(containers[c])[e].name@ == name);
    } else {
        lemma_request_of_name(containers.drop_last(), name);
        let (c, e) = choose|c: int, e: int|
            0 <= c < containers.drop_last().len() && 0 <= e < container_requests(
                containers.drop_last()[c],
            ).len() && (#[trigger] container_requests(containers.drop_last()[c])[e]).name@
                == name;
        assert(containers.drop_last()[c] == containers[c]);
        assert(container_requests(containers[c])[e].name@ == name);
    }
}

/// One pod more on a record leaves every name with the record it had.
proof fn lemma_records_stay(
    assignments: Seq<AssignmentView>,
    r: int,
    pods: Seq<Pod>,
    name: Seq<char>,
    from: int,
)
    requires
        0 <= r < assignments.len(),
    ensures
        record_index(
            assignments.update(
                r,
                AssignmentView { node_name: assignments[r].node_name, pods },
            ),
            name,
            from,
        ) == record_index(assignments, name, from),
    decreases assignments.len() - from,
{
    if 0 <= from < assignments.len() {
        lemma_records_stay(assignments, r, pods, name, from + 1);
    }
}

/// A pod that fits beside the pods on a node leaves the node within its offer.
proof fn lemma_fitting_pod_stays_within(node: Node, on_node: Seq<Pod>, pod: Pod)
    requires
        within_offer(node, on_node),
        crate::filters::pod_fits(node, on_node, pod),
    ensures
        within_offer(node, on_node.push(pod)),
{
    let joined = on_node.push(pod);
    assert(joined.drop_last() =~= on_node);
    assert forall|name: Seq<char>|
        match #[trigger] offer(node, name) {
            Some(offered) => pods_requested(joined, name) <= offered,
            None => true,
        } by {
        if offer(node, name) is Some {
            assert(pods_requested(joined, name) == pods_requested(on_node, name) + pod_requested(
                pod,
                name,
            ));
            if pod_requested(pod, name) > 0 {
                let containers = pod_containers(pod);
                lemma_request_of_name(containers, name);
                let (c, e) = choose|c: int, e: int|
                    0 <= c < containers.len() && 0 <= e < container_requests(
                        containers[c],
                    ).len() && (#[trigger] container_requests(containers[c])[e]).name@ == name;
                assert(request_fits(
                    node_allocatable(node).unwrap(),
                    on_node,
                    containers,
                    container_requests(containers[c])[e],
                ));
            }
        }
    }
}

/// Placing one pod commits no node beyond what it offers, where the names of the
/// nodes differ and none was so committed before.
pub proof fn lemma_place_one_keeps_offers(nodes: Seq<Node>, state: TargetView, pod: Pod)
    requires
        node_names_differ(nodes),
        none_over_committed(nodes, state.assignments),
    ensures
        none_over_committed(nodes, place_one(nodes, state, pod).assignments),
{
    let before = state.assignments;
    let after = place_one(nodes, state, pod).assignments;
    lemma_best_node_is_best(nodes, before, pod, nodes.len() as int);
    match best_node(nodes, before, pod, nodes.len() as int) {
        None => {},
        Some(k) => match nodes[k].name {
            None => {},
            Some(name) => match record_index(before, name@, 0) {
                None => {},
                Some(r) => {
                    lemma_record_in_range(before, name@, 0);
                    let grown = before[r].pods.push(pod);
                    assert(feasible_at(nodes, before, pod, k));
                    assert(pods_on(before, nodes[k]) == before[r].pods);
                    lemma_fitting_pod_stays_within(nodes[k], before[r].pods, pod);
                    assert forall|j: int| 0 <= j < nodes.len() implies within_offer(
                        #[trigger] nodes[j],
                        pods_on(after, nodes[j]),
                    ) by {
                        assert(within_offer(nodes[j], pods_on(before, nodes[j])));
                        match nodes[j].name {
                            None => {},
                            Some(other) => {
                                lemma_records_stay(before, r, grown, other@, 0);
                                lemma_record_in_range(before, other@, 0);
                                if record_index(before, other@, 0) == Some(r) {
                                    assert(is_named(nodes[j], name@));
                                    assert(is_named(nodes[k], name@));
                                    assert(j == k);
                                    assert(pods_on(after, nodes[j]) == grown);
                                } else {
                                    assert(pods_on(after, nodes[j]) == pods_on(before, nodes[j]));
                                }
                            },
                        }
                    }
                },
            },
        },
    }
}

/// Placing pods one after the other commits no node beyond what it offers, where
/// the names of the nodes differ and none was so committed before.
pub proof fn lemma_place_all_keeps_offers(nodes: Seq<Node>, state: TargetView, pods: Seq<Pod>)
    requires
        node_names_differ(nodes),
        none_over_committed(nodes, state.assignments),
    ensures
        none_over_committed(nodes, place_all(nodes, state, pods).assignments),
    decreases pods.len(),
{
    if pods.len() > 0 {
        lemma_place_all_keeps_offers(nodes, state, pods.drop_last());
        lemma_place_one_keeps_offers(
            nodes,
            place_all(nodes, state, pods.drop_last()),
            pods.last(),
        );
    }
}

/// Assignments that extend others, record by record, have names that differ
/// where those of the others do.
pub proof fn lemma_extends_keeps_names(before: Seq<AssignmentView>, after: Seq<AssignmentView>)
    requires
        extends(before, after),
        record_names_differ(before),
    ensures
        record_names_differ(after),
{
    assert forall|i: int, j: int|
        0 <= i < after.len() && 0 <= j < after.len() && (#[trigger] after[i]).node_name == (
        #[trigger] after[j]).node_name implies i == j by {
        assert(after[i].node_name == before[i].node_name);
        assert(after[j].node_name == before[j].node_name);
    }
}

/// A pass commits no node beyond what it offers: where the names of the nodes
/// differ and the pods bound to each node are within its offer, so are the pods
/// on each node after the pass.
pub proof fn lemma_schedule_keeps_offers(world: WorldState)
    requires
        node_names_differ(world.nodes@),
        none_over_committed(world.nodes@, assignment_views(world.assignments@)),
    ensures
        none_over_committed(world.nodes@, schedule_spec(world).assignments),
{
    lemma_place_all_keeps_offers(
        world.nodes@,
        initial_state(assignment_views(world.assignments@)),
        sorted_pods(world.unscheduled_pods@),
    );
}

/// A pass leaves the node names of the assignments as they were: where no two
/// assignments of the world belong to one name, none of the outcome do.
pub proof fn lemma_schedule_keeps_names(world: WorldState)
    requires
        record_names_differ(assignment_views(world.assignments@)),
    ensures
        record_names_differ(schedule_spec(world).assignments),
{
    lemma_schedule_partitions(world);
    lemma_extends_keeps_names(
        assignment_views(world.assignments@),
        schedule_spec(world).assignments,
    );
}

} // verus!
