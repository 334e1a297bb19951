//! The world state of one pass: which lists to ask the cluster for, and what is
//! made of them.

use crate::model::{Node, NodeAssignment, Pod, WorldState};
use vstd::prelude::*;

verus! {

/// The field selector for the pods that wait for this scheduler: those that name
/// it and are bound to no node.
pub open spec fn unscheduled_selector_text(scheduler_name: Seq<char>) -> Seq<char> {
    "spec.schedulerName="@ + scheduler_name + ",spec.nodeName="@
}

/// The field selector for the pods that are bound to a node.
pub open spec fn node_selector_text(node_name: Seq<char>) -> Seq<char> {
    "spec.nodeName="@ + node_name
}

/// The names of the nodes that have one, in the order of the nodes.
pub open spec fn node_names(nodes: Seq<Node>) -> Seq<Seq<char>>
    decreases nodes.len(),
{
    if nodes.len() == 0 {
        Seq::empty()
    } else {
        match nodes.last().name {
            Some(name) => node_names(nodes.drop_last()).push(name@),
            None => node_names(nodes.drop_last()),
        }
    }
}

/// The field selector for the pods that wait for this scheduler.
pub fn unscheduled_selector(scheduler_name: &str) -> (selector: String)
    ensures
        selector@ == unscheduled_selector_text(scheduler_name@),
{
    let mut selector: String = "spec.schedulerName=".to_owned();
    selector.append(scheduler_name);
    selector.append(",spec.nodeName=");
    selector
}

/// The field selector for the pods that are bound to the node.
pub fn node_selector(node_name: &str) -> (selector: String)
    ensures
        selector@ == node_selector_text(node_name@),
{
    let mut selector: String = "spec.nodeName=".to_owned();
    selector.append(node_name);
    selector
}

/// The names of the nodes whose pods are to be listed: every node that has a
/// name, in the order of the nodes.
pub fn nodes_to_list(nodes: &Vec<Node>) -> (names: Vec<String>)
    ensures
        names@.map_values(|name: String| name@) == node_names(nodes@),
{
    let mut names: Vec<String> = Vec::new();
    let mut i: usize = 0;
    while i < nodes.len()
        invariant
            i <= nodes.len(),
            names@.map_values(|name: String| name@) == node_names(nodes@.take(i as int)),
        decreases nodes.len() - i,
    {
        proof {
            assert(nodes@.take(i + 1).drop_last() =~= nodes@.take(i as int));
        }
        let ghost before = names@;
        match &nodes[i].name {
            Some(name) => {
                names.push(name.clone());
                proof {
                    assert(names@.map_values(|name: String| name@) =~= before.map_values(
                        |name: String| name@,
                    ).push(name@));
                }
            },
            None => {},
        }
        i = i + 1;
    }
    proof {
        assert(nodes@.take(i as int) =~= nodes@);
    }
    names
}

/// Whether the records are the lists, each under its name, in their order.
pub open spec fn records_pair(
    records: Seq<NodeAssignment>,
    names: Seq<String>,
    listed: Seq<Vec<Pod>>,
) -> bool {
    &&& records.len() == names.len()
    &&& records.len() == listed.len()
    &&& forall|i: int|
        0 <= i < records.len() ==> (#[trigger] records[i]).node_name == names[i]
            && records[i].pods == listed[i]
}

/// Pairs the names of the nodes with the pods that were listed for each: one
/// record for each name, in the order of the names. `None` where there are not as
/// many lists as names.
pub fn node_records(names: Vec<String>, listed: Vec<Vec<Pod>>) -> (records: Option<
    Vec<NodeAssignment>,
>)
    ensures
        match records {
            Some(r) => records_pair(r@, names@, listed@),
            None => names@.len() != listed@.len(),
        },
{
    if names.len() != listed.len() {
        return None;
    }
    let ghost all_names = names@;
    let ghost all_listed = listed@;
    let ghost count = all_names.len() as int;
    let mut names = names;
    let mut listed = listed;
    let mut backwards: Vec<NodeAssignment> = Vec::new();
    while names.len() > 0
        invariant
            names@.len() == listed@.len(),
            names@.len() + backwards@.len() == count,
            count == all_names.len() == all_listed.len(),
            names@ == all_names.take(names@.len() as int),
            listed@ == all_listed.take(listed@.len() as int),
            forall|j: int|
                0 <= j < backwards@.len() ==> (#[trigger] backwards@[j]).node_name
                    == all_names[count - 1 - j] && backwards@[j].pods == all_listed[count - 1
                    - j],
        decreases names@.len(),
    {
        let ghost left = names@.len() as int;
        let node_name = names.pop().unwrap();
        let pods = listed.pop().unwrap();
        backwards.push(NodeAssignment { node_name, pods });
        proof {
            assert(names@ =~= all_names.take(left - 1));
            assert(listed@ =~= all_listed.take(left - 1));
        }
    }
    let ghost turned = backwards@;
    let mut records: Vec<NodeAssignment> = Vec::new();
    while backwards.len() > 0
        invariant
            backwards@.len() + records@.len() == count,
            turned.len() == count,
            backwards@ == turned.take(backwards@.len() as int),
            forall|i: int|
                0 <= i < records@.len() ==> #[trigger] records@[i] == turned[count - 1 - i],
        decreases backwards@.len(),
    {
        let ghost left = backwards@.len() as int;
        let record = backwards.pop().unwrap();
        records.push(record);
        proof {
            assert(backwards@ =~= turned.take(left - 1));
        }
    }
    Some(records)
}

/// The world that a pass works on, or `None` where no pod waits and the pass has
/// nothing to do.
pub fn snapshot(
    nodes: Vec<Node>,
    assignments: Vec<NodeAssignment>,
    unscheduled_pods: Vec<Pod>,
) -> (world: Option<WorldState>)
    ensures
        match world {
            Some(w) => unscheduled_pods@.len() > 0 && w.nodes == nodes && w.assignments
                == assignments && w.unscheduled_pods == unscheduled_pods,
            None => unscheduled_pods@.len() == 0,
        },
{
    if unscheduled_pods.len() == 0 {
        None
    } else {
        Some(WorldState { nodes, unscheduled_pods, assignments })
    }
}

} // verus!
