//! One scheduling pass: from what the cluster listed to the requests that bind
//! the pods it placed.

use crate::bin_packing::{schedule, schedule_spec};
use crate::binder::{binding_requests, request_for_placement, BindError, BindRequest};
use crate::commitment::{node_names_differ, none_over_committed};
use crate::model::{assignment_views, Node, NodeAssignment, Pod, TargetState, WorldState};
use crate::partition::partitions;
use crate::snapshot::snapshot;
use vstd::prelude::*;

verus! {

/// How pods are placed.
#[derive(Debug, Clone, Copy, PartialEq, Eq, Structural)]
pub enum Algorithm {
    /// Each pod goes to the feasible node that it fills best.
    BinPacking,
}

/// What a pass decided and what is to be sent for it.
#[derive(Debug, Clone)]
pub struct PassPlan {
    pub target: TargetState,
    /// One request for each placement of `target`, in the order of placement.
    pub requests: Vec<Result<BindRequest, BindError>>,
}

/// Plans one pass: takes the snapshot, places the pods that wait as the algorithm
/// says, and makes the binding requests for those that found a node. `None` where
/// no pod waits: the pass then does nothing.
pub fn plan_pass(
    algorithm: Algorithm,
    nodes: Vec<Node>,
    assignments: Vec<NodeAssignment>,
    unscheduled_pods: Vec<Pod>,
    scheduler_name: &str,
) -> (plan: Option<PassPlan>)
    ensures
        plan is None <==> unscheduled_pods@.len() == 0,
        plan matches Some(p) ==> {
            &&& p.target@ == schedule_spec(WorldState { nodes, unscheduled_pods, assignments })
            &&& partitions(unscheduled_pods@, assignment_views(assignments@), p.target@)
            &&& node_names_differ(nodes@) && none_over_committed(
                nodes@,
                assignment_views(assignments@),
            ) ==> none_over_committed(nodes@, p.target@.assignments)
            &&& p.requests@.len() == p.target.placements@.len()
            &&& forall|i: int|
                0 <= i < p.requests@.len() ==> request_for_placement(
                    #[trigger] p.requests@[i],
                    p.target.placements@[i],
                    scheduler_name@,
                )
        },
{
    match snapshot(nodes, assignments, unscheduled_pods) {
        None => None,
        Some(world) => {
            let target = match algorithm {
                Algorithm::BinPacking => schedule(world),
            };
            let requests = binding_requests(&target, scheduler_name);
            Some(PassPlan { target, requests })
        },
    }
}

} // verus!
