//! The scheduler's picture of the cluster: pods, nodes, and the state of one
//! scheduling pass.

use vstd::prelude::*;

verus! {

/// One named resource and its amount, as the cluster writes it. A list of
/// entries stands for a map from names to amounts: where a name occurs twice,
/// the first entry says what a node offers, and what a pod asks for is the sum.
#[derive(Debug, Clone)]
pub struct ResourceEntry {
    pub name: String,
    pub quantity: String,
}

/// What a container asks for.
#[derive(Debug, Clone)]
pub struct ResourceRequirements {
    pub requests: Option<Vec<ResourceEntry>>,
}

/// One container of a pod.
#[derive(Debug, Clone)]
pub struct Container {
    pub resources: Option<ResourceRequirements>,
}

/// What a taint does to pods that do not tolerate it.
#[derive(Debug, Clone, Copy, PartialEq, Eq, Structural)]
pub enum TaintEffect {
    NoSchedule,
    PreferNoSchedule,
    NoExecute,
}

/// A mark on a node that keeps pods off it unless they tolerate it.
#[derive(Debug, Clone)]
pub struct Taint {
    pub key: String,
    pub value: String,
    pub effect: TaintEffect,
}

/// How a toleration is matched with a taint: by the key alone, or by key and
/// value.
#[derive(Debug, Clone, Copy, PartialEq, Eq, Structural)]
pub enum TolerationOperator {
    Exists,
    Equal,
}

/// A pod's exemption from taints. An empty `key` stands for every key, and no
/// `effect` for every effect.
#[derive(Debug, Clone)]
pub struct Toleration {
    pub key: String,
    pub operator: TolerationOperator,
    pub value: String,
    pub effect: Option<TaintEffect>,
}

/// Quality-of-service tier of a pod.
#[derive(Debug, Clone, Copy, PartialEq, Eq, Structural)]
pub enum QosClass {
    Guaranteed,
    Burstable,
    BestEffort,
    Unknown,
}

/// A label of a node: a key and its value.
#[derive(Debug, Clone)]
pub struct Label {
    pub key: String,
    pub value: String,
}

/// How a requirement compares a label with its values.
#[derive(Debug, Clone, Copy, PartialEq, Eq, Structural)]
pub enum SelectorOperator {
    In,
    NotIn,
    Exists,
    DoesNotExist,
    Gt,
    Lt,
}

/// One requirement on the labels of a node.
#[derive(Debug, Clone)]
pub struct SelectorRequirement {
    pub key: String,
    pub operator: SelectorOperator,
    pub values: Vec<String>,
}

/// Requirements that a node must meet all at once.
#[derive(Debug, Clone)]
pub struct NodeSelectorTerm {
    pub match_expressions: Vec<SelectorRequirement>,
}

/// What a pod asks of the node that runs it.
#[derive(Debug, Clone)]
pub struct PodSpec {
    pub scheduler_name: String,
    pub node_name: Option<String>,
    pub containers: Vec<Container>,
    pub tolerations: Vec<Toleration>,
    /// The required node affinity: the node must meet one of the terms. No term
    /// stands for no requirement.
    pub node_affinity: Vec<NodeSelectorTerm>,
}

/// A pod, identified by `namespace` and `name`.
#[derive(Debug, Clone)]
pub struct Pod {
    pub namespace: String,
    pub name: String,
    pub spec: Option<PodSpec>,
    pub qos_class: QosClass,
}

/// What the cluster asks of a node.
#[derive(Debug, Clone)]
pub struct NodeSpec {
    pub unschedulable: Option<bool>,
    pub taints: Vec<Taint>,
}

/// What a node reports of itself.
#[derive(Debug, Clone)]
pub struct NodeStatus {
    pub allocatable: Option<Vec<ResourceEntry>>,
}

/// A node. One without a name can be found feasible and can take no pod.
#[derive(Debug, Clone)]
pub struct Node {
    pub name: Option<String>,
    pub labels: Vec<Label>,
    pub spec: Option<NodeSpec>,
    pub status: Option<NodeStatus>,
}

/// The pods bound to one node, oldest first. In a list of assignments the first
/// of a node name counts; a list that stands for a map has names that differ.
#[derive(Debug, Clone)]
pub struct NodeAssignment {
    pub node_name: String,
    pub pods: Vec<Pod>,
}

/// A node's name and the pods bound to it.
pub struct AssignmentView {
    pub node_name: Seq<char>,
    pub pods: Seq<Pod>,
}

impl View for NodeAssignment {
    type V = AssignmentView;

    open spec fn view(&self) -> AssignmentView {
        AssignmentView { node_name: self.node_name@, pods: self.pods@ }
    }
}

/// The views of a list of assignments.
pub open spec fn assignment_views(assignments: Seq<NodeAssignment>) -> Seq<AssignmentView> {
    assignments.map_values(|a: NodeAssignment| a@)
}

/// The cluster as one scheduling pass sees it.
#[derive(Debug, Clone)]
pub struct WorldState {
    pub nodes: Vec<Node>,
    pub unscheduled_pods: Vec<Pod>,
    pub assignments: Vec<NodeAssignment>,
}

/// Why a pod was left unscheduled.
#[derive(Debug, Clone, Copy, PartialEq, Eq, Structural)]
pub enum Reason {
    NoFeasibleNode,
    MissingNodeName,
    MissingNodeRecord,
}

/// A pod that this pass bound to a node.
#[derive(Debug, Clone)]
pub struct Placement {
    pub pod_namespace: String,
    pub pod_name: String,
    pub node_name: String,
}

/// A placement, as the texts it holds.
pub struct PlacementView {
    pub pod_namespace: Seq<char>,
    pub pod_name: Seq<char>,
    pub node_name: Seq<char>,
}

impl View for Placement {
    type V = PlacementView;

    open spec fn view(&self) -> PlacementView {
        PlacementView {
            pod_namespace: self.pod_namespace@,
            pod_name: self.pod_name@,
            node_name: self.node_name@,
        }
    }
}

/// What a scheduling pass decided.
#[derive(Debug, Clone)]
pub struct TargetState {
    /// Every assignment of the world, each followed by the pods placed on that node.
    pub assignments: Vec<NodeAssignment>,
    /// The pods that found no node, each with the reason.
    pub still_unscheduled: Vec<(Pod, Reason)>,
    /// The pods placed by this pass, in the order in which they were placed.
    pub placements: Vec<Placement>,
}

/// What a scheduling pass decided, as sequences.
pub struct TargetView {
    pub assignments: Seq<AssignmentView>,
    pub still_unscheduled: Seq<(Pod, Reason)>,
    pub placements: Seq<PlacementView>,
}

impl View for TargetState {
    type V = TargetView;

    open spec fn view(&self) -> TargetView {
        TargetView {
            assignments: assignment_views(self.assignments@),
            still_unscheduled: self.still_unscheduled@,
            placements: self.placements@.map_values(|p: Placement| p@),
        }
    }
}

} // verus!
