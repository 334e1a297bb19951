use kube_scheduler::model::{
    Container, Node, NodeAssignment, NodeSpec, NodeStatus, Pod, PodSpec, QosClass, Reason,
    ResourceEntry, ResourceRequirements,
};
use kube_scheduler::pass::{plan_pass, Algorithm};

fn node(name: &str, cpu: &str) -> Node {
    Node {
        name: Some(name.to_string()),
        labels: Vec::new(),
        spec: Some(NodeSpec { unschedulable: None, taints: Vec::new() }),
        status: Some(NodeStatus {
            allocatable: Some(vec![ResourceEntry {
                name: "cpu".to_string(),
                quantity: cpu.to_string(),
            }]),
        }),
    }
}

fn pod(name: &str, cpu: &str) -> Pod {
    Pod {
        namespace: "default".to_string(),
        name: name.to_string(),
        spec: Some(PodSpec {
            scheduler_name: "kube-scheduler-rs".to_string(),
            node_name: None,
            containers: vec![Container {
                resources: Some(ResourceRequirements {
                    requests: Some(vec![ResourceEntry {
                        name: "cpu".to_string(),
                        quantity: cpu.to_string(),
                    }]),
                }),
            }],
            tolerations: Vec::new(),
            node_affinity: Vec::new(),
        }),
        qos_class: QosClass::Burstable,
    }
}

fn record(node_name: &str) -> NodeAssignment {
    NodeAssignment { node_name: node_name.to_string(), pods: Vec::new() }
}

#[test]
fn a_pass_without_waiting_pods_does_nothing() {
    let plan = plan_pass(
        Algorithm::BinPacking,
        vec![node("n1", "2")],
        vec![record("n1")],
        Vec::new(),
        "kube-scheduler-rs",
    );

    assert!(plan.is_none());
}

#[test]
fn a_pass_places_and_makes_the_requests() {
    let plan = plan_pass(
        Algorithm::BinPacking,
        vec![node("n1", "2"), node("n2", "1")],
        vec![record("n1"), record("n2")],
        vec![pod("a", "2"), pod("b", "1"), pod("c", "1")],
        "kube-scheduler-rs",
    )
    .unwrap();

    let placed: Vec<(&str, &str)> = plan
        .target
        .placements
        .iter()
        .map(|p| (p.pod_name.as_str(), p.node_name.as_str()))
        .collect();
    assert_eq!(placed, vec![("a", "n1"), ("b", "n2")]);
    assert_eq!(plan.target.still_unscheduled.len(), 1);
    assert_eq!(plan.target.still_unscheduled[0].0.name, "c");
    assert_eq!(plan.target.still_unscheduled[0].1, Reason::NoFeasibleNode);

    assert_eq!(plan.requests.len(), 2);
    let sent: Vec<(String, String)> = plan
        .requests
        .iter()
        .map(|r| {
            let r = r.as_ref().unwrap();
            let body: serde_json::Value = serde_json::from_slice(&r.body).unwrap();
            assert_eq!(r.field_manager, "kube-scheduler-rs");
            assert_eq!(r.namespace, "default");
            (r.pod_name.clone(), body["target"]["name"].as_str().unwrap().to_string())
        })
        .collect();
    assert_eq!(
        sent,
        vec![("a".to_string(), "n1".to_string()), ("b".to_string(), "n2".to_string())]
    );
}
