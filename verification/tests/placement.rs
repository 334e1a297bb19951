use kube_scheduler::bin_packing::{
    choose_node, find_record, place, pod_comes_before, pod_priority, schedule, sort_pods,
};
use kube_scheduler::commitment::do_node_names_differ;
use kube_scheduler::model::{
    Container, Node, NodeAssignment, NodeSpec, NodeStatus, Pod, PodSpec, QosClass, Reason,
    ResourceEntry, ResourceRequirements, TargetState, Taint, TaintEffect, Toleration,
    TolerationOperator, WorldState,
};

fn entries(pairs: &[(&str, &str)]) -> Vec<ResourceEntry> {
    pairs
        .iter()
        .map(|(name, quantity)| ResourceEntry {
            name: name.to_string(),
            quantity: quantity.to_string(),
        })
        .collect()
}

fn node(name: &str, allocatable: &[(&str, &str)]) -> Node {
    Node {
        name: Some(name.to_string()),
        labels: Vec::new(),
        spec: Some(NodeSpec { unschedulable: None, taints: Vec::new() }),
        status: Some(NodeStatus { allocatable: Some(entries(allocatable)) }),
    }
}

fn pod(name: &str, qos_class: QosClass, requests: &[(&str, &str)]) -> Pod {
    Pod {
        namespace: "default".to_string(),
        name: name.to_string(),
        spec: Some(PodSpec {
            scheduler_name: "kube-scheduler-rs".to_string(),
            node_name: None,
            containers: vec![Container {
                resources: Some(ResourceRequirements { requests: Some(entries(requests)) }),
            }],
            tolerations: Vec::new(),
            node_affinity: Vec::new(),
        }),
        qos_class,
    }
}

fn record(node_name: &str, pods: Vec<Pod>) -> NodeAssignment {
    NodeAssignment { node_name: node_name.to_string(), pods }
}

fn names(pods: &[Pod]) -> Vec<&str> {
    pods.iter().map(|p| p.name.as_str()).collect()
}

fn assigned(target: &TargetState) -> Vec<(&str, Vec<&str>)> {
    target.assignments.iter().map(|a| (a.node_name.as_str(), names(&a.pods))).collect()
}

fn left(target: &TargetState) -> Vec<(&str, Reason)> {
    target.still_unscheduled.iter().map(|(p, r)| (p.name.as_str(), *r)).collect()
}

fn placed(target: &TargetState) -> Vec<(&str, &str, &str)> {
    target
        .placements
        .iter()
        .map(|p| (p.pod_namespace.as_str(), p.pod_name.as_str(), p.node_name.as_str()))
        .collect()
}

#[test]
fn single_fit_single_node() {
    let world = WorldState {
        nodes: vec![node("n1", &[("cpu", "2"), ("memory", "2Gi")])],
        unscheduled_pods: vec![pod("p1", QosClass::Burstable, &[("cpu", "1"), ("memory", "1Gi")])],
        assignments: vec![record("n1", Vec::new())],
    };

    let target = schedule(world);

    assert_eq!(assigned(&target), vec![("n1", vec!["p1"])]);
    assert_eq!(left(&target), Vec::new());
    assert_eq!(placed(&target), vec![("default", "p1", "n1")]);
}

#[test]
fn over_requested() {
    let world = WorldState {
        nodes: vec![node("n1", &[("cpu", "2"), ("memory", "2Gi")])],
        unscheduled_pods: vec![pod("p2", QosClass::Burstable, &[("cpu", "3"), ("memory", "3Gi")])],
        assignments: vec![record("n1", Vec::new())],
    };

    let target = schedule(world);

    assert_eq!(assigned(&target), vec![("n1", Vec::new())]);
    assert_eq!(left(&target), vec![("p2", Reason::NoFeasibleNode)]);
    assert_eq!(placed(&target), Vec::new());
}

#[test]
fn priority_ordering() {
    for guaranteed_first in [true, false] {
        let pg = pod("pg", QosClass::Guaranteed, &[("cpu", "2")]);
        let pb = pod("pb", QosClass::BestEffort, &[("cpu", "1")]);
        let world = WorldState {
            nodes: vec![node("n1", &[("cpu", "2")])],
            unscheduled_pods: if guaranteed_first { vec![pg, pb] } else { vec![pb, pg] },
            assignments: vec![record("n1", Vec::new())],
        };

        let target = schedule(world);

        assert_eq!(assigned(&target), vec![("n1", vec!["pg"])]);
        assert_eq!(left(&target), vec![("pb", Reason::NoFeasibleNode)]);
    }
}

#[test]
fn unschedulable_node_excluded() {
    let mut n1 = node("n1", &[("cpu", "1")]);
    n1.spec = Some(NodeSpec { unschedulable: Some(true), taints: Vec::new() });
    let world = WorldState {
        nodes: vec![n1, node("n2", &[("cpu", "1")])],
        unscheduled_pods: vec![pod("p", QosClass::Burstable, &[("cpu", "1")])],
        assignments: vec![record("n1", Vec::new()), record("n2", Vec::new())],
    };

    let target = schedule(world);

    assert_eq!(assigned(&target), vec![("n1", Vec::new()), ("n2", vec!["p"])]);
    assert_eq!(left(&target), Vec::new());
}

#[test]
fn bin_packing_preference() {
    for n1_first in [true, false] {
        let n1 = node("n1", &[("cpu", "4"), ("memory", "4Gi")]);
        let n2 = node("n2", &[("cpu", "4"), ("memory", "4Gi")]);
        let world = WorldState {
            nodes: if n1_first { vec![n1, n2] } else { vec![n2, n1] },
            unscheduled_pods: vec![pod("p", QosClass::Burstable, &[("cpu", "1")])],
            assignments: vec![
                record("n1", vec![pod("old", QosClass::Burstable, &[("cpu", "3")])]),
                record("n2", Vec::new()),
            ],
        };

        let target = schedule(world);

        assert_eq!(assigned(&target), vec![("n1", vec!["old", "p"]), ("n2", Vec::new())]);
        assert_eq!(placed(&target), vec![("default", "p", "n1")]);
    }
}

#[test]
fn taint_blocks_placement() {
    let tainted = || {
        let mut n1 = node("n1", &[("cpu", "2")]);
        n1.spec = Some(NodeSpec {
            unschedulable: None,
            taints: vec![Taint {
                key: "gpu".to_string(),
                value: "true".to_string(),
                effect: TaintEffect::NoSchedule,
            }],
        });
        n1
    };
    let world = WorldState {
        nodes: vec![tainted()],
        unscheduled_pods: vec![pod("p", QosClass::Burstable, &[("cpu", "1")])],
        assignments: vec![record("n1", Vec::new())],
    };

    assert_eq!(left(&schedule(world)), vec![("p", Reason::NoFeasibleNode)]);

    let mut tolerant = pod("p", QosClass::Burstable, &[("cpu", "1")]);
    tolerant.spec.as_mut().unwrap().tolerations = vec![Toleration {
        key: "gpu".to_string(),
        operator: TolerationOperator::Exists,
        value: String::new(),
        effect: Some(TaintEffect::NoSchedule),
    }];
    let world = WorldState {
        nodes: vec![tainted()],
        unscheduled_pods: vec![tolerant],
        assignments: vec![record("n1", Vec::new())],
    };

    let target = schedule(world);

    assert_eq!(assigned(&target), vec![("n1", vec!["p"])]);
    assert_eq!(left(&target), Vec::new());
}

#[test]
fn every_pod_ends_in_exactly_one_place() {
    let world = WorldState {
        nodes: vec![node("a", &[("cpu", "2")]), node("b", &[("cpu", "1")])],
        unscheduled_pods: vec![
            pod("batch", QosClass::BestEffort, &[("cpu", "1")]),
            pod("db", QosClass::Guaranteed, &[("cpu", "2")]),
            pod("cache", QosClass::Burstable, &[("cpu", "1")]),
            pod("job", QosClass::Unknown, &[("cpu", "1")]),
            pod("huge", QosClass::Burstable, &[("cpu", "5")]),
        ],
        assignments: vec![
            record("a", Vec::new()),
            record("b", vec![pod("bound", QosClass::Burstable, &[])]),
        ],
    };

    let target = schedule(world);

    let mut seen: Vec<&str> = Vec::new();
    for a in &target.assignments {
        seen.extend(names(&a.pods));
    }
    seen.extend(target.still_unscheduled.iter().map(|(p, _)| p.name.as_str()));
    seen.sort();
    assert_eq!(seen, vec!["batch", "bound", "cache", "db", "huge", "job"]);
    assert_eq!(assigned(&target), vec![("a", vec!["db"]), ("b", vec!["bound", "cache"])]);
    assert_eq!(
        left(&target),
        vec![
            ("huge", Reason::NoFeasibleNode),
            ("batch", Reason::NoFeasibleNode),
            ("job", Reason::NoFeasibleNode),
        ]
    );
    assert_eq!(placed(&target), vec![("default", "db", "a"), ("default", "cache", "b")]);
}

#[test]
fn an_infeasible_pod_takes_no_capacity() {
    let world = WorldState {
        nodes: vec![node("n1", &[("cpu", "2")])],
        unscheduled_pods: vec![
            pod("big", QosClass::Guaranteed, &[("cpu", "3")]),
            pod("small", QosClass::BestEffort, &[("cpu", "2")]),
        ],
        assignments: vec![record("n1", Vec::new())],
    };

    let target = schedule(world);

    assert_eq!(assigned(&target), vec![("n1", vec!["small"])]);
    assert_eq!(left(&target), vec![("big", Reason::NoFeasibleNode)]);
}

#[test]
fn priority_keys() {
    assert_eq!(pod_priority(&pod("p", QosClass::Guaranteed, &[])), -997);
    assert_eq!(pod_priority(&pod("p", QosClass::Burstable, &[])), 0);
    assert_eq!(pod_priority(&pod("p", QosClass::BestEffort, &[])), 1000);
    assert_eq!(pod_priority(&pod("p", QosClass::Unknown, &[])), 1000);
}

#[test]
fn ties_are_broken_by_namespace_then_name() {
    let mut a = pod("zz", QosClass::Burstable, &[]);
    a.namespace = "alpha".to_string();
    let mut b = pod("aa", QosClass::Burstable, &[]);
    b.namespace = "beta".to_string();
    let c = pod("ab", QosClass::Burstable, &[]);
    let d = pod("b", QosClass::Burstable, &[]);

    assert!(pod_comes_before(&a, &b));
    assert!(!pod_comes_before(&b, &a));
    assert!(pod_comes_before(&c, &d));
    assert!(!pod_comes_before(&d, &c));
    assert!(!pod_comes_before(&c, &c));
    assert!(pod_comes_before(&pod("z", QosClass::Guaranteed, &[]), &a));
    assert!(!pod_comes_before(&pod("a", QosClass::BestEffort, &[]), &d));
}

#[test]
fn pods_are_sorted_by_key_namespace_and_name() {
    let sorted = sort_pods(vec![
        pod("d", QosClass::BestEffort, &[]),
        pod("c", QosClass::Burstable, &[]),
        pod("b", QosClass::Unknown, &[]),
        pod("a", QosClass::Burstable, &[]),
        pod("e", QosClass::Guaranteed, &[]),
        pod("ab", QosClass::Burstable, &[]),
    ]);

    assert_eq!(names(&sorted), vec!["e", "a", "ab", "c", "b", "d"]);
    assert_eq!(names(&sort_pods(Vec::new())), Vec::<&str>::new());
}

#[test]
fn equal_pods_keep_their_order() {
    let first = pod("same", QosClass::Burstable, &[("cpu", "1")]);
    let second = pod("same", QosClass::Burstable, &[("cpu", "2")]);

    let sorted = sort_pods(vec![first, second]);

    let cpu = |p: &Pod| {
        p.spec.as_ref().unwrap().containers[0].resources.as_ref().unwrap().requests.as_ref().unwrap()
            [0]
        .quantity
        .clone()
    };
    assert_eq!(cpu(&sorted[0]), "1");
    assert_eq!(cpu(&sorted[1]), "2");
}

#[test]
fn fewer_pods_break_a_tie_in_utilization() {
    let world = WorldState {
        nodes: vec![node("a", &[("cpu", "4")]), node("b", &[("cpu", "4")])],
        unscheduled_pods: vec![pod("p", QosClass::Burstable, &[("cpu", "1")])],
        assignments: vec![
            record(
                "a",
                vec![
                    pod("x", QosClass::Burstable, &[("cpu", "1")]),
                    pod("y", QosClass::Burstable, &[("cpu", "1")]),
                ],
            ),
            record("b", vec![pod("z", QosClass::Burstable, &[("cpu", "2")])]),
        ],
    };

    assert_eq!(placed(&schedule(world)), vec![("default", "p", "b")]);
}

#[test]
fn the_name_breaks_a_full_tie() {
    let world = WorldState {
        nodes: vec![node("m", &[("cpu", "4")]), node("k", &[("cpu", "4")]), node("l", &[("cpu", "4")])],
        unscheduled_pods: vec![pod("p", QosClass::Burstable, &[("cpu", "1")])],
        assignments: vec![record("m", Vec::new()), record("k", Vec::new()), record("l", Vec::new())],
    };

    assert_eq!(placed(&schedule(world)), vec![("default", "p", "k")]);
}

#[test]
fn utilization_is_compared_exactly() {
    // 1/3 + 1/3 against 2/3 + 1/3000000000: the second is larger by a hair.
    let world = WorldState {
        nodes: vec![
            node("a", &[("cpu", "3"), ("memory", "3")]),
            node("b", &[("cpu", "3"), ("memory", "3000000")]),
        ],
        unscheduled_pods: vec![pod("p", QosClass::Burstable, &[("cpu", "1"), ("memory", "1m")])],
        assignments: vec![
            record("a", vec![pod("x", QosClass::Burstable, &[("memory", "999m")])]),
            record("b", vec![pod("y", QosClass::Burstable, &[("cpu", "1")])]),
        ],
    };

    assert_eq!(placed(&schedule(world)), vec![("default", "p", "b")]);
}

#[test]
fn a_node_without_a_name_gives_its_reason() {
    let mut nameless = node("n", &[("cpu", "1")]);
    nameless.name = None;
    let world = WorldState {
        nodes: vec![nameless],
        unscheduled_pods: vec![pod("p", QosClass::Burstable, &[("cpu", "1")])],
        assignments: Vec::new(),
    };

    assert_eq!(left(&schedule(world)), vec![("p", Reason::MissingNodeName)]);
}

#[test]
fn a_node_without_a_record_gives_its_reason() {
    let world = WorldState {
        nodes: vec![node("n1", &[("cpu", "1")])],
        unscheduled_pods: vec![pod("p", QosClass::Burstable, &[("cpu", "1")])],
        assignments: vec![record("other", Vec::new())],
    };

    let target = schedule(world);

    assert_eq!(left(&target), vec![("p", Reason::MissingNodeRecord)]);
    assert_eq!(assigned(&target), vec![("other", Vec::new())]);
}

#[test]
fn no_nodes_leave_every_pod_unscheduled() {
    let world = WorldState {
        nodes: Vec::new(),
        unscheduled_pods: vec![pod("p", QosClass::Burstable, &[])],
        assignments: Vec::new(),
    };

    assert_eq!(left(&schedule(world)), vec![("p", Reason::NoFeasibleNode)]);
}

#[test]
fn choose_node_returns_the_index() {
    let nodes = vec![node("small", &[("cpu", "1")]), node("large", &[("cpu", "8")])];
    let assignments = vec![record("small", Vec::new()), record("large", Vec::new())];

    assert_eq!(choose_node(&nodes, &assignments, &pod("p", QosClass::Burstable, &[("cpu", "1")])), Some(0));
    assert_eq!(choose_node(&nodes, &assignments, &pod("p", QosClass::Burstable, &[("cpu", "2")])), Some(1));
    assert_eq!(choose_node(&nodes, &assignments, &pod("p", QosClass::Burstable, &[("cpu", "9")])), None);
}

#[test]
fn find_record_takes_the_first_of_a_name() {
    let assignments = vec![record("a", Vec::new()), record("b", Vec::new()), record("a", Vec::new())];

    assert_eq!(find_record(&assignments, "a"), Some(0));
    assert_eq!(find_record(&assignments, "b"), Some(1));
    assert_eq!(find_record(&assignments, "c"), None);
}

#[test]
fn place_appends_to_the_record_of_the_node() {
    let nodes = vec![node("n1", &[("cpu", "2")])];
    let mut target = TargetState {
        assignments: vec![record("n1", vec![pod("old", QosClass::Burstable, &[("cpu", "1")])])],
        still_unscheduled: Vec::new(),
        placements: Vec::new(),
    };

    place(&nodes, &mut target, pod("new", QosClass::Burstable, &[("cpu", "1")]));
    place(&nodes, &mut target, pod("late", QosClass::Burstable, &[("cpu", "1")]));

    assert_eq!(assigned(&target), vec![("n1", vec!["old", "new"])]);
    assert_eq!(left(&target), vec![("late", Reason::NoFeasibleNode)]);
    assert_eq!(placed(&target), vec![("default", "new", "n1")]);
}

#[test]
fn no_node_is_committed_beyond_what_it_offers() {
    let world = WorldState {
        nodes: vec![node("a", &[("cpu", "2"), ("memory", "4Gi")]), node("b", &[("cpu", "1500m")])],
        unscheduled_pods: vec![
            pod("w1", QosClass::Burstable, &[("cpu", "1"), ("memory", "3Gi")]),
            pod("w2", QosClass::Burstable, &[("cpu", "1"), ("memory", "1Gi")]),
            pod("w3", QosClass::Burstable, &[("cpu", "1")]),
            pod("w4", QosClass::Burstable, &[("cpu", "500m")]),
            pod("w5", QosClass::Burstable, &[("cpu", "1m")]),
        ],
        assignments: vec![record("a", Vec::new()), record("b", Vec::new())],
    };

    let target = schedule(world);

    assert_eq!(
        assigned(&target),
        vec![("a", vec!["w1", "w2"]), ("b", vec!["w3", "w4"])]
    );
    assert_eq!(left(&target), vec![("w5", Reason::NoFeasibleNode)]);
}

#[test]
fn nodes_of_one_name_share_the_first_record_of_that_name() {
    let world = WorldState {
        nodes: vec![node("twin", &[("cpu", "1")]), node("twin", &[("cpu", "4")])],
        unscheduled_pods: vec![pod("w", QosClass::Burstable, &[("cpu", "3")])],
        assignments: vec![record("twin", Vec::new()), record("twin", Vec::new())],
    };

    let target = schedule(world);

    assert_eq!(assigned(&target), vec![("twin", vec!["w"]), ("twin", Vec::new())]);
}

#[test]
fn repeated_node_names_are_found() {
    let mut nameless = node("x", &[]);
    nameless.name = None;
    let mut other = node("y", &[]);
    other.name = None;

    assert!(do_node_names_differ(&Vec::new()));
    assert!(do_node_names_differ(&vec![node("a", &[])]));
    assert!(do_node_names_differ(&vec![node("a", &[]), node("b", &[]), node("c", &[])]));
    assert!(do_node_names_differ(&vec![nameless, node("a", &[]), other]));
    assert!(!do_node_names_differ(&vec![node("a", &[]), node("b", &[]), node("a", &[])]));
    assert!(!do_node_names_differ(&vec![node("b", &[]), node("a", &[]), node("a", &[])]));
}
