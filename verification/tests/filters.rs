use kube_scheduler::filters::{
    does_pod_fit, is_feasible, is_node_schedulable, is_pod_affinity_fulfilled,
    is_pod_allocatable, is_pod_anti_affinity_fulfilled, is_pod_taint_toleration_fulfilled,
    pod_request, pods_request,
};
use kube_scheduler::canonical::canonicalize;
use kube_scheduler::quantity::Quantity;
use kube_scheduler::model::{
    Container, Node, NodeSpec, NodeStatus, Pod, PodSpec, QosClass, ResourceEntry,
    ResourceRequirements, Taint, TaintEffect, Toleration, TolerationOperator,
};

fn entries(pairs: &[(&str, &str)]) -> Vec<ResourceEntry> {
    pairs
        .iter()
        .map(|(name, quantity)| ResourceEntry {
            name: name.to_string(),
            quantity: quantity.to_string(),
        })
        .collect()
}

fn empty_node() -> Node {
    Node { name: None, labels: Vec::new(), spec: None, status: None }
}

fn node_offering(pairs: &[(&str, &str)]) -> Node {
    Node {
        name: None,
        labels: Vec::new(),
        spec: None,
        status: Some(NodeStatus { allocatable: Some(entries(pairs)) }),
    }
}

fn container(pairs: &[(&str, &str)]) -> Container {
    Container { resources: Some(ResourceRequirements { requests: Some(entries(pairs)) }) }
}

fn pod_with(containers: Vec<Container>, tolerations: Vec<Toleration>) -> Pod {
    Pod {
        namespace: "default".to_string(),
        name: "pod".to_string(),
        spec: Some(PodSpec {
            scheduler_name: String::new(),
            node_name: None,
            containers,
            tolerations,
            node_affinity: Vec::new(),
        }),
        qos_class: QosClass::Unknown,
    }
}

fn pod_requesting(pairs: &[(&str, &str)]) -> Pod {
    pod_with(vec![container(pairs)], Vec::new())
}

fn tainted_node(taints: Vec<Taint>) -> Node {
    Node {
        name: None,
        labels: Vec::new(),
        spec: Some(NodeSpec { unschedulable: None, taints }),
        status: None,
    }
}

fn taint(key: &str, value: &str, effect: TaintEffect) -> Taint {
    Taint { key: key.to_string(), value: value.to_string(), effect }
}

fn toleration(
    key: &str,
    operator: TolerationOperator,
    value: &str,
    effect: Option<TaintEffect>,
) -> Toleration {
    Toleration { key: key.to_string(), operator, value: value.to_string(), effect }
}

#[test]
fn test_schedulable_node() {
    assert!(is_node_schedulable(&Node {
        name: None,
        labels: Vec::new(),
        spec: Some(NodeSpec { unschedulable: None, taints: Vec::new() }),
        status: None,
    }));
}

#[test]
fn test_unschedulable_node_explicit() {
    assert!(!is_node_schedulable(&Node {
        name: None,
        labels: Vec::new(),
        spec: Some(NodeSpec { unschedulable: Some(true), taints: Vec::new() }),
        status: None,
    }));
}

#[test]
fn test_unschedulable_node_empty() {
    assert!(!is_node_schedulable(&empty_node()));
}

#[test]
fn test_pod_schedulable_to_node() {
    let node = node_offering(&[("cpu", "2"), ("memory", "2Gi")]);
    let pod = pod_requesting(&[("cpu", "1"), ("memory", "1Gi")]);

    assert!(is_pod_allocatable(&node, &pod));
}

#[test]
fn test_pod_not_schedulable_to_node() {
    let node = node_offering(&[("cpu", "2"), ("memory", "2Gi")]);
    let pod = pod_requesting(&[("cpu", "3"), ("memory", "3Gi")]);

    assert!(!is_pod_allocatable(&node, &pod));
}

#[test]
fn test_pod_not_schedulable_to_node_missing_allocatable() {
    let node = empty_node();
    let pod = pod_requesting(&[("cpu", "3"), ("memory", "3Gi")]);

    assert!(!is_pod_allocatable(&node, &pod));
}

#[test]
fn test_pod_not_schedulable_to_node_missing_allocatable_2() {
    let node = node_offering(&[("cpu", "2"), ("memory", "2Gi")]);
    let pod = pod_requesting(&[("cpu", "3"), ("memory", "3Gi")]);

    assert!(!is_pod_allocatable(&node, &pod));
}

#[test]
fn schedulable_when_flag_is_false() {
    assert!(is_node_schedulable(&Node {
        name: None,
        labels: Vec::new(),
        spec: Some(NodeSpec { unschedulable: Some(false), taints: Vec::new() }),
        status: None,
    }));
}

#[test]
fn request_equal_to_allocatable_fits() {
    let node = node_offering(&[("cpu", "2"), ("memory", "2Gi")]);
    let pod = pod_requesting(&[("cpu", "2000m"), ("memory", "2048Mi")]);

    assert!(is_pod_allocatable(&node, &pod));
}

#[test]
fn requests_of_all_containers_are_summed() {
    let node = node_offering(&[("cpu", "2")]);
    let fits = pod_with(vec![container(&[("cpu", "1")]), container(&[("cpu", "1")])], Vec::new());
    let too_much =
        pod_with(vec![container(&[("cpu", "1")]), container(&[("cpu", "1001m")])], Vec::new());

    assert!(is_pod_allocatable(&node, &fits));
    assert!(!is_pod_allocatable(&node, &too_much));
}

#[test]
fn unknown_resource_on_node_is_not_allocatable() {
    let node = node_offering(&[("cpu", "2")]);
    let pod = pod_requesting(&[("example.com/gpu", "1")]);

    assert!(!is_pod_allocatable(&node, &pod));
}

#[test]
fn invalid_request_is_not_allocatable() {
    let node = node_offering(&[("cpu", "2")]);

    assert!(!is_pod_allocatable(&node, &pod_requesting(&[("cpu", "-1")])));
    assert!(!is_pod_allocatable(&node, &pod_requesting(&[("cpu", "one")])));
}

#[test]
fn invalid_allocatable_counts_as_missing() {
    let node = node_offering(&[("cpu", "lots")]);

    assert!(!is_pod_allocatable(&node, &pod_requesting(&[("cpu", "1")])));
    assert!(is_pod_allocatable(&node, &pod_requesting(&[])));
}

#[test]
fn pod_without_spec_is_not_allocatable() {
    let node = node_offering(&[("cpu", "2")]);
    let pod = Pod {
        namespace: "default".to_string(),
        name: "pod".to_string(),
        spec: None,
        qos_class: QosClass::Unknown,
    };

    assert!(!is_pod_allocatable(&node, &pod));
}

#[test]
fn pod_without_requests_fits_any_node_with_allocatable() {
    let node = node_offering(&[]);
    let pod = pod_with(vec![Container { resources: None }], Vec::new());

    assert!(is_pod_allocatable(&node, &pod));
}

#[test]
fn untolerated_taint_blocks() {
    let node = tainted_node(vec![taint("gpu", "true", TaintEffect::NoSchedule)]);

    assert!(!is_pod_taint_toleration_fulfilled(&node, &pod_with(Vec::new(), Vec::new())));
}

#[test]
fn exists_toleration_matches_key() {
    let node = tainted_node(vec![taint("gpu", "true", TaintEffect::NoSchedule)]);
    let tolerant = pod_with(
        Vec::new(),
        vec![toleration("gpu", TolerationOperator::Exists, "", Some(TaintEffect::NoSchedule))],
    );
    let other_key = pod_with(
        Vec::new(),
        vec![toleration("disk", TolerationOperator::Exists, "", Some(TaintEffect::NoSchedule))],
    );

    assert!(is_pod_taint_toleration_fulfilled(&node, &tolerant));
    assert!(!is_pod_taint_toleration_fulfilled(&node, &other_key));
}

#[test]
fn exists_toleration_with_empty_key_matches_every_key() {
    let node = tainted_node(vec![
        taint("gpu", "true", TaintEffect::NoSchedule),
        taint("disk", "ssd", TaintEffect::NoExecute),
    ]);
    let pod = pod_with(Vec::new(), vec![toleration("", TolerationOperator::Exists, "", None)]);

    assert!(is_pod_taint_toleration_fulfilled(&node, &pod));
}

#[test]
fn equal_toleration_needs_key_and_value() {
    let node = tainted_node(vec![taint("gpu", "true", TaintEffect::NoExecute)]);
    let same = pod_with(Vec::new(), vec![toleration("gpu", TolerationOperator::Equal, "true", None)]);
    let other_value =
        pod_with(Vec::new(), vec![toleration("gpu", TolerationOperator::Equal, "false", None)]);

    assert!(is_pod_taint_toleration_fulfilled(&node, &same));
    assert!(!is_pod_taint_toleration_fulfilled(&node, &other_value));
}

#[test]
fn toleration_for_another_effect_does_not_match() {
    let node = tainted_node(vec![taint("gpu", "true", TaintEffect::NoSchedule)]);
    let pod = pod_with(
        Vec::new(),
        vec![toleration("gpu", TolerationOperator::Exists, "", Some(TaintEffect::NoExecute))],
    );

    assert!(!is_pod_taint_toleration_fulfilled(&node, &pod));
}

#[test]
fn prefer_no_schedule_does_not_block() {
    let node = tainted_node(vec![taint("gpu", "true", TaintEffect::PreferNoSchedule)]);

    assert!(is_pod_taint_toleration_fulfilled(&node, &pod_with(Vec::new(), Vec::new())));
}

#[test]
fn a_node_without_spec_has_no_taint_and_is_unschedulable() {
    let pod = pod_with(Vec::new(), Vec::new());

    assert!(is_pod_taint_toleration_fulfilled(&empty_node(), &pod));
    assert!(!is_node_schedulable(&empty_node()));
    assert!(!is_feasible(&node_offering(&[]), &Vec::new(), &pod));
}

#[test]
fn a_pod_without_affinity_terms_fits_every_node() {
    let pod = pod_with(Vec::new(), Vec::new());

    assert!(is_pod_affinity_fulfilled(&empty_node(), &pod));
    assert!(is_pod_anti_affinity_fulfilled(&empty_node(), &pod));
}

#[test]
fn feasible_needs_every_filter() {
    let pod = pod_requesting(&[("cpu", "1")]);
    let good = Node {
        name: Some("n1".to_string()),
        labels: Vec::new(),
        spec: Some(NodeSpec { unschedulable: None, taints: Vec::new() }),
        status: Some(NodeStatus { allocatable: Some(entries(&[("cpu", "1")])) }),
    };
    let cordoned = Node {
        name: Some("n2".to_string()),
        labels: Vec::new(),
        spec: Some(NodeSpec { unschedulable: Some(true), taints: Vec::new() }),
        status: Some(NodeStatus { allocatable: Some(entries(&[("cpu", "1")])) }),
    };
    let small = Node {
        name: Some("n3".to_string()),
        labels: Vec::new(),
        spec: Some(NodeSpec { unschedulable: None, taints: Vec::new() }),
        status: Some(NodeStatus { allocatable: Some(entries(&[("cpu", "999m")])) }),
    };

    assert!(is_feasible(&good, &Vec::new(), &pod));
    assert!(!is_feasible(&cordoned, &Vec::new(), &pod));
    assert!(!is_feasible(&small, &Vec::new(), &pod));
    assert!(!is_feasible(&good, &vec![pod_requesting(&[("cpu", "1m")])], &pod));
}

#[test]
fn pods_on_the_node_take_from_what_it_offers() {
    let node = node_offering(&[("cpu", "4"), ("memory", "4Gi")]);
    let on_node = vec![pod_requesting(&[("cpu", "3")])];

    assert!(does_pod_fit(&node, &on_node, &pod_requesting(&[("cpu", "1")])));
    assert!(!does_pod_fit(&node, &on_node, &pod_requesting(&[("cpu", "1001m")])));
    assert!(does_pod_fit(&node, &on_node, &pod_requesting(&[("memory", "4Gi")])));
}

#[test]
fn an_overcommitted_node_has_nothing_left() {
    let node = node_offering(&[("cpu", "1")]);
    let on_node = vec![pod_requesting(&[("cpu", "3")])];

    assert!(does_pod_fit(&node, &on_node, &pod_requesting(&[("cpu", "0")])));
    assert!(!does_pod_fit(&node, &on_node, &pod_requesting(&[("cpu", "1m")])));
}

#[test]
fn requests_are_summed_per_resource() {
    let pod = pod_with(
        vec![
            container(&[("cpu", "250m"), ("memory", "1Gi")]),
            container(&[("cpu", "1"), ("cpu", "bad")]),
        ],
        Vec::new(),
    );

    let amount = |text: &str| Quantity::parse(text).ok();
    assert!(pod_request(&pod, "cpu") == amount("1250m"));
    assert!(pod_request(&pod, "memory") == amount("1Gi"));
    assert!(pod_request(&pod, "disk") == amount("0"));
    assert!(pods_request(&vec![pod_requesting(&[("cpu", "1")]), pod], "cpu") == amount("2250m"));
}

#[test]
fn a_sum_beyond_128_bits_is_reported() {
    let huge = "340282366920938463463374607431768211455";
    let pod = pod_with(vec![container(&[("cpu", huge)]), container(&[("cpu", "1")])], Vec::new());

    assert!(pod_request(&pod, "cpu").is_none());
    assert!(!is_pod_allocatable(&node_offering(&[("cpu", huge)]), &pod));
    assert!(is_pod_allocatable(&node_offering(&[("cpu", huge)]), &pod_requesting(&[("cpu", huge)])));
}

#[test]
fn more_capacity_keeps_a_node_feasible() {
    let pod = pod_requesting(&[("cpu", "1500m")]);
    let spec = || Some(NodeSpec { unschedulable: None, taints: Vec::new() });
    let less = Node {
        name: Some("n".to_string()),
        labels: Vec::new(),
        spec: spec(),
        status: Some(NodeStatus { allocatable: Some(entries(&[("cpu", "2")])) }),
    };
    let more = Node {
        name: Some("n".to_string()),
        labels: Vec::new(),
        spec: spec(),
        status: Some(NodeStatus { allocatable: Some(entries(&[("cpu", "3"), ("memory", "1Gi")])) }),
    };

    assert!(is_feasible(&less, &Vec::new(), &pod));
    assert!(is_feasible(&more, &Vec::new(), &pod));
}

#[test]
fn more_requests_never_make_a_node_feasible() {
    let node = Node {
        name: Some("n".to_string()),
        labels: Vec::new(),
        spec: Some(NodeSpec { unschedulable: None, taints: Vec::new() }),
        status: Some(NodeStatus { allocatable: Some(entries(&[("cpu", "2")])) }),
    };
    let less = pod_with(vec![container(&[("cpu", "3")])], Vec::new());
    let more = pod_with(vec![container(&[("cpu", "3")]), container(&[("cpu", "1")])], Vec::new());

    assert!(!is_feasible(&node, &Vec::new(), &less));
    assert!(!is_feasible(&node, &Vec::new(), &more));
}

fn rewritten(pairs: &[(&str, &str)]) -> Vec<(String, String)> {
    pairs.iter().map(|(name, quantity)| (name.to_string(), canonicalize(quantity))).collect()
}

fn borrowed(pairs: &[(String, String)]) -> Vec<(&str, &str)> {
    pairs.iter().map(|(name, quantity)| (name.as_str(), quantity.as_str())).collect()
}

#[test]
fn canonical_texts_are_written_once_and_for_all() {
    for (text, canonical) in [
        ("1024Mi", "1Gi"),
        ("1000m", "1"),
        ("1.5", "1500m"),
        ("2048Ki", "2Mi"),
        ("1000k", "1M"),
        ("0.5Gi", "512Mi"),
        ("not a quantity", "not a quantity"),
        ("-1", "-1"),
        ("", ""),
    ] {
        assert_eq!(canonicalize(text), canonical);
        assert_eq!(canonicalize(&canonicalize(text)), canonical);
    }
}

#[test]
fn canonical_texts_leave_the_fit_as_it_was() {
    let offers: [&[(&str, &str)]; 4] = [
        &[("cpu", "2"), ("memory", "2048Mi")],
        &[("cpu", "2000m"), ("memory", "2Gi")],
        &[("cpu", "1999m"), ("memory", "1024Ki")],
        &[("cpu", "many"), ("memory", "0.002k")],
    ];
    let requests: [&[(&str, &str)]; 5] = [
        &[("cpu", "1000m"), ("memory", "1024Mi")],
        &[("cpu", "2.000"), ("memory", "2097152Ki")],
        &[("cpu", "2001m")],
        &[("memory", "2")],
        &[("cpu", "one")],
    ];
    for offer in offers {
        for request in requests {
            let node = node_offering(offer);
            let pod = pod_requesting(request);
            let written_node = node_offering(&borrowed(&rewritten(offer)));
            let written_pod = pod_requesting(&borrowed(&rewritten(request)));

            assert_eq!(
                is_pod_allocatable(&written_node, &written_pod),
                is_pod_allocatable(&node, &pod),
                "{offer:?} {request:?}"
            );
        }
    }
}
