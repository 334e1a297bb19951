use kube_scheduler::affinity::{
    are_terms_met, find_label, is_requirement_met, is_term_met, parse_integer,
};
use kube_scheduler::bin_packing::schedule;
use kube_scheduler::filters::is_pod_affinity_fulfilled;
use kube_scheduler::model::{
    Label, Node, NodeAssignment, NodeSelectorTerm, NodeSpec, NodeStatus, Pod, PodSpec, QosClass,
    Reason, SelectorOperator, SelectorRequirement, WorldState,
};

fn labels(pairs: &[(&str, &str)]) -> Vec<Label> {
    pairs.iter().map(|(k, v)| Label { key: k.to_string(), value: v.to_string() }).collect()
}

fn requirement(key: &str, operator: SelectorOperator, values: &[&str]) -> SelectorRequirement {
    SelectorRequirement {
        key: key.to_string(),
        operator,
        values: values.iter().map(|v| v.to_string()).collect(),
    }
}

fn term(requirements: Vec<SelectorRequirement>) -> NodeSelectorTerm {
    NodeSelectorTerm { match_expressions: requirements }
}

fn labelled_node(name: &str, pairs: &[(&str, &str)]) -> Node {
    Node {
        name: Some(name.to_string()),
        labels: labels(pairs),
        spec: Some(NodeSpec { unschedulable: None, taints: Vec::new() }),
        status: Some(NodeStatus { allocatable: Some(Vec::new()) }),
    }
}

fn pod_wanting(terms: Vec<NodeSelectorTerm>) -> Pod {
    Pod {
        namespace: "default".to_string(),
        name: "p".to_string(),
        spec: Some(PodSpec {
            scheduler_name: String::new(),
            node_name: None,
            containers: Vec::new(),
            tolerations: Vec::new(),
            node_affinity: terms,
        }),
        qos_class: QosClass::Burstable,
    }
}

#[test]
fn the_first_label_of_a_key_counts() {
    let all = labels(&[("zone", "a"), ("disk", "ssd"), ("zone", "b")]);

    assert_eq!(find_label(&all, "zone"), Some(&"a".to_string()));
    assert_eq!(find_label(&all, "disk"), Some(&"ssd".to_string()));
    assert_eq!(find_label(&all, "gpu"), None);
}

#[test]
fn in_and_not_in() {
    let all = labels(&[("zone", "a")]);

    assert!(is_requirement_met(&all, &requirement("zone", SelectorOperator::In, &["b", "a"])));
    assert!(!is_requirement_met(&all, &requirement("zone", SelectorOperator::In, &["b"])));
    assert!(!is_requirement_met(&all, &requirement("zone", SelectorOperator::In, &[])));
    assert!(!is_requirement_met(&all, &requirement("disk", SelectorOperator::In, &["a"])));
    assert!(!is_requirement_met(&all, &requirement("zone", SelectorOperator::NotIn, &["b", "a"])));
    assert!(is_requirement_met(&all, &requirement("zone", SelectorOperator::NotIn, &["b"])));
    assert!(is_requirement_met(&all, &requirement("disk", SelectorOperator::NotIn, &["a"])));
}

#[test]
fn exists_and_does_not_exist() {
    let all = labels(&[("zone", "")]);

    assert!(is_requirement_met(&all, &requirement("zone", SelectorOperator::Exists, &[])));
    assert!(!is_requirement_met(&all, &requirement("disk", SelectorOperator::Exists, &[])));
    assert!(!is_requirement_met(&all, &requirement("zone", SelectorOperator::DoesNotExist, &[])));
    assert!(is_requirement_met(&all, &requirement("disk", SelectorOperator::DoesNotExist, &[])));
}

#[test]
fn gt_and_lt_compare_whole_numbers() {
    let all = labels(&[("cores", "16"), ("rack", "r7"), ("level", "-3")]);

    assert!(is_requirement_met(&all, &requirement("cores", SelectorOperator::Gt, &["8"])));
    assert!(!is_requirement_met(&all, &requirement("cores", SelectorOperator::Gt, &["16"])));
    assert!(is_requirement_met(&all, &requirement("cores", SelectorOperator::Lt, &["17"])));
    assert!(!is_requirement_met(&all, &requirement("cores", SelectorOperator::Lt, &["16"])));
    assert!(is_requirement_met(&all, &requirement("cores", SelectorOperator::Gt, &["9"])));
    assert!(is_requirement_met(&all, &requirement("level", SelectorOperator::Lt, &["-2"])));
    assert!(is_requirement_met(&all, &requirement("level", SelectorOperator::Gt, &["-4"])));
    assert!(!is_requirement_met(&all, &requirement("rack", SelectorOperator::Gt, &["1"])));
    assert!(!is_requirement_met(&all, &requirement("cores", SelectorOperator::Gt, &["x"])));
    assert!(!is_requirement_met(&all, &requirement("cores", SelectorOperator::Gt, &[])));
    assert!(!is_requirement_met(&all, &requirement("cores", SelectorOperator::Gt, &["1", "2"])));
    assert!(!is_requirement_met(&all, &requirement("gone", SelectorOperator::Lt, &["1"])));
}

#[test]
fn whole_numbers_within_64_bits() {
    assert_eq!(parse_integer("0"), Some(0));
    assert_eq!(parse_integer("007"), Some(7));
    assert_eq!(parse_integer("+12"), Some(12));
    assert_eq!(parse_integer("-12"), Some(-12));
    assert_eq!(parse_integer("-0"), Some(0));
    assert_eq!(parse_integer("9223372036854775807"), Some(i64::MAX));
    assert_eq!(parse_integer("-9223372036854775808"), Some(i64::MIN));
    assert_eq!(parse_integer("9223372036854775808"), None);
    assert_eq!(parse_integer("-9223372036854775809"), None);
    assert_eq!(parse_integer("99999999999999999999999"), None);
    for text in ["", "-", "+", "1.5", "1e3", " 1", "1 ", "--1", "1-", "a"] {
        assert_eq!(parse_integer(text), None, "{text:?}");
    }
}

#[test]
fn a_term_needs_all_of_its_requirements() {
    let all = labels(&[("zone", "a"), ("disk", "ssd")]);
    let zone = || requirement("zone", SelectorOperator::In, &["a"]);
    let disk = |kind: &str| requirement("disk", SelectorOperator::In, &[kind]);

    assert!(is_term_met(&all, &term(vec![zone(), disk("ssd")])));
    assert!(!is_term_met(&all, &term(vec![zone(), disk("hdd")])));
    assert!(!is_term_met(&all, &term(Vec::new())));
}

#[test]
fn one_met_term_is_enough() {
    let all = labels(&[("zone", "a")]);
    let zone = |z: &str| term(vec![requirement("zone", SelectorOperator::In, &[z])]);

    assert!(are_terms_met(&all, &Vec::new()));
    assert!(are_terms_met(&all, &vec![zone("b"), zone("a")]));
    assert!(!are_terms_met(&all, &vec![zone("b"), zone("c")]));
    assert!(!are_terms_met(&all, &vec![term(Vec::new())]));
}

#[test]
fn affinity_is_read_from_the_labels_of_the_node() {
    let pod = pod_wanting(vec![term(vec![requirement("zone", SelectorOperator::In, &["a"])])]);

    assert!(is_pod_affinity_fulfilled(&labelled_node("n", &[("zone", "a")]), &pod));
    assert!(!is_pod_affinity_fulfilled(&labelled_node("n", &[("zone", "b")]), &pod));
    assert!(!is_pod_affinity_fulfilled(&labelled_node("n", &[]), &pod));
}

#[test]
fn a_pod_goes_only_where_its_affinity_is_met() {
    let world = |zone: &str| WorldState {
        nodes: vec![labelled_node("a1", &[("zone", "a")]), labelled_node("b1", &[("zone", "b")])],
        unscheduled_pods: vec![pod_wanting(vec![term(vec![requirement(
            "zone",
            SelectorOperator::In,
            &[zone],
        )])])],
        assignments: vec![
            NodeAssignment { node_name: "a1".to_string(), pods: Vec::new() },
            NodeAssignment { node_name: "b1".to_string(), pods: Vec::new() },
        ],
    };

    let target = schedule(world("b"));
    assert_eq!(target.placements[0].node_name, "b1");

    let target = schedule(world("c"));
    assert!(target.placements.is_empty());
    assert_eq!(target.still_unscheduled[0].1, Reason::NoFeasibleNode);
}
