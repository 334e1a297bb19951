use kube_scheduler::binder::{
    bind_outcome, bind_request, binding_requests, is_already_bound, request_with_body, ApiReply,
    BindError, PodBindParameters, CONFLICT,
};
use kube_scheduler::model::{Placement, TargetState};

fn params(pod_name: &str, node_name: &str) -> PodBindParameters {
    PodBindParameters {
        pod_name: pod_name.to_string(),
        pod_namespace: "default".to_string(),
        node_name: node_name.to_string(),
        scheduler_name: "kube-scheduler-rs".to_string(),
    }
}

#[test]
fn the_request_names_pod_node_and_scheduler() {
    let request = bind_request(params("web-1", "n1")).unwrap();

    assert_eq!(request.namespace, "default");
    assert_eq!(request.pod_name, "web-1");
    assert_eq!(request.subresource, "binding");
    assert_eq!(request.field_manager, "kube-scheduler-rs");

    let body: serde_json::Value = serde_json::from_slice(&request.body).unwrap();
    assert_eq!(body["apiVersion"], "v1");
    assert_eq!(body["kind"], "Binding");
    assert_eq!(body["metadata"]["name"], "web-1");
    assert_eq!(body["target"]["apiVersion"], "v1");
    assert_eq!(body["target"]["kind"], "Node");
    assert_eq!(body["target"]["name"], "n1");
}

#[test]
fn the_body_is_the_binding_object_and_nothing_else() {
    let request = bind_request(params("p", "n")).unwrap();

    assert_eq!(
        String::from_utf8(request.body).unwrap(),
        "{\"apiVersion\":\"v1\",\"kind\":\"Binding\",\"metadata\":{\"name\":\"p\"},\
         \"target\":{\"apiVersion\":\"v1\",\"kind\":\"Node\",\"name\":\"n\"}}"
    );
}

#[test]
fn the_same_parameters_give_the_same_body() {
    let first = bind_request(params("a \"quoted\" pod", "n\u{e9}")).unwrap();
    let second = bind_request(params("a \"quoted\" pod", "n\u{e9}")).unwrap();

    assert_eq!(first.body, second.body);
    let body: serde_json::Value = serde_json::from_slice(&first.body).unwrap();
    assert_eq!(body["metadata"]["name"], "a \"quoted\" pod");
    assert_eq!(body["target"]["name"], "n\u{e9}");
}

#[test]
fn a_body_that_could_not_be_encoded_gives_no_request() {
    let failure = serde_json::from_str::<serde_json::Value>("{").unwrap_err();

    assert_eq!(request_with_body(params("p", "n"), Err(failure)).err(), Some(BindError::Encoding));

    let made = request_with_body(params("p", "n"), Ok(vec![1, 2, 3])).unwrap();
    assert_eq!(made.body, vec![1, 2, 3]);
    assert_eq!(made.pod_name, "p");
}

#[test]
fn codes_200_to_202_are_success() {
    for code in [200, 201, 202] {
        assert_eq!(bind_outcome(ApiReply::Status { code: Some(code) }), Ok(()));
    }
}

#[test]
fn other_codes_are_rejections() {
    for code in [i32::MIN, -1, 0, 199, 203, 404, 409, 500, i32::MAX] {
        assert_eq!(
            bind_outcome(ApiReply::Status { code: Some(code) }),
            Err(BindError::Rejected { code })
        );
    }
}

#[test]
fn a_missing_code_and_a_failed_call_are_errors() {
    assert_eq!(bind_outcome(ApiReply::Status { code: None }), Err(BindError::MissingStatusCode));
    assert_eq!(
        bind_outcome(ApiReply::Failed { cause: "timed out".to_string() }),
        Err(BindError::Transport { cause: "timed out".to_string() })
    );
}

#[test]
fn a_conflict_says_that_the_pod_is_bound_already() {
    assert_eq!(CONFLICT, 409);
    let conflict = bind_outcome(ApiReply::Status { code: Some(409) }).unwrap_err();

    assert!(is_already_bound(&conflict));
    assert!(!is_already_bound(&BindError::Rejected { code: 404 }));
    assert!(!is_already_bound(&BindError::Rejected { code: 500 }));
    assert!(!is_already_bound(&BindError::Encoding));
    assert!(!is_already_bound(&BindError::MissingStatusCode));
    assert!(!is_already_bound(&BindError::Transport { cause: "409".to_string() }));
}

#[test]
fn every_placement_gets_its_request() {
    let target = TargetState {
        assignments: Vec::new(),
        still_unscheduled: Vec::new(),
        placements: vec![
            Placement {
                pod_namespace: "default".to_string(),
                pod_name: "tab\there \"quoted\" \u{1f600}".to_string(),
                node_name: String::new(),
            },
            Placement {
                pod_namespace: String::new(),
                pod_name: String::new(),
                node_name: "n\\1".to_string(),
            },
        ],
    };

    let requests = binding_requests(&target, "s");

    assert_eq!(requests.len(), 2);
    assert!(requests.iter().all(|r| r.is_ok()));
    assert!(bind_request(params("", "")).is_ok());
}

#[test]
fn one_request_for_each_placement_in_order() {
    let placement = |pod: &str, node: &str| Placement {
        pod_namespace: "jobs".to_string(),
        pod_name: pod.to_string(),
        node_name: node.to_string(),
    };
    let target = TargetState {
        assignments: Vec::new(),
        still_unscheduled: Vec::new(),
        placements: vec![placement("a", "n2"), placement("b", "n1"), placement("c", "n2")],
    };

    let requests = binding_requests(&target, "custom");

    let seen: Vec<(String, String, String)> = requests
        .into_iter()
        .map(|r| {
            let r = r.unwrap();
            let body: serde_json::Value = serde_json::from_slice(&r.body).unwrap();
            assert_eq!(r.namespace, "jobs");
            assert_eq!(r.field_manager, "custom");
            (r.pod_name, body["metadata"]["name"].as_str().unwrap().to_string(), body["target"]
                ["name"]
                .as_str()
                .unwrap()
                .to_string())
        })
        .collect();
    assert_eq!(
        seen,
        vec![
            ("a".to_string(), "a".to_string(), "n2".to_string()),
            ("b".to_string(), "b".to_string(), "n1".to_string()),
            ("c".to_string(), "c".to_string(), "n2".to_string()),
        ]
    );
}

#[test]
fn no_placements_give_no_requests() {
    let target =
        TargetState { assignments: Vec::new(), still_unscheduled: Vec::new(), placements: Vec::new() };

    assert!(binding_requests(&target, "s").is_empty());
}
