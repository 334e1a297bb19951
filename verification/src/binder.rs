//! Binding requests: what is sent to the cluster for each pod that a pass placed,
//! and how the cluster's answer is judged.

use crate::model::{Placement, TargetState};
use vstd::prelude::*;

verus! {

/// `serde_json::Error`, which is passed on and never looked into.
#[verifier::external_type_specification]
#[verifier::external_body]
pub struct ExJsonError(serde_json::Error);

/// The JSON text of the binding object with these four fields, as bytes; `None`
/// where the object cannot be written as JSON.
pub uninterp spec fn binding_json(
    pod_name: Seq<char>,
    api_version: Seq<char>,
    kind: Seq<char>,
    node_name: Seq<char>,
) -> Option<Seq<u8>>;

/// Calls `serde_json::to_vec` on a `k8s_openapi::api::core::v1::Binding` whose
/// metadata holds the pod's name and whose target holds the API version, the kind
/// and the node's name; every other field is left at its default. Trusted:
/// whether the call succeeds, and with which bytes, depends on the four texts
/// alone.
#[verifier::external_body]
fn encode_binding(
    pod_name: &str,
    api_version: &str,
    kind: &str,
    node_name: &str,
) -> (encoded: Result<Vec<u8>, serde_json::Error>)
    ensures
        match encoded {
            Ok(bytes) => binding_json(pod_name@, api_version@, kind@, node_name@) == Some(bytes@),
            Err(_) => binding_json(pod_name@, api_version@, kind@, node_name@) is None,
        },
{
    serde_json::to_vec(
        &k8s_openapi::api::core::v1::Binding {
            metadata: k8s_openapi::apimachinery::pkg::apis::meta::v1::ObjectMeta {
                name: Some(pod_name.to_owned()),
                ..Default::default()
            },
            target: k8s_openapi::api::core::v1::ObjectReference {
                api_version: Some(api_version.to_owned()),
                kind: Some(kind.to_owned()),
                name: Some(node_name.to_owned()),
                ..Default::default()
            },
        },
    )
}

/// Which pod is to be bound to which node, and in whose name.
#[derive(Debug, Clone)]
pub struct PodBindParameters {
    pub pod_name: String,
    pub pod_namespace: String,
    pub node_name: String,
    pub scheduler_name: String,
}

/// One request to create the `binding` subresource of a pod.
#[derive(Debug, Clone)]
pub struct BindRequest {
    pub namespace: String,
    pub pod_name: String,
    pub subresource: String,
    pub field_manager: String,
    pub body: Vec<u8>,
}

/// Why a pod was not bound.
#[derive(Debug, Clone, PartialEq, Eq)]
pub enum BindError {
    /// The binding object could not be written as JSON.
    Encoding,
    /// The request did not reach the cluster, or no answer came back; `cause`
    /// says what went wrong, in the caller's words.
    Transport { cause: String },
    /// The answer carried no status code.
    MissingStatusCode,
    /// The cluster answered with a code outside 200 to 202.
    Rejected { code: i32 },
}

/// What came back for a request.
#[derive(Debug, Clone, PartialEq, Eq)]
pub enum ApiReply {
    /// No answer: the request was not sent, or the call failed or timed out.
    Failed { cause: String },
    Status { code: Option<i32> },
}

/// The status code with which the cluster refuses to bind a pod that is bound.
pub const CONFLICT: i32 = 409;

/// Whether `request` binds the pod to the node in the scheduler's name, with
/// `body` as its body.
pub open spec fn request_for(
    request: BindRequest,
    params: PodBindParameters,
    body: Seq<u8>,
) -> bool {
    &&& request.namespace@ == params.pod_namespace@
    &&& request.pod_name@ == params.pod_name@
    &&& request.subresource@ == "binding"@
    &&& request.field_manager@ == params.scheduler_name@
    &&& request.body@ == body
}

/// The body of the request that binds a pod to a node; `None` where the binding
/// object cannot be written as JSON.
pub open spec fn binding_body(params: PodBindParameters) -> Option<Seq<u8>> {
    binding_json(params.pod_name@, "v1"@, "Node"@, params.node_name@)
}

/// Whether the error says that the pod is bound already: the cluster refused
/// the request with a conflict. This is no failure of the pass.
pub open spec fn already_bound(error: BindError) -> bool {
    error == (BindError::Rejected { code: CONFLICT })
}

/// How an answer is judged: bound where the status code is 200, 201 or 202.
pub open spec fn outcome_of(reply: ApiReply) -> Result<(), BindError> {
    match reply {
        ApiReply::Failed { cause } => Err(BindError::Transport { cause }),
        ApiReply::Status { code: None } => Err(BindError::MissingStatusCode),
        ApiReply::Status { code: Some(code) } => if 200 <= code <= 202 {
            Ok(())
        } else {
            Err(BindError::Rejected { code })
        },
    }
}

/// Makes the request from the encoded body, or reports that there is none.
pub fn request_with_body(
    params: PodBindParameters,
    encoded: Result<Vec<u8>, serde_json::Error>,
) -> (request: Result<BindRequest, BindError>)
    ensures
        match encoded {
            Ok(bytes) => request matches Ok(r) && request_for(r, params, bytes@),
            Err(_) => request == Err::<BindRequest, BindError>(BindError::Encoding),
        },
{
    match encoded {
        Ok(body) => Ok(
            BindRequest {
                namespace: params.pod_namespace,
                pod_name: params.pod_name,
                subresource: "binding".to_owned(),
                field_manager: params.scheduler_name,
                body,
            },
        ),
        Err(_) => Err(BindError::Encoding),
    }
}

/// The request that binds a pod to a node. It is made exactly where the binding
/// object can be written as JSON, with that JSON as its body.
pub fn bind_request(params: PodBindParameters) -> (request: Result<BindRequest, BindError>)
    ensures
        match request {
            Ok(r) => binding_body(params) == Some(r.body@) && request_for(r, params, r.body@),
            Err(e) => e == BindError::Encoding && binding_body(params) is None,
        },
{
    let encoded = encode_binding(
        params.pod_name.as_str(),
        "v1",
        "Node",
        params.node_name.as_str(),
    );
    request_with_body(params, encoded)
}

/// Judges what came back for a request.
pub fn bind_outcome(reply: ApiReply) -> (outcome: Result<(), BindError>)
    ensures
        outcome == outcome_of(reply),
{
    match reply {
        ApiReply::Failed { cause } => Err(BindError::Transport { cause }),
        ApiReply::Status { code: None } => Err(BindError::MissingStatusCode),
        ApiReply::Status { code: Some(code) } => if 200 <= code && code <= 202 {
            Ok(())
        } else {
            Err(BindError::Rejected { code })
        },
    }
}

/// Whether the error says that the pod is bound already.
pub fn is_already_bound(error: &BindError) -> (bound: bool)
    ensures
        bound == already_bound(*error),
{
    match error {
        BindError::Rejected { code } => *code == CONFLICT,
        _ => false,
    }
}

/// Whether `request` is what binding the pod of `placement` asks for.
pub open spec fn request_for_placement(
    request: Result<BindRequest, BindError>,
    placement: Placement,
    scheduler_name: Seq<char>,
) -> bool {
    match request {
        Ok(r) => {
            &&& r.namespace@ == placement.pod_namespace@
            &&& r.pod_name@ == placement.pod_name@
            &&& r.subresource@ == "binding"@
            &&& r.field_manager@ == scheduler_name
            &&& binding_json(placement.pod_name@, "v1"@, "Node"@, placement.node_name@) == Some(
                r.body@,
            )
        },
        Err(e) => e == BindError::Encoding && binding_json(
            placement.pod_name@,
            "v1"@,
            "Node"@,
            placement.node_name@,
        ) is None,
    }
}

/// One request for each pod that the pass placed, in the order of placement:
/// made exactly where the binding object can be written as JSON. A pod whose
/// request cannot be made does not stop the others.
pub fn binding_requests(
    target: &TargetState,
    scheduler_name: &str,
) -> (requests: Vec<Result<BindRequest, BindError>>)
    ensures
        requests@.len() == target.placements@.len(),
        forall|i: int|
            0 <= i < requests@.len() ==> request_for_placement(
                #[trigger] requests@[i],
                target.placements@[i],
                scheduler_name@,
            ),
{
    let mut requests: Vec<Result<BindRequest, BindError>> = Vec::new();
    let mut i: usize = 0;
    while i < target.placements.len()
        invariant
            i <= target.placements@.len(),
            requests@.len() == i,
            forall|k: int|
                0 <= k < i ==> request_for_placement(
                    #[trigger] requests@[k],
                    target.placements@[k],
                    scheduler_name@,
                ),
        decreases target.placements.len() - i,
    {
        let placement = &target.placements[i];
        let params = PodBindParameters {
            pod_name: placement.pod_name.clone(),
            pod_namespace: placement.pod_namespace.clone(),
            node_name: placement.node_name.clone(),
            scheduler_name: scheduler_name.to_owned(),
        };
        requests.push(bind_request(params));
        i = i + 1;
    }
    requests
}

} // verus!
