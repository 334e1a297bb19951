//! Quantities may be written in many ways; which way is chosen decides nothing.
//! Writing every quantity of a node and a pod in its canonical text leaves the
//! fit of the pod as it was, and writing them once more changes no text.

use crate::filters::{
    allocatable_amount, container_requests, containers_total, entries_total, entry_amount,
    pod_allocatable, request_fits,
};
use crate::model::{Container, Node, Pod, ResourceEntry};
use crate::monotonicity::{node_allocatable, pod_containers};
use crate::quantity::{lemma_canonical_render_idempotent, parse_spec, render_spec, Quantity};
use vstd::prelude::*;

verus! {

/// The canonical text of what `text` denotes; `text` itself where it is no
/// quantity.
pub open spec fn canonical_text(text: Seq<char>) -> Seq<char> {
    match parse_spec(text) {
        Some((amount, binary)) => render_spec(amount, binary),
        None => text,
    }
}

/// Whether `written` is `entry` with its quantity in canonical text.
pub open spec fn entry_rewritten(written: ResourceEntry, entry: ResourceEntry) -> bool {
    written.name@ == entry.name@ && written.quantity@ == canonical_text(entry.quantity@)
}

/// Whether `written` are `entries`, each with its quantity in canonical text.
pub open spec fn entries_rewritten(
    written: Seq<ResourceEntry>,
    entries: Seq<ResourceEntry>,
) -> bool {
    &&& written.len() == entries.len()
    &&& forall|i: int| 0 <= i < entries.len() ==> entry_rewritten(#[trigger] written[i], entries[i])
}

/// Whether `written` are `containers`, each request with its quantity in
/// canonical text.
pub open spec fn containers_rewritten(written: Seq<Container>, containers: Seq<Container>) -> bool {
    &&& written.len() == containers.len()
    &&& forall|c: int|
        0 <= c < containers.len() ==> entries_rewritten(
            container_requests(#[trigger] written[c]),
            container_requests(containers[c]),
        )
}

/// Whether `written` is `node` with every quantity that it offers in canonical
/// text.
pub open spec fn node_rewritten(written: Node, node: Node) -> bool {
    match (node_allocatable(written), node_allocatable(node)) {
        (Some(w), Some(a)) => entries_rewritten(w, a),
        (None, None) => true,
        _ => false,
    }
}

/// Whether `written` is `pod` with every quantity that it requests in canonical
/// text.
pub open spec fn pod_rewritten(written: Pod, pod: Pod) -> bool {
    &&& written.spec is Some <==> pod.spec is Some
    &&& containers_rewritten(pod_containers(written), pod_containers(pod))
}

/// Writes a quantity in its canonical text; a text that is no quantity is left as
/// it is.
pub fn canonicalize(text: &str) -> (written: String)
    ensures
        written@ == canonical_text(text@),
{
    match Quantity::parse(text) {
        Ok(quantity) => quantity.canonical_render(),
        Err(_) => text.to_owned(),
    }
}

/// The canonical text of a text denotes what the text denotes, and is its own
/// canonical text.
pub proof fn lemma_canonical_text(text: Seq<char>)
    ensures
        parse_spec(canonical_text(text)) == parse_spec(text),
        canonical_text(canonical_text(text)) == canonical_text(text),
{
    if parse_spec(text) is Some {
        lemma_canonical_render_idempotent(text);
    }
}

/// Rewritten entries offer of every resource what the entries offer.
proof fn lemma_same_offer(
    written: Seq<ResourceEntry>,
    entries: Seq<ResourceEntry>,
    name: Seq<char>,
    from: int,
)
    requires
        entries_rewritten(written, entries),
    ensures
        allocatable_amount(written, name, from) == allocatable_amount(entries, name, from),
    decreases entries.len() - from,
{
    if 0 <= from < entries.len() {
        assert(entry_rewritten(written[from], entries[from]));
        lemma_canonical_text(entries[from].quantity@);
        lemma_same_offer(written, entries, name, from + 1);
    }
}

/// Rewritten entries ask of every resource for what the entries ask.
proof fn lemma_same_total(written: Seq<ResourceEntry>, entries: Seq<ResourceEntry>, name: Seq<char>)
    requires
        entries_rewritten(written, entries),
    ensures
        entries_total(written, name) == entries_total(entries, name),
    decreases entries.len(),
{
    if entries.len() > 0 {
        let last = entries.len() - 1;
        assert(entry_rewritten(written[last], entries[last]));
        lemma_canonical_text(entries[last].quantity@);
        assert forall|i: int| 0 <= i < entries.drop_last().len() implies entry_rewritten(
            #[trigger] written.drop_last()[i],
            entries.drop_last()[i],
        ) by {
            assert(entry_rewritten(written[i], entries[i]));
        }
        lemma_same_total(written.drop_last(), entries.drop_last(), name);
    }
}

/// Rewritten containers ask of every resource for what the containers ask.
proof fn lemma_same_requests(written: Seq<Container>, containers: Seq<Container>, name: Seq<char>)
    requires
        containers_rewritten(written, containers),
    ensures
        containers_total(written, name) == containers_total(containers, name),
    decreases containers.len(),
{
    if containers.len() > 0 {
        let last = containers.len() - 1;
        assert(entries_rewritten(
            container_requests(written[last]),
            container_requests(containers[last]),
        ));
        lemma_same_total(
            container_requests(written[last]),
            container_requests(containers[last]),
            name,
        );
        assert forall|c: int| 0 <= c < containers.drop_last().len() implies entries_rewritten(
            container_requests(#[trigger] written.drop_last()[c]),
            container_requests(containers.drop_last()[c]),
        ) by {
            assert(entries_rewritten(
                container_requests(written[c]),
                container_requests(containers[c]),
            ));
        }
        lemma_same_requests(written.drop_last(), containers.drop_last(), name);
    }
}

/// Writing every quantity of a node and of a pod in its canonical text, `1Gi` for
/// `1024Mi` or `1` for `1000m`, leaves the fit of the pod on the node as it was.
pub proof fn lemma_canonical_texts_keep_fit(
    written_node: Node,
    written_pod: Pod,
    node: Node,
    pod: Pod,
)
    requires
        node_rewritten(written_node, node),
        pod_rewritten(written_pod, pod),
    ensures
        pod_allocatable(written_node, written_pod) == pod_allocatable(node, pod),
{
    if node_allocatable(node) is Some && pod.spec is Some {
        let offered = node_allocatable(node).unwrap();
        let written_offered = node_allocatable(written_node).unwrap();
        let containers = pod_containers(pod);
        let written = pod_containers(written_pod);
        let none = Seq::<Pod>::empty();
        assert forall|c: int, e: int|
            0 <= c < containers.len() && 0 <= e < container_requests(
                containers[c],
            ).len() implies request_fits(
            written_offered,
            none,
            written,
            container_requests(written[c])[e],
        ) == request_fits(offered, none, containers, container_requests(containers[c])[e]) by {
            let entry = container_requests(containers[c])[e];
            let other = container_requests(written[c])[e];
            assert(entries_rewritten(
                container_requests(written[c]),
                container_requests(containers[c]),
            ));
            assert(entry_rewritten(other, entry));
            lemma_canonical_text(entry.quantity@);
            lemma_same_offer(written_offered, offered, entry.name@, 0);
            lemma_same_requests(written, containers, entry.name@);
        }
        assert forall|c: int| 0 <= c < containers.len() implies container_requests(
            #[trigger] written[c],
        ).len() == container_requests(containers[c]).len() by {
            assert(entries_rewritten(
                container_requests(written[c]),
                container_requests(containers[c]),
            ));
        }
        if pod_allocatable(node, pod) {
            assert forall|c: int, e: int|
                0 <= c < written.len() && 0 <= e < container_requests(
                    written[c],
                ).len() implies #[trigger] request_fits(
                written_offered,
                none,
                written,
                container_requests(written[c])[e],
            ) by {
                assert(request_fits(
                    offered,
                    none,
                    containers,
                    container_requests(containers[c])[e],
                ));
            }
        }
        if pod_allocatable(written_node, written_pod) {
            assert forall|c: int, e: int|
                0 <= c < containers.len() && 0 <= e < container_requests(
                    containers[c],
                ).len() implies #[trigger] request_fits(
                offered,
                none,
                containers,
                container_requests(containers[c])[e],
            ) by {
                assert(request_fits(
                    written_offered,
                    none,
                    written,
                    container_requests(written[c])[e],
                ));
            }
        }
    }
}

} // verus!
