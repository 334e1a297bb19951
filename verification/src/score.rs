//! Ranking of feasible nodes for bin-packing: how full a node would be once the
//! pod is placed on it.

use crate::filters::{
    allocatable_amount, offered_amount, pod_request, pod_requested, pods_requested,
};
use crate::fraction::{fraction_rank, rank_fractions, Rank};
use crate::model::{Node, Pod};
use crate::quantity::{max_amount, Quantity};
use crate::text::{lex_less, str_less};
use vstd::prelude::*;

verus! {

/// The largest capacity, in thousandths, that ranking tells apart. A node that
/// offers more of a resource is ranked as if it offered this much.
pub const SCORE_CAP: u128 = 0x7fff_ffff_ffff_ffff;

/// What the node offers of the resource `name`, for ranking: nothing where it
/// does not offer the resource, and at most `SCORE_CAP`.
pub open spec fn capacity(node: Node, name: Seq<char>) -> nat {
    let offered = match node.status {
        Some(status) => match status.allocatable {
            Some(allocatable) => allocatable_amount(allocatable@, name, 0),
            None => None,
        },
        None => None,
    };
    match offered {
        Some(amount) => if amount > SCORE_CAP {
            SCORE_CAP as nat
        } else {
            amount
        },
        None => 0,
    }
}

/// What would be in use of the resource `name` on the node once `pod` joins the
/// pods on it, and never more than the node's capacity.
pub open spec fn used_after(node: Node, on_node: Seq<Pod>, pod: Pod, name: Seq<char>) -> nat {
    let wanted = pods_requested(on_node, name) + pod_requested(pod, name);
    if wanted > capacity(node, name) {
        capacity(node, name)
    } else {
        wanted
    }
}

/// A fraction with a positive denominator.
pub struct Fraction {
    pub num: nat,
    pub den: nat,
}

/// Utilization of cpu plus utilization of memory once `pod` is placed: for each
/// of the two, what would be in use over the capacity. A resource of which the
/// node has no capacity adds nothing.
pub open spec fn utilization(node: Node, on_node: Seq<Pod>, pod: Pod) -> Fraction {
    let cpu_used = used_after(node, on_node, pod, "cpu"@);
    let cpu = capacity(node, "cpu"@);
    let memory_used = used_after(node, on_node, pod, "memory"@);
    let memory = capacity(node, "memory"@);
    if cpu > 0 && memory > 0 {
        Fraction { num: cpu_used * memory + memory_used * cpu, den: cpu * memory }
    } else if cpu > 0 {
        Fraction { num: cpu_used, den: cpu }
    } else if memory > 0 {
        Fraction { num: memory_used, den: memory }
    } else {
        Fraction { num: 0, den: 1 }
    }
}

/// The name of a node; empty where it has none.
pub open spec fn name_of(node: Node) -> Seq<char> {
    match node.name {
        Some(name) => name@,
        None => Seq::empty(),
    }
}

/// Whether node `a`, with `a_pods` on it, is a strictly better place for `pod`
/// than node `b` with `b_pods`: a higher utilization after placement, then fewer
/// pods on the node, then the name that comes first.
pub open spec fn prefers(a: Node, a_pods: Seq<Pod>, b: Node, b_pods: Seq<Pod>, pod: Pod) -> bool {
    let ua = utilization(a, a_pods, pod);
    let ub = utilization(b, b_pods, pod);
    match fraction_rank(ua.num as int, ua.den as int, ub.num as int, ub.den as int) {
        Rank::Higher => true,
        Rank::Lower => false,
        Rank::Same => a_pods.len() < b_pods.len() || (a_pods.len() == b_pods.len() && lex_less(
            name_of(a),
            name_of(b),
        )),
    }
}

/// What the node offers of the resource `name`, for ranking.
pub fn node_capacity(node: &Node, name: &str) -> (amount: u128)
    ensures
        amount == capacity(*node, name@),
        amount <= SCORE_CAP,
{
    let offered: Option<Quantity> = match &node.status {
        Some(status) => match &status.allocatable {
            Some(allocatable) => offered_amount(allocatable, name),
            None => None,
        },
        None => None,
    };
    match offered {
        Some(amount) => amount.held_at(SCORE_CAP),
        None => 0,
    }
}

/// Adds a request to a sum that is held at `limit`.
fn add_held(
    sum: u128,
    request: Option<Quantity>,
    limit: u128,
    Ghost(exact): Ghost<nat>,
    Ghost(more): Ghost<nat>,
) -> (held: u128)
    requires
        sum == if exact > limit { limit as nat } else { exact },
        match request {
            Some(r) => r@ == more,
            None => more > max_amount(),
        },
    ensures
        held == if exact + more > limit { limit as nat } else { exact + more },
{
    match request {
        Some(r) => sum + r.held_at(limit - sum),
        None => limit,
    }
}

/// What would be in use of the resource `name` once `pod` joins `on_node`, held at
/// `limit`.
pub fn used_amount(on_node: &Vec<Pod>, pod: &Pod, name: &str, limit: u128) -> (used: u128)
    ensures
        used == if pods_requested(on_node@, name@) + pod_requested(*pod, name@) > limit {
            limit as nat
        } else {
            pods_requested(on_node@, name@) + pod_requested(*pod, name@)
        },
{
    let mut used: u128 = add_held(
        0,
        pod_request(pod, name),
        limit,
        Ghost(0),
        Ghost(pod_requested(*pod, name@)),
    );
    let mut i: usize = 0;
    while i < on_node.len()
        invariant
            i <= on_node.len(),
            used == if pods_requested(on_node@.take(i as int), name@) + pod_requested(*pod, name@)
                > limit {
                limit as nat
            } else {
                pods_requested(on_node@.take(i as int), name@) + pod_requested(*pod, name@)
            },
        decreases on_node.len() - i,
    {
        proof {
            assert(on_node@.take(i + 1).drop_last() =~= on_node@.take(i as int));
        }
        used = add_held(
            used,
            pod_request(&on_node[i], name),
            limit,
            Ghost(pods_requested(on_node@.take(i as int), name@) + pod_requested(*pod, name@)),
            Ghost(pod_requested(on_node@[i as int], name@)),
        );
        i = i + 1;
    }
    proof {
        assert(on_node@.take(i as int) =~= on_node@);
    }
    used
}

/// Utilization of cpu plus utilization of memory on `node` once `pod` joins
/// `on_node`, as numerator and denominator.
pub fn node_utilization(node: &Node, on_node: &Vec<Pod>, pod: &Pod) -> (u: (u128, u128))
    ensures
        u.0 == utilization(*node, on_node@, *pod).num,
        u.1 == utilization(*node, on_node@, *pod).den,
        u.1 > 0,
{
    let cpu: u128 = node_capacity(node, "cpu");
    let cpu_used: u128 = used_amount(on_node, pod, "cpu", cpu);
    let memory: u128 = node_capacity(node, "memory");
    let memory_used: u128 = used_amount(on_node, pod, "memory", memory);
    if cpu > 0 && memory > 0 {
        proof {
            assert(cpu_used * memory <= SCORE_CAP * SCORE_CAP && memory_used * cpu <= SCORE_CAP
                * SCORE_CAP && cpu * memory <= SCORE_CAP * SCORE_CAP && cpu * memory > 0)
                by (nonlinear_arith)
                requires
                    cpu_used <= cpu <= SCORE_CAP,
                    memory_used <= memory <= SCORE_CAP,
                    cpu > 0,
                    memory > 0,
            ;
        }
        (cpu_used * memory + memory_used * cpu, cpu * memory)
    } else if cpu > 0 {
        (cpu_used, cpu)
    } else if memory > 0 {
        (memory_used, memory)
    } else {
        (0, 1)
    }
}

/// Decides `prefers`.
pub fn prefers_node(
    a: &Node,
    a_pods: &Vec<Pod>,
    b: &Node,
    b_pods: &Vec<Pod>,
    pod: &Pod,
) -> (better: bool)
    ensures
        better == prefers(*a, a_pods@, *b, b_pods@, *pod),
{
    let ua = node_utilization(a, a_pods, pod);
    let ub = node_utilization(b, b_pods, pod);
    match rank_fractions(ua.0, ua.1, ub.0, ub.1) {
        Rank::Higher => true,
        Rank::Lower => false,
        Rank::Same => {
            if a_pods.len() != b_pods.len() {
                a_pods.len() < b_pods.len()
            } else {
                let empty: String = String::new();
                let a_name: &str = match &a.name {
                    Some(name) => name.as_str(),
                    None => empty.as_str(),
                };
                let b_name: &str = match &b.name {
                    Some(name) => name.as_str(),
                    None => empty.as_str(),
                };
                str_less(a_name, b_name)
            }
        },
    }
}

} // verus!
