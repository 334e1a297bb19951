//! The core of a scheduler for a Kubernetes-compatible cluster: it decides which
//! node each unscheduled pod goes to, when a scheduling pass runs, and what is
//! sent to bind a pod.
//!
//! The library does no I/O. A caller lists nodes and pods, hands them over as
//! plain values, and carries out what comes back.
//!
//! - `quantity`: resource amounts with decimal and binary suffixes, exact.
//! - `model`: pods, nodes, and the state of one pass.
//! - `filters`, `affinity`: which nodes a pod may go to.
//! - `score`, `fraction`: which feasible node is the best.
//! - `bin_packing`: the placement of all waiting pods; `partition`, `order`,
//!   `choice`, `commitment`, `monotonicity` and `canonical` hold what is proved
//!   of it.
//! - `snapshot`, `binder`, `pass`: the steps of one pass around the placement.
//! - `debounce`: when passes run.
//! - `wire`: what the texts of the cluster API stand for.

pub mod affinity;
pub mod bin_packing;
pub mod binder;
pub mod canonical;
pub mod choice;
pub mod commitment;
pub mod debounce;
pub mod filters;
pub mod fraction;
pub mod model;
pub mod monotonicity;
pub mod order;
pub mod partition;
pub mod pass;
pub mod quantity;
pub mod score;
pub mod snapshot;
pub mod text;
pub mod wire;
