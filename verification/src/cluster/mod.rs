//! A cluster of nodes, and what holds of all of them together.
//!
//! The nodes are those of [`crate::model`]: each call of a method of [`crate::node::Node`] has
//! the outcome that the model gives for the event.
//!
//! * [`system`]: the cluster as a transition system: nodes take messages in any order, and
//!   messages may be lost, delayed and repeated.
//! * [`history`]: what the proofs remember of a run, and the invariant that relates it to
//!   the nodes and to the messages on their way.
//! * [`completeness`]: what is committed in a term is in the log of every later leader.
//! * [`steps`]: every event keeps the invariant.
//! * [`safety`]: the laws of a cluster.
//! * [`pre_votes`]: no term starts without a pre-vote round that a majority confirms.
pub mod completeness;
pub mod history;
pub mod pre_votes;
pub mod safety;
pub mod steps;
pub mod system;
