//! A small Raft implementation whose protocol logic is verified.
//!
//! * [`node`]: the Raft node: elections with a pre-vote round, log replication,
//!   commitment and application to a key-value state machine.
//! * [`rpc`]: the messages, the transport seam and a fault injector.
//! * [`log`], [`kv`], [`timer`]: the parts that a node is built from.
//! * [`model`]: the mathematical model that every contract speaks of.
//! * [`laws`]: what holds of a single node.
//! * [`behaviour`]: what a node does on each event, without the model's own terms.
//! * [`cluster`]: what holds of all nodes together, in every run of a cluster.
pub mod behaviour;
pub mod cluster;
pub mod kv;
pub mod laws;
pub mod log;
pub mod model;
pub mod node;
pub mod rpc;
pub mod timer;
