//! The transport seam between nodes.
//!
//! * [`rpc`]: the messages, and the trait through which they leave a node.
//! * [`memory`]: a transport within one process.
//! * [`faults`]: a fault injector that wraps a transport.
pub mod faults;
pub mod memory;
pub mod rpc;

pub use faults::{FaultController, FaultyRPC};
pub use memory::{Delivery, MemoryRPC};
pub use rpc::{Message, Outbox, Outgoing, RPC};
