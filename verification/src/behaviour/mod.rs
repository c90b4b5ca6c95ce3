//! What a node does on each event, in terms of the event, of the fields that the node had
//! before it and of those that it has after it.
//!
//! The statements name no part of the model but the event itself: numbers, positions in logs
//! and sets of nodes say what comes out, whatever the model is made of.
//!
//! * [`election`]: votes and pre-votes, asked for, given and counted.
//! * [`replication`]: what a follower makes of the entries of its leader.
//! * [`leadership`]: what a leader takes in, sends, counts and commits.
//! * [`application`]: what committed commands make of the state machine.
//! * [`limits`]: which events a node can take, and how long it waits.
pub mod application;
pub mod election;
pub mod leadership;
pub mod limits;
pub mod replication;
