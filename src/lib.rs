//! Unbounded FIFO queues built from lock-free protocols: a Michael-Scott linked
//! queue ([`Queue`]) and a segmented fetch-and-add array queue ([`FAAQueue`]).
//!
//! Both keep their nodes in an index arena, where a position plays the part of
//! a pointer. Every compare-and-swap and fetch-and-add of the protocols is a
//! small method with an exact contract. `push` appends to the sequence that a
//! queue holds and `pop` removes its front or reports that it is empty; each
//! queue's `apply` runs a list of operations and is proved to return what
//! [`model::run`] gives, so the laws proved in [`model`] hold of the queues.
//!
//! A node that leaves a queue is retired in place; retired nodes are freed
//! together, once they are at least as many as the live ones, at the end of an
//! operation, when no position is in use.
mod faa;
mod linked;
pub mod model;

pub use faa::{Queue as FAAQueue, SlotState, NODE_SIZE};
pub use linked::Queue;
