//! A deterministic discrete-event runtime for reactor networks: identifiers,
//! the assembly-time dependency graph and the logical-time scheduler.
use vstd::prelude::*;

pub mod ids;
pub mod time;
pub mod toposort;
pub mod graph;
pub mod schedule;
pub mod assembler;
pub mod registry;
pub mod world;
pub mod timers;
pub mod event_queue;
pub mod wave;
pub mod scheduler;
pub mod port;

verus! {

} // verus!
