//! Smart pointers whose contents are destroyed later, by a collector.
//!
//! The memory that pointers and cells share is an explicit value, the
//! [`Heap`]: every operation that reads or changes it takes it as an argument,
//! so its contract can say exactly what the operation does to every node. An
//! operation that several threads may run at once is offered as single steps,
//! each of them one access to shared memory; `world` proves what holds of every
//! interleaving of those steps, and `laws` states what comes of it.

pub mod collector;
pub mod heap;
pub mod laws;
pub mod memory_laws;
pub mod owned;
pub mod shared;
pub mod shared_cell;
pub mod step_laws;
pub mod steps;
pub mod tally;
pub mod world;

pub use collector::{Collector, Handle};
pub use heap::{Heap, Node};
pub use owned::Owned;
pub use shared::{Dropping, Shared};
pub use shared_cell::{Getting, Replacing, SharedCell};
