//! A lock-free doubly-linked list, as a verified model: insertion at both
//! ends and removal from the front, built from atomic loads and
//! compare-and-swaps on a chain of nodes that a sentinel anchors.
//!
//! - `node`, `action`, `memory`: the shared state, and what each atomic
//!   access does to it.
//! - `machine`: the three operations as state machines that make one access
//!   at a time. They decide; whoever holds the memory performs. On real
//!   shared memory a caller carries out each access with an atomic
//!   instruction and hands back what it reported.
//! - `list`: the list. It holds the state, performs single accesses, and
//!   runs whole operations.
//! - `shape`, `runs`: the state at rest, and an operation that runs alone.
//! - `calls`, `held`, `laws`: sequences of calls on a list, and what follows
//!   for whole operations, one after the other.
//! - `interleaving`: many operations at work at once, access by access:
//!   what holds at every moment, and what holds once all are done.
pub mod action;
pub mod calls;
pub mod held;
pub mod interleaving;
pub mod laws;
pub mod list;
pub mod machine;
pub mod memory;
pub mod node;
pub mod runs;
pub mod shape;

pub use action::{Action, Event};
pub use calls::Call;
pub use interleaving::world::{Turn, World};
pub use list::LinkedList;
pub use machine::{Operation, Outcome, PopFront, PushBack, PushFront};
pub use memory::Memory;
pub use node::{Handle, Node};
