//! A mutable tree whose nodes live in an arena and are reached through
//! lightweight handles. Each node has at most one parent and an ordered list
//! of children; the arena's well-formedness predicate keeps the single-parent
//! relation and acyclicity as invariants of every operation.
//!
//! Mutation takes the arena by `&mut`, so a tree shared between threads is
//! put behind one lock by its owner; every operation then runs as a single
//! critical section and no lock ordering between nodes arises.

pub mod tree;

pub use tree::{Tree, TreeError, TreeNodeRef, TreeNodeWeak};
