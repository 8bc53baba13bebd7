//! An in-memory ordered key-value B-tree.
//!
//! A tree of branching factor `t` keeps between `t - 1` and `2t - 1` items in
//! every node but the root, keeps the items of a node in ascending key order,
//! and keeps every leaf at the same depth. Insertion splits full nodes on the
//! way down; deletion refills thin nodes on the way down, by borrowing an item
//! from a sibling or by merging with it.
//!
//! What each operation makes of a tree is stated over `model::Tree`, the
//! mathematical tree that a node stands for, and over the map from keys to
//! values that a tree stands for.

pub mod order;
pub mod rules;
pub mod node;
pub mod model;
pub mod split;
pub mod insert;
pub mod merge;
pub mod swap;
pub mod rebalance;
pub mod delete;
pub mod tree;
pub mod copy;
pub mod reactive;
pub mod invariants;
pub mod dump;
