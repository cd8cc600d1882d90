//! Half-space trees for streaming anomaly scoring: the integer core.
//!
//! A forest of randomized binary partition trees over a fixed bounding box.
//! Every tree is complete: each root-to-leaf walk has the same length. A
//! point is routed through a tree by comparing one coordinate with one
//! threshold at each node, going left when the coordinate is smaller.
//!
//! The core holds no real arithmetic. Coordinates, bounds and thresholds are
//! binary64 values given by their bit patterns, and the only thing the core
//! reads of them is their order. The mass of a node is kept by the caller in
//! a table indexed by the node's slot; the core says which slots an
//! insertion raises and which slot a score reads.

pub mod binary64;
pub mod layout;
mod node;
pub mod tree;
pub mod forest;

pub use binary64::{le, lt};
pub use layout::{node_count, Leaf, Split};
pub use tree::{is_proper, DrawError, HalfSpaceTree};
pub use forest::HalfSpaceTrees;
