//! Streaming Merkle tree node generator.
//!
//! Blocks of bytes are appended one at a time; each block becomes a leaf of
//! a binary Merkle tree, and whenever two sibling subtrees are both complete
//! their roots are folded into a freshly hashed parent node.  The generator
//! keeps the forest of current subtree roots and emits every node the moment
//! it becomes determinable, never revisiting or rehashing earlier nodes.
//!
//! Node positions follow the flat in-order numbering of `flat_tree`: leaves
//! sit at the even indices in append order, internal nodes at the odd ones,
//! and a node's parent position is a pure function of its own position.

pub mod flat;
pub mod gen;
pub mod hash;
pub mod node;

pub use gen::Generator;
pub use gen::Span;
pub use hash::HashError;
pub use hash::Hasher;
pub use node::Node;
pub use node::NodeView;
