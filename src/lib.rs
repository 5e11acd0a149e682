//! A layered, append-only tree stored as a flat arena of nodes, grown one
//! layer at a time from caller-supplied expansions and rendered as a
//! connector-drawn text diagram.

pub mod text;
pub mod tree;

pub use text::{capitalise, replace_first};
pub use tree::{ImmutableTree, ImmutableTreeNode};
