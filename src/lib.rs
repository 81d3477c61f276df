//! Builds the tree of a directory from the flat, depth-first stream of entries
//! that a directory walk yields, with the filtering and ordering of siblings
//! that the walk applies, and digests the contents of single files.
pub mod filter;
pub mod hash;
pub mod laws;
pub mod order;
pub mod preorder;
pub mod tree;

pub use filter::{contains_pattern, is_not_hidden, parse_exclusions};
pub use hash::{hash_contents, HashResult};
pub use order::{compare_names, prepare_children, sort_by_name};
pub use tree::{assemble, DepthOrderError, Entry, FileNode, TreeBuilder};
