//! Small utilities: string helpers, a dependency sorter and a longest-match trie.
//!
//! Every executable function carries a contract stated over mathematical
//! models (`Seq`, `Set`, `Map`), and every contract is proved.

pub mod graph;
pub mod ident;
pub mod dep_graph;
pub mod str;
pub mod topo_sort;
pub mod trie;

pub use crate::dep_graph::{add_edge, DepGraph};
pub use crate::ident::Identifier;
pub use crate::str::StringUtil;
pub use crate::topo_sort::{topo_sort, CycleError, TopoSort};
pub use crate::trie::{Trie, TrieNode};
