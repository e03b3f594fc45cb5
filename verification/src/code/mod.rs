//! Source-tree scanning: the imports of each file, how an import resolves
//! to a file of the tree, and the dependency graph.

pub mod paths;
pub mod parser;
pub mod graph;
