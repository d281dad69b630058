//! Extracts the internal module-dependency graph of a source tree:
//! import declarations are parsed out of each unit's text, resolved
//! against the unit's own module path, registered in a prefix tree,
//! and finally rendered as a clustered directed-graph description.

pub mod colors;
pub mod components;
pub mod dependencies;
pub mod dependencies_graph;
pub mod dependencies_parser;
pub mod dependencies_processor;
pub mod dependency_components;
pub mod dot_formatter;
pub mod formatter;
pub mod graph;
pub mod modules_trie;
pub mod nonempty_vec;
pub mod output_for_dot;
pub mod parser;
pub mod text;
pub mod trie;
