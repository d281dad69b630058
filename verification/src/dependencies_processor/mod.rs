//! Turns one declared dependency of one unit into the vertex its
//! edge should point at, given the completed registry.

use crate::dependencies::{DependencyPath, FilePath};
use crate::dependencies_graph::DependenciesGraph;
use crate::text::seq_views;
use vstd::prelude::*;

pub mod rust_processor;

verus! {

/// A language's rule for resolving a declared dependency against the
/// registry.  `target_spec` is the rule itself; `compute_target` is
/// its executable form.
pub trait DependencyProcessor {
    /// The vertex path the edge for `dependency` points at.
    spec fn target_spec(
        trie: DependenciesGraph,
        file_path: Seq<Seq<char>>,
        dependency: Seq<Seq<char>>,
        pkg_name: Seq<char>,
    ) -> Seq<Seq<char>>;

    /// Resolves `dependency`, declared by the unit at `file_path`,
    /// to the path of the vertex its edge points at.
    fn compute_target(
        trie: &DependenciesGraph,
        file_path: &FilePath,
        dependency: &DependencyPath,
        pkg_name: &str,
    ) -> (r: FilePath)
        requires
            dependency.0@.len() > 0,
        ensures
            seq_views(r.0@) == Self::target_spec(
                *trie,
                seq_views(file_path.0@),
                seq_views(dependency.0@),
                pkg_name@,
            ),
    ;
}

} // verus!
