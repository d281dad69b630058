//! Rendering the completed registry as a graph description.

use crate::dependencies_graph::DependenciesGraph;
use crate::dependencies_processor::DependencyProcessor;
use vstd::prelude::*;

pub mod dot_formatter;

verus! {

/// An output language for the registry, resolved through one
/// dependency processor.  `show_spec` is the whole document as a
/// function of the registry and the package name; `show` writes it.
pub trait Formatter<Processor: DependencyProcessor> {
    /// The rendered document.
    spec fn show_spec(trie: DependenciesGraph, pkg_name: Seq<char>) -> Seq<char>;

    /// Renders the registry.
    fn show(trie: &DependenciesGraph, pkg_name: &str) -> (r: String)
        requires
            crate::dependencies_graph::registry_ok(*trie),
            trie.depth() <= usize::MAX,
        ensures
            r@ == Self::show_spec(*trie, pkg_name@),
    ;
}

} // verus!
