//! The registry the pipeline builds: at each node the value holds the
//! dependencies read from the unit whose path leads there.

use crate::dependencies::DependencyPath;
use crate::trie::Trie;
use vstd::prelude::*;

verus! {

/// One registry node per known module path; a node's value is the
/// list of dependency paths its unit declares.
pub type DependenciesGraph = Trie<String, Vec<DependencyPath>>;

/// What the extractor guarantees of everything it registers: no
/// declared dependency path is empty, anywhere in the tree.
pub open spec fn registry_ok(t: DependenciesGraph) -> bool
    decreases t,
{
    &&& match t.value {
        Some(ds) => forall|i: int| 0 <= i < ds@.len() ==> (#[trigger] ds@[i]).0@.len() > 0,
        None => true,
    }
    &&& forall|i: int|
        0 <= i < t.children@.len() ==> registry_ok(#[trigger] t.children@[i].1)
}

} // verus!
