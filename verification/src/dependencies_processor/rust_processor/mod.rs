//! The resolution rule for source trees whose units name their
//! imports with a package root, `crate`, `super` and `self`.

use crate::dependencies::DependencyPath;
use vstd::prelude::*;

pub mod dependency_expander;
pub mod target_computer;

verus! {

/// How a dependency path was classified: definitely inside the tree,
/// or possibly external, carrying the number of leading components
/// that the declaring unit's own path contributed.
#[derive(Debug, PartialEq)]
pub enum DependencyKind {
    Relative,
    Ambiguous(usize),
}

/// A classified dependency: its candidate path and its kind.
#[derive(Debug, PartialEq)]
pub struct Dependency {
    pub path: DependencyPath,
    pub kind: DependencyKind,
}

} // verus!
