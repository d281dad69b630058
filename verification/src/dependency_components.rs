//! A resolved dependency: its path components, and, for a dependency
//! that may live outside the tree, the reduced path of the unit that
//! declared it.

use vstd::prelude::*;

verus! {

/// A dependency after classification.  `file_path` is `None` for a
/// definitely internal dependency and holds the declaring unit's
/// reduced path for a possibly external one.
#[derive(Clone, Debug, PartialEq, Eq, PartialOrd, Ord)]
pub struct DependencyComponents {
    pub components: Vec<String>,
    pub file_path: Option<Vec<String>>,
}

impl DependencyComponents {
    /// Packs the two fields.
    pub fn new(components: Vec<String>, file_path: Option<Vec<String>>) -> (r: Self)
        ensures
            r.components == components,
            r.file_path == file_path,
    {
        Self { components, file_path }
    }
}

} // verus!
