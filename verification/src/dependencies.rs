//! The two path newtypes the pipeline passes around: the path of a
//! source unit, and one declared dependency path.

use vstd::prelude::*;

verus! {

/// A source unit's module path, as components.
#[derive(Clone, Debug, PartialEq)]
pub struct FilePath(pub Vec<String>);

/// One declared dependency's path, as raw components.
#[derive(Clone, Debug, PartialEq, Eq, PartialOrd, Ord)]
pub struct DependencyPath(pub Vec<String>);

} // verus!
