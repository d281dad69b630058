//! Reading one unit's text into its declared dependency paths.

use crate::dependencies::DependencyPath;
use crate::text::seq_views;
use vstd::prelude::*;

pub mod rust_parser;

verus! {

/// A list of dependency paths, as their components' views.
pub open spec fn paths_view(v: Seq<DependencyPath>) -> Seq<Seq<Seq<char>>> {
    v.map_values(|d: DependencyPath| seq_views(d.0@))
}

/// A language's import-declaration syntax.  `deps_spec` is the list
/// of raw dependency paths one unit's text declares; the executable
/// scan produces exactly it.
pub trait Parser {
    /// The declared dependency paths of one unit's text.
    spec fn deps_spec(file_contents: Seq<char>) -> Seq<Seq<Seq<char>>>;

    /// Scans one unit's text for its declared dependencies.
    fn parse_dependencies(file_contents: &str) -> (r: Vec<DependencyPath>)
        ensures
            paths_view(r@) == Self::deps_spec(file_contents@),
    ;
}

} // verus!
