//! A plain newtype over a path's components.

use vstd::prelude::*;

verus! {

/// A module path as its bare components.
#[derive(Clone, Debug, PartialEq, Eq, PartialOrd, Ord)]
pub struct ModuleComponents(pub Vec<String>);

impl From<Vec<String>> for ModuleComponents {
    fn from(value: Vec<String>) -> (r: Self) {
        Self(value)
    }
}

impl vstd::std_specs::convert::FromSpecImpl<Vec<String>> for ModuleComponents {
    open spec fn obeys_from_spec() -> bool {
        true
    }

    open spec fn from_spec(v: Vec<String>) -> Self {
        ModuleComponents(v)
    }
}

} // verus!
