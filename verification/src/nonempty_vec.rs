//! A vector wrapper whose constructor refuses emptiness, so that its
//! first and last elements can be read without failing.

use vstd::prelude::*;

verus! {

/// A vector known to hold at least one element when built through
/// `try_new`.
pub struct NonEmptyVec<T> {
    pub vec: Vec<T>,
    _private: (),
}

impl<T> View for NonEmptyVec<T> {
    type V = Seq<T>;

    closed spec fn view(&self) -> Seq<T> {
        self.vec@
    }
}

impl<T> NonEmptyVec<T> {
    /// Wraps `vec`, or refuses it when it is empty.
    pub fn try_new(vec: Vec<T>) -> (r: Option<NonEmptyVec<T>>)
        ensures
            match r {
                Some(nev) => vec@.len() > 0 && nev@ == vec@,
                None => vec@.len() == 0,
            },
    {
        if vec.is_empty() {
            None
        } else {
            Some(NonEmptyVec { vec, _private: () })
        }
    }

    /// The first element.
    pub fn first(&self) -> (r: &T)
        requires
            self@.len() > 0,
        ensures
            *r == self@[0],
    {
        &self.vec[0]
    }

    /// The last element.
    pub fn last(&self) -> (r: &T)
        requires
            self@.len() > 0,
        ensures
            *r == self@[self@.len() - 1],
    {
        &self.vec[self.vec.len() - 1]
    }
}

} // verus!
