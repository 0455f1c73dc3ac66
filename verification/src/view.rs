//! The ways to show the tree.

use vstd::prelude::*;

verus! {

/// The ways to show the tree.
#[derive(Debug, Clone, Copy, PartialEq, Eq, Structural)]
pub enum View {
    /// Folders and files at the current depth.
    Tree,
    /// Every file, regardless of depth.
    Files,
    /// The full hierarchy at once.
    Nested,
}

/// The view after another.
pub open spec fn next_view(v: View) -> View {
    match v {
        View::Tree => View::Files,
        View::Files => View::Nested,
        View::Nested => View::Tree,
    }
}

impl View {
    /// The view after this one.
    pub fn next(self) -> (r: View)
        ensures
            r == next_view(self),
    {
        match self {
            View::Tree => View::Files,
            View::Files => View::Nested,
            View::Nested => View::Tree,
        }
    }
}

/// Three steps lead through all views and back.
pub proof fn views_cycle(v: View)
    ensures
        next_view(next_view(next_view(v))) == v,
        next_view(v) != v,
        next_view(next_view(v)) != v,
{
}

} // verus!
