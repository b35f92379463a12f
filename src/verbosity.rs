use vstd::prelude::*;

verus! {

/// How many suggestions a lookup keeps, and how far it keeps searching.
#[derive(Clone, Copy, Debug, PartialEq, Eq, Structural)]
pub enum Verbosity {
    /// The suggestion of smallest distance with the highest count.
    Top,
    /// All suggestions of the smallest distance found.
    Closest,
    /// All suggestions within the maximum distance.
    All,
}

} // verus!
