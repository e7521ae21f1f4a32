//! What the resolved editors allow in a column.

use vstd::prelude::*;

verus! {

/// How a column's value may be edited.
#[derive(Clone, Copy, PartialEq, Eq, Debug, Structural)]
pub enum Rule {
    /// Any value the column holds.
    Plain,
    /// No value below the one given.
    Floor(i32),
    /// Not shown as a value at all.
    Opaque,
}

} // verus!
