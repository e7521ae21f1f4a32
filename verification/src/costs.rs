//! The talent cost curves: one row per cost id, one column per level.

use vstd::prelude::*;

use crate::resolved::Rule;

verus! {

/// The column of the first level's cost, after the row's id.
pub const COST_HEAD: usize = 1;

/// The levels a cost curve prices.
pub const COST_LEVELS: usize = 10;

/// The rule for a column of the cost table: the columns before the levels
/// are plain, a level's cost may not drop below zero (the engine reads it as
/// unsigned and drops what it cannot read), and a column past the last level
/// is not shown as a cost.
pub open spec fn cost_rule(index: int) -> Rule {
    if index < COST_HEAD {
        Rule::Plain
    } else if index - COST_HEAD < COST_LEVELS {
        Rule::Floor(0)
    } else {
        Rule::Opaque
    }
}

/// The rule for a column of the cost table; see [`cost_rule`].
pub fn rule(index: usize) -> (rule: Rule)
    ensures
        rule == cost_rule(index as int),
{
    if index < COST_HEAD {
        Rule::Plain
    } else if index - COST_HEAD < COST_LEVELS {
        Rule::Floor(0)
    } else {
        Rule::Opaque
    }
}

} // verus!
