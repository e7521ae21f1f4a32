//! What an enemy's extra animations are called.

use vstd::prelude::*;

verus! {

/// The mark that sets a zombie enemy's own animations apart.
pub const ZOMBIE_MARK: &'static str = "_zombie";

/// The name of a zombie animation by its number: it burrows, digs and
/// surfaces; the engine knows no others.
pub open spec fn zombie_label(index: int) -> Option<Seq<char>> {
    if index == 0 {
        Some("Burrow"@)
    } else if index == 1 {
        Some("Dig"@)
    } else if index == 2 {
        Some("Surface"@)
    } else {
        None
    }
}

/// Names a zombie animation; see [`zombie_label`].
pub fn zombie_name(index: usize) -> (name: Option<&'static str>)
    ensures
        match name {
            Some(held) => zombie_label(index as int) == Some(held@),
            None => zombie_label(index as int) is None,
        },
{
    match index {
        0 => Some("Burrow"),
        1 => Some("Dig"),
        2 => Some("Surface"),
        _ => None,
    }
}

} // verus!
