//! Which menu entry is waiting for a confirmation, and which one just failed.

use vstd::prelude::*;

verus! {

/// The entries of a menu that carry a mark, by their trails of indices.
#[derive(Clone, Copy)]
pub struct Marks<'a> {
    /// The entry waiting for a second press.
    pub armed: Option<&'a [usize]>,
    /// The entry whose action just failed.
    pub failed: Option<&'a [usize]>,
}

/// What a menu entry shows.
#[derive(Clone, Copy, PartialEq, Eq, Debug, Structural)]
pub enum Mark {
    /// Its own label.
    Idle,
    /// The confirmation prompt.
    Armed,
    /// The failure notice.
    Failed,
}

fn same_trail(left: &[usize], right: &[usize]) -> (same: bool)
    ensures
        same == (left@ == right@),
{
    if left.len() != right.len() {
        return false;
    }
    let mut at: usize = 0;
    while at < left.len()
        invariant
            left@.len() == right@.len(),
            at <= left@.len(),
            forall|k: int| 0 <= k < at ==> left@[k] == right@[k],
        decreases left@.len() - at,
    {
        if left[at] != right[at] {
            return false;
        }
        at = at + 1;
    }
    assert(left@ == right@);
    true
}

impl<'a> Marks<'a> {
    /// The mark an entry carries: armed before failed, idle where neither
    /// trail is its own.
    pub open spec fn mark_of(self, trail: Seq<usize>) -> Mark {
        if self.armed matches Some(slot) && slot@ == trail {
            Mark::Armed
        } else if self.failed matches Some(slot) && slot@ == trail {
            Mark::Failed
        } else {
            Mark::Idle
        }
    }

    /// The mark of the entry at `trail`; see [`Marks::mark_of`].
    pub fn at(self, trail: &[usize]) -> (mark: Mark)
        ensures
            mark == self.mark_of(trail@),
    {
        if let Some(slot) = self.armed {
            if same_trail(slot, trail) {
                return Mark::Armed;
            }
        }
        if let Some(slot) = self.failed {
            if same_trail(slot, trail) {
                return Mark::Failed;
            }
        }
        Mark::Idle
    }
}

impl Mark {
    /// Whether the entry shows something other than its own label.
    pub fn alerting(self) -> (alert: bool)
        ensures
            alert == !(self is Idle),
    {
        !matches!(self, Mark::Idle)
    }
}

} // verus!
