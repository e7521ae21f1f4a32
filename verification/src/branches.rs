//! The guide lines of a tree drawn row by row: which ancestors still have a
//! sibling further down, worked out in one walk from the bottom row up.

use vstd::prelude::*;

verus! {

/// The deepest level a tree row can record; deeper rows share its bit.
pub const LEVELS: u16 = 64;

/// Whether bit `level` of a set of levels is on.
pub open spec fn lit(levels: u64, level: u64) -> bool {
    (levels >> level) & 1 == 1
}

/// The level a row's bit sits at: its depth, or the deepest one recorded.
pub open spec fn slot(depth: u16) -> u64 {
    if depth < LEVELS { depth as u64 } else { (LEVELS - 1) as u64 }
}

/// What one row draws: a trunk in each column whose ancestor still has a
/// sibling below, whether it is the last child at its own level, and whether
/// it is the first child of the row above it.
#[derive(Clone, Copy, PartialEq, Eq, Debug, Structural)]
pub struct Guide {
    /// The columns that carry a trunk past this row, as bits.
    pub trunks: u64,
    /// Whether no sibling follows this row.
    pub last: bool,
    /// Whether this row opens its parent's nest.
    pub first: bool,
}

/// The walk from the bottom row up: the levels at which a row has been seen
/// since the last shallower one.
#[derive(Clone, Copy, PartialEq, Eq, Debug, Structural)]
pub struct Tracer {
    open: u64,
}

impl Default for Tracer {
    fn default() -> (tracer: Tracer)
        ensures
            tracer.levels() == 0,
    {
        Tracer { open: 0 }
    }
}

impl Tracer {
    /// The levels at which a row lies below the one about to be traced.
    pub closed spec fn levels(self) -> u64 {
        self.open
    }

    /// Traces one more row, the one above the rows traced so far, at `depth`,
    /// with the row above it (if any) at `above`. A column carries a trunk
    /// when a row one level deeper lies below (`trunks` bit `level` is the
    /// walk's bit `level + 1`, for the columns shallower than this row); the
    /// row is the last of its siblings when no row at its own level lies
    /// below; it opens a nest when the row above sits one level up. The walk
    /// then forgets every level deeper than this row and records this one.
    pub fn back(&mut self, depth: u16, above: Option<u16>) -> (guide: Guide)
        requires
            above != Some(u16::MAX),
        ensures
            forall|level: u64|
                level < 64 ==> (lit(guide.trunks, level) == (level < slot(depth) && lit(
                    old(self).levels(),
                    (level + 1) as u64,
                ))),
            guide.last == !lit(old(self).levels(), slot(depth)),
            guide.first == (above matches Some(row) && row + 1 == depth),
            forall|level: u64|
                level < 64 ==> (lit(final(self).levels(), level) == if level < slot(depth) {
                    lit(old(self).levels(), level)
                } else {
                    level == slot(depth)
                }),
    {
        let shift: u64 = if depth < LEVELS { depth as u64 } else { (LEVELS - 1) as u64 };
        let open = self.open;
        let bit: u64 = 1u64 << shift;
        proof {
            lemma_bit_is_positive(shift);
        }
        let below: u64 = bit - 1;
        let trunks = (open >> 1u64) & below;
        let last = open & bit == 0;
        let first = match above {
            Some(row) => row + 1 == depth,
            None => false,
        };
        let next = (open & below) | bit;
        proof {
            lemma_trace_bits(open, shift, trunks, last, next);
        }
        self.open = next;
        Guide { trunks, last, first }
    }
}

proof fn lemma_bit_is_positive(shift: u64)
    requires
        shift < 64,
    ensures
        (1u64 << shift) >= 1,
{
    assert((1u64 << shift) >= 1) by (bit_vector)
        requires
            shift < 64,
    ;
}

proof fn lemma_trace_bits(open: u64, shift: u64, trunks: u64, last: bool, next: u64)
    requires
        shift < 64,
        trunks == (open >> 1u64) & (((1u64 << shift) - 1) as u64),
        last == (open & (1u64 << shift) == 0),
        next == (open & (((1u64 << shift) - 1) as u64)) | (1u64 << shift),
    ensures
        forall|level: u64|
            level < 64 ==> (lit(trunks, level) == (level < shift && lit(open, (level + 1) as u64))),
        last == !lit(open, shift),
        forall|level: u64|
            level < 64 ==> (lit(next, level) == if level < shift {
                lit(open, level)
            } else {
                level == shift
            }),
{
    assert forall|level: u64| level < 64 implies (lit(trunks, level) == (level < shift && lit(
        open,
        (level + 1) as u64,
    ))) by {
        assert((((open >> 1u64) & (((1u64 << shift) - 1) as u64)) >> level) & 1 == 1 <==> (level < shift && (
        open >> ((level + 1) as u64)) & 1 == 1)) by (bit_vector)
            requires
                shift < 64,
                level < 64,
        ;
    }
    assert((open & (1u64 << shift) == 0) == !((open >> shift) & 1 == 1)) by (bit_vector)
        requires
            shift < 64,
    ;
    assert forall|level: u64| level < 64 implies (lit(next, level) == if level < shift {
        lit(open, level)
    } else {
        level == shift
    }) by {
        assert(((((open & (((1u64 << shift) - 1) as u64)) | (1u64 << shift)) >> level) & 1 == 1) == if level
            < shift {
            (open >> level) & 1 == 1
        } else {
            level == shift
        }) by (bit_vector)
            requires
                shift < 64,
                level < 64,
        ;
    }
}

} // verus!
