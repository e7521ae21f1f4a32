//! Which rows of a long list are built at a time: whole bands of rows, so that
//! scrolling within a band rebuilds nothing.

use std::ops::Range;

use vstd::prelude::*;

verus! {

/// The rows in one band.
pub const BAND_ROWS: usize = 8;

/// A count pinned to what a `usize` holds.
pub open spec fn capped(value: int) -> int {
    if value > usize::MAX { usize::MAX as int } else { value }
}

/// The rows built for a list of `total` rows whose top visible row is
/// `anchor`, with `span` rows in view: from the start of the anchor's band,
/// one band plus the view further, and never past the list.
pub open spec fn band_of(total: int, anchor: int, span: int) -> (int, int) {
    if total == 0 {
        (0, 0)
    } else {
        let first = anchor - anchor % (BAND_ROWS as int);
        let reach = capped(capped(first + BAND_ROWS) + span);
        (first, if reach < total { reach } else { total })
    }
}

/// The rows to build; see [`band_of`]. Two anchors in the same band build
/// the same rows, and the rows built start at or above the anchor and reach
/// past everything in view (or the end of the list).
pub fn band(total: usize, anchor: usize, span: usize) -> (rows: Range<usize>)
    ensures
        (rows.start as int, rows.end as int) == band_of(total as int, anchor as int, span as int),
        total > 0 ==> rows.start <= anchor,
        total > 0 ==> rows.end >= if anchor + span + 1 < total { anchor + span + 1 } else { total as int },
{
    if total == 0 {
        return 0..0;
    }
    let first = anchor - anchor % BAND_ROWS;
    let end = first.saturating_add(BAND_ROWS).saturating_add(span);
    let end = if end < total { end } else { total };
    first..end
}

/// Anchors in the same band build the same rows.
pub proof fn lemma_band_holds_still(total: int, anchor: int, other: int, span: int)
    requires
        0 <= anchor,
        0 <= other,
        anchor / (BAND_ROWS as int) == other / (BAND_ROWS as int),
    ensures
        band_of(total, anchor, span) == band_of(total, other, span),
{
    vstd::arithmetic::div_mod::lemma_fundamental_div_mod(anchor, BAND_ROWS as int);
    vstd::arithmetic::div_mod::lemma_fundamental_div_mod(other, BAND_ROWS as int);
}

} // verus!
