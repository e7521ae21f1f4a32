//! How much room a label's characters take, and which shaper a label needs.

use vstd::prelude::*;

use crate::text::chars_of;

verus! {

/// The middle dot the studio joins label pieces with.
pub const MIDDLE_DOT: char = '\u{00b7}';

/// Whether a code point falls in the East Asian ranges drawn two columns wide:
/// Hangul Jamo, CJK radicals through Hangul syllables, compatibility
/// ideographs and forms, fullwidth forms, and the supplementary ideographs.
pub open spec fn wide_code(code: u32) -> bool {
    ||| 0x1100 <= code <= 0x115f
    ||| 0x2e80 <= code <= 0x303e
    ||| 0x3041 <= code <= 0x33ff
    ||| 0x3400 <= code <= 0x4dbf
    ||| 0x4e00 <= code <= 0x9fff
    ||| 0xa000 <= code <= 0xa4cf
    ||| 0xac00 <= code <= 0xd7a3
    ||| 0xf900 <= code <= 0xfaff
    ||| 0xfe30 <= code <= 0xfe6f
    ||| 0xff00 <= code <= 0xff60
    ||| 0xffe0 <= code <= 0xffe6
    ||| 0x20000 <= code <= 0x3fffd
}

/// Whether a character is drawn two columns wide; see [`wide_code`].
pub fn wide(glyph: char) -> (two: bool)
    ensures
        two == wide_code(glyph as u32),
{
    let code = glyph as u32;
    (0x1100 <= code && code <= 0x115f) || (0x2e80 <= code && code <= 0x303e) || (0x3041 <= code
        && code <= 0x33ff) || (0x3400 <= code && code <= 0x4dbf) || (0x4e00 <= code && code
        <= 0x9fff) || (0xa000 <= code && code <= 0xa4cf) || (0xac00 <= code && code <= 0xd7a3)
        || (0xf900 <= code && code <= 0xfaff) || (0xfe30 <= code && code <= 0xfe6f) || (0xff00
        <= code && code <= 0xff60) || (0xffe0 <= code && code <= 0xffe6) || (0x20000 <= code
        && code <= 0x3fffd)
}

/// The columns a piece of text fills: two for each wide character, one for
/// any other.
pub open spec fn column_count(text: Seq<char>) -> int
    decreases text.len(),
{
    if text.len() == 0 {
        0
    } else {
        column_count(text.drop_last()) + if wide_code(text.last() as u32) { 2int } else { 1int }
    }
}

proof fn lemma_column_bound(text: Seq<char>)
    ensures
        text.len() <= column_count(text) <= 2 * text.len(),
    decreases text.len(),
{
    if text.len() > 0 {
        lemma_column_bound(text.drop_last());
    }
}

/// Counts the columns a piece of text fills; see [`column_count`].
pub fn columns(text: &str) -> (count: usize)
    requires
        text@.len() <= usize::MAX / 2,
    ensures
        count == column_count(text@),
{
    let glyphs = chars_of(text);
    let mut count: usize = 0;
    let mut at: usize = 0;
    while at < glyphs.len()
        invariant
            glyphs@ == text@,
            at <= glyphs@.len(),
            glyphs@.len() <= usize::MAX / 2,
            count == column_count(glyphs@.take(at as int)),
        decreases glyphs@.len() - at,
    {
        proof {
            assert(glyphs@.take(at + 1).drop_last() == glyphs@.take(at as int));
            lemma_column_bound(glyphs@.take(at as int));
        }
        count = count + if wide(glyphs[at]) { 2 } else { 1 };
        at = at + 1;
    }
    assert(glyphs@.take(at as int) == glyphs@);
    count
}

/// The text shaper a label asks for.
#[derive(Clone, Copy, PartialEq, Eq, Debug, Structural)]
pub enum Shaping {
    /// The cheap shaper, enough for ASCII and the middle dot.
    Basic,
    /// The shaper with font fallback, for everything else.
    Auto,
}

/// Whether the cheap shaper draws a character: ASCII, or the middle dot.
pub open spec fn plain_glyph(glyph: char) -> bool {
    (glyph as u32) < 128 || glyph == MIDDLE_DOT
}

/// The shaper a label needs: the cheap one where every character is plain.
pub open spec fn shaping_for(label: Seq<char>) -> Shaping {
    if forall|at: int| 0 <= at < label.len() ==> plain_glyph(#[trigger] label[at]) {
        Shaping::Basic
    } else {
        Shaping::Auto
    }
}

/// Picks the shaper for a label; see [`shaping_for`].
pub fn shaping(label: &str) -> (shaper: Shaping)
    ensures
        shaper == shaping_for(label@),
{
    let glyphs = chars_of(label);
    let mut at: usize = 0;
    while at < glyphs.len()
        invariant
            glyphs@ == label@,
            at <= glyphs@.len(),
            forall|before: int| 0 <= before < at ==> plain_glyph(#[trigger] glyphs@[before]),
        decreases glyphs@.len() - at,
    {
        let glyph = glyphs[at];
        if !((glyph as u32) < 128 || glyph == MIDDLE_DOT) {
            return Shaping::Auto;
        }
        at = at + 1;
    }
    Shaping::Basic
}

} // verus!
