//! The text rules of the box a unit's name is fitted into: how many lines a
//! name may take, the font sizes the fitting walks through, and how a name
//! too long to fit keeps both of its ends.

use vstd::prelude::*;

use crate::text::{blank, chars_of, is_blank, text_string};

verus! {

/// The lines a name that breaks between words may take.
pub const MAX_LINES: u32 = 2;

/// The lines a name with nothing to break on may take.
pub const UNBROKEN_LINES: u32 = 1;

/// The lines from which a name is cut down rather than drawn whole.
pub const TRUNCATE_LINES: u32 = 5;

/// The largest font size tried, in half points.
pub const MAX_FONT_HALF_POINTS: u32 = 44;

/// The smallest font size tried, in half points; the fitting shrinks by one
/// half point at a time.
pub const MIN_FONT_HALF_POINTS: u32 = 16;

/// Whether some word of the text is followed, past a blank, by another one.
pub open spec fn second_word(text: Seq<char>) -> bool {
    exists|first: int, gap: int, next: int|
        0 <= first < gap < next < text.len() && !blank(#[trigger] text[first]) && blank(
            #[trigger] text[gap],
        ) && !blank(#[trigger] text[next])
}

/// Whether some word of the text is followed by a blank.
pub open spec fn word_then_gap(text: Seq<char>) -> bool {
    exists|first: int, gap: int|
        0 <= first < gap < text.len() && !blank(#[trigger] text[first]) && blank(#[trigger] text[gap])
}

/// Whether the text holds a character that is not blank.
pub open spec fn some_word(text: Seq<char>) -> bool {
    exists|first: int| 0 <= first < text.len() && !blank(#[trigger] text[first])
}

/// The lines a name may take: two where it holds a second word to break
/// before, one otherwise.
pub open spec fn lines_allowed(content: Seq<char>) -> u32 {
    if second_word(content) {
        MAX_LINES
    } else {
        UNBROKEN_LINES
    }
}

proof fn lemma_scan_step(text: Seq<char>, at: int)
    requires
        0 <= at < text.len(),
    ensures
        some_word(text.take(at + 1)) == (some_word(text.take(at)) || !blank(text[at])),
        word_then_gap(text.take(at + 1)) == (word_then_gap(text.take(at)) || (some_word(
            text.take(at),
        ) && blank(text[at]))),
        second_word(text.take(at + 1)) == (second_word(text.take(at)) || (word_then_gap(
            text.take(at),
        ) && !blank(text[at]))),
{
    let before = text.take(at);
    let after = text.take(at + 1);
    assert(after[at] == text[at]);
    assert forall|i: int| 0 <= i < at implies after[i] == before[i] by {}
    if some_word(after) && !some_word(before) {
        let first = choose|first: int| 0 <= first < after.len() && !blank(#[trigger] after[first]);
        if first < at {
            assert(!blank(before[first]));
        }
    }
    if some_word(before) {
        let first = choose|first: int| 0 <= first < before.len() && !blank(#[trigger] before[first]);
        assert(!blank(after[first]));
    }
    if word_then_gap(after) && !word_then_gap(before) {
        let (first, gap) = choose|first: int, gap: int|
            0 <= first < gap < after.len() && !blank(#[trigger] after[first]) && blank(
                #[trigger] after[gap],
            );
        if gap < at {
            assert(!blank(before[first]) && blank(before[gap]));
        } else {
            assert(!blank(before[first]));
        }
    }
    if word_then_gap(before) {
        let (first, gap) = choose|first: int, gap: int|
            0 <= first < gap < before.len() && !blank(#[trigger] before[first]) && blank(
                #[trigger] before[gap],
            );
        assert(!blank(after[first]) && blank(after[gap]));
    }
    if some_word(before) && blank(text[at]) {
        let first = choose|first: int| 0 <= first < before.len() && !blank(#[trigger] before[first]);
        assert(!blank(after[first]) && blank(after[at]));
    }
    if second_word(after) && !second_word(before) {
        let (first, gap, next) = choose|first: int, gap: int, next: int|
            0 <= first < gap < next < after.len() && !blank(#[trigger] after[first]) && blank(
                #[trigger] after[gap],
            ) && !blank(#[trigger] after[next]);
        if next < at {
            assert(!blank(before[first]) && blank(before[gap]) && !blank(before[next]));
        } else {
            assert(!blank(before[first]) && blank(before[gap]));
        }
    }
    if second_word(before) {
        let (first, gap, next) = choose|first: int, gap: int, next: int|
            0 <= first < gap < next < before.len() && !blank(#[trigger] before[first]) && blank(
                #[trigger] before[gap],
            ) && !blank(#[trigger] before[next]);
        assert(!blank(after[first]) && blank(after[gap]) && !blank(after[next]));
    }
    if word_then_gap(before) && !blank(text[at]) {
        let (first, gap) = choose|first: int, gap: int|
            0 <= first < gap < before.len() && !blank(#[trigger] before[first]) && blank(
                #[trigger] before[gap],
            );
        assert(!blank(after[first]) && blank(after[gap]) && !blank(after[at]));
    }
}

/// The lines a name may take; see [`lines_allowed`].
pub fn allowance(content: &str) -> (lines: u32)
    ensures
        lines == lines_allowed(content@),
{
    let glyphs = chars_of(content);
    let mut word = false;
    let mut gap = false;
    let mut at: usize = 0;
    while at < glyphs.len()
        invariant
            glyphs@ == content@,
            at <= glyphs@.len(),
            word == some_word(glyphs@.take(at as int)),
            gap == word_then_gap(glyphs@.take(at as int)),
            !second_word(glyphs@.take(at as int)),
        decreases glyphs@.len() - at,
    {
        proof {
            lemma_scan_step(glyphs@, at as int);
        }
        let blank_here = is_blank(glyphs[at]);
        if gap && !blank_here {
            assert(glyphs@.take(at + 1).take(at + 1) == glyphs@.take(at + 1));
            proof {
                lemma_second_word_grows(glyphs@, at as int + 1);
            }
            return MAX_LINES;
        }
        gap = gap || (word && blank_here);
        word = word || !blank_here;
        at = at + 1;
    }
    assert(glyphs@.take(at as int) == glyphs@);
    UNBROKEN_LINES
}

proof fn lemma_second_word_grows(text: Seq<char>, upto: int)
    requires
        0 <= upto <= text.len(),
        second_word(text.take(upto)),
    ensures
        second_word(text),
{
    let prefix = text.take(upto);
    let (first, gap, next) = choose|first: int, gap: int, next: int|
        0 <= first < gap < next < prefix.len() && !blank(#[trigger] prefix[first]) && blank(
            #[trigger] prefix[gap],
        ) && !blank(#[trigger] prefix[next]);
    assert(!blank(text[first]) && blank(text[gap]) && !blank(text[next]));
}

/// A name cut down to `keep` characters around the ellipsis: the first half
/// (rounded up) and the last half of what is kept, or the whole name where
/// it already fits.
pub open spec fn middle_text(glyphs: Seq<char>, keep: int) -> Seq<char> {
    if keep >= glyphs.len() {
        glyphs
    } else {
        let head = (keep + 1) / 2;
        let tail = keep - head;
        glyphs.take(head) + seq!['.', '.', '.'] + glyphs.skip(glyphs.len() - tail)
    }
}

/// Cuts a name down to `keep` characters; see [`middle_text`].
pub fn middle(glyphs: &[char], keep: usize) -> (text: String)
    ensures
        text@ == middle_text(glyphs@, keep as int),
{
    if keep >= glyphs.len() {
        return text_string(glyphs);
    }
    let head = keep / 2 + keep % 2;
    let tail = keep - head;
    let mut kept: Vec<char> = Vec::new();
    let mut at: usize = 0;
    while at < head
        invariant
            head <= keep < glyphs@.len(),
            at <= head,
            kept@ == glyphs@.take(at as int),
        decreases head - at,
    {
        kept.push(glyphs[at]);
        at = at + 1;
        assert(kept@ == glyphs@.take(at as int));
    }
    let ellipsis = chars_of("...");
    proof {
        reveal_strlit("...");
    }
    let mut dot: usize = 0;
    while dot < ellipsis.len()
        invariant
            ellipsis@ == seq!['.', '.', '.'],
            dot <= ellipsis@.len(),
            kept@ == glyphs@.take(head as int) + ellipsis@.take(dot as int),
        decreases ellipsis@.len() - dot,
    {
        kept.push(ellipsis[dot]);
        dot = dot + 1;
        assert(kept@ == glyphs@.take(head as int) + ellipsis@.take(dot as int));
    }
    let from = glyphs.len() - tail;
    let mut at: usize = from;
    while at < glyphs.len()
        invariant
            from <= at <= glyphs@.len(),
            kept@ == glyphs@.take(head as int) + seq!['.', '.', '.'] + glyphs@.subrange(from as int, at as int),
        decreases glyphs@.len() - at,
    {
        kept.push(glyphs[at]);
        at = at + 1;
        assert(kept@ == glyphs@.take(head as int) + seq!['.', '.', '.'] + glyphs@.subrange(from as int, at as int));
    }
    assert(glyphs@.subrange(from as int, glyphs@.len() as int) == glyphs@.skip(from as int));
    assert(ellipsis@.take(3) == ellipsis@);
    text_string(kept.as_slice())
}

} // verus!
