//! Text cut into plain lines, the way `str::lines` cuts it.

use vstd::prelude::*;

use crate::text::{copy_range, find, lemma_find, lemma_find_at};

verus! {


/// The lines `str::lines` yields: the text cut after each line feed, without
/// the line feed and without a carriage return just before it; a final line
/// feed does not start another line, and empty text has none.
pub open spec fn plain_lines(text: Seq<char>) -> Seq<Seq<char>>
    decreases text.len(),
{
    if text.len() == 0 {
        Seq::empty()
    } else {
        let cut = find(text, '\n');
        proof {
            lemma_find(text, '\n');
        }
        if cut < text.len() {
            let piece = text.take(cut);
            let line = if piece.len() > 0 && piece.last() == '\r' { piece.drop_last() } else { piece };
            seq![line] + plain_lines(text.skip(cut + 1))
        } else {
            seq![text]
        }
    }
}

/// Pieces joined with `mark` between each neighbouring pair.
pub open spec fn joined_by(pieces: Seq<Seq<char>>, mark: char) -> Seq<char>
    decreases pieces.len(),
{
    if pieces.len() == 0 {
        Seq::empty()
    } else if pieces.len() == 1 {
        pieces[0]
    } else {
        joined_by(pieces.drop_last(), mark) + seq![mark] + pieces.last()
    }
}

/// Reads the plain line that starts at `start`, and where the next starts.
#[verifier::rlimit(40)]
fn next_plain_line(text: &[char], start: usize) -> (read: (Vec<char>, usize))
    requires
        start < text@.len(),
    ensures
        start < read.1 <= text@.len(),
        plain_lines(text@.skip(start as int)) == seq![read.0@] + plain_lines(text@.skip(read.1 as int)),
{
    let ghost rest = text@.skip(start as int);
    let mut stop = start;
    while stop < text.len() && text[stop] != '\n'
        invariant
            start <= stop <= text@.len(),
            forall|k: int| start <= k < stop ==> text@[k] != '\n',
        decreases text@.len() - stop,
    {
        stop = stop + 1;
    }
    proof {
        lemma_find_at(rest, '\n', stop - start);
    }
    if stop < text.len() {
        let end = if stop > start && text[stop - 1] == '\r' { stop - 1 } else { stop };
        let line = copy_range(text, start, end);
        let ghost piece = rest.take(stop - start);
        assert(piece == text@.subrange(start as int, stop as int));
        assert(line@ == if piece.len() > 0 && piece.last() == '\r' { piece.drop_last() } else { piece });
        assert(rest.skip(stop - start + 1) == text@.skip(stop + 1));
        assert(plain_lines(rest) == seq![line@] + plain_lines(rest.skip(stop - start + 1)));
        (line, stop + 1)
    } else {
        let line = copy_range(text, start, stop);
        assert(line@ == rest);
        assert(text@.skip(stop as int).len() == 0);
        assert(plain_lines(text@.skip(stop as int)) == Seq::<Seq<char>>::empty());
        assert(seq![rest] + Seq::<Seq<char>>::empty() == seq![rest]);
        (line, stop)
    }
}

/// Splits text into its plain lines; see [`plain_lines`].
pub fn lines_in(text: &[char]) -> (lines: Vec<Vec<char>>)
    ensures
        lines@.map_values(|line: Vec<char>| line@) == plain_lines(text@),
{
    let mut lines: Vec<Vec<char>> = Vec::new();
    let mut start: usize = 0;
    assert(text@.skip(0) == text@);
    assert(Seq::<Vec<char>>::empty().map_values(|line: Vec<char>| line@) + plain_lines(text@) == plain_lines(text@));
    while start < text.len()
        invariant
            start <= text@.len(),
            lines@.map_values(|line: Vec<char>| line@) + plain_lines(text@.skip(start as int)) == plain_lines(text@),
        decreases text@.len() - start,
    {
        let ghost before = lines@.map_values(|line: Vec<char>| line@);
        let (line, next) = next_plain_line(text, start);
        let ghost piece = line@;
        lines.push(line);
        assert(lines@.map_values(|line: Vec<char>| line@) == before.push(piece));
        assert(before.push(piece) + plain_lines(text@.skip(next as int)) == before + (seq![piece] + plain_lines(
            text@.skip(next as int),
        )));
        start = next;
    }
    assert(text@.skip(start as int).len() == 0);
    assert(lines@.map_values(|line: Vec<char>| line@) + Seq::<Seq<char>>::empty() == lines@.map_values(
        |line: Vec<char>| line@,
    ));
    lines
}

} // verus!
