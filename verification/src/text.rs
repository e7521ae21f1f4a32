//! Text as the game's comma delimited files hold it: lines with the line
//! endings they were written with, and rows of comma separated cells.

use vstd::prelude::*;

verus! {

broadcast use vstd::seq_lib::group_seq_properties;

// ---------------------------------------------------------------------------
// Readings that belong to outside code.
// ---------------------------------------------------------------------------

/// Whether a character is one of the blanks the engine's cell reader skips
/// before a number: space, tab, line feed, vertical tab, form feed and
/// carriage return.
pub open spec fn cell_blank(glyph: char) -> bool {
    glyph == ' ' || glyph == '\t' || glyph == '\n' || glyph == '\u{b}' || glyph == '\u{c}' || glyph == '\r'
}

/// A piece of text without the cell blanks it starts with.
pub open spec fn past_cell_blanks(text: Seq<char>) -> Seq<char>
    decreases text.len(),
{
    if text.len() > 0 && cell_blank(text[0]) {
        past_cell_blanks(text.drop_first())
    } else {
        text
    }
}

/// How many ASCII digits a piece of text starts with.
pub open spec fn digit_prefix(text: Seq<char>) -> int
    decreases text.len(),
{
    if text.len() > 0 && '0' <= text[0] <= '9' {
        1 + digit_prefix(text.drop_first())
    } else {
        0
    }
}

/// The integer the engine's cell reader takes from a piece of text, as
/// nyanko documents it: past the leading blanks, an optional sign and the
/// digits that follow it; no digits read as zero, and a value past what an
/// `i64` holds is pinned to it before it wraps into an `i32`.
pub open spec fn cell_reading(text: Seq<char>) -> i32 {
    let rest = past_cell_blanks(text);
    let negative = rest.len() > 0 && rest[0] == '-';
    let signed = rest.len() > 0 && (rest[0] == '-' || rest[0] == '+');
    let body = if signed { rest.drop_first() } else { rest };
    let count = digit_prefix(body);
    if count == 0 {
        0
    } else {
        let magnitude = digits_value(body.take(count));
        let value = if negative { -magnitude } else { magnitude };
        let pinned = if value > i64::MAX {
            i64::MAX as int
        } else if value < i64::MIN {
            i64::MIN as int
        } else {
            value
        };
        pinned as i32
    }
}

/// The text `String::from_utf8_lossy` makes of a byte stream.
pub uninterp spec fn lossy_text(bytes: Seq<u8>) -> Seq<char>;

/// Reads a cell as the engine does, through `nyanko::common::cell_value`,
/// whose documentation and source give the reading stated by
/// [`cell_reading`].
#[verifier::external_body]
pub(crate) fn cell_value(text: &[char]) -> (value: i32)
    ensures
        value == cell_reading(text@),
{
    nyanko::common::cell_value(&text.iter().collect::<String>())
}

/// Whether a character has the Unicode `White_Space` property, which is what
/// `char::is_whitespace` tests and `str::trim` strips.
pub open spec fn blank(glyph: char) -> bool {
    let code = glyph as u32;
    ||| 0x9 <= code <= 0xd
    ||| code == 0x20
    ||| code == 0x85
    ||| code == 0xa0
    ||| code == 0x1680
    ||| 0x2000 <= code <= 0x200a
    ||| code == 0x2028
    ||| code == 0x2029
    ||| code == 0x202f
    ||| code == 0x205f
    ||| code == 0x3000
}

/// Tests a character for the `White_Space` property; see [`blank`].
pub fn is_blank(glyph: char) -> (found: bool)
    ensures
        found == blank(glyph),
{
    let code = glyph as u32;
    (0x9 <= code && code <= 0xd) || code == 0x20 || code == 0x85 || code == 0xa0 || code == 0x1680
        || (0x2000 <= code && code <= 0x200a) || code == 0x2028 || code == 0x2029 || code == 0x202f
        || code == 0x205f || code == 0x3000
}

/// How many blanks a piece of text starts with.
pub open spec fn leading_blanks(text: Seq<char>) -> int
    decreases text.len(),
{
    if text.len() == 0 {
        0
    } else if blank(text[0]) {
        1 + leading_blanks(text.drop_first())
    } else {
        0
    }
}

/// How many blanks a piece of text ends with.
pub open spec fn trailing_blanks(text: Seq<char>) -> int
    decreases text.len(),
{
    if text.len() == 0 {
        0
    } else if blank(text.last()) {
        1 + trailing_blanks(text.drop_last())
    } else {
        0
    }
}

/// The text `str::trim` leaves: the text without its leading and trailing
/// blanks, and nothing where it is all blank.
pub open spec fn trimmed_text(text: Seq<char>) -> Seq<char> {
    let start = leading_blanks(text);
    let end = text.len() - trailing_blanks(text);
    if start < end {
        text.subrange(start, end)
    } else {
        Seq::empty()
    }
}

proof fn lemma_leading_blanks(text: Seq<char>, start: int)
    requires
        0 <= start <= text.len(),
        forall|k: int| 0 <= k < start ==> blank(#[trigger] text[k]),
        start < text.len() ==> !blank(text[start]),
    ensures
        leading_blanks(text) == start,
    decreases start,
{
    if start > 0 {
        assert forall|k: int| 0 <= k < start - 1 implies blank(#[trigger] text.drop_first()[k]) by {
            assert(text.drop_first()[k] == text[k + 1]);
        }
        if start < text.len() {
            assert(text.drop_first()[start - 1] == text[start]);
        }
        lemma_leading_blanks(text.drop_first(), start - 1);
    }
}

proof fn lemma_trailing_blanks(text: Seq<char>, end: int)
    requires
        0 <= end <= text.len(),
        forall|k: int| end <= k < text.len() ==> blank(#[trigger] text[k]),
        end > 0 ==> !blank(text[end - 1]),
    ensures
        trailing_blanks(text) == text.len() - end,
    decreases text.len() - end,
{
    if end < text.len() {
        assert forall|k: int| end <= k < text.len() - 1 implies blank(#[trigger] text.drop_last()[k]) by {
            assert(text.drop_last()[k] == text[k]);
        }
        if end > 0 {
            assert(text.drop_last()[end - 1] == text[end - 1]);
        }
        lemma_trailing_blanks(text.drop_last(), end);
    }
}

/// Trims a piece of text as `str::trim` does; see [`trimmed_text`].
pub fn trimmed(text: &[char]) -> (kept: Vec<char>)
    ensures
        kept@ == trimmed_text(text@),
{
    let mut start: usize = 0;
    while start < text.len() && is_blank(text[start])
        invariant
            start <= text@.len(),
            forall|k: int| 0 <= k < start ==> blank(#[trigger] text@[k]),
        decreases text@.len() - start,
    {
        start = start + 1;
    }
    let mut end: usize = text.len();
    while end > start && is_blank(text[end - 1])
        invariant
            start <= end <= text@.len(),
            forall|k: int| end <= k < text@.len() ==> blank(#[trigger] text@[k]),
        decreases end,
    {
        end = end - 1;
    }
    proof {
        lemma_leading_blanks(text@, start as int);
        if start < text@.len() {
            lemma_trailing_blanks(text@, end as int);
        } else {
            lemma_trailing_blanks(text@, 0);
        }
    }
    copy_range(text, start, end)
}

/// The value of a run of ASCII digits, read in base ten.
pub open spec fn digits_value(text: Seq<char>) -> int
    decreases text.len(),
{
    if text.len() == 0 {
        0
    } else {
        10 * digits_value(text.drop_last()) + (text.last() as int - '0' as int)
    }
}

/// Whether a piece of text is one or more ASCII digits.
pub open spec fn digit_run(text: Seq<char>) -> bool {
    text.len() > 0 && forall|at: int| 0 <= at < text.len() ==> '0' <= #[trigger] text[at] <= '9'
}

/// What `str::parse::<i32>` makes of a piece of text: an optional `+` or `-`
/// followed by one or more ASCII digits reads as that value where an `i32`
/// holds it; anything else, blanks included, is refused.
pub open spec fn int_reading(text: Seq<char>) -> Option<i32> {
    let negative = text.len() > 0 && text[0] == '-';
    let signed = text.len() > 0 && (text[0] == '-' || text[0] == '+');
    let body = if signed { text.drop_first() } else { text };
    let value = if negative { -digits_value(body) } else { digits_value(body) };
    if digit_run(body) && i32::MIN <= value <= i32::MAX {
        Some(value as i32)
    } else {
        None
    }
}

/// Reads an `i32` with `str::parse`, whose documentation accepts exactly an
/// optional sign followed by decimal digits, and refuses a value out of range.
#[verifier::external_body]
pub(crate) fn parsed_int(text: &[char]) -> (value: Option<i32>)
    ensures
        value == int_reading(text@),
{
    text.iter().collect::<String>().parse().ok()
}

/// What `str::parse::<u32>` makes of a piece of text: an optional `+`
/// followed by one or more ASCII digits reads as that value where a `u32`
/// holds it; anything else is refused.
pub open spec fn count_reading(text: Seq<char>) -> Option<u32> {
    let body = if text.len() > 0 && text[0] == '+' { text.drop_first() } else { text };
    if digit_run(body) && digits_value(body) <= u32::MAX {
        Some(digits_value(body) as u32)
    } else {
        None
    }
}

/// Reads a `u32` with `str::parse`, whose documentation accepts exactly an
/// optional `+` followed by decimal digits, and refuses a value out of range.
#[verifier::external_body]
pub(crate) fn parsed_count(text: &[char]) -> (value: Option<u32>)
    ensures
        value == count_reading(text@),
{
    text.iter().collect::<String>().parse().ok()
}

/// Decodes bytes with `String::from_utf8_lossy`. Valid UTF-8 comes back as the
/// characters it encodes, which is what the standard library documents; what
/// an invalid stream turns into is only named.
#[verifier::external_body]
pub(crate) fn decoded(bytes: &[u8]) -> (text: Vec<char>)
    ensures
        text@ == lossy_text(bytes@),
        vstd::utf8::valid_utf8(bytes@) ==> text@ == vstd::utf8::decode_utf8(bytes@),
{
    String::from_utf8_lossy(bytes).chars().collect()
}

/// Collects characters into a `String` with `FromIterator`, which keeps them
/// in order.
#[verifier::external_body]
pub(crate) fn text_string(text: &[char]) -> (held: String)
    ensures
        held@ == text@,
{
    text.iter().collect::<String>()
}

/// The characters of a string, in order, through `str::chars`.
#[verifier::external_body]
pub(crate) fn chars_of(text: &str) -> (held: Vec<char>)
    ensures
        held@ == text@,
{
    text.chars().collect()
}

/// The ASCII digit for a value below ten.
pub open spec fn digit(value: int) -> char {
    if value == 0 { '0' }
    else if value == 1 { '1' }
    else if value == 2 { '2' }
    else if value == 3 { '3' }
    else if value == 4 { '4' }
    else if value == 5 { '5' }
    else if value == 6 { '6' }
    else if value == 7 { '7' }
    else if value == 8 { '8' }
    else { '9' }
}

/// The decimal digits of a natural number, most significant first.
pub open spec fn digits(value: nat) -> Seq<char>
    decreases value,
{
    if value < 10 {
        seq![digit(value as int)]
    } else {
        digits(value / 10).push(digit((value % 10) as int))
    }
}

/// How `Display` writes an integer: an optional minus sign and its digits.
pub open spec fn decimal(value: int) -> Seq<char> {
    if value < 0 {
        seq!['-'] + digits((-value) as nat)
    } else {
        digits(value as nat)
    }
}

/// The ASCII digit for a value below ten; see [`digit`].
fn digit_char(value: u128) -> (glyph: char)
    requires
        value < 10,
    ensures
        glyph == digit(value as int),
{
    if value == 0 { '0' }
    else if value == 1 { '1' }
    else if value == 2 { '2' }
    else if value == 3 { '3' }
    else if value == 4 { '4' }
    else if value == 5 { '5' }
    else if value == 6 { '6' }
    else if value == 7 { '7' }
    else if value == 8 { '8' }
    else { '9' }
}

/// The decimal digits of a number; see [`digits`].
fn digits_text(value: u128) -> (text: Vec<char>)
    ensures
        text@ == digits(value as nat),
    decreases value,
{
    if value < 10 {
        let mut text: Vec<char> = Vec::new();
        text.push(digit_char(value));
        text
    } else {
        let mut text = digits_text(value / 10);
        text.push(digit_char(value % 10));
        text
    }
}

/// Writes an integer in decimal, as `Display` does: a minus sign where it is
/// negative, then its digits.
pub fn decimal_text(value: i128) -> (text: Vec<char>)
    ensures
        text@ == decimal(value as int),
{
    if value < 0 {
        let magnitude: u128 = (-(value + 1)) as u128 + 1;
        let mut text: Vec<char> = Vec::new();
        text.push('-');
        let body = digits_text(magnitude);
        extend(&mut text, body.as_slice());
        assert(text@ =~= seq!['-'] + digits((-(value as int)) as nat));
        text
    } else {
        digits_text(value as u128)
    }
}

/// The characters an optional piece of text holds.
pub open spec fn seen(text: Option<&[char]>) -> Option<Seq<char>> {
    match text {
        Some(held) => Some(held@),
        None => None,
    }
}

// ---------------------------------------------------------------------------
// Small exec helpers on character sequences.
// ---------------------------------------------------------------------------

/// A copy of `text[from..to]`.
pub fn copy_range(text: &[char], from: usize, to: usize) -> (part: Vec<char>)
    requires
        from <= to <= text@.len(),
    ensures
        part@ == text@.subrange(from as int, to as int),
{
    let mut part: Vec<char> = Vec::new();
    let mut at = from;
    while at < to
        invariant
            from <= at <= to <= text@.len(),
            part@ == text@.subrange(from as int, at as int),
        decreases to - at,
    {
        part.push(text[at]);
        at += 1;
    }
    part
}

/// Appends `more` to `out`.
pub fn extend(out: &mut Vec<char>, more: &[char])
    ensures
        final(out)@ == old(out)@ + more@,
{
    let ghost start = out@;
    let mut at: usize = 0;
    while at < more.len()
        invariant
            at <= more@.len(),
            start == old(out)@,
            out@ == start + more@.subrange(0, at as int),
        decreases more@.len() - at,
    {
        out.push(more[at]);
        at += 1;
    }
}

/// Whether two character sequences are equal.
pub fn same_text(left: &[char], right: &[char]) -> (same: bool)
    ensures
        same == (left@ == right@),
{
    if left.len() != right.len() {
        return false;
    }
    let mut at: usize = 0;
    while at < left.len()
        invariant
            left@.len() == right@.len(),
            at <= left@.len(),
            forall|k: int| 0 <= k < at ==> left@[k] == right@[k],
        decreases left@.len() - at,
    {
        if left[at] != right[at] {
            return false;
        }
        at += 1;
    }
    assert(left@ =~= right@);
    true
}

// ---------------------------------------------------------------------------
// Cells: a row split on its delimiter.
// ---------------------------------------------------------------------------

/// The delimiter the animation files split a row on.
pub const DELIMITER: char = ',';

/// The pieces `str::split` makes of a row, the empty row being one empty piece.
pub open spec fn fields(text: Seq<char>) -> Seq<Seq<char>>
    decreases text.len(),
{
    if text.len() == 0 {
        seq![Seq::<char>::empty()]
    } else {
        let prior = fields(text.drop_last());
        if text.last() == DELIMITER {
            prior.push(Seq::<char>::empty())
        } else {
            prior.update(prior.len() - 1, prior.last().push(text.last()))
        }
    }
}

/// Pieces joined with the delimiter between each neighbouring pair.
pub open spec fn joined(pieces: Seq<Seq<char>>) -> Seq<char>
    decreases pieces.len(),
{
    if pieces.len() == 0 {
        Seq::<char>::empty()
    } else if pieces.len() == 1 {
        pieces[0]
    } else {
        joined(pieces.drop_last()) + seq![DELIMITER] + pieces.last()
    }
}

/// Splitting always gives at least one piece.
pub proof fn lemma_fields_nonempty(text: Seq<char>)
    ensures
        fields(text).len() >= 1,
    decreases text.len(),
{
    if text.len() > 0 {
        lemma_fields_nonempty(text.drop_last());
    }
}

/// Splitting a row on its delimiter and joining the pieces back gives the row.
pub proof fn lemma_fields_rejoin(text: Seq<char>)
    ensures
        joined(fields(text)) == text,
    decreases text.len(),
{
    if text.len() > 0 {
        let rest = text.drop_last();
        lemma_fields_rejoin(rest);
        lemma_fields_nonempty(rest);
        let prior = fields(rest);
        if text.last() == DELIMITER {
            assert(prior.push(Seq::<char>::empty()).drop_last() =~= prior);
            assert(text =~= rest + seq![DELIMITER] + Seq::<char>::empty());
        } else {
            let grown = prior.update(prior.len() - 1, prior.last().push(text.last()));
            if prior.len() == 1 {
                assert(text =~= rest.push(text.last()));
            } else {
                assert(grown.drop_last() =~= prior.drop_last());
                assert(joined(prior) == joined(prior.drop_last()) + seq![DELIMITER] + prior.last());
                assert(text =~= rest.push(text.last()));
                assert(text =~= joined(prior.drop_last()) + seq![DELIMITER] + prior.last().push(text.last()));
            }
        }
    }
}

/// The pieces of a row, as `str::split` on the delimiter makes them.
pub fn split_fields(text: &[char]) -> (pieces: Vec<Vec<char>>)
    ensures
        pieces@.len() == fields(text@).len(),
        forall|k: int| 0 <= k < pieces@.len() ==> #[trigger] pieces@[k]@ == fields(text@)[k],
{
    let mut pieces: Vec<Vec<char>> = Vec::new();
    let mut current: Vec<char> = Vec::new();
    let mut at: usize = 0;
    while at < text.len()
        invariant
            at <= text@.len(),
            pieces@.len() + 1 == fields(text@.take(at as int)).len(),
            forall|k: int| 0 <= k < pieces@.len() ==> #[trigger] pieces@[k]@ == fields(text@.take(at as int))[k],
            current@ == fields(text@.take(at as int)).last(),
        decreases text@.len() - at,
    {
        let ghost before = text@.take(at as int);
        assert(text@.take(at + 1).drop_last() =~= before);
        proof { lemma_fields_nonempty(before); }
        if text[at] == DELIMITER {
            pieces.push(current);
            current = Vec::new();
        } else {
            current.push(text[at]);
        }
        at += 1;
    }
    assert(text@.take(text@.len() as int) =~= text@);
    pieces.push(current);
    pieces
}

/// Pieces joined with the delimiter.
pub fn join_fields(pieces: &Vec<Vec<char>>) -> (text: Vec<char>)
    ensures
        text@ == joined(pieces@.map_values(|piece: Vec<char>| piece@)),
{
    let ghost views = pieces@.map_values(|piece: Vec<char>| piece@);
    let mut text: Vec<char> = Vec::new();
    let mut at: usize = 0;
    while at < pieces.len()
        invariant
            at <= pieces@.len(),
            views == pieces@.map_values(|piece: Vec<char>| piece@),
            text@ == joined(views.take(at as int)),
        decreases pieces@.len() - at,
    {
        assert(views.take(at + 1).drop_last() =~= views.take(at as int));
        if at > 0 {
            text.push(DELIMITER);
        } else {
            assert(views.take(1) =~= seq![views[0]]);
        }
        extend(&mut text, pieces[at].as_slice());
        at += 1;
    }
    assert(views.take(pieces@.len() as int) =~= views);
    text
}

// ---------------------------------------------------------------------------
// Lines: text split after each newline, keeping the endings.
// ---------------------------------------------------------------------------

/// The first position of `mark` in `text`, or its length where it has none.
pub open spec fn find(text: Seq<char>, mark: char) -> int
    decreases text.len(),
{
    if text.len() == 0 {
        0
    } else if text[0] == mark {
        0
    } else {
        1 + find(text.drop_first(), mark)
    }
}

/// Where [`find`] lands: within the text, on the mark where it found one,
/// and past no earlier mark.
pub proof fn lemma_find(text: Seq<char>, mark: char)
    ensures
        0 <= find(text, mark) <= text.len(),
        find(text, mark) < text.len() ==> text[find(text, mark)] == mark,
        forall|k: int| 0 <= k < find(text, mark) ==> text[k] != mark,
    decreases text.len(),
{
    if text.len() > 0 && text[0] != mark {
        lemma_find(text.drop_first(), mark);
        assert forall|k: int| 0 <= k < find(text, mark) implies text[k] != mark by {
            if k > 0 {
                assert(text[k] == text.drop_first()[k - 1]);
            }
        }
    }
}

/// A position holding the mark, with none before it, is what [`find`] gives.
pub proof fn lemma_find_at(text: Seq<char>, mark: char, at: int)
    requires
        0 <= at <= text.len(),
        at < text.len() ==> text[at] == mark,
        forall|k: int| 0 <= k < at ==> text[k] != mark,
    ensures
        find(text, mark) == at,
    decreases text.len(),
{
    if text.len() > 0 && at > 0 {
        lemma_find_at(text.drop_first(), mark, at - 1);
    }
}

/// Whether a character is one of the line endings the engine trims.
pub open spec fn is_break(glyph: char) -> bool {
    glyph == '\r' || glyph == '\n'
}

/// A line without its trailing line endings.
pub open spec fn trim_breaks(text: Seq<char>) -> Seq<char>
    decreases text.len(),
{
    if text.len() > 0 && is_break(text.last()) {
        trim_breaks(text.drop_last())
    } else {
        text
    }
}

/// Trimming line breaks off the end leaves a prefix of the text.
pub proof fn lemma_trim_breaks_prefix(text: Seq<char>)
    ensures
        trim_breaks(text).len() <= text.len(),
        trim_breaks(text) =~= text.take(trim_breaks(text).len() as int),
    decreases text.len(),
{
    if text.len() > 0 && is_break(text.last()) {
        lemma_trim_breaks_prefix(text.drop_last());
    }
}

/// The text of a line: the chunk without its line endings, or the whole chunk
/// where nothing but endings is in it, which is where the engine's trim gives up.
pub open spec fn line_text(chunk: Seq<char>) -> Seq<char> {
    let trimmed = trim_breaks(chunk);
    if trimmed.len() == 0 { chunk } else { trimmed }
}

/// What follows the first line of some text, past its newline.
pub open spec fn after_line(rest: Seq<char>) -> Seq<char> {
    let at = find(rest, '\n');
    if at < rest.len() { rest.skip(at + 1) } else { Seq::<char>::empty() }
}

/// The first line of some text, as its text and the ending that follows it.
pub open spec fn first_line(rest: Seq<char>) -> (Seq<char>, Seq<char>) {
    let text = line_text(rest.take(find(rest, '\n')));
    (text, rest.subrange(text.len() as int, rest.len() - after_line(rest).len()))
}

/// The first line and its ending are the text up to where the next line
/// starts.
pub proof fn lemma_first_line(rest: Seq<char>)
    requires
        rest.len() > 0,
    ensures
        after_line(rest).len() < rest.len(),
        first_line(rest).0 + first_line(rest).1 + after_line(rest) =~= rest,
{
    lemma_find(rest, '\n');
    let chunk = rest.take(find(rest, '\n'));
    lemma_trim_breaks_prefix(chunk);
}

/// The lines of some text, each with the ending it was written with.
pub open spec fn lines_of(rest: Seq<char>) -> Seq<(Seq<char>, Seq<char>)>
    decreases rest.len(),
{
    if rest.len() == 0 {
        Seq::empty()
    } else {
        proof {
            lemma_first_line(rest);
        }
        seq![first_line(rest)] + lines_of(after_line(rest))
    }
}

/// Lines written back one after the other, each followed by its ending.
pub open spec fn rejoined(lines: Seq<(Seq<char>, Seq<char>)>) -> Seq<char>
    decreases lines.len(),
{
    if lines.len() == 0 {
        Seq::empty()
    } else {
        lines[0].0 + lines[0].1 + rejoined(lines.drop_first())
    }
}

/// Splitting text into lines loses nothing: writing every line back with its
/// own ending gives the text again.
pub proof fn lemma_lines_rejoin(text: Seq<char>)
    ensures
        rejoined(lines_of(text)) == text,
    decreases text.len(),
{
    if text.len() > 0 {
        lemma_first_line(text);
        lemma_lines_rejoin(after_line(text));
        let lines = lines_of(text);
        assert(lines.drop_first() =~= lines_of(after_line(text)));
    }
}

/// One line of a file: its text, and the line ending written after it.
pub struct Line {
    pub text: Vec<char>,
    pub end: Vec<char>,
}

impl Line {
    /// The line's text and its ending.
    pub open spec fn pair(self) -> (Seq<char>, Seq<char>) {
        (self.text@, self.end@)
    }
}

/// The text and ending of every line.
pub open spec fn pairs(lines: Seq<Line>) -> Seq<(Seq<char>, Seq<char>)> {
    lines.map_values(|line: Line| line.pair())
}

/// Reads the line that starts at `at`, returning it and where the next starts.
#[verifier::rlimit(40)]
fn next_line(body: &[char], at: usize) -> (read: (Line, usize))
    requires
        at < body@.len(),
    ensures
        read.0.pair() == first_line(body@.skip(at as int)),
        at < read.1 <= body@.len(),
        after_line(body@.skip(at as int)) == body@.skip(read.1 as int),
{
    let ghost rest = body@.skip(at as int);
    let mut stop = at;
    while stop < body.len() && body[stop] != '\n'
        invariant
            at <= stop <= body@.len(),
            forall|k: int| at <= k < stop ==> body@[k] != '\n',
        decreases body@.len() - stop,
    {
        stop += 1;
    }
    proof {
        lemma_find_at(rest, '\n', stop - at);
    }
    let mut keep = stop;
    while keep > at && (body[keep - 1] == '\r' || body[keep - 1] == '\n')
        invariant
            at <= keep <= stop <= body@.len(),
            trim_breaks(body@.subrange(at as int, stop as int)) == trim_breaks(
                body@.subrange(at as int, keep as int),
            ),
        decreases keep,
    {
        assert(body@.subrange(at as int, keep as int).drop_last() =~= body@.subrange(
            at as int,
            keep - 1,
        ));
        keep -= 1;
    }
    assert(trim_breaks(body@.subrange(at as int, keep as int)) == body@.subrange(
        at as int,
        keep as int,
    ));
    if keep == at {
        keep = stop;
    }
    let next = if stop < body.len() { stop + 1 } else { stop };
    assert(rest.take(stop - at) =~= body@.subrange(at as int, stop as int));
    assert(body@.subrange(at as int, keep as int) =~= line_text(rest.take(stop - at)));
    assert(after_line(rest) =~= body@.skip(next as int));
    let line = Line { text: copy_range(body, at, keep), end: copy_range(body, keep, next) };
    assert(line.pair() =~= first_line(rest));
    (line, next)
}

/// Splits text into lines, keeping each line's ending, the way the engine's
/// reader takes them: a blank line is a line like any other.
pub fn split(body: &[char]) -> (lines: Vec<Line>)
    ensures
        pairs(lines@) == lines_of(body@),
{
    let mut lines: Vec<Line> = Vec::new();
    let mut at: usize = 0;
    while at < body.len()
        invariant
            at <= body@.len(),
            lines_of(body@) == pairs(lines@) + lines_of(body@.skip(at as int)),
        decreases body@.len() - at,
    {
        let ghost rest = body@.skip(at as int);
        let (line, next) = next_line(body, at);
        proof {
            lemma_first_line(rest);
        }
        assert(lines_of(rest) == seq![first_line(rest)] + lines_of(after_line(rest)));
        let ghost before = lines@;
        lines.push(line);
        assert(pairs(lines@) =~= pairs(before).push(line.pair()));
        at = next;
    }
    assert(body@.skip(body@.len() as int) =~= Seq::<char>::empty());
    lines
}

/// Ends what has been written so far with a newline, unless it is empty or
/// already ends with one.
pub open spec fn terminated(body: Seq<char>) -> Seq<char> {
    if body.len() > 0 && body.last() != '\n' {
        body.push('\n')
    } else {
        body
    }
}

/// Ends a body with a newline; see [`terminated`].
pub fn terminate(body: &mut Vec<char>)
    ensures
        final(body)@ == terminated(old(body)@),
{
    if body.len() > 0 && body[body.len() - 1] != '\n' {
        body.push('\n');
    }
}

} // verus!

verus! {

// ---------------------------------------------------------------------------
// Files as bytes: an optional byte order mark, then UTF-8 text.
// ---------------------------------------------------------------------------

/// Whether a file opens on the UTF-8 byte order mark.
pub open spec fn has_bom(bytes: Seq<u8>) -> bool {
    bytes.len() >= 3 && bytes[0] == 0xef && bytes[1] == 0xbb && bytes[2] == 0xbf
}

/// The bytes of a file past its byte order mark, if it has one.
pub open spec fn body_bytes(bytes: Seq<u8>) -> Seq<u8> {
    if has_bom(bytes) {
        bytes.skip(3)
    } else {
        bytes
    }
}

/// The text of a file, past its byte order mark.
pub open spec fn body_text(bytes: Seq<u8>) -> Seq<char> {
    lossy_text(body_bytes(bytes))
}

/// The text a file is read as: its bytes past the mark decoded as UTF-8 where
/// they are valid, and otherwise as `String::from_utf8_lossy` reads them.
pub open spec fn file_text(bytes: Seq<u8>) -> Seq<char> {
    if vstd::utf8::valid_utf8(body_bytes(bytes)) {
        vstd::utf8::decode_utf8(body_bytes(bytes))
    } else {
        body_text(bytes)
    }
}

/// A file's bytes: the byte order mark where it had one, then the text in UTF-8.
pub open spec fn encoded(bom: bool, body: Seq<char>) -> Seq<u8> {
    if bom {
        seq![0xefu8, 0xbbu8, 0xbfu8] + vstd::utf8::encode_utf8(body)
    } else {
        vstd::utf8::encode_utf8(body)
    }
}

/// Reads a file: whether it opens on a byte order mark, and its text past it.
pub fn unmarked(bytes: &[u8]) -> (read: (bool, Vec<char>))
    ensures
        read.0 == has_bom(bytes@),
        read.1@ == body_text(bytes@),
        vstd::utf8::valid_utf8(body_bytes(bytes@)) ==> read.1@ == vstd::utf8::decode_utf8(body_bytes(bytes@)),
{
    let bom = bytes.len() >= 3 && bytes[0] == 0xef && bytes[1] == 0xbb && bytes[2] == 0xbf;
    if bom {
        let mut rest: Vec<u8> = Vec::new();
        let mut at: usize = 3;
        while at < bytes.len()
            invariant
                3 <= at <= bytes@.len(),
                rest@ == bytes@.subrange(3, at as int),
            decreases bytes@.len() - at,
        {
            rest.push(bytes[at]);
            at += 1;
        }
        assert(rest@ =~= bytes@.skip(3));
        (true, decoded(rest.as_slice()))
    } else {
        (false, decoded(bytes))
    }
}

/// Writes a file: the byte order mark if asked for, then the text in UTF-8.
pub fn encode(bom: bool, body: &[char]) -> (bytes: Vec<u8>)
    ensures
        bytes@ == encoded(bom, body@),
{
    let text = text_string(body);
    let held: &[u8] = text.as_str().as_bytes();
    let mut bytes: Vec<u8> = Vec::new();
    if bom {
        bytes.push(0xef);
        bytes.push(0xbb);
        bytes.push(0xbf);
    }
    let ghost start = bytes@;
    let mut at: usize = 0;
    while at < held.len()
        invariant
            at <= held@.len(),
            bytes@ == start + held@.subrange(0, at as int),
        decreases held@.len() - at,
    {
        bytes.push(held[at]);
        at += 1;
    }
    assert(held@.subrange(0, held@.len() as int) =~= held@);
    assert(bom ==> start =~= seq![0xefu8, 0xbbu8, 0xbfu8]);
    assert(!bom ==> start =~= Seq::<u8>::empty());
    bytes
}

/// Decoding a file and encoding its text again gives the file back, for a
/// file whose text is valid UTF-8.
pub proof fn lemma_file_roundtrip(bytes: Seq<u8>)
    requires
        vstd::utf8::valid_utf8(body_bytes(bytes)),
    ensures
        encoded(has_bom(bytes), vstd::utf8::decode_utf8(body_bytes(bytes))) == bytes,
{
    broadcast use vstd::utf8::group_utf8_lib;

    if has_bom(bytes) {
        assert(bytes =~= seq![0xefu8, 0xbbu8, 0xbfu8] + bytes.skip(3));
    }
}

} // verus!

verus! {

/// Pieces of text written one after the other.
pub open spec fn concat(pieces: Seq<Seq<char>>) -> Seq<char>
    decreases pieces.len(),
{
    if pieces.len() == 0 {
        Seq::empty()
    } else {
        concat(pieces.drop_last()) + pieces.last()
    }
}

/// Writing one more piece after a run of pieces.
pub proof fn lemma_concat_step(pieces: Seq<Seq<char>>, at: int)
    requires
        0 <= at < pieces.len(),
    ensures
        concat(pieces.take(at + 1)) == concat(pieces.take(at)) + pieces[at],
{
    assert(pieces.take(at + 1).drop_last() =~= pieces.take(at));
}

} // verus!

verus! {

/// Writing two runs of pieces one after the other.
pub proof fn lemma_concat_append(first: Seq<Seq<char>>, second: Seq<Seq<char>>)
    ensures
        concat(first + second) == concat(first) + concat(second),
    decreases second.len(),
{
    if second.len() == 0 {
        assert(first + second =~= first);
    } else {
        lemma_concat_append(first, second.drop_last());
        assert((first + second).drop_last() =~= first + second.drop_last());
    }
}

/// Text written around one piece of a run: changing only that piece changes
/// only its own place.
pub proof fn lemma_swap_piece(
    prefix: Seq<char>,
    first: Seq<Seq<char>>,
    second: Seq<Seq<char>>,
    later: Seq<char>,
    at: int,
)
    requires
        0 <= at < first.len(),
        second.len() == first.len(),
        forall|i: int| 0 <= i < first.len() && i != at ==> #[trigger] second[i] == first[i],
    ensures
        prefix + concat(first) + later == prefix + concat(first.take(at)) + first[at] + (concat(first.skip(at + 1))
            + later),
        prefix + concat(second) + later == prefix + concat(first.take(at)) + second[at] + (concat(
            first.skip(at + 1),
        ) + later),
{
    assert(second.take(at) =~= first.take(at));
    assert(second.skip(at + 1) =~= first.skip(at + 1));
    lemma_concat_split(first, at);
    lemma_concat_split(second, at);
    assert(prefix + concat(first) + later =~= prefix + concat(first.take(at)) + first[at] + (concat(first.skip(at + 1))
        + later));
    assert(prefix + concat(second) + later =~= prefix + concat(first.take(at)) + second[at] + (concat(
        first.skip(at + 1),
    ) + later));
}

/// Pieces written in turn, split around the piece at `at`.
pub proof fn lemma_concat_split(pieces: Seq<Seq<char>>, at: int)
    requires
        0 <= at < pieces.len(),
    ensures
        concat(pieces) == concat(pieces.take(at)) + pieces[at] + concat(pieces.skip(at + 1)),
{
    let one = seq![pieces[at]];
    assert(pieces =~= pieces.take(at) + one + pieces.skip(at + 1));
    lemma_concat_append(pieces.take(at) + one, pieces.skip(at + 1));
    lemma_concat_append(pieces.take(at), one);
    assert(one.drop_last() =~= Seq::<Seq<char>>::empty());
    assert(concat(one) =~= pieces[at]);
}

/// Pieces written in turn after `prefix`, where the piece at `at` is a row and
/// its ending: changing only that row changes only its own place.
pub proof fn lemma_swap_row(
    prefix: Seq<char>,
    first: Seq<Seq<char>>,
    second: Seq<Seq<char>>,
    at: int,
    rx: Seq<char>,
    ry: Seq<char>,
    ending: Seq<char>,
)
    requires
        0 <= at < first.len(),
        second.len() == first.len(),
        forall|i: int| 0 <= i < first.len() && i != at ==> #[trigger] second[i] == first[i],
        first[at] == rx + ending,
        second[at] == ry + ending,
    ensures
        prefix + concat(first) == prefix + concat(first.take(at)) + rx + (ending + concat(first.skip(at + 1))),
        prefix + concat(second) == prefix + concat(first.take(at)) + ry + (ending + concat(first.skip(at + 1))),
{
    assert(second.take(at) =~= first.take(at));
    assert(second.skip(at + 1) =~= first.skip(at + 1));
    lemma_concat_split(first, at);
    lemma_concat_split(second, at);
    let head = concat(first.take(at));
    let rest = concat(first.skip(at + 1));
    assert(prefix + (head + (rx + ending) + rest) =~= prefix + head + rx + (ending + rest));
    assert(prefix + (head + (ry + ending) + rest) =~= prefix + head + ry + (ending + rest));
}

/// Whether two texts are the same but for one piece: `x` holds `rx` where `y`
/// holds `ry`, with the same text before and after it.
pub open spec fn swapped(x: Seq<char>, y: Seq<char>, rx: Seq<char>, ry: Seq<char>) -> bool {
    exists|head: Seq<char>, tail: Seq<char>| x == head + rx + tail && y == head + ry + tail
}

/// Whether two pieces end alike: both empty, or both ending with a line break,
/// or both ending without one.
pub open spec fn ends_alike(x: Seq<char>, y: Seq<char>) -> bool {
    &&& (x.len() == 0) == (y.len() == 0)
    &&& x.len() > 0 ==> (x.last() == '\n') == (y.last() == '\n')
}

/// Closing two texts that differ in one piece with a line break keeps them
/// differing in that piece alone, where something follows the piece or the
/// two pieces end alike.
pub proof fn lemma_terminated_swap(head: Seq<char>, rx: Seq<char>, ry: Seq<char>, tail: Seq<char>) -> (closed: Seq<char>)
    requires
        tail.len() > 0 || ends_alike(rx, ry),
    ensures
        terminated(head + rx + tail) == head + rx + closed,
        terminated(head + ry + tail) == head + ry + closed,
{
    let x = head + rx + tail;
    let y = head + ry + tail;
    if tail.len() > 0 {
        assert(x.last() == tail.last());
        assert(y.last() == tail.last());
        if tail.last() != '\n' {
            assert(x.push('\n') =~= head + rx + tail.push('\n'));
            assert(y.push('\n') =~= head + ry + tail.push('\n'));
            tail.push('\n')
        } else {
            tail
        }
    } else if rx.len() > 0 {
        assert(x =~= head + rx);
        assert(y =~= head + ry);
        assert(x.last() == rx.last());
        assert(y.last() == ry.last());
        if rx.last() != '\n' {
            assert(x.push('\n') =~= head + rx + seq!['\n']);
            assert(y.push('\n') =~= head + ry + seq!['\n']);
            seq!['\n']
        } else {
            tail
        }
    } else {
        assert(rx =~= Seq::<char>::empty());
        assert(ry =~= Seq::<char>::empty());
        assert(x =~= head);
        assert(y =~= head);
        if head.len() > 0 && head.last() != '\n' {
            assert(head.push('\n') =~= head + rx + seq!['\n']);
            assert(head.push('\n') =~= head + ry + seq!['\n']);
            seq!['\n']
        } else {
            assert(head =~= head + rx + tail);
            tail
        }
    }
}

/// Each line's text followed by its ending.
pub open spec fn line_pieces(lines: Seq<(Seq<char>, Seq<char>)>) -> Seq<Seq<char>> {
    Seq::new(lines.len(), |at: int| lines[at].0 + lines[at].1)
}

/// Lines written back one after the other are their pieces written in turn.
pub proof fn lemma_rejoined_concat(lines: Seq<(Seq<char>, Seq<char>)>)
    ensures
        rejoined(lines) == concat(line_pieces(lines)),
    decreases lines.len(),
{
    if lines.len() > 0 {
        lemma_rejoined_concat(lines.drop_first());
        let head = seq![line_pieces(lines)[0]];
        assert(line_pieces(lines) =~= head + line_pieces(lines.drop_first()));
        lemma_concat_append(head, line_pieces(lines.drop_first()));
        assert(head.drop_last() =~= Seq::<Seq<char>>::empty());
        assert(concat(Seq::<Seq<char>>::empty()) =~= Seq::<char>::empty());
        assert(head.last() == lines[0].0 + lines[0].1);
        assert(concat(head) =~= lines[0].0 + lines[0].1);
        assert(rejoined(lines) == lines[0].0 + lines[0].1 + rejoined(lines.drop_first()));
    }
}

} // verus!
