//! Which of the game's text tables a file is, and in which language: the
//! unit explanations, the enemy names and picture book, and the map names.

use vstd::prelude::*;

use crate::plain::{joined_by, lines_in, plain_lines};
use crate::text::{
    chars_of, copy_range, count_reading, decimal, decimal_text, decoded, encode, extend, lossy_text, parsed_count, same_text,
    text_string,
};

verus! {

/// The letters of a language code.
pub const CODE_LENGTH: usize = 2;

/// The two enemy tables.
#[derive(Clone, Copy, PartialEq, Eq, Debug, Structural)]
pub enum Table {
    /// The enemy names.
    Names,
    /// The enemy picture book.
    Book,
}

/// Whether a character is an ASCII lowercase letter.
pub open spec fn lowercase(glyph: char) -> bool {
    'a' <= glyph <= 'z'
}

/// Whether a character is an ASCII digit.
pub open spec fn digit_glyph(glyph: char) -> bool {
    '0' <= glyph <= '9'
}

/// The language code a file name's tail declares: none at all for the base
/// table, or an underscore and two lowercase letters; nothing else is one.
pub open spec fn code_of(rest: Seq<char>) -> Option<Seq<char>> {
    if rest.len() == 0 {
        Some(Seq::empty())
    } else if rest.len() == 1 + CODE_LENGTH && rest[0] == '_' && lowercase(rest[1]) && lowercase(rest[2]) {
        Some(rest.drop_first())
    } else {
        None
    }
}

/// What lies between a prefix and a suffix of a name, where it has both.
pub open spec fn between(name: Seq<char>, prefix: Seq<char>, suffix: Seq<char>) -> Option<Seq<char>> {
    if name.len() >= prefix.len() + suffix.len() && name.take(prefix.len() as int) == prefix && name.skip(
        name.len() - suffix.len(),
    ) == suffix {
        Some(name.subrange(prefix.len() as int, name.len() - suffix.len()))
    } else {
        None
    }
}

/// How many digits a piece of text starts with.
pub open spec fn leading_digits(text: Seq<char>) -> int
    decreases text.len(),
{
    if text.len() > 0 && digit_glyph(text[0]) {
        1 + leading_digits(text.drop_first())
    } else {
        0
    }
}

/// The unit and language of a unit explanation table: the number after the
/// table's name counts units from one, and what follows it is the code.
pub open spec fn explained(filename: Seq<char>) -> Option<(u32, Seq<char>)> {
    match between(filename, "Unit_Explanation"@, ".csv"@) {
        Some(body) => {
            let cut = leading_digits(body);
            match count_reading(body.take(cut)) {
                Some(number) => if number >= 1 {
                    match code_of(body.skip(cut)) {
                        Some(code) => Some(((number - 1) as u32, code)),
                        None => None,
                    }
                } else {
                    None
                },
                None => None,
            }
        },
        None => None,
    }
}

/// The table and language of an enemy table: `Enemyname` ending in `.tsv`,
/// or `EnemyPictureBook` ending in `.csv`, each followed by its code.
pub open spec fn rostered(filename: Seq<char>) -> Option<(Table, Seq<char>)> {
    match between(filename, "Enemyname"@, ".tsv"@) {
        Some(rest) => match code_of(rest) {
            Some(code) => Some((Table::Names, code)),
            None => None,
        },
        None => match between(filename, "EnemyPictureBook"@, ".csv"@) {
            Some(rest) => match code_of(rest) {
                Some(code) => Some((Table::Book, code)),
                None => None,
            },
            None => None,
        },
    }
}

/// The language of a map name table.
pub open spec fn charted(filename: Seq<char>) -> Option<Seq<char>> {
    match between(filename, "Map_Name"@, ".csv"@) {
        Some(rest) => code_of(rest),
        None => None,
    }
}

/// The characters of an optional string.
pub open spec fn spoken_text(text: Option<String>) -> Option<Seq<char>> {
    match text {
        Some(held) => Some(held@),
        None => None,
    }
}

/// Reads a language code; see [`code_of`].
pub fn code(rest: &str) -> (found: Option<String>)
    ensures
        spoken_text(found) == code_of(rest@),
{
    let glyphs = chars_of(rest);
    code_in(glyphs.as_slice())
}

fn code_in(rest: &[char]) -> (found: Option<String>)
    ensures
        spoken_text(found) == code_of(rest@),
{
    if rest.len() == 0 {
        return Some(String::new());
    }
    if rest.len() == 1 + CODE_LENGTH && rest[0] == '_' && 'a' <= rest[1] && rest[1] <= 'z' && 'a' <= rest[2]
        && rest[2] <= 'z' {
        let letters = copy_range(rest, 1, rest.len());
        assert(letters@ == rest@.drop_first());
        return Some(text_string(letters.as_slice()));
    }
    None
}

fn between_in(name: &[char], prefix: &str, suffix: &str) -> (inner: Option<Vec<char>>)
    ensures
        match inner {
            Some(held) => between(name@, prefix@, suffix@) == Some(held@),
            None => between(name@, prefix@, suffix@) is None,
        },
{
    let head = chars_of(prefix);
    let tail = chars_of(suffix);
    if name.len() < head.len() || name.len() - head.len() < tail.len() {
        return None;
    }
    let start = copy_range(name, 0, head.len());
    let end = copy_range(name, name.len() - tail.len(), name.len());
    assert(name@.subrange(0, head@.len() as int) == name@.take(head@.len() as int));
    assert(name@.subrange(name@.len() - tail@.len(), name@.len() as int) == name@.skip(name@.len() - tail@.len()));
    if same_text(start.as_slice(), head.as_slice()) && same_text(end.as_slice(), tail.as_slice()) {
        Some(copy_range(name, head.len(), name.len() - tail.len()))
    } else {
        None
    }
}

/// Reads a unit explanation table's name; see [`explained`].
pub fn explanation(filename: &str) -> (found: Option<(u32, String)>)
    ensures
        match found {
            Some((unit, code)) => explained(filename@) == Some((unit, code@)),
            None => explained(filename@) is None,
        },
{
    let glyphs = chars_of(filename);
    let body = match between_in(glyphs.as_slice(), "Unit_Explanation", ".csv") {
        Some(body) => body,
        None => return None,
    };
    let mut cut: usize = 0;
    while cut < body.len() && '0' <= body[cut] && body[cut] <= '9'
        invariant
            cut <= body@.len(),
            forall|k: int| 0 <= k < cut ==> digit_glyph(#[trigger] body@[k]),
        decreases body@.len() - cut,
    {
        cut = cut + 1;
    }
    proof {
        lemma_leading_digits(body@, cut as int);
    }
    let digits = copy_range(body.as_slice(), 0, cut);
    assert(digits@ == body@.take(cut as int));
    let number = match parsed_count(digits.as_slice()) {
        Some(number) => number,
        None => return None,
    };
    if number < 1 {
        return None;
    }
    let rest = copy_range(body.as_slice(), cut, body.len());
    assert(rest@ == body@.skip(cut as int));
    match code_in(rest.as_slice()) {
        Some(code) => Some((number - 1, code)),
        None => None,
    }
}

proof fn lemma_leading_digits(text: Seq<char>, cut: int)
    requires
        0 <= cut <= text.len(),
        forall|k: int| 0 <= k < cut ==> digit_glyph(#[trigger] text[k]),
        cut < text.len() ==> !digit_glyph(text[cut]),
    ensures
        leading_digits(text) == cut,
    decreases cut,
{
    if cut > 0 {
        assert forall|k: int| 0 <= k < cut - 1 implies digit_glyph(#[trigger] text.drop_first()[k]) by {
            assert(text.drop_first()[k] == text[k + 1]);
        }
        if cut < text.len() {
            assert(text.drop_first()[cut - 1] == text[cut]);
        }
        lemma_leading_digits(text.drop_first(), cut - 1);
    }
}

/// Reads an enemy table's name; see [`rostered`].
pub fn roster(filename: &str) -> (found: Option<(Table, String)>)
    ensures
        match found {
            Some((table, code)) => rostered(filename@) == Some((table, code@)),
            None => rostered(filename@) is None,
        },
{
    let glyphs = chars_of(filename);
    if let Some(rest) = between_in(glyphs.as_slice(), "Enemyname", ".tsv") {
        return match code_in(rest.as_slice()) {
            Some(code) => Some((Table::Names, code)),
            None => None,
        };
    }
    match between_in(glyphs.as_slice(), "EnemyPictureBook", ".csv") {
        Some(rest) => match code_in(rest.as_slice()) {
            Some(code) => Some((Table::Book, code)),
            None => None,
        },
        None => None,
    }
}

/// Reads a map name table's name; see [`charted`].
pub fn atlas(filename: &str) -> (found: Option<String>)
    ensures
        spoken_text(found) == charted(filename@),
{
    let glyphs = chars_of(filename);
    match between_in(glyphs.as_slice(), "Map_Name", ".csv") {
        Some(rest) => code_in(rest.as_slice()),
        None => None,
    }
}

/// Whether a file is a unit explanation table.
pub fn explains(filename: &str) -> (found: bool)
    ensures
        found == explained(filename@) is Some,
{
    explanation(filename).is_some()
}

/// Whether a file is an enemy table.
pub fn describes(filename: &str) -> (found: bool)
    ensures
        found == rostered(filename@) is Some,
{
    roster(filename).is_some()
}

/// Whether a file is a map name table.
pub fn charts(filename: &str) -> (found: bool)
    ensures
        found == charted(filename@) is Some,
{
    atlas(filename).is_some()
}

/// Whether a file is any of the tables a localization is mined from.
pub fn mineable(filename: &str) -> (found: bool)
    ensures
        found == (explained(filename@) is Some || rostered(filename@) is Some || charted(filename@) is Some),
{
    explains(filename) || describes(filename) || charts(filename)
}

/// The forms a unit explanation table can name.
pub const FORMS: usize = 4;

/// What nyanko's `UnitExplanation::parse` reads as the names of a unit's
/// forms, or none where it refuses the file.
pub uninterp spec fn explanation_reading(bytes: Seq<u8>) -> Option<Seq<Option<Seq<char>>>>;

/// The names nyanko's `cat::unit::UnitExplanation::parse` reads from a unit
/// explanation table, one per form (its source holds exactly four), or none
/// where it refuses the file; the names themselves are only named.
#[verifier::external_body]
fn explanation_names(bytes: &[u8]) -> (names: Option<Vec<Option<String>>>)
    ensures
        names is Some == explanation_reading(bytes@) is Some,
        names matches Some(held) ==> {
            &&& held@.len() == FORMS
            &&& explanation_reading(bytes@) == Some(held@.map_values(|name: Option<String>| spoken_text(name)))
        },
{
    nyanko::cat::unit::UnitExplanation::parse(bytes, None).ok().map(|held| held.names.to_vec())
}

/// Which forms a unit explanation table names: none where nyanko refuses it.
pub open spec fn named_forms(bytes: Seq<u8>) -> Seq<bool> {
    match explanation_reading(bytes) {
        Some(names) => Seq::new(FORMS as nat, |form: int| names[form] is Some),
        None => seq![false, false, false, false],
    }
}

/// Reads which forms a table names; see [`named_forms`].
pub fn named(bytes: &[u8]) -> (forms: [bool; 4])
    ensures
        forms@ == named_forms(bytes@),
{
    match explanation_names(bytes) {
        Some(names) => {
            let forms = [names[0].is_some(), names[1].is_some(), names[2].is_some(), names[3].is_some()];
            assert(forms@ == named_forms(bytes@));
            forms
        },
        None => {
            let forms = [false, false, false, false];
            assert(forms@ == named_forms(bytes@));
            forms
        },
    }
}

/// One row of a table that changed: its key (the row's line number for the
/// explanation tables), and the row as it was and as it is, where it exists.
#[derive(Clone, Debug)]
pub struct RowDelta {
    /// The row's key.
    pub key: String,
    /// The row before the change.
    pub before: Option<String>,
    /// The row after the change.
    pub after: Option<String>,
}

/// The first changed row under a key.
pub open spec fn row_for(rows: Seq<RowDelta>, key: Seq<char>) -> Option<RowDelta>
    decreases rows.len(),
{
    if rows.len() == 0 {
        None
    } else if rows[0].key@ == key {
        Some(rows[0])
    } else {
        row_for(rows.drop_first(), key)
    }
}

/// The line an optional row gives.
pub open spec fn line_of(row: Option<String>) -> Seq<Seq<char>> {
    match row {
        Some(text) => seq![text@],
        None => Seq::empty(),
    }
}

/// The first `upto` lines of a table as they were: a line whose number is a
/// changed row's key becomes that row's old text (or goes, for a row that is
/// new), and any other line stays.
pub open spec fn earlier_lines(lines: Seq<Seq<char>>, rows: Seq<RowDelta>, upto: int) -> Seq<Seq<char>>
    decreases upto,
{
    if upto <= 0 {
        Seq::empty()
    } else {
        let at = upto - 1;
        earlier_lines(lines, rows, at) + match row_for(rows, decimal(at)) {
            Some(row) => line_of(row.before),
            None => seq![lines[at]],
        }
    }
}

/// The old text of the rows that were taken out, in order.
pub open spec fn removed_lines(rows: Seq<RowDelta>) -> Seq<Seq<char>>
    decreases rows.len(),
{
    if rows.len() == 0 {
        Seq::empty()
    } else {
        removed_lines(rows.drop_last()) + if rows.last().after is None {
            line_of(rows.last().before)
        } else {
            Seq::empty()
        }
    }
}

/// A table as it was before its changes: its lines put back as they were,
/// then the rows taken out, joined by line feeds.
pub open spec fn restored(current: Seq<char>, rows: Seq<RowDelta>) -> Seq<char> {
    let lines = plain_lines(current);
    joined_by(earlier_lines(lines, rows, lines.len() as int) + removed_lines(rows), '\n')
}

fn find_row(rows: &[RowDelta], key: &[char]) -> (found: Option<usize>)
    ensures
        match found {
            Some(at) => at < rows@.len() && row_for(rows@, key@) == Some(rows@[at as int]),
            None => row_for(rows@, key@) is None,
        },
{
    let mut at: usize = 0;
    assert(rows@.skip(0) == rows@);
    while at < rows.len()
        invariant
            at <= rows@.len(),
            row_for(rows@, key@) == row_for(rows@.skip(at as int), key@),
        decreases rows@.len() - at,
    {
        assert(rows@.skip(at as int).drop_first() == rows@.skip(at + 1));
        if same_text(chars_of(rows[at].key.as_str()).as_slice(), key) {
            return Some(at);
        }
        at = at + 1;
    }
    None
}

fn push_line(out: &mut Vec<Vec<char>>, row: &Option<String>)
    ensures
        final(out)@.map_values(|line: Vec<char>| line@) == old(out)@.map_values(|line: Vec<char>| line@) + line_of(*row),
{
    if let Some(text) = row {
        out.push(chars_of(text.as_str()));
    }
    assert(out@.map_values(|line: Vec<char>| line@) == old(out)@.map_values(|line: Vec<char>| line@) + line_of(*row));
}

fn join_lines(pieces: &Vec<Vec<char>>) -> (text: Vec<char>)
    ensures
        text@ == joined_by(pieces@.map_values(|line: Vec<char>| line@), '\n'),
{
    let mut text: Vec<char> = Vec::new();
    let mut at: usize = 0;
    while at < pieces.len()
        invariant
            at <= pieces@.len(),
            text@ == joined_by(pieces@.take(at as int).map_values(|line: Vec<char>| line@), '\n'),
        decreases pieces@.len() - at,
    {
        let ghost done = pieces@.take(at as int).map_values(|line: Vec<char>| line@);
        if at > 0 {
            text.push('\n');
        }
        extend(&mut text, pieces[at].as_slice());
        assert(pieces@.take(at + 1).map_values(|line: Vec<char>| line@) == done.push(pieces@[at as int]@));
        assert(done.push(pieces@[at as int]@).drop_last() == done);
        at = at + 1;
    }
    assert(pieces@.take(at as int) == pieces@);
    text
}

/// Puts a table back as it was before its changes; see [`restored`].
pub fn restore(current: &str, rows: &[RowDelta]) -> (earlier: String)
    ensures
        earlier@ == restored(current@, rows@),
{
    let lines = lines_in(chars_of(current).as_slice());
    let ghost views = lines@.map_values(|line: Vec<char>| line@);
    let mut kept: Vec<Vec<char>> = Vec::new();
    let mut at: usize = 0;
    while at < lines.len()
        invariant
            at <= lines@.len(),
            views == lines@.map_values(|line: Vec<char>| line@),
            kept@.map_values(|line: Vec<char>| line@) == earlier_lines(views, rows@, at as int),
        decreases lines@.len() - at,
    {
        let key = decimal_text(at as i128);
        match find_row(rows, key.as_slice()) {
            Some(found) => push_line(&mut kept, &rows[found].before),
            None => {
                let ghost before = kept@.map_values(|line: Vec<char>| line@);
                let line = copy_range(lines[at].as_slice(), 0, lines[at].len());
                assert(line@ == views[at as int]);
                kept.push(line);
                assert(kept@.map_values(|line: Vec<char>| line@) == before + seq![views[at as int]]);
            },
        }
        at = at + 1;
    }
    let mut index: usize = 0;
    let ghost middle = kept@.map_values(|line: Vec<char>| line@);
    while index < rows.len()
        invariant
            index <= rows@.len(),
            kept@.map_values(|line: Vec<char>| line@) == middle + removed_lines(rows@.take(index as int)),
        decreases rows@.len() - index,
    {
        assert(rows@.take(index + 1).drop_last() == rows@.take(index as int));
        if rows[index].after.is_none() {
            push_line(&mut kept, &rows[index].before);
        }
        index = index + 1;
    }
    assert(rows@.take(index as int) == rows@);
    text_string(join_lines(&kept).as_slice())
}

/// The forms, among the first `upto`, that are named now and were not before.
pub open spec fn fresh_forms(now: Seq<bool>, was: Seq<bool>, upto: int) -> Seq<int>
    decreases upto,
{
    if upto <= 0 {
        Seq::empty()
    } else {
        let prior = fresh_forms(now, was, upto - 1);
        if now[upto - 1] && !was[upto - 1] {
            prior.push(upto - 1)
        } else {
            prior
        }
    }
}

/// The unit forms a unit explanation table gained a name for in its
/// language: the forms named in the table as it is and not in the table as
/// it was (put back from its changed rows; a table new to the diff named
/// none). A file that is no explanation table gains none.
pub open spec fn arrivals_in(file: Seq<char>, bytes: Seq<u8>, changed: bool, rows: Seq<RowDelta>) -> Seq<(u32, int, Seq<char>)> {
    match explained(file) {
        Some((unit, code)) => {
            let after = lossy_text(bytes);
            let now = named_forms(vstd::utf8::encode_utf8(after));
            let was = if changed {
                named_forms(vstd::utf8::encode_utf8(restored(after, rows)))
            } else {
                seq![false, false, false, false]
            };
            fresh_forms(now, was, FORMS as int).map_values(|form: int| (unit, form, code))
        },
        None => Seq::empty(),
    }
}

/// The forms a unit explanation table gained a name for; see
/// [`arrivals_in`]. `bytes` is the table as it is now and `rows` its changed
/// rows, where it `changed` rather than arrived whole.
pub fn cat_arrivals(file: &str, bytes: &[u8], changed: bool, rows: &[RowDelta]) -> (found: Vec<(u32, usize, String)>)
    ensures
        found@.map_values(|arrival: (u32, usize, String)| (arrival.0, arrival.1 as int, arrival.2@)) == arrivals_in(
            file@,
            bytes@,
            changed,
            rows@,
        ),
{
    let (unit, code) = match explanation(file) {
        Some(found) => found,
        None => return Vec::new(),
    };
    let after = decoded(bytes);
    let now = named(encode(false, after.as_slice()).as_slice());
    let was: [bool; 4] = if changed {
        let earlier = restore(text_string(after.as_slice()).as_str(), rows);
        named(encode(false, chars_of(earlier.as_str()).as_slice()).as_slice())
    } else {
        [false, false, false, false]
    };
    let ghost now_view = now@;
    let ghost was_view = was@;
    assert(was_view == if changed {
        named_forms(vstd::utf8::encode_utf8(restored(after@, rows@)))
    } else {
        seq![false, false, false, false]
    });
    let mut found: Vec<(u32, usize, String)> = Vec::new();
    let mut form: usize = 0;
    while form < FORMS
        invariant
            form <= FORMS,
            now_view == now@,
            was_view == was@,
            now@.len() == 4,
            was@.len() == 4,
            found@.map_values(|arrival: (u32, usize, String)| (arrival.0, arrival.1 as int, arrival.2@)) == fresh_forms(
                now_view,
                was_view,
                form as int,
            ).map_values(|at: int| (unit, at, code@)),
        decreases FORMS - form,
    {
        let ghost before = found@.map_values(|arrival: (u32, usize, String)| (arrival.0, arrival.1 as int, arrival.2@));
        if now[form] && !was[form] {
            found.push((unit, form, code.clone()));
            assert(found@.map_values(|arrival: (u32, usize, String)| (arrival.0, arrival.1 as int, arrival.2@)) == before.push(
                (unit, form as int, code@),
            ));
        }
        form = form + 1;
    }
    found
}

/// The delimiter a localized text table separates its columns with.
#[derive(Clone, Copy, PartialEq, Eq, Debug, Structural)]
pub enum Delimiter {
    /// A vertical bar.
    Pipe,
    /// A horizontal tab.
    Tab,
    /// A comma.
    Comma,
}

impl View for Delimiter {
    type V = char;

    /// The character the delimiter stands for.
    open spec fn view(&self) -> char {
        match self {
            Delimiter::Pipe => '|',
            Delimiter::Tab => '\t',
            Delimiter::Comma => ',',
        }
    }
}

/// What nyanko's `EnemyName::parse` reads from a piece of text: the name of
/// each of its rows (none for a blank or placeholder row), or none where it
/// refuses the text.
pub uninterp spec fn enemy_name_reading(text: Seq<char>) -> Option<Seq<Option<Seq<char>>>>;

/// The rows nyanko's `enemy::EnemyName::parse` reads from a piece of text,
/// each as its name, or none where it refuses the text; what it reads is
/// only named.
#[verifier::external_body]
fn enemy_names(text: &str) -> (names: Option<Vec<Option<String>>>)
    ensures
        match names {
            Some(held) => enemy_name_reading(text@) == Some(held@.map_values(|name: Option<String>| spoken_text(name))),
            None => enemy_name_reading(text@) is None,
        },
{
    nyanko::enemy::EnemyName::parse(text).ok().map(|rows| rows.into_iter().map(|row| row.name).collect())
}

/// The lines of an optional description.
pub open spec fn described_text(description: Option<Vec<String>>) -> Option<Seq<Seq<char>>> {
    match description {
        Some(lines) => Some(lines@.map_values(|line: String| line@)),
        None => None,
    }
}

/// What nyanko's `EnemyPictureBook::parse` reads from a piece of text whose
/// columns the given character separates: the description of each of its
/// rows (none for a row with no real text), or none where it refuses the text.
pub uninterp spec fn picture_book_reading(text: Seq<char>, separator: char) -> Option<Seq<Option<Seq<Seq<char>>>>>;

/// The rows nyanko's `enemy::EnemyPictureBook::parse` reads from a piece of
/// text with the given delimiter, each as its description, or none where it
/// refuses the text; what it reads is only named.
#[verifier::external_body]
fn book_descriptions(text: &str, separator: Delimiter) -> (descriptions: Option<Vec<Option<Vec<String>>>>)
    ensures
        match descriptions {
            Some(held) => picture_book_reading(text@, separator@) == Some(
                held@.map_values(|description: Option<Vec<String>>| described_text(description)),
            ),
            None => picture_book_reading(text@, separator@) is None,
        },
{
    let divider = match separator {
        Delimiter::Pipe => nyanko::common::Separator::Pipe,
        Delimiter::Tab => nyanko::common::Separator::Tab,
        Delimiter::Comma => nyanko::common::Separator::Comma,
    };
    nyanko::enemy::EnemyPictureBook::parse(text, Some(divider)).ok().map(
        |rows| rows.into_iter().map(|row| row.description).collect(),
    )
}

/// The map identifiers nyanko's `MapName::parse` reads from a table whose
/// columns the given character separates, or none where it refuses the table.
pub uninterp spec fn map_title_reading(bytes: Seq<u8>, separator: char) -> Option<Set<u32>>;

/// The map identifiers nyanko's `chapter::map::MapName::parse` reads from a
/// table with the given delimiter, or none where it refuses the table. They
/// are the keys of a `HashMap`, so each comes once, in an order that is not
/// stated; which identifiers they are is only named.
#[verifier::external_body]
fn map_titles(bytes: &[u8], separator: Delimiter) -> (ids: Option<Vec<u32>>)
    ensures
        match ids {
            Some(held) => held@.no_duplicates() && map_title_reading(bytes@, separator@) == Some(held@.to_set()),
            None => map_title_reading(bytes@, separator@) is None,
        },
{
    let divider = match separator {
        Delimiter::Pipe => nyanko::common::Separator::Pipe,
        Delimiter::Tab => nyanko::common::Separator::Tab,
        Delimiter::Comma => nyanko::common::Separator::Comma,
    };
    nyanko::chapter::map::MapName::parse(bytes, Some(divider)).ok().map(|held| held.names.into_keys().collect())
}

/// The maps a table names: none where nyanko refuses it.
pub open spec fn title_set(bytes: Seq<u8>, separator: char) -> Set<u32> {
    match map_title_reading(bytes, separator) {
        Some(ids) => ids,
        None => Set::empty(),
    }
}

/// The maps a table names, each once; see [`title_set`]. Their order is the
/// order nyanko hands them out in.
pub fn titles(bytes: &[u8], separator: Delimiter) -> (ids: Vec<u32>)
    ensures
        ids@.no_duplicates(),
        ids@.to_set() == title_set(bytes@, separator@),
{
    match map_titles(bytes, separator) {
        Some(ids) => ids,
        None => {
            let ids: Vec<u32> = Vec::new();
            assert(ids@.to_set() =~= Set::empty());
            ids
        },
    }
}

/// The maps a single row of a map name table names.
pub open spec fn row_titles(line: Seq<char>, separator: char) -> Set<u32> {
    title_set(vstd::utf8::encode_utf8(line), separator)
}

/// The map a row of a map name table names, if it names one: a row naming
/// several gives one of them.
pub fn titled(line: &str, separator: Delimiter) -> (map: Option<u32>)
    ensures
        match map {
            Some(id) => row_titles(line@, separator@).contains(id),
            None => row_titles(line@, separator@) == Set::<u32>::empty(),
        },
{
    let ids = titles(line.as_bytes(), separator);
    if ids.len() == 0 {
        assert(ids@ =~= Seq::<u32>::empty());
        assert(ids@.to_set() =~= Set::<u32>::empty());
        None
    } else {
        assert(ids@.to_set().contains(ids@[0]));
        Some(ids[0])
    }
}

/// Whether the first row of a reading holds something.
pub open spec fn first_held<T>(rows: Option<Seq<Option<T>>>) -> bool {
    match rows {
        Some(held) => held.len() > 0 && held[0] is Some,
        None => false,
    }
}

/// Whether a row of an enemy table is a real localization in the table's
/// language: nyanko reads a name (or a description, in the picture book) for
/// it, and not a blank or a placeholder.
pub open spec fn line_reads(table: Table, line: Seq<char>, separator: char) -> bool {
    match table {
        Table::Names => first_held(enemy_name_reading(line)),
        Table::Book => first_held(picture_book_reading(line, separator)),
    }
}

/// Reads whether a row of an enemy table is a localization; see [`line_reads`].
pub fn reads(table: Table, line: &str, separator: Delimiter) -> (found: bool)
    ensures
        found == line_reads(table, line@, separator@),
{
    match table {
        Table::Names => match enemy_names(line) {
            Some(rows) => rows.len() > 0 && rows[0].is_some(),
            None => false,
        },
        Table::Book => match book_descriptions(line, separator) {
            Some(rows) => rows.len() > 0 && rows[0].is_some(),
            None => false,
        },
    }
}

/// Whether an optional row reads as a localization.
pub open spec fn row_reads(table: Table, row: Option<String>, separator: char) -> bool {
    match row {
        Some(text) => line_reads(table, text@, separator),
        None => false,
    }
}

/// The numbers, among the first `upto` lines, of the lines that read as a
/// localization.
pub open spec fn reading_lines(table: Table, lines: Seq<Seq<char>>, separator: char, upto: int) -> Seq<u32>
    decreases upto,
{
    if upto <= 0 {
        Seq::empty()
    } else {
        let prior = reading_lines(table, lines, separator, upto - 1);
        if line_reads(table, lines[upto - 1], separator) {
            prior.push((upto - 1) as u32)
        } else {
            prior
        }
    }
}

/// The enemies whose changed rows became a localization: a row whose key
/// reads as a number, which reads as one now and did not before (or did not
/// exist), in the order of the rows.
pub open spec fn gained_rows(table: Table, rows: Seq<RowDelta>, separator: char) -> Seq<u32>
    decreases rows.len(),
{
    if rows.len() == 0 {
        Seq::empty()
    } else {
        let prior = gained_rows(table, rows.drop_last(), separator);
        let row = rows.last();
        match count_reading(row.key@) {
            Some(id) => if row_reads(table, row.after, separator) && !row_reads(table, row.before, separator) {
                prior.push(id)
            } else {
                prior
            },
            None => prior,
        }
    }
}

/// The enemies an enemy table localized: where it arrived whole, the number
/// of each of its lines that reads as a localization; where it `changed`, the
/// key of each changed row that became one.
pub open spec fn enemy_arrivals_in(
    table: Table,
    bytes: Seq<u8>,
    changed: bool,
    rows: Seq<RowDelta>,
    separator: char,
) -> Seq<u32> {
    if changed {
        gained_rows(table, rows, separator)
    } else {
        let lines = plain_lines(lossy_text(bytes));
        reading_lines(table, lines, separator, lines.len() as int)
    }
}

fn row_reading(table: Table, row: &Option<String>, separator: Delimiter) -> (found: bool)
    ensures
        found == row_reads(table, *row, separator@),
{
    match row {
        Some(text) => reads(table, text.as_str(), separator),
        None => false,
    }
}

/// The enemies an enemy table localized; see [`enemy_arrivals_in`]. `bytes`
/// is the table as it is now and `rows` its changed rows, where it `changed`
/// rather than arrived whole.
pub fn enemy_arrivals(table: Table, bytes: &[u8], changed: bool, rows: &[RowDelta], separator: Delimiter) -> (found: Vec<u32>)
    ensures
        found@ == enemy_arrivals_in(table, bytes@, changed, rows@, separator@),
{
    let mut found: Vec<u32> = Vec::new();
    if changed {
        let mut at: usize = 0;
        while at < rows.len()
            invariant
                at <= rows@.len(),
                found@ == gained_rows(table, rows@.take(at as int), separator@),
            decreases rows@.len() - at,
        {
            assert(rows@.take(at + 1).drop_last() == rows@.take(at as int));
            assert(rows@.take(at + 1).last() == rows@[at as int]);
            if let Some(id) = parsed_count(chars_of(rows[at].key.as_str()).as_slice()) {
                if row_reading(table, &rows[at].after, separator) && !row_reading(table, &rows[at].before, separator) {
                    found.push(id);
                }
            }
            at = at + 1;
        }
        assert(rows@.take(at as int) == rows@);
    } else {
        let text = decoded(bytes);
        let lines = lines_in(text.as_slice());
        let ghost views = lines@.map_values(|line: Vec<char>| line@);
        let mut at: usize = 0;
        while at < lines.len()
            invariant
                at <= lines@.len(),
                views == lines@.map_values(|line: Vec<char>| line@),
                views == plain_lines(lossy_text(bytes@)),
                found@ == reading_lines(table, views, separator@, at as int),
            decreases lines@.len() - at,
        {
            let line = text_string(lines[at].as_slice());
            assert(line@ == views[at as int]);
            if reads(table, line.as_str(), separator) {
                found.push(at as u32);
            }
            at = at + 1;
        }
    }
    found
}

/// Whether a changed row of a map name table names a map now and named none
/// before (or did not exist).
pub open spec fn gains_title(row: RowDelta, separator: char) -> bool {
    &&& row.after matches Some(text) && row_titles(text@, separator) != Set::<u32>::empty()
    &&& match row.before {
        Some(text) => row_titles(text@, separator) == Set::<u32>::empty(),
        None => true,
    }
}

/// The changed rows that came to name a map, in order.
pub open spec fn titled_rows(rows: Seq<RowDelta>, separator: char) -> Seq<RowDelta>
    decreases rows.len(),
{
    if rows.len() == 0 {
        Seq::empty()
    } else {
        let prior = titled_rows(rows.drop_last(), separator);
        if gains_title(rows.last(), separator) {
            prior.push(rows.last())
        } else {
            prior
        }
    }
}

/// The maps a map name table localized. Where it arrived whole: every map it
/// names, each once. Where it `changed`: one map for each changed row that
/// came to name one (see [`gains_title`]), in the order of the rows, the map
/// that row names now (a row naming several gives one of them).
pub fn stage_arrivals(bytes: &[u8], changed: bool, rows: &[RowDelta], separator: Delimiter) -> (found: Vec<u32>)
    ensures
        !changed ==> found@.no_duplicates() && found@.to_set() == title_set(bytes@, separator@),
        changed ==> found@.len() == titled_rows(rows@, separator@).len(),
        changed ==> forall|k: int|
            0 <= k < found@.len() ==> row_titles(
                titled_rows(rows@, separator@)[k].after->Some_0@,
                separator@,
            ).contains(#[trigger] found@[k]),
{
    if !changed {
        return titles(bytes, separator);
    }
    let mut found: Vec<u32> = Vec::new();
    let mut at: usize = 0;
    while at < rows.len()
        invariant
            at <= rows@.len(),
            found@.len() == titled_rows(rows@.take(at as int), separator@).len(),
            forall|k: int|
                0 <= k < found@.len() ==> row_titles(
                    titled_rows(rows@.take(at as int), separator@)[k].after->Some_0@,
                    separator@,
                ).contains(#[trigger] found@[k]),
        decreases rows@.len() - at,
    {
        let ghost done = titled_rows(rows@.take(at as int), separator@);
        assert(rows@.take(at + 1).drop_last() == rows@.take(at as int));
        assert(rows@.take(at + 1).last() == rows@[at as int]);
        let now = match &rows[at].after {
            Some(text) => titled(text.as_str(), separator),
            None => None,
        };
        if let Some(map) = now {
            let earlier = match &rows[at].before {
                Some(text) => titled(text.as_str(), separator),
                None => None,
            };
            if earlier.is_none() {
                found.push(map);
                assert(titled_rows(rows@.take(at + 1), separator@) == done.push(rows@[at as int]));
            }
        }
        at = at + 1;
    }
    assert(rows@.take(at as int) == rows@);
    found
}

/// The languages recorded for one unit, enemy or map, as text.
pub open spec fn spoken_codes(spoken: Seq<String>) -> Seq<Seq<char>> {
    spoken.map_values(|held: String| held@)
}

/// Records that a unit, enemy or map speaks a language: the code joins its
/// list unless the list already holds it.
pub fn record(spoken: &mut Vec<String>, code: &str)
    ensures
        spoken_codes(final(spoken)@) == if spoken_codes(old(spoken)@).contains(code@) {
            spoken_codes(old(spoken)@)
        } else {
            spoken_codes(old(spoken)@).push(code@)
        },
{
    let wanted = chars_of(code);
    let mut at: usize = 0;
    while at < spoken.len()
        invariant
            at <= spoken@.len(),
            wanted@ == code@,
            spoken@ == old(spoken)@,
            forall|k: int| 0 <= k < at ==> spoken@[k]@ != code@,
        decreases spoken@.len() - at,
    {
        if same_text(chars_of(spoken[at].as_str()).as_slice(), wanted.as_slice()) {
            assert(spoken_codes(spoken@)[at as int] == code@);
            return;
        }
        at = at + 1;
    }
    assert(!spoken_codes(spoken@).contains(code@)) by {
        if spoken_codes(spoken@).contains(code@) {
            let k = choose|k: int| 0 <= k < spoken_codes(spoken@).len() && spoken_codes(spoken@)[k] == code@;
            assert(spoken@[k]@ == code@);
        }
    }
    let ghost before = spoken@;
    spoken.push(text_string(wanted.as_slice()));
    assert(spoken_codes(spoken@) =~= spoken_codes(before).push(code@));
}

} // verus!
