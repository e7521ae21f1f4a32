//! The cat combo table: which columns the editor lets through, how a new
//! combo is seeded and keyed, how its rows, members and choices are labelled,
//! and how the unit catalogue its members are picked from is searched.

use vstd::prelude::*;

use crate::resolved::Rule;
use crate::text::{chars_of, decimal, decimal_text, find, int_reading, parsed_int, same_text, text_string, trimmed, trimmed_text};

verus! {

/// The value an empty member slot or a missing cell holds.
pub const ABSENT: i32 = -1;

/// The series a retired combo is moved to.
pub const RETIRED: i32 = -1;

// ---------------------------------------------------------------------------
// Keys: every combo row starts with its id and then its series.
// ---------------------------------------------------------------------------

/// The series and id a combo row declares: its first two pieces (split on
/// `mark`), trimmed and read as integers; none where either is missing or
/// does not read.
pub open spec fn key_read(line: Seq<char>, mark: char) -> Option<(i32, i32)> {
    let cut = find(line, mark);
    let rest = line.skip(cut + 1);
    match int_reading(trimmed_text(line.take(cut))) {
        Some(combo_id) => if cut < line.len() {
            match int_reading(trimmed_text(rest.take(find(rest, mark)))) {
                Some(series) => Some((series, combo_id)),
                None => None,
            }
        } else {
            None
        },
        None => None,
    }
}

/// The first position of `mark` in `text`, or its length.
fn position(text: &[char], mark: char) -> (at: usize)
    ensures
        at == find(text@, mark),
        at <= text@.len(),
{
    let mut at: usize = 0;
    while at < text.len() && text[at] != mark
        invariant
            at <= text@.len(),
            forall|k: int| 0 <= k < at ==> text@[k] != mark,
        decreases text@.len() - at,
    {
        at = at + 1;
    }
    proof {
        crate::text::lemma_find_at(text@, mark, at as int);
    }
    at
}

/// Reads the key of a combo row; see [`key_read`].
pub fn key_of(line: &str, delimiter: char) -> (key: Option<(i32, i32)>)
    ensures
        key == key_read(line@, delimiter),
{
    let glyphs = chars_of(line);
    let cut = position(glyphs.as_slice(), delimiter);
    let head = crate::text::copy_range(glyphs.as_slice(), 0, cut);
    let combo_id = match parsed_int(trimmed(head.as_slice()).as_slice()) {
        Some(combo_id) => combo_id,
        None => return None,
    };
    if cut >= glyphs.len() {
        return None;
    }
    let rest = crate::text::copy_range(glyphs.as_slice(), cut + 1, glyphs.len());
    assert(rest@ == glyphs@.skip(cut + 1));
    let second = position(rest.as_slice(), delimiter);
    let piece = crate::text::copy_range(rest.as_slice(), 0, second);
    match parsed_int(trimmed(piece.as_slice()).as_slice()) {
        Some(series) => Some((series, combo_id)),
        None => None,
    }
}

/// The keys of the rows that declare one, in order.
pub open spec fn keys_in(lines: Seq<String>, mark: char) -> Seq<(i32, i32)>
    decreases lines.len(),
{
    if lines.len() == 0 {
        Seq::empty()
    } else {
        let prior = keys_in(lines.drop_last(), mark);
        match key_read(lines.last()@, mark) {
            Some(key) => prior.push(key),
            None => prior,
        }
    }
}

/// The highest series among some keys.
pub open spec fn top_series(keys: Seq<(i32, i32)>) -> Option<i32>
    decreases keys.len(),
{
    if keys.len() == 0 {
        None
    } else {
        let here = keys.last().0;
        match top_series(keys.drop_last()) {
            Some(held) => Some(if held >= here { held } else { here }),
            None => Some(here),
        }
    }
}

/// The highest id among the keys of one series.
pub open spec fn top_id(keys: Seq<(i32, i32)>, series: i32) -> Option<i32>
    decreases keys.len(),
{
    if keys.len() == 0 {
        None
    } else {
        let prior = top_id(keys.drop_last(), series);
        let (held_series, id) = keys.last();
        if held_series != series {
            prior
        } else {
            match prior {
                Some(held) => Some(if held >= id { held } else { id }),
                None => Some(id),
            }
        }
    }
}

/// The key a new combo takes: the series it was opened on where that is a
/// live (positive) one, otherwise the highest series any row declares (and
/// at least the first); and the id after the highest one in that series, or
/// zero for a series with no rows yet.
pub open spec fn next_key_in(lines: Seq<String>, mark: char, current: i32) -> (i32, i32) {
    let keys = keys_in(lines, mark);
    let series = if current > 0 {
        current
    } else {
        match top_series(keys) {
            Some(top) => if top > 1 { top } else { 1 },
            None => 1,
        }
    };
    let next = match top_id(keys, series) {
        Some(highest) => if highest < i32::MAX { highest + 1 } else { i32::MAX as int },
        None => 0,
    };
    (series, next as i32)
}

/// Works out the key of a new combo; see [`next_key_in`].
pub fn next_key(lines: &[String], delimiter: char, current: i32) -> (key: (i32, i32))
    ensures
        key == next_key_in(lines@, delimiter, current),
{
    let mut keys: Vec<(i32, i32)> = Vec::new();
    let mut at: usize = 0;
    while at < lines.len()
        invariant
            at <= lines@.len(),
            keys@ == keys_in(lines@.take(at as int), delimiter),
        decreases lines@.len() - at,
    {
        assert(lines@.take(at + 1).drop_last() == lines@.take(at as int));
        match key_of(lines[at].as_str(), delimiter) {
            Some(key) => keys.push(key),
            None => {},
        }
        at = at + 1;
    }
    assert(lines@.take(at as int) == lines@);
    let series = if current > 0 {
        current
    } else {
        match highest_series(&keys) {
            Some(top) => if top > 1 { top } else { 1 },
            None => 1,
        }
    };
    let next = match highest_id(&keys, series) {
        Some(highest) => if highest < i32::MAX { highest + 1 } else { i32::MAX },
        None => 0,
    };
    (series, next)
}

/// The text each field holds.
pub open spec fn texts_of(fields: Seq<String>) -> Seq<Seq<char>> {
    fields.map_values(|field: String| field@)
}

/// The fields after `value` is written, in decimal, into the field at
/// `place`, where there is such a field.
pub open spec fn written_into(texts: Seq<Seq<char>>, place: Option<usize>, value: i32) -> Seq<Seq<char>> {
    match place {
        Some(at) => if at < texts.len() {
            texts.update(at as int, decimal(value as int))
        } else {
            texts
        },
        None => texts,
    }
}

/// Writes `value` in decimal into the field at `place`; see [`written_into`].
fn write_into(fields: &mut Vec<String>, place: Option<usize>, value: i32)
    ensures
        texts_of(final(fields)@) == written_into(texts_of(old(fields)@), place, value),
{
    match place {
        Some(at) => if at < fields.len() {
            let text = decimal_text(value as i128);
            fields.set(at, text_string(text.as_slice()));
            assert(texts_of(fields@) =~= texts_of(old(fields)@).update(at as int, decimal(value as int)));
        } else {
            assert(texts_of(fields@) =~= texts_of(old(fields)@));
        },
        None => {
            assert(texts_of(fields@) =~= texts_of(old(fields)@));
        },
    }
}

/// Opens a blank combo with the unit it was summoned from: where there is an
/// anchor, its unit goes into the first member's unit field and its form into
/// that member's form field, at the places given.
pub fn seed(fields: &mut Vec<String>, unit_place: Option<usize>, form_place: Option<usize>, anchor: Option<(i32, i32)>)
    ensures
        texts_of(final(fields)@) == match anchor {
            Some((unit, form)) => written_into(written_into(texts_of(old(fields)@), unit_place, unit), form_place, form),
            None => texts_of(old(fields)@),
        },
{
    match anchor {
        Some((unit, form)) => {
            write_into(fields, unit_place, unit);
            write_into(fields, form_place, form);
        },
        None => {},
    }
}

/// The series a new combo is keyed in from what its series field holds: the
/// field trimmed and read as an integer, or [`RETIRED`] where there is no such
/// field or it does not read.
pub open spec fn series_held(fields: Seq<String>, place: Option<usize>) -> i32 {
    match place {
        Some(at) => if at < fields.len() {
            match int_reading(trimmed_text(fields[at as int]@)) {
                Some(series) => series,
                None => RETIRED,
            }
        } else {
            RETIRED
        },
        None => RETIRED,
    }
}

/// Keys a new combo: works out its series and id from the series its field
/// holds and the rows the file has (see [`next_key_in`]), and writes them into
/// the series and id fields at the places given.
pub fn seed_key(
    fields: &mut Vec<String>,
    series_place: Option<usize>,
    id_place: Option<usize>,
    lines: &[String],
    delimiter: char,
)
    ensures
        ({
            let key = next_key_in(lines@, delimiter, series_held(old(fields)@, series_place));
            texts_of(final(fields)@) == written_into(
                written_into(texts_of(old(fields)@), series_place, key.0),
                id_place,
                key.1,
            )
        }),
{
    let held: i32 = match series_place {
        Some(at) => if at < fields.len() {
            let raw = chars_of(fields[at].as_str());
            let kept = trimmed(raw.as_slice());
            match parsed_int(kept.as_slice()) {
                Some(series) => series,
                None => RETIRED,
            }
        } else {
            RETIRED
        },
        None => RETIRED,
    };
    let (series, combo_id) = next_key(lines, delimiter, held);
    write_into(fields, series_place, series);
    write_into(fields, id_place, combo_id);
}

fn highest_series(keys: &Vec<(i32, i32)>) -> (top: Option<i32>)
    ensures
        top == top_series(keys@),
{
    let mut top: Option<i32> = None;
    let mut at: usize = 0;
    while at < keys.len()
        invariant
            at <= keys@.len(),
            top == top_series(keys@.take(at as int)),
        decreases keys@.len() - at,
    {
        assert(keys@.take(at + 1).drop_last() == keys@.take(at as int));
        let here = keys[at].0;
        top = match top {
            Some(held) => Some(if held >= here { held } else { here }),
            None => Some(here),
        };
        at = at + 1;
    }
    assert(keys@.take(at as int) == keys@);
    top
}

fn highest_id(keys: &Vec<(i32, i32)>, series: i32) -> (top: Option<i32>)
    ensures
        top == top_id(keys@, series),
{
    let mut top: Option<i32> = None;
    let mut at: usize = 0;
    while at < keys.len()
        invariant
            at <= keys@.len(),
            top == top_id(keys@.take(at as int), series),
        decreases keys@.len() - at,
    {
        assert(keys@.take(at + 1).drop_last() == keys@.take(at as int));
        let (held_series, id) = keys[at];
        if held_series == series {
            top = match top {
                Some(held) => Some(if held >= id { held } else { id }),
                None => Some(id),
            };
        }
        at = at + 1;
    }
    assert(keys@.take(at as int) == keys@);
    top
}

// ---------------------------------------------------------------------------
// Labels.
// ---------------------------------------------------------------------------

/// The label of a combo row without a name of its own.
pub open spec fn keyed_text(series: i32, combo_id: i32) -> Seq<char> {
    seq!['C', 'o', 'm', 'b', 'o', ' '] + decimal(series as int) + seq!['-'] + decimal(combo_id as int)
}

/// Labels a combo by its key; see [`keyed_text`].
pub fn keyed(series: i32, combo_id: i32) -> (label: String)
    ensures
        label@ == keyed_text(series, combo_id),
{
    let mut glyphs = chars_of("Combo ");
    proof {
        reveal_strlit("Combo ");
    }
    crate::text::extend(&mut glyphs, decimal_text(series as i128).as_slice());
    glyphs.push('-');
    crate::text::extend(&mut glyphs, decimal_text(combo_id as i128).as_slice());
    text_string(glyphs.as_slice())
}

/// Digits padded with zeros on the left to at least `width` characters.
pub open spec fn zero_padded(digits: Seq<char>, width: int) -> Seq<char> {
    if digits.len() >= width {
        digits
    } else {
        Seq::new((width - digits.len()) as nat, |at: int| '0') + digits
    }
}

/// What an empty member slot shows: `+` where no unit sits in it, otherwise
/// the unit's id padded to three digits and its form counted from one.
pub open spec fn vacant_text(unit: i32, form: i32) -> Seq<char> {
    if unit < 0 {
        seq!['+']
    } else {
        let shown = if form > 0 { form as int } else { 0 };
        zero_padded(decimal(unit as int), 3) + seq!['-'] + decimal(shown + 1)
    }
}

/// Labels a member slot without an icon; see [`vacant_text`].
pub fn vacant_label(unit: i32, form: i32) -> (label: String)
    requires
        form < i32::MAX,
    ensures
        label@ == vacant_text(unit, form),
{
    if unit < 0 {
        let plus = "+".to_owned();
        proof {
            reveal_strlit("+");
        }
        return plus;
    }
    let digits = decimal_text(unit as i128);
    let mut glyphs: Vec<char> = Vec::new();
    let mut pad: usize = digits.len();
    while pad < 3
        invariant
            digits.len() <= pad <= 3 || (pad == digits.len() && pad >= 3),
            glyphs@ == Seq::new((pad - digits@.len()) as nat, |at: int| '0'),
        decreases 3 - pad,
    {
        glyphs.push('0');
        pad = pad + 1;
        assert(glyphs@ == Seq::new((pad - digits@.len()) as nat, |at: int| '0'));
    }
    crate::text::extend(&mut glyphs, digits.as_slice());
    glyphs.push('-');
    let shown: i32 = if form > 0 { form } else { 0 };
    crate::text::extend(&mut glyphs, decimal_text(shown as i128 + 1).as_slice());
    text_string(glyphs.as_slice())
}

/// The name a combo row is given in the names file, where it has one that is
/// not blank.
pub open spec fn spoken_name(names: Seq<Option<String>>, line: int) -> Option<String> {
    if 0 <= line < names.len() {
        match names[line] {
            Some(name) => if trimmed_text(name@).len() > 0 { Some(name) } else { None },
            None => None,
        }
    } else {
        None
    }
}

/// Looks up the name of a combo row; see [`spoken_name`].
pub fn spoken(names: &[Option<String>], line: usize) -> (name: Option<String>)
    ensures
        name == spoken_name(names@, line as int),
{
    if line >= names.len() {
        return None;
    }
    match &names[line] {
        Some(name) => {
            let glyphs = chars_of(name.as_str());
            if trimmed(glyphs.as_slice()).len() > 0 {
                Some(name.clone())
            } else {
                None
            }
        },
        None => None,
    }
}

/// The label of combo row `line`: the name the names file gives it, where it
/// gives one; otherwise its key, as `(series, id)` in `keys`, or the retired
/// key where the table has no such row.
pub open spec fn titled_text(keys: Seq<(i32, i32)>, names: Seq<Option<String>>, line: int) -> Seq<char> {
    match spoken_name(names, line) {
        Some(name) => name@,
        None => if 0 <= line < keys.len() {
            keyed_text(keys[line].0, keys[line].1)
        } else {
            keyed_text(RETIRED, RETIRED)
        },
    }
}

/// Labels combo row `line`; see [`titled_text`].
pub fn titled(keys: &[(i32, i32)], names: &[Option<String>], line: usize) -> (label: String)
    ensures
        label@ == titled_text(keys@, names@, line as int),
{
    match spoken(names, line) {
        Some(name) => name,
        None => if line < keys.len() {
            keyed(keys[line].0, keys[line].1)
        } else {
            keyed(RETIRED, RETIRED)
        },
    }
}

/// One choice a picker offers: the raw value it stands for and the text shown.
pub struct Labelled {
    pub raw: i32,
    pub text: String,
}

/// The choices a table of texts offers after the first `upto` lines: each
/// line that holds text that is not blank, as its index and its text trimmed.
pub open spec fn offered(table: Seq<Option<String>>, upto: int) -> Seq<(i32, Seq<char>)>
    decreases upto,
{
    if upto <= 0 {
        Seq::empty()
    } else {
        let prior = offered(table, upto - 1);
        match table[upto - 1] {
            Some(text) => if trimmed_text(text@).len() > 0 {
                prior.push(((upto - 1) as i32, trimmed_text(text@)))
            } else {
                prior
            },
            None => prior,
        }
    }
}

/// The choices of a picker over a table of texts: first the one for nothing,
/// shown as `absent`, then each line of the table that holds text; see
/// [`offered`].
pub fn options(table: &[Option<String>], absent: &str) -> (choices: Vec<Labelled>)
    ensures
        choices@.map_values(|choice: Labelled| (choice.raw, choice.text@)) == seq![(ABSENT, absent@)] + offered(
            table@,
            table@.len() as int,
        ),
{
    let mut choices: Vec<Labelled> = Vec::new();
    choices.push(Labelled { raw: ABSENT, text: absent.to_owned() });
    let mut line: usize = 0;
    while line < table.len()
        invariant
            line <= table@.len(),
            choices@.map_values(|choice: Labelled| (choice.raw, choice.text@)) == seq![(ABSENT, absent@)] + offered(
                table@,
                line as int,
            ),
        decreases table@.len() - line,
    {
        let ghost prior = choices@;
        match &table[line] {
            Some(text) => {
                let kept = trimmed(chars_of(text.as_str()).as_slice());
                if kept.len() > 0 {
                    choices.push(Labelled { raw: line as i32, text: text_string(kept.as_slice()) });
                    assert(choices@.map_values(|choice: Labelled| (choice.raw, choice.text@)) =~= prior.map_values(
                        |choice: Labelled| (choice.raw, choice.text@),
                    ).push((line as i32, kept@)));
                }
            },
            None => {},
        }
        line += 1;
    }
    choices
}

// ---------------------------------------------------------------------------
// The unit catalogue a member is picked from.
// ---------------------------------------------------------------------------

/// What `str::to_lowercase` makes of a text: its lowercase form under the
/// Unicode tables of the standard library, which depends on the text alone.
pub uninterp spec fn lowercase_text(text: Seq<char>) -> Seq<char>;

/// Lowers a text with `str::to_lowercase`.
#[verifier::external_body]
fn lowercased(text: &[char]) -> (lowered: Vec<char>)
    ensures
        lowered@ == lowercase_text(text@),
{
    text.iter().collect::<String>().to_lowercase().chars().collect()
}

/// What a catalogue entry is searched by: the unit's id padded to three
/// digits, a space and the form's name, lowered.
pub open spec fn hunted_text(id: u32, name: Seq<char>) -> Seq<char> {
    lowercase_text(zero_padded(decimal(id as int), 3) + seq![' '] + name)
}

/// The text a catalogue entry is searched by; see [`hunted_text`].
pub fn hunted(id: u32, name: &str) -> (text: String)
    ensures
        text@ == hunted_text(id, name@),
{
    let digits = decimal_text(id as i128);
    let mut glyphs: Vec<char> = Vec::new();
    let mut pad: usize = digits.len();
    while pad < 3
        invariant
            digits.len() <= pad <= 3 || (pad == digits.len() && pad >= 3),
            glyphs@ == Seq::new((pad - digits@.len()) as nat, |at: int| '0'),
        decreases 3 - pad,
    {
        glyphs.push('0');
        pad = pad + 1;
        assert(glyphs@ == Seq::new((pad - digits@.len()) as nat, |at: int| '0'));
    }
    proof {
        if digits@.len() >= 3 {
            assert(glyphs@ =~= Seq::<char>::empty());
        }
    }
    crate::text::extend(&mut glyphs, digits.as_slice());
    assert(glyphs@ =~= zero_padded(decimal(id as int), 3));
    glyphs.push(' ');
    crate::text::extend(&mut glyphs, chars_of(name).as_slice());
    assert(glyphs@ =~= zero_padded(decimal(id as int), 3) + seq![' '] + name@);
    let lowered = lowercased(glyphs.as_slice());
    text_string(lowered.as_slice())
}

/// Whether `text` holds `piece` somewhere; every text holds the empty piece.
pub open spec fn holds_text(text: Seq<char>, piece: Seq<char>) -> bool {
    exists|at: int| 0 <= at && at + piece.len() <= text.len() && #[trigger] text.subrange(at, at + piece.len()) == piece
}

/// The entries among the first `upto` whose searchable text holds `wanted`.
pub open spec fn kept_entries(hunted: Seq<String>, wanted: Seq<char>, upto: int) -> Seq<usize>
    decreases upto,
{
    if upto <= 0 {
        Seq::empty()
    } else {
        let prior = kept_entries(hunted, wanted, upto - 1);
        if holds_text(hunted[upto - 1]@, wanted) {
            prior.push((upto - 1) as usize)
        } else {
            prior
        }
    }
}

/// Whether `text` holds `piece` starting at `at`.
fn piece_at(text: &[char], piece: &[char], at: usize) -> (found: bool)
    requires
        at + piece@.len() <= text@.len(),
    ensures
        found == (text@.subrange(at as int, at + piece@.len()) == piece@),
{
    let bound = text.len();
    let mut k: usize = 0;
    while k < piece.len()
        invariant
            bound == text@.len(),
            at + piece@.len() <= bound,
            k <= piece@.len(),
            forall|j: int| 0 <= j < k ==> text@[at + j] == piece@[j],
        decreases piece@.len() - k,
    {
        if text[at + k] != piece[k] {
            assert(text@.subrange(at as int, at + piece@.len())[k as int] != piece@[k as int]);
            return false;
        }
        k += 1;
    }
    assert(text@.subrange(at as int, at + piece@.len()) =~= piece@);
    true
}

/// Whether `text` holds `piece` somewhere; see [`holds_text`].
fn holds(text: &[char], piece: &[char]) -> (found: bool)
    ensures
        found == holds_text(text@, piece@),
{
    if piece.len() > text.len() {
        return false;
    }
    let last = text.len() - piece.len();
    let mut at: usize = 0;
    loop
        invariant
            last + piece@.len() == text@.len(),
            at <= last,
            forall|start: int| 0 <= start < at ==> #[trigger] text@.subrange(start, start + piece@.len()) != piece@,
        decreases last - at,
    {
        if piece_at(text, piece, at) {
            return true;
        }
        if at == last {
            return false;
        }
        at += 1;
    }
}

/// The entries whose searchable text holds `wanted`, by index; see
/// [`kept_entries`].
pub fn kept_by(hunted: &[String], wanted: &[char]) -> (kept: Vec<usize>)
    ensures
        kept@ == kept_entries(hunted@, wanted@, hunted@.len() as int),
{
    let mut kept: Vec<usize> = Vec::new();
    let mut at: usize = 0;
    while at < hunted.len()
        invariant
            at <= hunted@.len(),
            kept@ == kept_entries(hunted@, wanted@, at as int),
        decreases hunted@.len() - at,
    {
        if holds(chars_of(hunted[at].as_str()).as_slice(), wanted) {
            kept.push(at);
        }
        at += 1;
    }
    kept
}

/// What a search through the catalogue keeps: the entries whose searchable
/// text holds the search, trimmed and lowered, by index; every entry where
/// the search is blank, as every text holds the empty piece.
pub fn refine(hunted: &[String], hunt: &str) -> (kept: Vec<usize>)
    ensures
        kept@ == kept_entries(hunted@, lowercase_text(trimmed_text(hunt@)), hunted@.len() as int),
{
    let wanted = lowercased(trimmed(chars_of(hunt).as_slice()).as_slice());
    kept_by(hunted, wanted.as_slice())
}

/// The entries a window onto the search shows, by index: those the search
/// kept at positions `start` up to `end`, skipping any index past the
/// entries; none where that range does not lie within what it kept.
pub open spec fn window_picks(count: int, kept: Seq<usize>, start: int, end: int) -> Seq<int>
    decreases end - start,
{
    if !(0 <= start <= end <= kept.len()) || start == end {
        Seq::empty()
    } else {
        let prior = window_picks(count, kept, start, end - 1);
        if kept[end - 1] < count {
            prior.push(kept[end - 1] as int)
        } else {
            prior
        }
    }
}

/// The entries a window onto the search shows; see [`window_picks`]. Each is
/// a clone of the entry it shows.
pub fn window<T: Clone>(entries: &[T], kept: &[usize], start: usize, end: usize) -> (shown: Vec<T>)
    ensures
        shown@.len() == window_picks(entries@.len() as int, kept@, start as int, end as int).len(),
        forall|i: int|
            0 <= i < shown@.len() ==> cloned(
                entries@[window_picks(entries@.len() as int, kept@, start as int, end as int)[i]],
                #[trigger] shown@[i],
            ),
{
    let mut shown: Vec<T> = Vec::new();
    if start > end || end > kept.len() {
        return shown;
    }
    let mut at: usize = start;
    while at < end
        invariant
            start <= at <= end <= kept@.len(),
            shown@.len() == window_picks(entries@.len() as int, kept@, start as int, at as int).len(),
            forall|i: int|
                0 <= i < shown@.len() ==> cloned(
                    entries@[window_picks(entries@.len() as int, kept@, start as int, at as int)[i]],
                    #[trigger] shown@[i],
                ),
        decreases end - at,
    {
        let index = kept[at];
        if index < entries.len() {
            let copy = entries[index].clone();
            shown.push(copy);
        }
        at += 1;
    }
    shown
}

// ---------------------------------------------------------------------------
// Rules.
// ---------------------------------------------------------------------------

/// Whether a column is one of a combo's member cells or the two that describe
/// its effect and group, all of which read `-1` for nothing.
pub open spec fn floored_column(field: Seq<char>) -> bool {
    ||| field == "charagroup_id"@
    ||| field == "effect_type"@
    ||| field == "effect_level"@
    ||| field == "slot_1_unit_id"@
    ||| field == "slot_1_form"@
    ||| field == "slot_2_unit_id"@
    ||| field == "slot_2_form"@
    ||| field == "slot_3_unit_id"@
    ||| field == "slot_3_form"@
    ||| field == "slot_4_unit_id"@
    ||| field == "slot_4_form"@
    ||| field == "slot_5_unit_id"@
    ||| field == "slot_5_form"@
}

/// The rule for a combo column: its key columns are plain, the member and
/// effect columns may not go below `-1`, the unread fifteenth column is not
/// shown, and any other column has no rule.
pub open spec fn combo_rule(field: Seq<char>) -> Option<Rule> {
    if field == "combo_id"@ || field == "series"@ {
        Some(Rule::Plain)
    } else if floored_column(field) {
        Some(Rule::Floor(ABSENT))
    } else if field == "unknown_15"@ {
        Some(Rule::Opaque)
    } else {
        None
    }
}

fn named(field: &[char], name: &str) -> (same: bool)
    ensures
        same == (field@ == name@),
{
    same_text(field, chars_of(name).as_slice())
}

/// The rule for a combo column; see [`combo_rule`].
pub fn rule(field: &str) -> (rule: Option<Rule>)
    ensures
        rule == combo_rule(field@),
{
    let held = chars_of(field);
    let held = held.as_slice();
    if named(held, "combo_id") || named(held, "series") {
        Some(Rule::Plain)
    } else if named(held, "charagroup_id") || named(held, "effect_type") || named(held, "effect_level")
        || named(held, "slot_1_unit_id") || named(held, "slot_1_form") || named(held, "slot_2_unit_id")
        || named(held, "slot_2_form") || named(held, "slot_3_unit_id") || named(held, "slot_3_form")
        || named(held, "slot_4_unit_id") || named(held, "slot_4_form") || named(held, "slot_5_unit_id")
        || named(held, "slot_5_form") {
        Some(Rule::Floor(ABSENT))
    } else if named(held, "unknown_15") {
        Some(Rule::Opaque)
    } else {
        None
    }
}

// ---------------------------------------------------------------------------
// Members: a combo's units sit in slots, each a unit column and a form column.
// ---------------------------------------------------------------------------

/// The value of a cell, or [`ABSENT`] for one the row does not have.
pub open spec fn cell_at(cells: Seq<i32>, index: int) -> i32 {
    if 0 <= index < cells.len() {
        cells[index]
    } else {
        ABSENT
    }
}

/// The unit and form a slot holds.
pub open spec fn member(places: Seq<(usize, usize)>, cells: Seq<i32>, slot: int) -> (i32, i32) {
    (cell_at(cells, places[slot].0 as int), cell_at(cells, places[slot].1 as int))
}

/// The members of the first `upto` slots that hold a unit and a form, in
/// slot order.
pub open spec fn live_members(places: Seq<(usize, usize)>, cells: Seq<i32>, upto: int) -> Seq<(i32, i32)>
    decreases upto,
{
    if upto <= 0 {
        Seq::empty()
    } else {
        let prior = live_members(places, cells, upto - 1);
        let held = member(places, cells, upto - 1);
        if held.0 >= 0 && held.1 >= 0 {
            prior.push(held)
        } else {
            prior
        }
    }
}

/// What a slot holds once the members are packed to the front: the member
/// whose turn it is, or nothing.
pub open spec fn seated(live: Seq<(i32, i32)>, slot: int) -> (i32, i32) {
    if slot < live.len() {
        live[slot]
    } else {
        (ABSENT, ABSENT)
    }
}

/// Whether a cell does not already hold a value.
pub open spec fn differs(cells: Seq<i32>, index: int, raw: i32) -> bool {
    !(0 <= index < cells.len() && cells[index] == raw)
}

/// The cell writes that pack the members of the first `upto` slots, unit
/// column before form column, leaving out the cells that already hold what
/// they should.
pub open spec fn rewrites(places: Seq<(usize, usize)>, cells: Seq<i32>, upto: int) -> Seq<(usize, i32)>
    decreases upto,
{
    if upto <= 0 {
        Seq::empty()
    } else {
        let prior = rewrites(places, cells, upto - 1);
        let slot = upto - 1;
        let pair = seated(live_members(places, cells, places.len() as int), slot);
        let (unit, form) = places[slot];
        let with_unit = if differs(cells, unit as int, pair.0) {
            prior.push((unit, pair.0))
        } else {
            prior
        };
        if differs(cells, form as int, pair.1) {
            with_unit.push((form, pair.1))
        } else {
            with_unit
        }
    }
}

/// The cell writes that move a combo's members to the front, closing the gaps
/// a cleared member leaves; see [`rewrites`]. `places` holds each slot's unit
/// and form columns, in slot order.
pub fn packed(places: &[(usize, usize)], cells: &[i32]) -> (writes: Vec<(usize, i32)>)
    ensures
        writes@ == rewrites(places@, cells@, places@.len() as int),
{
    let mut live: Vec<(i32, i32)> = Vec::new();
    let mut slot: usize = 0;
    while slot < places.len()
        invariant
            slot <= places@.len(),
            live@ == live_members(places@, cells@, slot as int),
        decreases places@.len() - slot,
    {
        let (unit, form) = places[slot];
        let held = (read_cell(cells, unit), read_cell(cells, form));
        if held.0 >= 0 && held.1 >= 0 {
            live.push(held);
        }
        slot = slot + 1;
    }
    let mut writes: Vec<(usize, i32)> = Vec::new();
    let mut slot: usize = 0;
    while slot < places.len()
        invariant
            slot <= places@.len(),
            live@ == live_members(places@, cells@, places@.len() as int),
            writes@ == rewrites(places@, cells@, slot as int),
        decreases places@.len() - slot,
    {
        let pair = if slot < live.len() { live[slot] } else { (ABSENT, ABSENT) };
        let (unit, form) = places[slot];
        if !(unit < cells.len() && cells[unit] == pair.0) {
            writes.push((unit, pair.0));
        }
        if !(form < cells.len() && cells[form] == pair.1) {
            writes.push((form, pair.1));
        }
        slot = slot + 1;
    }
    writes
}

fn read_cell(cells: &[i32], index: usize) -> (value: i32)
    ensures
        value == cell_at(cells@, index as int),
{
    if index < cells.len() {
        cells[index]
    } else {
        ABSENT
    }
}

/// A row's cells after a list of writes, applied in order; a write past the
/// end of the row changes nothing.
pub open spec fn applied(cells: Seq<i32>, writes: Seq<(usize, i32)>) -> Seq<i32>
    decreases writes.len(),
{
    if writes.len() == 0 {
        cells
    } else {
        let before = applied(cells, writes.drop_last());
        let (index, raw) = writes.last();
        if index < before.len() {
            before.update(index as int, raw)
        } else {
            before
        }
    }
}

/// Whether every slot's unit and form columns are cells of the row, and no
/// two of all those columns are the same cell.
pub open spec fn distinct_places(places: Seq<(usize, usize)>, width: int) -> bool {
    &&& forall|slot: int| 0 <= slot < places.len() ==> {
        &&& (#[trigger] places[slot]).0 < width
        &&& places[slot].1 < width
        &&& places[slot].0 != places[slot].1
    }
    &&& forall|slot: int, other: int|
        0 <= slot < places.len() && 0 <= other < places.len() && slot != other ==> {
            &&& (#[trigger] places[slot]).0 != (#[trigger] places[other]).0
            &&& places[slot].1 != places[other].1
            &&& places[slot].0 != places[other].1
        }
}

proof fn lemma_applied_length(cells: Seq<i32>, writes: Seq<(usize, i32)>)
    ensures
        applied(cells, writes).len() == cells.len(),
    decreases writes.len(),
{
    if writes.len() > 0 {
        lemma_applied_length(cells, writes.drop_last());
    }
}

proof fn lemma_live_members_hold(places: Seq<(usize, usize)>, cells: Seq<i32>, upto: int)
    ensures
        live_members(places, cells, upto).len() <= if upto > 0 { upto } else { 0 },
        forall|at: int|
            0 <= at < live_members(places, cells, upto).len() ==> (#[trigger] live_members(places, cells, upto)[at]).0
                >= 0 && live_members(places, cells, upto)[at].1 >= 0,
    decreases upto,
{
    if upto > 0 {
        lemma_live_members_hold(places, cells, upto - 1);
    }
}

/// Whether a cell index is one of the columns of the first `upto` slots.
pub open spec fn placed_before(places: Seq<(usize, usize)>, upto: int, index: int) -> bool {
    exists|slot: int| 0 <= slot < upto && (places[slot].0 == index || places[slot].1 == index)
}

/// After the writes for the first `upto` slots, each of those slots holds its
/// seated member and every other cell is as it was.
proof fn lemma_rewrites_seat(places: Seq<(usize, usize)>, cells: Seq<i32>, upto: int)
    requires
        0 <= upto <= places.len(),
        distinct_places(places, cells.len() as int),
    ensures
        applied(cells, rewrites(places, cells, upto)).len() == cells.len(),
        forall|slot: int|
            0 <= slot < upto ==> {
                let pair = seated(live_members(places, cells, places.len() as int), slot);
                &&& applied(cells, rewrites(places, cells, upto))[(#[trigger] places[slot]).0 as int] == pair.0
                &&& applied(cells, rewrites(places, cells, upto))[places[slot].1 as int] == pair.1
            },
        forall|index: int|
            0 <= index < cells.len() && !placed_before(places, upto, index) ==> #[trigger] applied(
                cells,
                rewrites(places, cells, upto),
            )[index] == cells[index],
    decreases upto,
{
    let live = live_members(places, cells, places.len() as int);
    if upto > 0 {
        lemma_rewrites_seat(places, cells, upto - 1);
        let slot = upto - 1;
        let prior = rewrites(places, cells, upto - 1);
        let pair = seated(live, slot);
        let (unit, form) = places[slot];
        let with_unit = if differs(cells, unit as int, pair.0) { prior.push((unit, pair.0)) } else { prior };
        let all = rewrites(places, cells, upto);
        assert(all == if differs(cells, form as int, pair.1) { with_unit.push((form, pair.1)) } else { with_unit });
        let base = applied(cells, prior);
        lemma_applied_length(cells, prior);
        lemma_applied_length(cells, with_unit);
        lemma_applied_length(cells, all);
        assert(places[slot].0 < cells.len() && places[slot].1 < cells.len() && unit != form);
        assert(!placed_before(places, upto - 1, unit as int)) by {
            if placed_before(places, upto - 1, unit as int) {
                let other = choose|other: int|
                    0 <= other < upto - 1 && (places[other].0 == unit as int || places[other].1 == unit as int);
                assert(places[other].0 != places[slot].0 && places[other].1 != places[slot].0);
            }
        }
        assert(!placed_before(places, upto - 1, form as int)) by {
            if placed_before(places, upto - 1, form as int) {
                let other = choose|other: int|
                    0 <= other < upto - 1 && (places[other].0 == form as int || places[other].1 == form as int);
                assert(places[other].1 != places[slot].1 && places[other].0 != places[slot].1);
            }
        }
        assert(base[unit as int] == cells[unit as int]);
        assert(base[form as int] == cells[form as int]);
        let mid = applied(cells, with_unit);
        if differs(cells, unit as int, pair.0) {
            assert(with_unit.drop_last() == prior);
        }
        if differs(cells, form as int, pair.1) {
            assert(all.drop_last() == with_unit);
        }
        assert forall|earlier: int| 0 <= earlier < upto implies {
            let held = seated(live, earlier);
            &&& applied(cells, all)[(#[trigger] places[earlier]).0 as int] == held.0
            &&& applied(cells, all)[places[earlier].1 as int] == held.1
        } by {
            if earlier < slot {
                assert(places[earlier].0 != unit && places[earlier].0 != form);
                assert(places[earlier].1 != unit && places[earlier].1 != form);
            }
        }
        assert forall|index: int|
            0 <= index < cells.len() && !placed_before(places, upto, index) implies #[trigger] applied(
            cells,
            all,
        )[index] == cells[index] by {
            assert(index != unit as int && index != form as int) by {
                if index == unit as int || index == form as int {
                    assert(placed_before(places, upto, index));
                }
            }
            assert(!placed_before(places, upto - 1, index)) by {
                if placed_before(places, upto - 1, index) {
                    let other = choose|other: int|
                        0 <= other < upto - 1 && (places[other].0 == index || places[other].1 == index);
                    assert(placed_before(places, upto, index));
                }
            }
        }
    }
}

/// With every slot holding its seated member, the live members are the same
/// ones, in the same order.
proof fn lemma_live_members_stay(
    places: Seq<(usize, usize)>,
    cells: Seq<i32>,
    settled: Seq<i32>,
    upto: int,
)
    requires
        0 <= upto <= places.len(),
        forall|slot: int|
            0 <= slot < places.len() ==> #[trigger] member(places, settled, slot) == seated(
                live_members(places, cells, places.len() as int),
                slot,
            ),
    ensures
        live_members(places, settled, upto) == live_members(places, cells, places.len() as int).take(
            if upto < live_members(places, cells, places.len() as int).len() {
                upto
            } else {
                live_members(places, cells, places.len() as int).len() as int
            },
        ),
    decreases upto,
{
    let live = live_members(places, cells, places.len() as int);
    lemma_live_members_hold(places, cells, places.len() as int);
    if upto > 0 {
        lemma_live_members_stay(places, cells, settled, upto - 1);
        let held = member(places, settled, upto - 1);
        if upto - 1 < live.len() {
            assert(live.take(upto - 1).push(live[upto - 1]) == live.take(upto));
        }
    } else {
        assert(live.take(0) == Seq::<(i32, i32)>::empty());
    }
}

proof fn lemma_nothing_left(places: Seq<(usize, usize)>, settled: Seq<i32>, live: Seq<(i32, i32)>, upto: int)
    requires
        0 <= upto <= places.len(),
        live_members(places, settled, places.len() as int) == live,
        forall|slot: int|
            0 <= slot < places.len() ==> {
                &&& (#[trigger] places[slot]).0 < settled.len()
                &&& places[slot].1 < settled.len()
                &&& settled[places[slot].0 as int] == seated(live, slot).0
                &&& settled[places[slot].1 as int] == seated(live, slot).1
            },
    ensures
        rewrites(places, settled, upto).len() == 0,
    decreases upto,
{
    if upto > 0 {
        lemma_nothing_left(places, settled, live, upto - 1);
        let slot = upto - 1;
        assert(settled[places[slot].0 as int] == seated(live, slot).0);
    }
}

/// Packing closes the gaps cleared members leave: every write it lists
/// changes its cell; once written, the members that hold a unit and a form
/// stand in the leading slots in their old order and every slot after them
/// is empty; and no cell outside the member columns changes.
pub proof fn lemma_packing_closes_gaps(places: Seq<(usize, usize)>, cells: Seq<i32>)
    requires
        distinct_places(places, cells.len() as int),
    ensures
        ({
            let count = places.len() as int;
            let writes = rewrites(places, cells, count);
            let settled = applied(cells, writes);
            let live = live_members(places, cells, count);
            &&& forall|k: int| 0 <= k < writes.len() ==> differs(cells, (#[trigger] writes[k]).0 as int, writes[k].1)
            &&& settled.len() == cells.len()
            &&& forall|slot: int| 0 <= slot < count ==> #[trigger] member(places, settled, slot) == seated(live, slot)
            &&& forall|slot: int| 0 <= slot < live.len() ==> (#[trigger] live[slot]).0 >= 0 && live[slot].1 >= 0
            &&& forall|index: int|
                0 <= index < cells.len() && !placed_before(places, count, index) ==> #[trigger] settled[index]
                    == cells[index]
        }),
{
    let count = places.len() as int;
    let settled = applied(cells, rewrites(places, cells, count));
    lemma_rewrites_differ(places, cells, count);
    lemma_rewrites_seat(places, cells, count);
    lemma_live_members_hold(places, cells, count);
    assert forall|slot: int| 0 <= slot < count implies #[trigger] member(places, settled, slot) == seated(
        live_members(places, cells, count),
        slot,
    ) by {
        assert(places[slot].0 < cells.len() && places[slot].1 < cells.len());
    }
}

/// Every write packing lists changes its cell.
proof fn lemma_rewrites_differ(places: Seq<(usize, usize)>, cells: Seq<i32>, upto: int)
    ensures
        forall|k: int|
            0 <= k < rewrites(places, cells, upto).len() ==> differs(
                cells,
                (#[trigger] rewrites(places, cells, upto)[k]).0 as int,
                rewrites(places, cells, upto)[k].1,
            ),
    decreases upto,
{
    if upto > 0 {
        lemma_rewrites_differ(places, cells, upto - 1);
        let prior = rewrites(places, cells, upto - 1);
        let slot = upto - 1;
        let pair = seated(live_members(places, cells, places.len() as int), slot);
        let (unit, form) = places[slot];
        let with_unit = if differs(cells, unit as int, pair.0) {
            prior.push((unit, pair.0))
        } else {
            prior
        };
        assert forall|k: int| 0 <= k < with_unit.len() implies differs(cells, (#[trigger] with_unit[k]).0 as int, with_unit[k].1) by {
            if k < prior.len() {
                assert(with_unit[k] == prior[k]);
            }
        }
        let all = rewrites(places, cells, upto);
        assert forall|k: int| 0 <= k < all.len() implies differs(cells, (#[trigger] all[k]).0 as int, all[k].1) by {
            if k < with_unit.len() {
                assert(all[k] == with_unit[k]);
            }
        }
    }
}

/// Packing is settled by one pass: once a row's packing writes are applied,
/// packing it again writes nothing. The slots' columns have to be distinct
/// cells of the row for the writes to land where they are meant to.
pub proof fn lemma_packed_row_rewrites_nothing(places: Seq<(usize, usize)>, cells: Seq<i32>)
    requires
        distinct_places(places, cells.len() as int),
    ensures
        rewrites(
            places,
            applied(cells, rewrites(places, cells, places.len() as int)),
            places.len() as int,
        ).len() == 0,
{
    let count = places.len() as int;
    let live = live_members(places, cells, count);
    let settled = applied(cells, rewrites(places, cells, count));
    lemma_rewrites_seat(places, cells, count);
    assert forall|slot: int| 0 <= slot < count implies #[trigger] member(places, settled, slot) == seated(live, slot) by {
        assert(places[slot].0 < cells.len() && places[slot].1 < cells.len());
    }
    lemma_live_members_stay(places, cells, settled, count);
    lemma_live_members_hold(places, cells, count);
    assert(live.take(live.len() as int) == live);
    lemma_nothing_left(places, settled, live, count);
}

proof fn lemma_top_id_bounds(keys: Seq<(i32, i32)>, series: i32)
    ensures
        forall|at: int|
            0 <= at < keys.len() && (#[trigger] keys[at]).0 == series ==> top_id(keys, series) is Some
                && keys[at].1 <= top_id(keys, series)->0,
        top_id(keys, series) is None ==> forall|at: int| 0 <= at < keys.len() ==> (#[trigger] keys[at]).0 != series,
    decreases keys.len(),
{
    if keys.len() > 0 {
        let prior = keys.drop_last();
        lemma_top_id_bounds(prior, series);
        assert forall|at: int| 0 <= at < keys.len() - 1 implies #[trigger] keys[at] == prior[at] by {}
    }
}

/// A new combo's id is free in its series: every row of that series has a
/// smaller id, unless the ids already reached the largest an `i32` holds.
pub proof fn lemma_next_key_is_free(lines: Seq<String>, mark: char, current: i32)
    ensures
        forall|at: int|
            0 <= at < keys_in(lines, mark).len() && (#[trigger] keys_in(lines, mark)[at]).0 == next_key_in(
                lines,
                mark,
                current,
            ).0 ==> keys_in(lines, mark)[at].1 < next_key_in(lines, mark, current).1 || next_key_in(
                lines,
                mark,
                current,
            ).1 == i32::MAX,
{
    let key = next_key_in(lines, mark, current);
    lemma_top_id_bounds(keys_in(lines, mark), key.0);
}

} // verus!
