//! Rows of integer cells with a trailing name, and how a row is written back
//! over the text it was read from so that only what changed changes.

use vstd::prelude::*;

use crate::text::{
    cell_blank, cell_reading, cell_value, copy_range, seen, decimal, decimal_text, digit, digit_prefix, digit_run,
    digits, digits_value, fields, joined, lemma_fields_nonempty, lemma_fields_rejoin, past_cell_blanks, same_text,
    split_fields, trimmed, trimmed_text, join_fields, DELIMITER,
};

verus! {

broadcast use vstd::seq_lib::group_seq_properties;

/// A row of `N` integer cells followed by a name: a model part, an alignment
/// row, or a sprite cut.
#[derive(Clone, Debug)]
pub struct Row<const N: usize> {
    pub cells: [i32; N],
    pub name: String,
}

impl<const N: usize> Row<N> {
    /// Whether two rows hold the same cells and the same name.
    pub open spec fn same(self, other: Row<N>) -> bool {
        self.cells@ == other.cells@ && self.name@ == other.name@
    }

    /// Whether a row is the default one: every cell zero and no name.
    pub open spec fn blank(self) -> bool {
        (forall|k: int| 0 <= k < N ==> self.cells@[k] == 0) && self.name@.len() == 0
    }

    /// A row of zeroes with no name.
    pub fn zeroed() -> (row: Row<N>)
        ensures
            row.blank(),
    {
        Row { cells: [0i32; N], name: String::new() }
    }

    /// Whether this row holds the same cells and name as another.
    pub fn matches(&self, other: &Row<N>) -> (same: bool)
        ensures
            same == self.same(*other),
    {
        let mut at: usize = 0;
        while at < N
            invariant
                at <= N,
                self.cells@.len() == N,
                other.cells@.len() == N,
                forall|k: int| 0 <= k < at ==> self.cells@[k] == other.cells@[k],
            decreases N - at,
        {
            if self.cells[at] != other.cells[at] {
                return false;
            }
            at += 1;
        }
        assert(self.cells@ =~= other.cells@);
        self.name == other.name
    }

    /// A copy of this row.
    pub fn duplicate(&self) -> (row: Row<N>)
        ensures
            row.cells@ == self.cells@,
            row.name@ == self.name@,
    {
        Row { cells: self.cells, name: self.name.clone() }
    }
}

/// How many rows of a block to write: every row held, unless the file declared
/// more than it wrote and every row past the written ones is the repeat of the
/// last written row (or the default row), as the engine's reader fills a short
/// block.
pub open spec fn kept_count<const N: usize>(held: Seq<Row<N>>, parsed: int, present: int) -> int {
    if held.len() != parsed || present >= parsed {
        held.len() as int
    } else if present == 0 {
        if forall|i: int| 0 <= i < held.len() ==> #[trigger] held[i].blank() {
            present
        } else {
            held.len() as int
        }
    } else if forall|i: int| present <= i < held.len() ==> #[trigger] held[i].same(held[present - 1]) {
        present
    } else {
        held.len() as int
    }
}

/// The number of rows of a block to write back; see [`kept_count`].
pub fn kept<const N: usize>(held: &Vec<Row<N>>, parsed: usize, present: usize) -> (count: usize)
    ensures
        count == kept_count(held@, parsed as int, present as int),
{
    if held.len() != parsed || present >= parsed {
        return held.len();
    }
    let fallback = Row::<N>::zeroed();
    let repeated = if present >= 1 { &held[present - 1] } else { &fallback };
    let mut at = present;
    while at < held.len()
        invariant
            present <= at <= held@.len(),
            present < held@.len(),
            present >= 1 ==> *repeated == held@[present - 1],
            present == 0 ==> repeated.blank(),
            forall|i: int| present <= i < at ==> #[trigger] held@[i].same(*repeated),
        decreases held@.len() - at,
    {
        if !held[at].matches(repeated) {
            proof {
                if present == 0 && held@[at as int].blank() {
                    assert(held@[at as int].cells@ =~= repeated.cells@);
                    assert(held@[at as int].name@ =~= repeated.name@);
                }
            }
            return held.len();
        }
        at += 1;
    }
    proof {
        if present == 0 {
            assert forall|i: int| 0 <= i < held@.len() implies #[trigger] held@[i].blank() by {
                assert(held@[i].same(*repeated));
            }
        }
    }
    present
}

/// The reading of a cell that may be missing, a missing one reading as zero.
pub open spec fn reading(cell: Option<Seq<char>>) -> i32 {
    match cell {
        Some(text) => cell_reading(text),
        None => 0,
    }
}

/// Reads a cell that may be missing; a missing cell is zero.
pub fn read(cell: Option<&[char]>) -> (value: i32)
    ensures
        value == reading(seen(cell)),
{
    match cell {
        Some(text) => cell_value(text),
        None => 0,
    }
}

/// The text a cell is written as: its old text where that still reads as the
/// value, so padding survives, and the value in decimal otherwise.
pub open spec fn kept_text(cell: Option<Seq<char>>, value: i32) -> Seq<char> {
    match cell {
        Some(text) => if cell_reading(text) == value {
            text
        } else {
            decimal(value as int)
        },
        None => decimal(value as int),
    }
}

/// Writes a value over the cell it was read from; see [`kept_text`].
pub fn keep(cell: Option<&[char]>, value: i32) -> (text: Vec<char>)
    ensures
        text@ == kept_text(seen(cell), value),
{
    match cell {
        Some(text) => {
            if cell_value(text) == value {
                copy_range(text, 0, text.len())
            } else {
                decimal_text(value as i128)
            }
        },
        None => decimal_text(value as i128),
    }
}

/// The cells of a row's raw text: none for a missing or empty row.
pub open spec fn row_fields(raw: Option<Seq<char>>) -> Seq<Seq<char>> {
    match raw {
        Some(text) => if text.len() == 0 {
            Seq::empty()
        } else {
            fields(text)
        },
        None => Seq::empty(),
    }
}

/// The cell at a position, if the row reaches it.
pub open spec fn field_at(pieces: Seq<Seq<char>>, at: int) -> Option<Seq<char>> {
    if 0 <= at < pieces.len() {
        Some(pieces[at])
    } else {
        None
    }
}

/// The cell at a position, or nothing.
pub open spec fn field_or_empty(pieces: Seq<Seq<char>>, at: int) -> Seq<char> {
    if 0 <= at < pieces.len() {
        pieces[at]
    } else {
        Seq::empty()
    }
}

/// One past the last of the first `upto` values that its cell does not read as.
pub open spec fn reach(pieces: Seq<Seq<char>>, values: Seq<i32>, upto: int) -> int
    decreases upto,
{
    if upto <= 0 {
        0
    } else if reading(field_at(pieces, upto - 1)) != values[upto - 1] {
        upto
    } else {
        reach(pieces, values, upto - 1)
    }
}

/// Whether a name no longer matches the trimmed cell it was read from.
pub open spec fn renamed(pieces: Seq<Seq<char>>, width: int, name: Option<Seq<char>>) -> bool {
    match name {
        Some(wanted) => trimmed_text(field_or_empty(pieces, width)) != wanted,
        None => false,
    }
}

/// How many cells a row is written with: as many as it had (or, for a new row,
/// its values and a name if it has one), stretched to reach any value or name
/// that changed.
pub open spec fn cell_count(raw: Option<Seq<char>>, values: Seq<i32>, name: Option<Seq<char>>) -> int {
    let pieces = row_fields(raw);
    let base = match raw {
        None => values.len() as int + (if name.is_some() && name.unwrap().len() > 0 { 1int } else { 0int }),
        Some(_) => pieces.len() as int,
    };
    let reached = reach(pieces, values, values.len() as int);
    let counted = if reached > base { reached } else { base };
    if renamed(pieces, values.len() as int, name) && counted < values.len() + 1 {
        values.len() + 1int
    } else {
        counted
    }
}

/// The text one cell of a row is written as.
pub open spec fn written_cell(
    pieces: Seq<Seq<char>>,
    values: Seq<i32>,
    name: Option<Seq<char>>,
    at: int,
) -> Seq<char> {
    if at < values.len() {
        kept_text(field_at(pieces, at), values[at])
    } else if at == values.len() && name.is_some() {
        if at < pieces.len() && trimmed_text(pieces[at]) == name.unwrap() {
            pieces[at]
        } else {
            name.unwrap()
        }
    } else {
        field_or_empty(pieces, at)
    }
}

/// A row written back over the raw text it was read from: each value keeps its
/// old text where it still reads the same, the name keeps its padding where it
/// still trims to the same, and cells past the values are carried over.
pub open spec fn rendered_cells(raw: Option<Seq<char>>, values: Seq<i32>, name: Option<Seq<char>>) -> Seq<char> {
    let pieces = row_fields(raw);
    joined(Seq::new(cell_count(raw, values, name) as nat, |at: int| written_cell(pieces, values, name, at)))
}

proof fn lemma_reach(pieces: Seq<Seq<char>>, values: Seq<i32>, upto: int)
    requires
        upto <= values.len(),
    ensures
        0 <= reach(pieces, values, upto),
        upto >= 0 ==> reach(pieces, values, upto) <= upto,
        forall|k: int|
            reach(pieces, values, upto) <= k < upto ==> reading(field_at(pieces, k)) == values[k],
    decreases upto,
{
    if upto > 0 {
        lemma_reach(pieces, values, upto - 1);
    }
}

proof fn lemma_reach_none(pieces: Seq<Seq<char>>, values: Seq<i32>, upto: int)
    requires
        upto <= values.len(),
        forall|k: int| 0 <= k < upto ==> reading(field_at(pieces, k)) == values[k],
    ensures
        reach(pieces, values, upto) == 0,
    decreases upto,
{
    if upto > 0 {
        lemma_reach_none(pieces, values, upto - 1);
    }
}

/// Whether a piece of text holds no delimiter.
pub open spec fn undivided(text: Seq<char>) -> bool {
    forall|at: int| 0 <= at < text.len() ==> #[trigger] text[at] != DELIMITER
}

/// No piece of a split row holds the delimiter.
pub proof fn lemma_fields_undivided(text: Seq<char>)
    ensures
        forall|k: int| 0 <= k < fields(text).len() ==> undivided(#[trigger] fields(text)[k]),
    decreases text.len(),
{
    if text.len() > 0 {
        let rest = text.drop_last();
        lemma_fields_undivided(rest);
        lemma_fields_nonempty(rest);
        let prior = fields(rest);
        if text.last() != DELIMITER {
            let last = prior.last().push(text.last());
            assert(undivided(prior[prior.len() - 1]));
            assert forall|at: int| 0 <= at < last.len() implies #[trigger] last[at] != DELIMITER by {
                if at < prior.last().len() {
                    assert(last[at] == prior[prior.len() - 1][at]);
                }
            }
        }
    }
}

/// Splitting text that ends in one more undivided piece after a delimiter
/// gives the pieces of the text before it and that piece.
proof fn lemma_fields_append(text: Seq<char>, piece: Seq<char>)
    requires
        undivided(piece),
    ensures
        fields(text + seq![DELIMITER] + piece) == fields(text).push(piece),
    decreases piece.len(),
{
    if piece.len() == 0 {
        assert(text + seq![DELIMITER] + piece =~= text.push(DELIMITER));
        assert((text + seq![DELIMITER] + piece).drop_last() =~= text);
    } else {
        let shorter = piece.drop_last();
        assert(undivided(shorter)) by {
            assert forall|at: int| 0 <= at < shorter.len() implies #[trigger] shorter[at] != DELIMITER by {
                assert(shorter[at] == piece[at]);
            }
        }
        lemma_fields_append(text, shorter);
        let whole = text + seq![DELIMITER] + piece;
        assert(whole.drop_last() =~= text + seq![DELIMITER] + shorter);
        assert(whole.last() == piece.last());
        assert(piece.last() != DELIMITER) by {
            assert(piece[piece.len() - 1] != DELIMITER);
        }
        assert(shorter.push(piece.last()) =~= piece);
        assert(fields(whole) =~= fields(text).push(shorter).update(fields(text).len() as int, piece));
        assert(fields(text).push(shorter).update(fields(text).len() as int, piece) =~= fields(text).push(piece));
    }
}

/// Joining undivided pieces and splitting the row again gives the pieces.
pub proof fn lemma_joined_fields(pieces: Seq<Seq<char>>)
    requires
        pieces.len() >= 1,
        forall|k: int| 0 <= k < pieces.len() ==> undivided(#[trigger] pieces[k]),
    ensures
        fields(joined(pieces)) == pieces,
    decreases pieces.len(),
{
    if pieces.len() == 1 {
        assert(undivided(pieces[0]));
        lemma_single_field(pieces[0]);
        assert(seq![pieces[0]] =~= pieces);
    } else {
        let prior = pieces.drop_last();
        assert forall|k: int| 0 <= k < prior.len() implies undivided(#[trigger] prior[k]) by {
            assert(prior[k] == pieces[k]);
        }
        lemma_joined_fields(prior);
        assert(undivided(pieces[pieces.len() - 1]));
        lemma_fields_append(joined(prior), pieces.last());
        assert(prior.push(pieces.last()) =~= pieces);
    }
}

/// An undivided piece splits into itself.
proof fn lemma_single_field(piece: Seq<char>)
    requires
        undivided(piece),
    ensures
        fields(piece) == seq![piece],
    decreases piece.len(),
{
    if piece.len() > 0 {
        let shorter = piece.drop_last();
        assert(undivided(shorter)) by {
            assert forall|at: int| 0 <= at < shorter.len() implies #[trigger] shorter[at] != DELIMITER by {
                assert(shorter[at] == piece[at]);
            }
        }
        lemma_single_field(shorter);
        assert(piece[piece.len() - 1] != DELIMITER);
        assert(shorter.push(piece.last()) =~= piece);
        assert(seq![shorter].update(0, piece) =~= seq![piece]);
    } else {
        assert(piece =~= Seq::<char>::empty());
    }
}

/// The digits of a number are ASCII digits, at least one of them.
pub proof fn lemma_digits_are_digits(value: nat)
    ensures
        digit_run(digits(value)),
        digits_value(digits(value)) == value,
    decreases value,
{
    lemma_digit_value((value % 10) as int);
    if value < 10 {
        assert(value % 10 == value);
        let one = digits(value);
        assert(one.drop_last() =~= Seq::<char>::empty());
        assert(digits_value(one) == 10 * digits_value(one.drop_last()) + (one.last() as int - '0' as int));
    } else {
        lemma_digits_are_digits(value / 10);
        let head = digits(value / 10);
        let whole = head.push(digit((value % 10) as int));
        assert(whole.drop_last() =~= head);
        assert(value == 10 * (value / 10) + value % 10);
        assert(digits(value) == whole);
        assert(digits_value(whole) == 10 * digits_value(head) + (whole.last() as int - '0' as int));
        assert forall|at: int| 0 <= at < whole.len() implies '0' <= #[trigger] whole[at] <= '9' by {
            if at < head.len() {
                assert(whole[at] == head[at]);
            }
        }
    }
}

/// The ASCII digit for a value below ten stands for that value.
proof fn lemma_digit_value(value: int)
    requires
        0 <= value < 10,
    ensures
        '0' <= digit(value) <= '9',
        digit(value) as int - '0' as int == value,
{
}

/// A run of ASCII digits is read whole.
proof fn lemma_digit_prefix_of_run(text: Seq<char>)
    requires
        forall|at: int| 0 <= at < text.len() ==> '0' <= #[trigger] text[at] <= '9',
    ensures
        digit_prefix(text) == text.len(),
    decreases text.len(),
{
    if text.len() > 0 {
        let rest = text.drop_first();
        assert forall|at: int| 0 <= at < rest.len() implies '0' <= #[trigger] rest[at] <= '9' by {
            assert(rest[at] == text[at + 1]);
        }
        assert('0' <= text[0] <= '9');
        lemma_digit_prefix_of_run(rest);
    }
}

/// The engine reads an `i32` written in decimal as that value.
pub proof fn lemma_decimal_reads_back(value: i32)
    ensures
        cell_reading(decimal(value as int)) == value,
{
    let magnitude: nat = if value < 0 { (-(value as int)) as nat } else { value as nat };
    lemma_digits_are_digits(magnitude);
    let body = digits(magnitude);
    lemma_digit_prefix_of_run(body);
    assert(body.take(body.len() as int) =~= body);
    let text = decimal(value as int);
    assert(body[0] != '-' && body[0] != '+' && !cell_blank(body[0]));
    if value < 0 {
        assert(text =~= seq!['-'] + body);
        assert(text.drop_first() =~= body);
        assert(past_cell_blanks(text) == text);
    } else {
        assert(text == body);
        assert(past_cell_blanks(text) == text);
    }
}

/// A number written in decimal holds no delimiter.
proof fn lemma_decimal_undivided(value: int)
    ensures
        undivided(decimal(value)),
{
    let magnitude: nat = if value < 0 { (-value) as nat } else { value as nat };
    lemma_digits_are_digits(magnitude);
    let body = digits(magnitude);
    let text = decimal(value);
    assert forall|at: int| 0 <= at < text.len() implies #[trigger] text[at] != DELIMITER by {
        if value < 0 {
            assert(text =~= seq!['-'] + body);
            if at > 0 {
                assert(text[at] == body[at - 1]);
            }
        } else {
            assert(text[at] == body[at]);
        }
    }
}

/// Every cell a row is written with holds no delimiter, where its name holds none.
proof fn lemma_written_cells_undivided(raw: Option<Seq<char>>, values: Seq<i32>, name: Seq<char>, at: int)
    requires
        undivided(name),
        0 <= at,
    ensures
        undivided(written_cell(row_fields(raw), values, Some(name), at)),
{
    let pieces = row_fields(raw);
    match raw {
        Some(text) => if text.len() > 0 {
            lemma_fields_undivided(text);
        },
        None => {},
    }
    assert(forall|k: int| 0 <= k < pieces.len() ==> undivided(#[trigger] pieces[k]));
    assert(undivided(Seq::<char>::empty()));
    if at < values.len() {
        lemma_decimal_undivided(values[at] as int);
    }
}

/// A row reads back as what it was written with: each value from its cell as
/// the engine reads it, and the name from the cell after them, trimmed, where
/// the name is already trimmed and holds no delimiter.
pub proof fn lemma_written_row_reads_back(raw: Option<Seq<char>>, values: Seq<i32>, name: Seq<char>)
    requires
        undivided(name),
        trimmed_text(name) == name,
    ensures
        forall|k: int|
            0 <= k < values.len() ==> reading(field_at(fields(rendered_cells(raw, values, Some(name))), k))
                == values[k],
        trimmed_text(field_or_empty(fields(rendered_cells(raw, values, Some(name))), values.len() as int)) == name,
{
    let pieces = row_fields(raw);
    let width = values.len() as int;
    let count = cell_count(raw, values, Some(name));
    let written = Seq::new(count as nat, |at: int| written_cell(pieces, values, Some(name), at));
    let out = rendered_cells(raw, values, Some(name));
    assert(out == joined(written));
    lemma_reach(pieces, values, width);
    let reached = reach(pieces, values, width);
    let read_back = fields(out);
    if count >= 1 {
        assert forall|k: int| 0 <= k < written.len() implies undivided(#[trigger] written[k]) by {
            lemma_written_cells_undivided(raw, values, name, k);
        }
        lemma_joined_fields(written);
        assert(read_back == written);
    } else {
        assert(written =~= Seq::<Seq<char>>::empty());
        assert(out =~= Seq::<char>::empty());
        assert(read_back =~= seq![Seq::<char>::empty()]);
    }
    assert(count >= pieces.len() || raw.is_none());
    assert(raw.is_none() ==> count >= width);
    assert(count >= reached);
    assert forall|k: int| 0 <= k < width implies reading(field_at(read_back, k)) == values[k] by {
        if k < count {
            assert(read_back[k] == written_cell(pieces, values, Some(name), k));
            match field_at(pieces, k) {
                Some(cell) => if cell_reading(cell) != values[k] {
                    lemma_decimal_reads_back(values[k]);
                },
                None => {
                    lemma_decimal_reads_back(values[k]);
                },
            }
        } else {
            assert(reading(field_at(pieces, k)) == values[k]);
            if count == 0 && k == 0 {
                assert(read_back[0] =~= Seq::<char>::empty());
                assert(digit_prefix(Seq::<char>::empty()) == 0);
            }
        }
    }
    assert(trimmed_text(Seq::<char>::empty()) =~= Seq::<char>::empty());
    if count > width {
        assert(read_back[width] == written_cell(pieces, values, Some(name), width));
    } else {
        assert(!renamed(pieces, width, Some(name)));
        if count >= 1 {
            assert(field_or_empty(read_back, width) =~= Seq::<char>::empty());
        } else if width > 0 {
            assert(field_or_empty(read_back, width) =~= Seq::<char>::empty());
        } else {
            assert(field_or_empty(read_back, width) =~= Seq::<char>::empty());
        }
    }
}

/// Whether every value reads as the cell it came from and the name, if any,
/// trims to the cell it came from.
pub open spec fn row_agrees(text: Seq<char>, values: Seq<i32>, name: Option<Seq<char>>) -> bool {
    let pieces = row_fields(Some(text));
    &&& forall|k: int| 0 <= k < values.len() ==> reading(#[trigger] field_at(pieces, k)) == values[k]
    &&& !renamed(pieces, values.len() as int, name)
}

/// A row whose values and name all agree with the text it was read from is
/// written back exactly as that text.
pub proof fn lemma_agreeing_row_is_kept(text: Seq<char>, values: Seq<i32>, name: Option<Seq<char>>)
    requires
        row_agrees(text, values, name),
    ensures
        rendered_cells(Some(text), values, name) == text,
{
    let pieces = row_fields(Some(text));
    lemma_reach_none(pieces, values, values.len() as int);
    let count = cell_count(Some(text), values, name);
    assert(count == pieces.len());
    let written = Seq::new(count as nat, |at: int| written_cell(pieces, values, name, at));
    assert forall|at: int| 0 <= at < count implies written[at] == pieces[at] by {
        if at < values.len() {
            assert(reading(field_at(pieces, at)) == values[at]);
        }
    }
    assert(written =~= pieces);
    if text.len() > 0 {
        lemma_fields_rejoin(text);
    } else {
        assert(text =~= Seq::<char>::empty());
    }
}

/// Changing one value of a row leaves the text every other cell is written as
/// untouched.
pub proof fn lemma_other_cells_untouched(
    raw: Option<Seq<char>>,
    values: Seq<i32>,
    name: Option<Seq<char>>,
    changed: int,
    value: i32,
    at: int,
)
    requires
        0 <= changed < values.len(),
        0 <= at,
        at != changed,
    ensures
        written_cell(row_fields(raw), values.update(changed, value), name, at) == written_cell(
            row_fields(raw),
            values,
            name,
            at,
        ),
{
}

/// Whether an optional name is present and not empty.
fn named(name: Option<&[char]>) -> (named: bool)
    ensures
        named == (name.is_some() && name.unwrap()@.len() > 0),
{
    match name {
        Some(text) => text.len() > 0,
        None => false,
    }
}

/// Writes a row back over the raw text it was read from; see [`rendered_cells`].
pub fn cells(raw: Option<&[char]>, values: &[i32], name: Option<&[char]>) -> (text: Vec<char>)
    requires
        values@.len() < usize::MAX,
    ensures
        text@ == rendered_cells(
            seen(raw),
            values@,
            seen(name),
        ),
{
    let ghost raw_view = seen(raw);
    let ghost name_view = seen(name);
    let pieces: Vec<Vec<char>> = match raw {
        Some(text) => if text.len() == 0 {
            Vec::new()
        } else {
            split_fields(text)
        },
        None => Vec::new(),
    };
    let ghost spec_pieces = row_fields(raw_view);
    assert(pieces@.len() == spec_pieces.len());
    assert(forall|k: int| 0 <= k < pieces@.len() ==> #[trigger] pieces@[k]@ == spec_pieces[k]);
    let width = values.len();
    let mut count: usize = match raw {
        None => width + if named(name) { 1 } else { 0 },
        Some(_) => pieces.len(),
    };
    let ghost base = count as int;
    let mut at: usize = 0;
    while at < width
        invariant
            width == values@.len(),
            width < usize::MAX,
            at <= width,
            pieces@.len() == spec_pieces.len(),
            forall|k: int| 0 <= k < pieces@.len() ==> #[trigger] pieces@[k]@ == spec_pieces[k],
            count as int == if reach(spec_pieces, values@, at as int) > base {
                reach(spec_pieces, values@, at as int)
            } else {
                base
            },
        decreases width - at,
    {
        let cell = if at < pieces.len() { Some(pieces[at].as_slice()) } else { None };
        assert(seen(cell) == field_at(spec_pieces, at as int));
        if read(cell) != values[at] {
            if count < at + 1 {
                count = at + 1;
            }
            proof {
                lemma_reach(spec_pieces, values@, at as int);
            }
        }
        at += 1;
    }
    let ghost pieces_view = spec_pieces;
    match name {
        Some(wanted) => {
            let old_text: Vec<char> = if width < pieces.len() {
                copy_range(pieces[width].as_slice(), 0, pieces[width].len())
            } else {
                Vec::new()
            };
            assert(old_text@ == field_or_empty(spec_pieces, width as int));
            let trimmed_old = trimmed(old_text.as_slice());
            if !same_text(trimmed_old.as_slice(), wanted) {
                if count < width + 1 {
                    count = width + 1;
                }
            }
        },
        None => {},
    }
    assert(count as int == cell_count(raw_view, values@, name_view));
    let mut written: Vec<Vec<char>> = Vec::new();
    let mut at: usize = 0;
    while at < count
        invariant
            width == values@.len(),
            name_view == seen(name),
            at <= count,
            pieces@.len() == spec_pieces.len(),
            forall|k: int| 0 <= k < pieces@.len() ==> #[trigger] pieces@[k]@ == spec_pieces[k],
            written@.len() == at,
            forall|k: int|
                0 <= k < at ==> #[trigger] written@[k]@ == written_cell(
                    spec_pieces,
                    values@,
                    name_view,
                    k,
                ),
        decreases count - at,
    {
        let ghost k = at as int;
        let cell: Vec<char> = if at < width {
            let old = if at < pieces.len() { Some(pieces[at].as_slice()) } else { None };
            assert(seen(old) == field_at(spec_pieces, k));
            keep(old, values[at])
        } else if at == width && name.is_some() {
            let wanted = name.unwrap();
            assert(name_view == Some(wanted@));
            if at < pieces.len() && same_text(trimmed(pieces[at].as_slice()).as_slice(), wanted) {
                copy_range(pieces[at].as_slice(), 0, pieces[at].len())
            } else {
                copy_range(wanted, 0, wanted.len())
            }
        } else {
            assert(at > width || name_view.is_none());
            if at < pieces.len() {
                copy_range(pieces[at].as_slice(), 0, pieces[at].len())
            } else {
                Vec::new()
            }
        };
        assert(cell@ == written_cell(spec_pieces, values@, name_view, k));
        written.push(cell);
        at += 1;
    }
    let text = join_fields(&written);
    assert(written@.map_values(|piece: Vec<char>| piece@) =~= Seq::new(
        count as nat,
        |k: int| written_cell(spec_pieces, values@, name_view, k),
    ));
    text
}

/// The saturating sum of two counts.
pub open spec fn saturated_add(left: int, right: int) -> int {
    if left + right > usize::MAX {
        usize::MAX as int
    } else {
        left + right
    }
}

/// The saturating difference of two counts.
pub open spec fn saturated_sub(left: int, right: int) -> int {
    if left < right {
        0
    } else {
        left - right
    }
}

/// A count line written back after a block went from `was` rows to `now`: the
/// old text if nothing changed, otherwise the declared count moved by the same
/// difference (the declared count being `was` where it does not read as one).
pub open spec fn counted_line(raw: Seq<char>, was: int, now: int) -> Seq<char> {
    if was == now {
        raw
    } else {
        let declared = if cell_reading(raw) >= 0 { cell_reading(raw) as int } else { was };
        decimal(saturated_sub(saturated_add(declared, now), was))
    }
}

/// Writes a block's count line back; see [`counted_line`].
pub fn count_line(raw: &[char], was: usize, now: usize) -> (text: Vec<char>)
    ensures
        text@ == counted_line(raw@, was as int, now as int),
{
    if was == now {
        return copy_range(raw, 0, raw.len());
    }
    let read = cell_value(raw);
    let declared: usize = if read >= 0 { read as usize } else { was };
    let grown = declared.saturating_add(now);
    let shrunk = grown.saturating_sub(was);
    decimal_text(shrunk as i128)
}

} // verus!
