//! An `.imgcut` sprite cut list held next to the text it was read from, so
//! that writing it back changes only what was edited.

use vstd::prelude::*;

use crate::rig::{declared_rows, rows_declared, Cut, RigFault, CUT_CELLS};
use crate::rows::{cells, count_line, counted_line, field_at, kept, kept_count, read, reading, rendered_cells, Row};
use crate::text::{
    body_text, cell_reading, cell_value, chars_of, concat, copy_range, encode, encoded, extend, lemma_concat_append, lemma_concat_split, lemma_swap_piece, swapped,
    fields, has_bom, lemma_concat_step, lines_of, pairs, same_text, split,
    split_fields, trimmed, trimmed_text, unmarked, Line,
};

verus! {

broadcast use vstd::seq_lib::group_seq_properties;

/// The line naming the sprite sheet.
pub const NAME_LINE: usize = 2;
/// The line holding the cut count.
pub const COUNT_LINE: usize = 3;
/// The position of the name among a cut's fields.
pub const CUT_NAME_FIELD: usize = CUT_CELLS;

/// What a line of a cut list holds.
#[derive(Clone, Copy, PartialEq, Eq, Structural, Debug)]
pub enum Role {
    Named,
    Count,
    Cuts,
    Skip,
}

/// The role of line `at` of `n` in a cut list declaring `declared` cuts.
pub open spec fn cut_role(n: int, declared: int, at: int) -> Option<Role> {
    if !(0 <= at < n) {
        None
    } else if at == NAME_LINE {
        Some(Role::Named)
    } else if at == COUNT_LINE {
        Some(Role::Count)
    } else if COUNT_LINE + 1 <= at < COUNT_LINE + 1 + declared {
        if at == COUNT_LINE + 1 { Some(Role::Cuts) } else { Some(Role::Skip) }
    } else {
        None
    }
}

/// The cells a cut row is read as: the first four fields as the engine reads them.
pub open spec fn cut_cells(text: Seq<char>) -> Seq<i32> {
    let pieces = fields(text);
    seq![
        reading(field_at(pieces, 0)),
        reading(field_at(pieces, 1)),
        reading(field_at(pieces, 2)),
        reading(field_at(pieces, 3)),
    ]
}

/// The name a cut row is read as: its fifth field, trimmed.
pub open spec fn cut_name(text: Seq<char>) -> Seq<char> {
    trimmed_text(crate::rows::field_or_empty(fields(text), CUT_NAME_FIELD as int))
}

/// The line a cut was read from, counting back over the rows the file ran short
/// of, which repeat the last row read; none where no row was read at all.
pub open spec fn cut_source(n: int, at: int) -> Option<int>
    decreases at + 1,
{
    if at < 0 {
        None
    } else if COUNT_LINE + 1 + at < n {
        Some(COUNT_LINE + 1 + at)
    } else {
        cut_source(n, at - 1)
    }
}

/// The sheet name a cut list's lines declare: its name line, trimmed, or
/// nothing where the file stops before it.
pub open spec fn sheet_read(lines: Seq<(Seq<char>, Seq<char>)>) -> Seq<char> {
    if NAME_LINE < lines.len() {
        trimmed_text(lines[NAME_LINE as int].0)
    } else {
        Seq::empty()
    }
}

/// The raw text of cut row `at` in a file's lines, if the file holds it.
pub open spec fn row_read(lines: Seq<(Seq<char>, Seq<char>)>, at: int) -> Option<Seq<char>> {
    if COUNT_LINE + 1 + at < lines.len() {
        Some(lines[COUNT_LINE + 1 + at].0)
    } else {
        None
    }
}

/// Whether a cut is the one a file's lines give at `at`: read from the row it
/// has, or from the last row read before it where the file ran short, or the
/// blank cut where it holds no row at all.
pub open spec fn cut_read(lines: Seq<(Seq<char>, Seq<char>)>, at: int, cut: Cut) -> bool {
    match cut_source(lines.len() as int, at) {
        Some(line) => cut.cells@ == cut_cells(lines[line].0) && cut.name@ == cut_name(lines[line].0),
        None => cut.blank(),
    }
}

/// A sprite cut list and the text of the file it was read from.
pub struct Imgcut {
    bom: bool,
    lines: Vec<Line>,
    roles: Vec<Option<Role>>,
    raws: Vec<Option<Vec<char>>>,
    tail: Vec<char>,
    present: usize,
    declared: usize,
    sheet: String,
    cuts: Vec<Cut>,
}

/// The characters each optional raw row holds.
pub open spec fn raw_views(raws: Seq<Option<Vec<char>>>) -> Seq<Option<Seq<char>>> {
    raws.map_values(|raw: Option<Vec<char>>| match raw {
        Some(text) => Some(text@),
        None => None,
    })
}

impl Imgcut {
    /// Whether the list's cuts agree with what it keeps of the file.
    pub closed spec fn wf(self) -> bool {
        &&& self.roles@.len() == self.lines@.len()
        &&& self.raws@.len() == self.cuts@.len()
        &&& self.cuts@.len() >= 1
        &&& self.declared >= 1
        &&& forall|at: int|
            0 <= at < self.lines@.len() ==> #[trigger] self.roles@[at] == cut_role(
                self.lines@.len() as int,
                self.declared as int,
                at,
            )
    }

    /// The cuts the list holds.
    pub closed spec fn held(self) -> Seq<Cut> {
        self.cuts@
    }

    /// The sheet name the list holds.
    pub closed spec fn sheet_name(self) -> Seq<char> {
        self.sheet@
    }

    /// Whether this list is what [`Imgcut::parse`] makes of `bytes`: the file's
    /// lines and their endings, each line's role, the raw text of every cut row
    /// the file holds, and each cut read from its row, a row the file ran
    /// short of repeating the last one read.
    pub closed spec fn parsed_from(self, bytes: Seq<u8>) -> bool {
        let lines = self.lines@;
        let n = lines.len() as int;
        let declared = self.declared as int;
        &&& self.bom == has_bom(bytes)
        &&& pairs(lines) == lines_of(body_text(bytes))
        &&& vstd::utf8::valid_utf8(crate::text::body_bytes(bytes)) ==> pairs(lines) == lines_of(
            vstd::utf8::decode_utf8(crate::text::body_bytes(bytes)),
        )
        &&& self.sheet@ == if NAME_LINE < n { trimmed_text(lines[NAME_LINE as int].text@) } else { Seq::empty() }
        &&& rows_declared(if COUNT_LINE < n { cell_reading(lines[COUNT_LINE as int].text@) } else { 0 }) == Some(
            self.declared,
        )
        &&& declared >= 1
        &&& forall|at: int| 0 <= at < n ==> #[trigger] self.roles@[at] == cut_role(n, declared, at)
        &&& self.cuts@.len() == declared
        &&& raw_views(self.raws@) == crate::mamodel::block_raws(lines, COUNT_LINE + 1, declared)
        &&& self.present == crate::mamodel::present_in(n, COUNT_LINE + 1, declared)
        &&& self.tail@ == crate::mamodel::block_tail(lines, COUNT_LINE + 1, declared)
        &&& forall|at: int|
            0 <= at < declared ==> match #[trigger] cut_source(n, at) {
                Some(line) => self.cuts@[at].cells@ == cut_cells(lines[line].text@) && self.cuts@[at].name@
                    == cut_name(lines[line].text@),
                None => self.cuts@[at].blank(),
            }
    }

    /// What a list read from `bytes` holds, as the file's lines give it: the
    /// byte order mark, as many cuts as the count line declares, each as
    /// [`cut_read`] gives it and with the raw row it was read from, and the
    /// sheet name.
    pub open spec fn read_from(self, bytes: Seq<u8>) -> bool {
        let lines = lines_of(crate::text::file_text(bytes));
        &&& self.marked() == has_bom(bytes)
        &&& self.held().len() == declared_cuts(lines)
        &&& self.declared_rows() == declared_cuts(lines)
        &&& self.line_count() == lines.len()
        &&& self.present_rows() == crate::mamodel::present_in(lines.len() as int, COUNT_LINE + 1, declared_cuts(lines))
        &&& self.sheet_name() == sheet_read(lines)
        &&& forall|at: int| 0 <= at < self.held().len() ==> cut_read(lines, at, #[trigger] self.held()[at])
        &&& forall|at: int| 0 <= at < self.held().len() ==> #[trigger] self.raw_at(at) == row_read(lines, at)
    }

    /// How many cuts the file's count line declared.
    pub closed spec fn declared_rows(self) -> int {
        self.declared as int
    }

    /// How many of the declared cut rows the file held.
    pub closed spec fn present_rows(self) -> int {
        self.present as int
    }

    /// How many lines the file held.
    pub closed spec fn line_count(self) -> int {
        self.lines@.len() as int
    }

    /// How many cut rows are written, and which cuts get one: every cut,
    /// unless the file declared more than it wrote and every cut past the rows
    /// it wrote repeats the last one (see [`kept_count`]); none where the file
    /// held no cut row to write the block at.
    pub proof fn lemma_rows_counted(self)
        ensures
            self.cut_rows() == kept_count(self.held(), self.declared_rows(), self.present_rows()),
            forall|at: int| #[trigger] self.writes_cut(at) == (COUNT_LINE + 1 < self.line_count() && 0 <= at < self.cut_rows()),
    {
    }

    /// Two lists that keep the same file agree on its counts and its mark.
    pub proof fn lemma_same_source(self, other: Imgcut)
        requires
            other.same_source(self),
        ensures
            other.declared_rows() == self.declared_rows(),
            other.present_rows() == self.present_rows(),
            other.line_count() == self.line_count(),
            other.marked() == self.marked(),
    {
    }

    /// A list read from `bytes` holds what [`Imgcut::read_from`] says.
    pub proof fn lemma_read_from(self, bytes: Seq<u8>)
        requires
            self.wf(),
            self.parsed_from(bytes),
        ensures
            self.read_from(bytes),
    {
        let lines = lines_of(crate::text::file_text(bytes));
        let n = self.lines@.len() as int;
        assert(pairs(self.lines@) == lines);
        assert(lines.len() == n);
        assert(declared_cuts(lines) == self.declared);
        if NAME_LINE < n {
            assert(lines[NAME_LINE as int].0 == self.lines@[NAME_LINE as int].text@);
        }
        assert forall|at: int| 0 <= at < self.held().len() implies cut_read(lines, at, #[trigger] self.held()[at]) by {
            match cut_source(n, at) {
                Some(line) => {
                    lemma_cut_source_range(n, at);
                    assert(lines[line].0 == self.lines@[line].text@);
                },
                None => {},
            }
        }
        assert forall|at: int| 0 <= at < self.held().len() implies #[trigger] self.raw_at(at) == row_read(lines, at) by {
            assert(raw_views(self.raws@)[at] == crate::mamodel::block_raw(self.lines@, COUNT_LINE + 1, at));
            if COUNT_LINE + 1 + at < n {
                assert(lines[COUNT_LINE + 1 + at].0 == self.lines@[COUNT_LINE + 1 + at].text@);
            }
        }
    }

    /// Two lists that keep the same raw rows keep the same raw row for every cut.
    pub proof fn lemma_same_rows(self, other: Imgcut)
        requires
            other.same_rows(self),
        ensures
            forall|at: int| #[trigger] other.raw_at(at) == self.raw_at(at),
    {
    }

    /// A list with a row added for a new cut keeps every raw row, the new cut
    /// having none.
    pub proof fn lemma_row_added(self, other: Imgcut)
        requires
            self.row_added(other),
            other.wf(),
        ensures
            forall|at: int| 0 <= at < other.held().len() ==> #[trigger] self.raw_at(at) == other.raw_at(at),
            self.raw_at(other.held().len() as int) is None,
    {
        assert forall|at: int| 0 <= at < other.held().len() implies #[trigger] self.raw_at(at) == other.raw_at(at) by {
            assert(self.raws@[at] == other.raws@[at]);
        }
    }

    /// A list with row `at` removed keeps the raw rows before it and moves the
    /// ones after it up one.
    pub proof fn lemma_row_removed(self, other: Imgcut, at: int)
        requires
            self.row_removed(other, at),
            other.wf(),
            0 <= at < other.held().len(),
        ensures
            forall|i: int| 0 <= i < at ==> #[trigger] self.raw_at(i) == other.raw_at(i),
            forall|i: int| at <= i < other.held().len() - 1 ==> #[trigger] self.raw_at(i) == other.raw_at(i + 1),
    {
        assert forall|i: int| 0 <= i < at implies #[trigger] self.raw_at(i) == other.raw_at(i) by {
            assert(self.raws@[i] == other.raws@[i]);
        }
        assert forall|i: int| at <= i < other.held().len() - 1 implies #[trigger] self.raw_at(i) == other.raw_at(i + 1) by {
            assert(self.raws@[i] == other.raws@[i + 1]);
        }
    }

    /// The text cut `at` is written as: its cells and name written over the
    /// raw row it was read from; see [`rendered_cells`].
    pub proof fn lemma_cut_row(self, at: int)
        ensures
            self.cut_row(at) == rendered_cells(self.raw_at(at), self.held()[at].cells@, Some(self.held()[at].name@)),
    {
    }

    /// Why reading `bytes` fails, if it does: a count line declaring a count
    /// the engine would abort on, or declaring no cuts at all.
    pub open spec fn fault_of(bytes: Seq<u8>) -> Option<RigFault> {
        let lines = lines_of(body_text(bytes));
        let count = if COUNT_LINE < lines.len() { cell_reading(lines[COUNT_LINE as int].0) } else { 0 };
        match rows_declared(count) {
            None => Some(RigFault::CountTooLarge),
            Some(rows) => if rows == 0 { Some(RigFault::NoSpriteCuts) } else { None },
        }
    }

    /// Reads a sprite cut list, keeping its text so it can be written back.
    pub fn parse(bytes: &[u8]) -> (parsed: Result<Imgcut, RigFault>)
        ensures
            match parsed {
                Ok(doc) => doc.wf() && doc.parsed_from(bytes@) && doc.read_from(bytes@) && Self::fault_of(bytes@).is_none(),
                Err(fault) => Self::fault_of(bytes@) == Some(fault),
            },
    {
        let (bom, body) = unmarked(bytes);
        let lines = split(body.as_slice());
        let ghost n = lines@.len() as int;
        let ghost views = lines_of(body_text(bytes@));
        assert(views.len() == n);
        let sheet_text: Vec<char> = if NAME_LINE < lines.len() { trimmed(lines[NAME_LINE].text.as_slice()) } else { Vec::new() };
        let sheet = crate::text::text_string(sheet_text.as_slice());
        let count: i32 = if COUNT_LINE < lines.len() { cell_value(lines[COUNT_LINE].text.as_slice()) } else { 0 };
        proof {
            if COUNT_LINE < n {
                assert(views[COUNT_LINE as int].0 == lines@[COUNT_LINE as int].text@);
            }
        }
        let declared = match declared_rows(count) {
            Some(rows) => rows,
            None => return Err(RigFault::CountTooLarge),
        };
        if declared == 0 {
            return Err(RigFault::NoSpriteCuts);
        }
        assert(declared <= 65536);
        let mut roles: Vec<Option<Role>> = Vec::new();
        let mut at: usize = 0;
        while at < lines.len()
            invariant
                declared <= 65536,
                at <= lines@.len(),
                roles@.len() == at,
                forall|i: int| 0 <= i < at ==> roles@[i] == cut_role(lines@.len() as int, declared as int, i),
            decreases lines@.len() - at,
        {
            let role = if at == NAME_LINE {
                Some(Role::Named)
            } else if at == COUNT_LINE {
                Some(Role::Count)
            } else if COUNT_LINE + 1 <= at && at < COUNT_LINE + 1 + declared {
                if at == COUNT_LINE + 1 { Some(Role::Cuts) } else { Some(Role::Skip) }
            } else {
                None
            };
            roles.push(role);
            at += 1;
        }
        let mut cuts: Vec<Cut> = Vec::new();
        let mut raws: Vec<Option<Vec<char>>> = Vec::new();
        let mut present: usize = 0;
        let mut tail: Vec<char> = Vec::new();
        tail.push('\n');
        let mut carried: Cut = Row::<4>::zeroed();
        let first = COUNT_LINE + 1;
        let mut at: usize = 0;
        while at < declared
            invariant
                at <= declared <= 65536,
                first == COUNT_LINE + 1,
                cuts@.len() == at,
                raw_views(raws@) == crate::mamodel::block_raws(lines@, first as int, at as int),
                present == crate::mamodel::present_in(lines@.len() as int, first as int, at as int),
                tail@ == crate::mamodel::block_tail(lines@, first as int, at as int),
                forall|i: int|
                    0 <= i < at ==> match #[trigger] cut_source(lines@.len() as int, i) {
                        Some(line) => cuts@[i].cells@ == cut_cells(lines@[line].text@) && cuts@[i].name@ == cut_name(
                            lines@[line].text@,
                        ),
                        None => cuts@[i].blank(),
                    },
                at > 0 ==> carried.cells@ == cuts@[at - 1].cells@ && carried.name@ == cuts@[at - 1].name@,
                at == 0 ==> carried.blank(),
            decreases declared - at,
        {
            let ghost before = raws@;
            if first + at < lines.len() {
                let line = &lines[first + at];
                tail = copy_range(line.end.as_slice(), 0, line.end.len());
                present = at + 1;
                carried = cut_of(line.text.as_slice());
                raws.push(Some(copy_range(line.text.as_slice(), 0, line.text.len())));
            } else {
                raws.push(None);
            }
            assert(raw_views(raws@) =~= raw_views(before).push(crate::mamodel::block_raw(lines@, first as int, at as int)));
            assert(crate::mamodel::block_raws(lines@, first as int, at + 1) =~= crate::mamodel::block_raws(
                lines@,
                first as int,
                at as int,
            ).push(crate::mamodel::block_raw(lines@, first as int, at as int)));
            let ghost held = cuts@;
            cuts.push(carried.duplicate());
            proof {
                let n = lines@.len() as int;
                assert(cut_source(n, at as int) == if first + at < n { Some(first + at) } else { cut_source(n, at - 1) });
                assert forall|i: int|
                    0 <= i < at + 1 implies match #[trigger] cut_source(n, i) {
                        Some(line) => cuts@[i].cells@ == cut_cells(lines@[line].text@) && cuts@[i].name@ == cut_name(
                            lines@[line].text@,
                        ),
                        None => cuts@[i].blank(),
                    } by {
                    if i < at {
                        assert(cuts@[i] == held[i]);
                    } else if at > 0 && first + at >= n {
                        assert(cut_source(n, at - 1) == cut_source(n, i - 1));
                        let prior = (at - 1) as int;
                        assert(match cut_source(n, prior) {
                            Some(line) => held[prior].cells@ == cut_cells(lines@[line].text@) && held[prior].name@ == cut_name(
                                lines@[line].text@,
                            ),
                            None => held[prior].blank(),
                        });
                    }
                }
            }
            at += 1;
        }
        let doc = Imgcut { bom, lines, roles, raws, tail, present, declared, sheet, cuts };
        assert(doc.raws@.len() == doc.cuts@.len()) by {
            assert(raw_views(doc.raws@).len() == doc.raws@.len());
        }
        proof {
            if NAME_LINE < n {
                assert(views[NAME_LINE as int].0 == doc.lines@[NAME_LINE as int].text@);
            }
        }
        proof {
            doc.lemma_read_from(bytes@);
        }
        Ok(doc)
    }
}

/// Reads one cut row: four cells and a trimmed name.
fn cut_of(text: &[char]) -> (cut: Cut)
    ensures
        cut.cells@ == cut_cells(text@),
        cut.name@ == cut_name(text@),
{
    let pieces = split_fields(text);
    let mut values = [0i32; 4];
    let mut at: usize = 0;
    while at < CUT_CELLS
        invariant
            at <= CUT_CELLS,
            pieces@.len() == fields(text@).len(),
            forall|k: int| 0 <= k < pieces@.len() ==> #[trigger] pieces@[k]@ == fields(text@)[k],
            values@.len() == CUT_CELLS,
            forall|k: int| 0 <= k < at ==> values@[k] == reading(field_at(fields(text@), k)),
        decreases CUT_CELLS - at,
    {
        let cell = if at < pieces.len() { Some(pieces[at].as_slice()) } else { None };
        assert(crate::text::seen(cell) == field_at(fields(text@), at as int));
        values[at] = read(cell);
        at += 1;
    }
    assert(values@ =~= cut_cells(text@));
    let name_text: Vec<char> = if CUT_NAME_FIELD < pieces.len() {
        copy_range(pieces[CUT_NAME_FIELD].as_slice(), 0, pieces[CUT_NAME_FIELD].len())
    } else {
        Vec::new()
    };
    let name = trimmed(name_text.as_slice());
    Row { cells: values, name: crate::text::text_string(name.as_slice()) }
}


/// The text a named line is written as: its old text while that still trims to
/// the name, so its padding survives, and the name otherwise.
pub open spec fn kept_line(raw: Seq<char>, text: Seq<char>) -> Seq<char> {
    if trimmed_text(raw) == text {
        raw
    } else {
        text
    }
}

/// Writes a named line back; see [`kept_line`].
fn keep_text(raw: &[char], text: &[char]) -> (kept: Vec<char>)
    ensures
        kept@ == kept_line(raw@, text@),
{
    let held = trimmed(raw);
    if same_text(held.as_slice(), text) {
        copy_range(raw, 0, raw.len())
    } else {
        copy_range(text, 0, text.len())
    }
}

impl Imgcut {
    /// Whether two lists keep the same text of the same file, whatever cuts
    /// and sheet name they hold.
    pub closed spec fn same_source(self, other: Imgcut) -> bool {
        &&& self.bom == other.bom
        &&& self.lines@ == other.lines@
        &&& self.roles@ == other.roles@
        &&& self.tail@ == other.tail@
        &&& self.present == other.present
        &&& self.declared == other.declared
    }

    /// Whether two lists keep the same raw cut rows.
    pub closed spec fn same_rows(self, other: Imgcut) -> bool {
        self.raws@ == other.raws@
    }

    /// Whether this list keeps the raw rows of `other` and one more for a new cut.
    pub closed spec fn row_added(self, other: Imgcut) -> bool {
        self.raws@ == other.raws@.push(None)
    }

    /// Whether this list keeps the raw rows of `other` without row `at`.
    pub closed spec fn row_removed(self, other: Imgcut, at: int) -> bool {
        self.raws@ == other.raws@.remove(at)
    }

    /// The name of the sprite sheet the cuts are taken from.
    pub fn sheet(&self) -> (name: &str)
        ensures
            name@ == self.sheet_name(),
    {
        self.sheet.as_str()
    }

    /// Renames the sprite sheet, reporting whether the name changed.
    pub(crate) fn set_sheet(&mut self, name: &str) -> (changed: bool)
        requires
            old(self).wf(),
        ensures
            final(self).wf(),
            final(self).same_source(*old(self)),
            final(self).same_rows(*old(self)),
            final(self).held() == old(self).held(),
            changed == (old(self).sheet_name() != name@),
            final(self).sheet_name() == name@,
    {
        let held = chars_of(self.sheet.as_str());
        let wanted = chars_of(name);
        if same_text(held.as_slice(), wanted.as_slice()) {
            return false;
        }
        self.sheet = name.to_owned();
        true
    }

    /// How many cuts the list holds.
    pub fn count(&self) -> (count: usize)
        ensures
            count == self.held().len(),
    {
        self.cuts.len()
    }

    /// One cut, where it exists.
    pub fn cut(&self, at: usize) -> (cut: Option<&Cut>)
        ensures
            match cut {
                Some(held) => at < self.held().len() && *held == self.held()[at as int],
                None => at >= self.held().len(),
            },
    {
        if at < self.cuts.len() {
            Some(&self.cuts[at])
        } else {
            None
        }
    }

    /// One cell of one cut, where both exist.
    pub fn field(&self, at: usize, cell: usize) -> (value: Option<i32>)
        ensures
            value == if at < self.held().len() && cell < CUT_CELLS {
                Some(self.held()[at as int].cells@[cell as int])
            } else {
                None
            },
    {
        if at < self.cuts.len() && cell < CUT_CELLS {
            Some(self.cuts[at].cells[cell])
        } else {
            None
        }
    }

    /// Sets one cell of one cut, reporting whether it changed.
    pub fn set_field(&mut self, at: usize, cell: usize, value: i32) -> (changed: bool)
        requires
            old(self).wf(),
        ensures
            final(self).wf(),
            final(self).same_source(*old(self)),
            final(self).same_rows(*old(self)),
            final(self).sheet_name() == old(self).sheet_name(),
            changed == (cell < CUT_CELLS && at < old(self).held().len() && old(self).held()[at as int].cells@[cell as int]
                != value),
            changed ==> {
                &&& final(self).held().len() == old(self).held().len()
                &&& final(self).held()[at as int].cells@ == old(self).held()[at as int].cells@.update(cell as int, value)
                &&& final(self).held()[at as int].name@ == old(self).held()[at as int].name@
                &&& forall|i: int|
                    0 <= i < old(self).held().len() && i != at ==> #[trigger] final(self).held()[i] == old(self).held()[i]
            },
            !changed ==> *final(self) == *old(self),
    {
        if cell >= CUT_CELLS || at >= self.cuts.len() {
            return false;
        }
        if self.cuts[at].cells[cell] == value {
            return false;
        }
        let mut row = self.cuts[at].duplicate();
        row.cells[cell] = value;
        self.cuts.set(at, row);
        true
    }

    /// Places a cut on a new region of the sheet, reporting whether it moved.
    pub fn place(&mut self, at: usize, region: [i32; 4]) -> (moved: bool)
        requires
            old(self).wf(),
        ensures
            final(self).wf(),
            final(self).same_source(*old(self)),
            final(self).same_rows(*old(self)),
            final(self).sheet_name() == old(self).sheet_name(),
            moved == (at < old(self).held().len() && old(self).held()[at as int].cells@ != region@),
            final(self).held().len() == old(self).held().len(),
            at < old(self).held().len() ==> final(self).held()[at as int].cells@ == region@,
            at < old(self).held().len() ==> final(self).held()[at as int].name@ == old(self).held()[at as int].name@,
            forall|i: int| 0 <= i < old(self).held().len() && i != at ==> #[trigger] final(self).held()[i] == old(self).held()[i],
    {
        let mut moved = false;
        let mut cell: usize = 0;
        while cell < CUT_CELLS
            invariant
                self.wf(),
                self.same_source(*old(self)),
                self.same_rows(*old(self)),
                self.sheet_name() == old(self).sheet_name(),
                cell <= CUT_CELLS,
                self.held().len() == old(self).held().len(),
                forall|i: int| 0 <= i < old(self).held().len() && i != at ==> #[trigger] self.held()[i] == old(self).held()[i],
                at < old(self).held().len() ==> {
                    &&& self.held()[at as int].name@ == old(self).held()[at as int].name@
                    &&& forall|k: int|
                        0 <= k < CUT_CELLS ==> #[trigger] self.held()[at as int].cells@[k] == if k < cell {
                            region@[k]
                        } else {
                            old(self).held()[at as int].cells@[k]
                        }
                    &&& moved == exists|k: int| 0 <= k < cell && #[trigger] old(self).held()[at as int].cells@[k] != region@[k]
                },
                at >= old(self).held().len() ==> !moved,
            decreases CUT_CELLS - cell,
        {
            let ghost before = self.held();
            let changed = self.set_field(at, cell, region[cell]);
            if changed {
                moved = true;
            }
            proof {
                if at < old(self).held().len() {
                    assert(self.held()[at as int].cells@[cell as int] == region@[cell as int]);
                    if changed {
                        assert(old(self).held()[at as int].cells@[cell as int] != region@[cell as int]);
                    }
                }
            }
            cell += 1;
        }
        proof {
            if at < old(self).held().len() {
                assert(self.held()[at as int].cells@ =~= region@);
                if !moved {
                    assert(old(self).held()[at as int].cells@ =~= region@);
                }
            }
        }
        moved
    }

    /// The name of one cut, where it exists.
    pub fn name(&self, at: usize) -> (name: Option<&str>)
        ensures
            match name {
                Some(text) => at < self.held().len() && text@ == self.held()[at as int].name@,
                None => at >= self.held().len(),
            },
    {
        if at < self.cuts.len() {
            Some(self.cuts[at].name.as_str())
        } else {
            None
        }
    }

    /// Renames one cut, reporting whether the name changed.
    pub fn set_name(&mut self, at: usize, name: &str) -> (changed: bool)
        requires
            old(self).wf(),
        ensures
            final(self).wf(),
            final(self).same_source(*old(self)),
            final(self).same_rows(*old(self)),
            final(self).sheet_name() == old(self).sheet_name(),
            changed == (at < old(self).held().len() && old(self).held()[at as int].name@ != name@),
            changed ==> {
                &&& final(self).held().len() == old(self).held().len()
                &&& final(self).held()[at as int].cells@ == old(self).held()[at as int].cells@
                &&& final(self).held()[at as int].name@ == name@
                &&& forall|i: int|
                    0 <= i < old(self).held().len() && i != at ==> #[trigger] final(self).held()[i] == old(self).held()[i]
            },
            !changed ==> *final(self) == *old(self),
    {
        if at >= self.cuts.len() {
            return false;
        }
        let held = chars_of(self.cuts[at].name.as_str());
        let wanted = chars_of(name);
        if same_text(held.as_slice(), wanted.as_slice()) {
            return false;
        }
        let row = Row { cells: self.cuts[at].cells, name: name.to_owned() };
        self.cuts.set(at, row);
        true
    }

    /// Adds an empty cut after the others, returning its index.
    pub fn add_cut(&mut self) -> (added: usize)
        requires
            old(self).wf(),
            old(self).held().len() < usize::MAX,
        ensures
            final(self).wf(),
            final(self).same_source(*old(self)),
            final(self).row_added(*old(self)),
            final(self).sheet_name() == old(self).sheet_name(),
            added == old(self).held().len(),
            final(self).held().len() == added + 1,
            forall|i: int| 0 <= i < added ==> #[trigger] final(self).held()[i] == old(self).held()[i],
            final(self).held()[added as int].blank(),
    {
        self.cuts.push(Row::<4>::zeroed());
        self.raws.push(None);
        self.cuts.len() - 1
    }

    /// Removes a cut, unless it is the only one left, returning where each old
    /// index landed: the removed one nowhere and every later one up one.
    pub fn remove_cut(&mut self, at: usize) -> (moved: Option<Vec<Option<usize>>>)
        requires
            old(self).wf(),
        ensures
            final(self).wf(),
            final(self).same_source(*old(self)),
            final(self).sheet_name() == old(self).sheet_name(),
            moved.is_some() == (at < old(self).held().len() && old(self).held().len() != 1),
            moved.is_none() ==> *final(self) == *old(self),
            moved matches Some(landed) ==> {
                let count = old(self).held().len() as int;
                &&& landed@ == Seq::new(count as nat, |index: int| crate::mamodel::moved_to(count, at as int, index))
                &&& final(self).held() == old(self).held().remove(at as int)
                &&& final(self).row_removed(*old(self), at as int)
            },
    {
        let count = self.cuts.len();
        if at >= count || count == 1 {
            return None;
        }
        let mut moved: Vec<Option<usize>> = Vec::new();
        let mut index: usize = 0;
        while index < count
            invariant
                index <= count,
                at < count,
                moved@ == Seq::new(index as nat, |old: int| crate::mamodel::moved_to(count as int, at as int, old)),
            decreases count - index,
        {
            let landed = if index == at { None } else if index > at { Some(index - 1) } else { Some(index) };
            moved.push(landed);
            assert(moved@ =~= Seq::new((index + 1) as nat, |old: int| crate::mamodel::moved_to(count as int, at as int, old)));
            index += 1;
        }
        self.cuts.remove(at);
        self.raws.remove(at);
        Some(moved)
    }

    /// The raw text cut row `at` was read from, if the file held it.
    pub closed spec fn raw_at(self, at: int) -> Option<Seq<char>> {
        if 0 <= at < self.raws@.len() {
            raw_views(self.raws@)[at]
        } else {
            None
        }
    }

    /// The text cut `at` is written as, over the row it was read from.
    pub closed spec fn cut_row(self, at: int) -> Seq<char> {
        rendered_cells(self.raw_at(at), self.cuts@[at].cells@, Some(self.cuts@[at].name@))
    }

    /// How many cut rows are written.
    pub closed spec fn cut_rows(self) -> int {
        kept_count(self.cuts@, self.declared as int, self.present as int)
    }

    /// The cut block, written where its first line stood, which ended in `end`.
    pub closed spec fn cuts_block(self, end: Seq<char>) -> Seq<char> {
        concat(self.block_pieces(end))
    }

    /// Each cut row written, with its ending: the last one's ending as the
    /// file's last cut row ended, the others' as the first one did.
    pub closed spec fn block_pieces(self, end: Seq<char>) -> Seq<Seq<char>> {
        let count = self.cut_rows();
        Seq::new(count as nat, |at: int| self.cut_row(at) + self.row_ending(end, at))
    }

    /// How cut row `at` of the block ends.
    pub closed spec fn row_ending(self, end: Seq<char>, at: int) -> Seq<char> {
        if at == self.cut_rows() - 1 {
            self.tail@
        } else {
            crate::mamodel::row_end(end)
        }
    }

    /// What writing line `at` adds after `body`.
    pub closed spec fn emit(self, body: Seq<char>, at: int) -> Seq<char> {
        let text = self.lines@[at].text@;
        let end = self.lines@[at].end@;
        match self.roles@[at] {
            Some(Role::Skip) => body,
            Some(Role::Cuts) => body + self.cuts_block(end),
            Some(Role::Count) => body + counted_line(text, self.declared as int, self.cuts@.len() as int) + end,
            Some(Role::Named) => body + kept_line(text, self.sheet@) + end,
            None => body + text + end,
        }
    }

    /// The text written for the first `count` lines.
    pub closed spec fn written_upto(self, count: int) -> Seq<char>
        decreases count,
    {
        if count <= 0 {
            Seq::empty()
        } else {
            self.emit(self.written_upto(count - 1), count - 1)
        }
    }

    /// The bytes written back: the byte order mark where the file had one,
    /// then every line.
    pub open spec fn written(self) -> Seq<u8> {
        encoded(self.marked(), self.written_text())
    }

    /// Whether the file began with a byte order mark.
    pub closed spec fn marked(self) -> bool {
        self.bom
    }

    /// The text written back, before it is encoded.
    pub closed spec fn written_text(self) -> Seq<char> {
        self.written_upto(self.lines@.len() as int)
    }

    /// Whether writing the list writes a row for cut `at`: the file held at
    /// least one cut row, where the block is written, and `at` is among the
    /// rows written.
    pub closed spec fn writes_cut(self, at: int) -> bool {
        COUNT_LINE + 1 < self.lines@.len() && 0 <= at < self.cut_rows()
    }

    /// The raw text cut row `at` was read from.
    fn raw_of(&self, at: usize) -> (raw: Option<&[char]>)
        requires
            self.wf(),
            at < self.raws@.len(),
        ensures
            crate::text::seen(raw) == self.raw_at(at as int),
    {
        match &self.raws[at] {
            Some(text) => Some(text.as_slice()),
            None => None,
        }
    }

    /// Writes the cut block; see [`Imgcut::cuts_block`].
    fn push_cuts(&self, body: &mut Vec<char>, end: &[char])
        requires
            self.wf(),
        ensures
            final(body)@ == old(body)@ + self.cuts_block(end@),
    {
        let count = kept(&self.cuts, self.declared, self.present);
        let last = if count == 0 { 0 } else { count - 1 };
        let mut ending: Vec<char> = Vec::new();
        if end.len() == 0 {
            ending.push('\n');
        } else {
            extend(&mut ending, end);
        }
        let ghost pieces = self.block_pieces(end@);
        let ghost start = body@;
        let mut at: usize = 0;
        while at < count
            invariant
                self.wf(),
                count == self.cut_rows(),
                count <= self.cuts@.len(),
                last == if count == 0 { 0 } else { count - 1 },
                ending@ == crate::mamodel::row_end(end@),
                pieces == self.block_pieces(end@),
                at <= count,
                start == old(body)@,
                body@ == start + concat(pieces.take(at as int)),
            decreases count - at,
        {
            let name = chars_of(self.cuts[at].name.as_str());
            let row = cells(self.raw_of(at), self.cuts[at].cells.as_slice(), Some(name.as_slice()));
            extend(body, row.as_slice());
            if at == last {
                extend(body, self.tail.as_slice());
            } else {
                extend(body, ending.as_slice());
            }
            proof {
                lemma_concat_step(pieces, at as int);
            }
            at += 1;
        }
        assert(pieces.take(count as int) =~= pieces);
    }

    /// Writes the list back as bytes. Every line is written as it was read
    /// unless what it holds changed: a cut keeps each cell's text while it
    /// still reads the same, and a list the file ran short of is not filled in
    /// with the rows the engine repeated.
    pub fn write(&self) -> (bytes: Vec<u8>)
        requires
            self.wf(),
        ensures
            bytes@ == self.written(),
    {
        let sheet = chars_of(self.sheet.as_str());
        let mut body: Vec<char> = Vec::new();
        let mut at: usize = 0;
        while at < self.lines.len()
            invariant
                self.wf(),
                sheet@ == self.sheet@,
                at <= self.lines@.len(),
                body@ == self.written_upto(at as int),
            decreases self.lines@.len() - at,
        {
            let line = &self.lines[at];
            match self.roles[at] {
                Some(Role::Skip) => {},
                Some(Role::Cuts) => self.push_cuts(&mut body, line.end.as_slice()),
                Some(Role::Count) => {
                    let counted = count_line(line.text.as_slice(), self.declared, self.cuts.len());
                    extend(&mut body, counted.as_slice());
                    extend(&mut body, line.end.as_slice());
                },
                Some(Role::Named) => {
                    let kept_name = keep_text(line.text.as_slice(), sheet.as_slice());
                    extend(&mut body, kept_name.as_slice());
                    extend(&mut body, line.end.as_slice());
                },
                None => {
                    extend(&mut body, line.text.as_slice());
                    extend(&mut body, line.end.as_slice());
                },
            }
            at += 1;
        }
        encode(self.bom, body.as_slice())
    }
}


/// How many cuts the count line of a file's lines declares.
pub open spec fn declared_cuts(lines: Seq<(Seq<char>, Seq<char>)>) -> int {
    let count = if COUNT_LINE < lines.len() { cell_reading(lines[COUNT_LINE as int].0) } else { 0 };
    match rows_declared(count) {
        Some(rows) => rows as int,
        None => 0,
    }
}

/// Whether the rows of a block of `present` rows starting at `base` all end the
/// way its first row does, but for the last.
pub open spec fn endings_uniform(lines: Seq<(Seq<char>, Seq<char>)>, base: int, present: int) -> bool {
    forall|at: int| 0 <= at < present - 1 ==> #[trigger] lines[base + at].1 == crate::mamodel::row_end(lines[base].1)
}

/// Whether a file's cut rows are plain: every one but the last ends the way
/// the first does, as the writer ends them.
pub open spec fn plain_cut_rows(lines: Seq<(Seq<char>, Seq<char>)>) -> bool {
    let present = crate::mamodel::present_in(lines.len() as int, COUNT_LINE + 1, declared_cuts(lines));
    endings_uniform(lines, COUNT_LINE + 1, present)
}

/// The text the lines past the first cut row write, the other cut rows aside:
/// each line as it was.
spec fn later_text(lines: Seq<Line>, roles: Seq<Option<Role>>, k: int) -> Seq<char>
    decreases k,
{
    if k <= COUNT_LINE + 2 {
        Seq::empty()
    } else {
        later_text(lines, roles, k - 1) + match roles[k - 1] {
            Some(Role::Skip) => Seq::empty(),
            _ => lines[k - 1].text@ + lines[k - 1].end@,
        }
    }
}

proof fn lemma_cut_source_range(n: int, at: int)
    ensures
        cut_source(n, at) matches Some(line) ==> COUNT_LINE + 1 <= line < n,
    decreases at + 1,
{
    if at >= 0 && COUNT_LINE + 1 + at >= n {
        lemma_cut_source_range(n, at - 1);
    }
}

proof fn lemma_cut_source(n: int, at: int)
    requires
        at >= 0,
    ensures
        COUNT_LINE + 1 + at < n ==> cut_source(n, at) == Some(COUNT_LINE + 1 + at),
        COUNT_LINE + 1 + at >= n ==> cut_source(n, at) == if n > COUNT_LINE + 1 { Some(n - 1) } else { None::<int> },
    decreases at,
{
    if COUNT_LINE + 1 + at >= n {
        if at > 0 {
            lemma_cut_source(n, at - 1);
        } else {
            assert(cut_source(n, -1).is_none());
        }
    }
}

impl Imgcut {
    /// The written text of the first `count` lines of the file, as they were.
    pub closed spec fn source_upto(self, count: int) -> Seq<char> {
        concat(crate::text::line_pieces(pairs(self.lines@)).take(count))
    }

    proof fn lemma_block(self, bytes: Seq<u8>)
        requires
            self.wf(),
            self.parsed_from(bytes),
            vstd::utf8::valid_utf8(crate::text::body_bytes(bytes)),
            plain_cut_rows(lines_of(vstd::utf8::decode_utf8(crate::text::body_bytes(bytes)))),
            self.present >= 1,
        ensures
            self.source_upto(COUNT_LINE + 1) + self.cuts_block(self.lines@[COUNT_LINE + 1].end@) == self.source_upto(
                COUNT_LINE + 1 + self.present,
            ),
    {
        let lines = self.lines@;
        let n = lines.len() as int;
        let d = self.declared as int;
        let p = self.present as int;
        let first = COUNT_LINE + 1;
        let views = pairs(lines);
        assert(declared_cuts(views) == d);
        assert(p == if n - first < d { n - first } else { d });
        // Every row the file ran short of repeats the last one read.
        assert(self.cut_rows() == p) by {
            if p < d {
                assert forall|i: int| p <= i < self.cuts@.len() implies #[trigger] self.cuts@[i].same(self.cuts@[p - 1]) by {
                    lemma_cut_source(n, i);
                    lemma_cut_source(n, p - 1);
                    assert(cut_source(n, i) == cut_source(n, p - 1));
                }
            }
        }
        let pieces = self.block_pieces(self.lines@[first].end@);
        let source = crate::text::line_pieces(views);
        assert forall|at: int| 0 <= at < p implies pieces[at] == source[first + at] by {
            lemma_cut_source(n, at);
            let text = lines[first + at].text@;
            assert(views[first + at].0 == text);
            if text.len() == 0 {
                assert(fields(text) =~= seq![Seq::<char>::empty()]);
                assert(crate::text::past_cell_blanks(Seq::<char>::empty()) =~= Seq::<char>::empty());
                assert(cell_reading(Seq::<char>::empty()) == 0);
                assert(trimmed_text(Seq::<char>::empty()) =~= Seq::<char>::empty());
            }
            assert(self.raw_at(at) == Some(text));
            crate::rows::lemma_agreeing_row_is_kept(text, self.cuts@[at].cells@, Some(self.cuts@[at].name@));
            if at < p - 1 {
                assert(views[first + at].1 == crate::mamodel::row_end(views[first].1));
            }
        }
        assert(source.take(first + p) =~= source.take(first) + pieces);
        crate::text::lemma_concat_append(source.take(first), pieces);
    }

    /// The text the first `k` lines write back when nothing was touched: the
    /// lines as they were, the whole cut block counted from its first line on.
    pub closed spec fn unchanged_upto(self, k: int) -> Seq<char> {
        let first = COUNT_LINE + 1;
        let p = self.present as int;
        if first < k < first + p {
            self.source_upto(first + p)
        } else {
            self.source_upto(k)
        }
    }

    proof fn lemma_unchanged_upto(self, bytes: Seq<u8>, k: int)
        requires
            self.wf(),
            self.parsed_from(bytes),
            vstd::utf8::valid_utf8(crate::text::body_bytes(bytes)),
            plain_cut_rows(lines_of(vstd::utf8::decode_utf8(crate::text::body_bytes(bytes)))),
            0 <= k <= self.lines@.len(),
        ensures
            self.written_upto(k) == self.unchanged_upto(k),
        decreases k,
    {
        if k > 0 {
            self.lemma_unchanged_upto(bytes, k - 1);
            let at = k - 1;
            let lines = self.lines@;
            let views = pairs(lines);
            let source = crate::text::line_pieces(views);
            let text = lines[at].text@;
            assert(views[at] == (text, lines[at].end@));
            crate::text::lemma_concat_step(source, at);
            if at == COUNT_LINE + 1 {
                self.lemma_block(bytes);
            }
        }
    }

    /// An untouched cut list writes back byte for byte: reading a file whose
    /// text is valid UTF-8 and whose cut rows are plain, and writing it again,
    /// gives the same bytes.
    pub proof fn lemma_untouched_list_writes_back(bytes: Seq<u8>, doc: Imgcut)
        requires
            doc.wf(),
            doc.parsed_from(bytes),
            vstd::utf8::valid_utf8(crate::text::body_bytes(bytes)),
            plain_cut_rows(lines_of(vstd::utf8::decode_utf8(crate::text::body_bytes(bytes)))),
        ensures
            doc.written() == bytes,
    {
        let n = doc.lines@.len() as int;
        let views = pairs(doc.lines@);
        let source = crate::text::line_pieces(views);
        doc.lemma_unchanged_upto(bytes, n);
        assert(source.take(n) =~= source);
        crate::text::lemma_rejoined_concat(views);
        crate::text::lemma_lines_rejoin(vstd::utf8::decode_utf8(crate::text::body_bytes(bytes)));
        crate::text::lemma_file_roundtrip(bytes);
    }

    /// Lines before the cut block write the same text for two lists that keep
    /// the same file, sheet name and number of cuts.
    proof fn lemma_same_head(before: Imgcut, after: Imgcut, k: int)
        requires
            before.wf(),
            after.wf(),
            after.same_source(before),
            after.sheet@ == before.sheet@,
            after.cuts@.len() == before.cuts@.len(),
            0 <= k <= COUNT_LINE + 1,
            k <= before.lines@.len(),
        ensures
            after.written_upto(k) == before.written_upto(k),
        decreases k,
    {
        if k > 0 {
            Self::lemma_same_head(before, after, k - 1);
            assert(before.roles@[k - 1] == cut_role(before.lines@.len() as int, before.declared as int, k - 1));
        }
    }

    /// Past the first cut row, the lines write the cut block and then each
    /// line as it was, the other cut rows aside.
    proof fn lemma_block_and_after(self, k: int)
        requires
            self.wf(),
            COUNT_LINE + 1 < k <= self.lines@.len(),
        ensures
            self.written_upto(k) == self.written_upto(COUNT_LINE + 1) + self.cuts_block(
                self.lines@[COUNT_LINE + 1].end@,
            ) + later_text(self.lines@, self.roles@, k),
        decreases k,
    {
        let n = self.lines@.len() as int;
        assert(self.roles@[k - 1] == cut_role(n, self.declared as int, k - 1));
        if k > COUNT_LINE + 2 {
            self.lemma_block_and_after(k - 1);
            let head = self.written_upto(COUNT_LINE + 1) + self.cuts_block(self.lines@[COUNT_LINE + 1].end@);
            let line = self.lines@[k - 1];
            match self.roles@[k - 1] {
                Some(Role::Skip) => {
                    assert(later_text(self.lines@, self.roles@, k) =~= later_text(self.lines@, self.roles@, k - 1));
                },
                _ => {
                    assert(head + later_text(self.lines@, self.roles@, k - 1) + (line.text@ + line.end@) =~= head
                        + later_text(self.lines@, self.roles@, k));
                },
            }
        } else {
            assert(later_text(self.lines@, self.roles@, k) =~= Seq::<char>::empty());
        }
    }

    /// Two lists that agree but for cut `at` write the same cut rows but for
    /// that one, which ends the same way in both.
    proof fn lemma_pieces_agree(before: Imgcut, after: Imgcut, at: int, end: Seq<char>)
        requires
            before.wf(),
            after.wf(),
            after.same_source(before),
            after.same_rows(before),
            after.cuts@.len() == before.cuts@.len(),
            forall|i: int| 0 <= i < before.cuts@.len() && i != at ==> #[trigger] after.cuts@[i] == before.cuts@[i],
            after.cut_rows() == before.cut_rows(),
        ensures
            after.block_pieces(end).len() == before.block_pieces(end).len(),
            before.block_pieces(end).len() == before.cut_rows(),
            before.cut_rows() <= before.cuts@.len(),
            forall|i: int|
                0 <= i < before.cut_rows() && i != at ==> #[trigger] after.block_pieces(end)[i]
                    == before.block_pieces(end)[i],
            0 <= at < before.cut_rows() ==> before.block_pieces(end)[at] == before.cut_row(at) + before.row_ending(
                end,
                at,
            ),
            0 <= at < before.cut_rows() ==> after.block_pieces(end)[at] == after.cut_row(at) + before.row_ending(
                end,
                at,
            ),
    {
        assert forall|i: int| 0 <= i < before.cut_rows() && i != at implies #[trigger] after.block_pieces(end)[i]
            == before.block_pieces(end)[i] by {
            assert(after.raw_at(i) == before.raw_at(i));
            assert(after.cuts@[i] == before.cuts@[i]);
            assert(after.cut_row(i) == before.cut_row(i));
        }
    }

    /// Editing one cut rewrites only its own row: of two lists that keep the
    /// same file, raw rows and sheet name, write the same number of cut rows,
    /// and hold the same cuts but for cut `at`, the written texts differ only
    /// in the row of that cut, and not at all where that row is not written.
    pub proof fn lemma_edit_rewrites_only_its_row(before: Imgcut, after: Imgcut, at: int)
        requires
            before.wf(),
            after.wf(),
            after.same_source(before),
            after.same_rows(before),
            after.sheet_name() == before.sheet_name(),
            after.held().len() == before.held().len(),
            forall|i: int| 0 <= i < before.held().len() && i != at ==> #[trigger] after.held()[i] == before.held()[i],
            after.cut_rows() == before.cut_rows(),
        ensures
            after.writes_cut(at) == before.writes_cut(at),
            after.marked() == before.marked(),
            before.writes_cut(at) ==> swapped(
                before.written_text(),
                after.written_text(),
                before.cut_row(at),
                after.cut_row(at),
            ),
            !before.writes_cut(at) ==> after.written_text() == before.written_text(),
    {
        let n = before.lines@.len() as int;
        let first = COUNT_LINE + 1;
        if first < n {
            Self::lemma_same_head(before, after, first);
            before.lemma_block_and_after(n);
            after.lemma_block_and_after(n);
            let later = later_text(before.lines@, before.roles@, n);
            assert(later_text(after.lines@, after.roles@, n) == later);
            let end = before.lines@[first].end@;
            let count = before.cut_rows();
            let pb = before.block_pieces(end);
            let pa = after.block_pieces(end);
            let prefix = before.written_upto(first);
            Self::lemma_pieces_agree(before, after, at, end);
            if 0 <= at < count {
                let ending = before.row_ending(end, at);
                let head = prefix + concat(pb.take(at));
                let tail = ending + concat(pb.skip(at + 1)) + later;
                lemma_swap_piece(prefix, pb, pa, later, at);
                assert(before.written_text() =~= head + before.cut_row(at) + tail);
                assert(after.written_text() =~= head + after.cut_row(at) + tail);
            } else {
                assert(pa =~= pb);
            }
        } else {
            Self::lemma_same_head(before, after, n);
        }
    }
}

} // verus!
