//! A `.mamodel` part hierarchy held next to the text it was read from, so that
//! writing it back changes only what was edited.

use vstd::prelude::*;

use crate::rig::{fault_of, model_reading, parse_model, Model, Offset, Part, RigFault, PART_CELLS};
use crate::rows::{
    cells, count_line, counted_line, kept, kept_count, read, reading, field_at, rendered_cells,
    row_fields, Row,
};
use crate::text::{
    body_text, cell_reading, cell_value, chars_of, concat, copy_range, decimal, decimal_text,
    encode, encoded, extend, has_bom, lemma_concat_step, lines_of, pairs, same_text, split,
    terminate, terminated, unmarked, Line, ends_alike, lemma_swap_row, lemma_terminated_swap, swapped,
};

verus! {

broadcast use vstd::seq_lib::group_seq_properties;

/// The line holding the format revision.
pub const VERSION_LINE: usize = 1;
/// The line holding the part count.
pub const COUNT_LINE: usize = 2;
/// The cell that holds a part's blending mode.
pub const GLOW_CELL: usize = 12;
/// The first revision whose part rows carry a blending column.
pub const GLOW_VERSION: i32 = 2;
/// The first revision that declares a units row.
pub const UNITED_VERSION: i32 = 1;
/// The first revision that declares an alignment block.
pub const ALIGNED_VERSION: i32 = 3;
/// The cell that holds a part's sheet id.
pub const SHEET_FIELD: usize = 1;
/// The number of blending modes past the ordinary one.
pub const GLOW_MODES: i32 = 3;
/// The parent of the root part.
pub const NO_PARENT: i32 = -1;
/// The sprite, and sheet id, of a part that is never drawn.
pub const NOT_DRAWN: i32 = -1;
/// The position of the name among a part's fields.
pub const NAME_FIELD: usize = PART_CELLS;

/// What a line of a model file holds.
#[derive(Clone, Copy, PartialEq, Eq, Structural, Debug)]
pub enum Role {
    Version,
    Count,
    Parts,
    Units,
    AlignCount,
    Aligns,
    Skip,
}

/// The role of line `at` in a file of `n` lines whose model has the given
/// revision, part count and alignment row count: the revision and count lines,
/// then the part block (whose first line writes the whole block and whose other
/// lines are skipped), the units row from revision one, and from revision three
/// the alignment count and its block.
pub open spec fn layout_role(n: int, version: i32, parts: int, aligns: int, at: int) -> Option<Role> {
    if !(0 <= at < n) {
        None
    } else if at == 1 {
        Some(Role::Version)
    } else if at == 2 {
        Some(Role::Count)
    } else if 3 <= at < 3 + parts {
        if at == 3 { Some(Role::Parts) } else { Some(Role::Skip) }
    } else if version >= 1 && at == 3 + parts {
        Some(Role::Units)
    } else if version >= 3 && at == 4 + parts {
        Some(Role::AlignCount)
    } else if version >= 3 && 5 + parts <= at < 5 + parts + aligns {
        if at == 5 + parts { Some(Role::Aligns) } else { Some(Role::Skip) }
    } else {
        None
    }
}

/// The raw text of row `at` of a block starting at line `base`, if the file reaches it.
pub open spec fn block_raw(lines: Seq<Line>, base: int, at: int) -> Option<Seq<char>> {
    if 0 <= base + at < lines.len() {
        Some(lines[base + at].text@)
    } else {
        None
    }
}

/// How many rows of a block of `count` starting at line `base` the file holds.
pub open spec fn present_in(n: int, base: int, count: int) -> int {
    if base >= n {
        0
    } else if n - base < count {
        n - base
    } else {
        count
    }
}

/// The ending of the last row a block holds, or a newline where it holds none.
pub open spec fn block_tail(lines: Seq<Line>, base: int, count: int) -> Seq<char> {
    let present = present_in(lines.len() as int, base, count);
    if present > 0 {
        lines[base + present - 1].end@
    } else {
        seq!['\n']
    }
}

/// The characters each optional raw row holds.
pub open spec fn raw_views(raws: Seq<Option<Vec<char>>>) -> Seq<Option<Seq<char>>> {
    raws.map_values(|raw: Option<Vec<char>>| match raw {
        Some(text) => Some(text@),
        None => None,
    })
}

/// The raw rows of a block of `count` rows starting at line `base`.
pub open spec fn block_raws(lines: Seq<Line>, base: int, count: int) -> Seq<Option<Seq<char>>> {
    Seq::new(count as nat, |at: int| block_raw(lines, base, at))
}

/// A part hierarchy and the text of the file it was read from.
pub struct Mamodel {
    bom: bool,
    lines: Vec<Line>,
    roles: Vec<Option<Role>>,
    raws: Vec<Option<Vec<char>>>,
    rows: Vec<Option<Vec<char>>>,
    part_tail: Vec<char>,
    align_tail: Vec<char>,
    part_present: usize,
    align_present: usize,
    version: i32,
    parts: usize,
    aligns: usize,
    model: Model,
}

/// Assigns roles to a block of `count` rows starting at line `cursor`, and
/// returns each row's raw text, how many rows the file holds, and the ending
/// of the last one it holds.
fn block(lines: &Vec<Line>, cursor: usize, count: usize, lead: Role, roles: &mut Vec<Option<Role>>) -> (read: (
    Vec<Option<Vec<char>>>,
    usize,
    Vec<char>,
))
    requires
        old(roles)@.len() == lines@.len(),
        cursor + count <= usize::MAX,
    ensures
        final(roles)@.len() == lines@.len(),
        forall|i: int|
            0 <= i < lines@.len() ==> #[trigger] final(roles)@[i] == if cursor <= i < cursor + count {
                if i == cursor { Some(lead) } else { Some(Role::Skip) }
            } else {
                old(roles)@[i]
            },
        raw_views(read.0@) == block_raws(lines@, cursor as int, count as int),
        read.1 == present_in(lines@.len() as int, cursor as int, count as int),
        read.2@ == block_tail(lines@, cursor as int, count as int),
{
    let mut raws: Vec<Option<Vec<char>>> = Vec::new();
    let mut present: usize = 0;
    let mut tail: Vec<char> = Vec::new();
    tail.push('\n');
    let ghost start = roles@;
    let mut at: usize = 0;
    while at < count
        invariant
            at <= count,
            cursor + count <= usize::MAX,
            roles@.len() == lines@.len(),
            start.len() == lines@.len(),
            forall|i: int|
                0 <= i < lines@.len() ==> #[trigger] roles@[i] == if cursor <= i < cursor + at {
                    if i == cursor { Some(lead) } else { Some(Role::Skip) }
                } else {
                    start[i]
                },
            raw_views(raws@) == block_raws(lines@, cursor as int, at as int),
            present == present_in(lines@.len() as int, cursor as int, at as int),
            tail@ == block_tail(lines@, cursor as int, at as int),
        decreases count - at,
    {
        let ghost before = raws@;
        if cursor + at < lines.len() {
            let line = &lines[cursor + at];
            roles.set(cursor + at, Some(if at == 0 { lead } else { Role::Skip }));
            tail = copy_range(line.end.as_slice(), 0, line.end.len());
            raws.push(Some(copy_range(line.text.as_slice(), 0, line.text.len())));
            present = at + 1;
        } else {
            raws.push(None);
        }
        assert(raw_views(raws@) =~= raw_views(before).push(block_raw(lines@, cursor as int, at as int)));
        assert(block_raws(lines@, cursor as int, at + 1) =~= block_raws(lines@, cursor as int, at as int).push(
            block_raw(lines@, cursor as int, at as int),
        ));
        at += 1;
    }
    (raws, present, tail)
}

impl Mamodel {
    /// Whether the document's parts agree with what it keeps of the file.
    pub closed spec fn wf(self) -> bool {
        &&& self.roles@.len() == self.lines@.len()
        &&& self.raws@.len() == self.model.parts@.len()
        &&& self.rows@.len() == self.model.alignment@.len()
        &&& forall|at: int|
            0 <= at < self.lines@.len() ==> #[trigger] self.roles@[at] == layout_role(
                self.lines@.len() as int,
                self.version,
                self.parts as int,
                self.aligns as int,
                at,
            )
    }

    /// The model the document holds.
    pub closed spec fn held(self) -> Model {
        self.model
    }

    /// Whether this document is what [`Mamodel::parse`] makes of `bytes`: the
    /// model nyanko reads, the file's lines and their ending, each line's role
    /// in the layout of that model, and the raw text of every row it read.
    pub closed spec fn parsed_from(self, bytes: Seq<u8>) -> bool {
        let n = self.lines@.len() as int;
        let version = self.model.version;
        let parts = self.model.parts@.len() as int;
        let aligns = self.model.alignment@.len() as int;
        let align_base = if version >= ALIGNED_VERSION { 5 + parts } else { 0 };
        let align_count = if version >= ALIGNED_VERSION { aligns } else { 0 };
        &&& model_reading(bytes) == Ok::<Model, RigFault>(self.model)
        &&& self.bom == has_bom(bytes)
        &&& pairs(self.lines@) == lines_of(body_text(bytes))
        &&& vstd::utf8::valid_utf8(crate::text::body_bytes(bytes)) ==> pairs(self.lines@) == lines_of(
            vstd::utf8::decode_utf8(crate::text::body_bytes(bytes)),
        )
        &&& forall|at: int| 0 <= at < n ==> #[trigger] self.roles@[at] == layout_role(n, version, parts, aligns, at)
        &&& raw_views(self.raws@) == block_raws(self.lines@, 3, parts)
        &&& self.part_present == present_in(n, 3, parts)
        &&& self.part_tail@ == block_tail(self.lines@, 3, parts)
        &&& raw_views(self.rows@) == block_raws(self.lines@, align_base, align_count)
        &&& self.align_present == present_in(n, align_base, align_count)
        &&& self.align_tail@ == block_tail(self.lines@, align_base, align_count)
        &&& self.version == version
        &&& self.parts == parts
        &&& self.aligns == aligns
    }

    /// Reads a model file, keeping its text so it can be written back.
    pub fn parse(bytes: &[u8]) -> (parsed: Result<Mamodel, RigFault>)
        ensures
            match parsed {
                Ok(doc) => doc.wf() && doc.parsed_from(bytes@) && model_reading(bytes@) == Ok::<Model, RigFault>(
                    doc.held(),
                ),
                Err(fault) => model_reading(bytes@) == Err::<Model, RigFault>(fault),
            },
    {
        let model = match parse_model(bytes) {
            Ok(model) => model,
            Err(error) => return Err(fault_of(error)),
        };
        let (bom, body) = unmarked(bytes);
        let lines = split(body.as_slice());
        let ghost n = lines@.len() as int;
        let parts = model.parts.len();
        let aligns = model.alignment.len();
        let version = model.version;
        let mut roles: Vec<Option<Role>> = Vec::new();
        let mut at: usize = 0;
        while at < lines.len()
            invariant
                at <= lines@.len(),
                roles@.len() == at,
                forall|i: int| 0 <= i < at ==> roles@[i].is_none(),
            decreases lines@.len() - at,
        {
            roles.push(None);
            at += 1;
        }
        if VERSION_LINE < lines.len() {
            roles.set(VERSION_LINE, Some(Role::Version));
        }
        if COUNT_LINE < lines.len() {
            roles.set(COUNT_LINE, Some(Role::Count));
        }
        let mut cursor: usize = COUNT_LINE + 1;
        let (raws, part_present, part_tail) = block(&lines, cursor, parts, Role::Parts, &mut roles);
        cursor += parts;
        let mut rows: Vec<Option<Vec<char>>> = Vec::new();
        let mut align_present: usize = 0;
        let mut align_tail: Vec<char> = Vec::new();
        align_tail.push('\n');
        if version >= UNITED_VERSION {
            if cursor < lines.len() {
                roles.set(cursor, Some(Role::Units));
            }
            cursor += 1;
        }
        if version >= ALIGNED_VERSION {
            if cursor < lines.len() {
                roles.set(cursor, Some(Role::AlignCount));
            }
            cursor += 1;
            let (block_rows, present, tail) = block(&lines, cursor, aligns, Role::Aligns, &mut roles);
            rows = block_rows;
            align_present = present;
            align_tail = tail;
        } else {
            assert(raw_views(rows@) =~= block_raws(lines@, 0, 0));
            assert(block_tail(lines@, 0, 0) =~= seq!['\n']);
        }
        let doc = Mamodel {
            bom,
            lines,
            roles,
            raws,
            rows,
            part_tail,
            align_tail,
            part_present,
            align_present,
            version,
            parts,
            aligns,
            model,
        };
        assert forall|i: int| 0 <= i < n implies #[trigger] doc.roles@[i] == layout_role(
            n,
            version,
            parts as int,
            aligns as int,
            i,
        ) by {}
        assert(doc.raws@.len() == parts) by {
            assert(raw_views(doc.raws@).len() == doc.raws@.len());
        }
        assert(doc.rows@.len() == doc.model.alignment@.len()) by {
            assert(raw_views(doc.rows@).len() == doc.rows@.len());
        }
        Ok(doc)
    }
}


/// Whether `new` holds what `old` does, but perhaps for its parts.
pub open spec fn same_but_parts(new: Model, old: Model) -> bool {
    &&& new.version == old.version
    &&& new.scale_unit == old.scale_unit
    &&& new.angle_unit == old.angle_unit
    &&& new.opacity_unit == old.opacity_unit
    &&& new.unknown_3 == old.unknown_3
    &&& new.alignment@ == old.alignment@
}

/// Whether `new` holds what `old` does, but perhaps for its version and alignment rows.
pub open spec fn same_but_alignment(new: Model, old: Model) -> bool {
    &&& new.scale_unit == old.scale_unit
    &&& new.angle_unit == old.angle_unit
    &&& new.opacity_unit == old.opacity_unit
    &&& new.unknown_3 == old.unknown_3
    &&& new.parts@ == old.parts@
}

/// Whether `new` holds the parts of `old` but for the given cells of one part.
pub open spec fn part_cells_changed(new: Model, old: Model, part: int, cells: Seq<i32>) -> bool {
    &&& same_but_parts(new, old)
    &&& new.parts@.len() == old.parts@.len()
    &&& 0 <= part < old.parts@.len()
    &&& new.parts@[part].cells@ == cells
    &&& new.parts@[part].name@ == old.parts@[part].name@
    &&& forall|i: int| 0 <= i < old.parts@.len() && i != part ==> #[trigger] new.parts@[i] == old.parts@[i]
}

impl Mamodel {
    /// Whether two documents keep the same text of the same file, whatever
    /// their models hold.
    pub closed spec fn same_source(self, other: Mamodel) -> bool {
        &&& self.bom == other.bom
        &&& self.lines@ == other.lines@
        &&& self.roles@ == other.roles@
        &&& self.part_tail@ == other.part_tail@
        &&& self.align_tail@ == other.align_tail@
        &&& self.part_present == other.part_present
        &&& self.align_present == other.align_present
        &&& self.version == other.version
        &&& self.parts == other.parts
        &&& self.aligns == other.aligns
    }

    /// Whether two documents keep the same raw part rows.
    pub closed spec fn same_part_rows(self, other: Mamodel) -> bool {
        self.raws@ == other.raws@
    }

    /// Whether two documents also keep the same raw rows.
    pub closed spec fn same_rows(self, other: Mamodel) -> bool {
        &&& self.raws@ == other.raws@
        &&& self.rows@ == other.rows@
    }

    /// The model this document holds.
    pub fn model(&self) -> (model: &Model)
        ensures
            *model == self.held(),
    {
        &self.model
    }

    /// How many parts the model holds.
    pub fn count(&self) -> (count: usize)
        ensures
            count == self.held().parts@.len(),
    {
        self.model.parts.len()
    }

    /// One cell of one part, where both exist.
    pub fn field(&self, part: usize, at: usize) -> (value: Option<i32>)
        ensures
            value == if part < self.held().parts@.len() && at < PART_CELLS {
                Some(self.held().parts@[part as int].cells@[at as int])
            } else {
                None
            },
    {
        if part < self.model.parts.len() && at < PART_CELLS {
            Some(self.model.parts[part].cells[at])
        } else {
            None
        }
    }

    /// Sets one cell of one part, reporting whether anything changed.
    pub fn set_field(&mut self, part: usize, at: usize, value: i32) -> (changed: bool)
        requires
            old(self).wf(),
        ensures
            final(self).wf(),
            final(self).same_source(*old(self)),
            final(self).same_rows(*old(self)),
            changed == (at < PART_CELLS && part < old(self).held().parts@.len()
                && old(self).held().parts@[part as int].cells@[at as int] != value),
            changed ==> part_cells_changed(
                final(self).held(),
                old(self).held(),
                part as int,
                old(self).held().parts@[part as int].cells@.update(at as int, value),
            ),
            !changed ==> final(self).held() == old(self).held(),
    {
        if at >= PART_CELLS {
            return false;
        }
        if part >= self.model.parts.len() {
            return false;
        }
        if self.model.parts[part].cells[at] == value {
            return false;
        }
        let mut row = self.model.parts[part].duplicate();
        row.cells[at] = value;
        self.model.parts.set(part, row);
        true
    }
}


/// The parent a part names, if it names one at all.
pub open spec fn parent_of(parts: Seq<Part>, at: int) -> Option<int> {
    if 0 <= at < parts.len() && parts[at].cells@[0] >= 0 {
        Some(parts[at].cells@[0] as int)
    } else {
        None
    }
}

/// Whether climbing at most `steps` times from part `at` through its parents
/// reaches part `of`, stopping at a part with no parent or that is its own.
pub open spec fn climbs(parts: Seq<Part>, at: int, of: int, steps: nat) -> bool
    decreases steps,
{
    if steps == 0 {
        false
    } else if at == of {
        true
    } else {
        match parent_of(parts, at) {
            Some(parent) => if parent != at {
                climbs(parts, parent, of, (steps - 1) as nat)
            } else {
                false
            },
            None => false,
        }
    }
}

/// Whether part `a` climbs back to itself: it names a parent other than
/// itself, and climbing from that parent, as many steps as there are parts,
/// reaches `a` again.
pub open spec fn loops_back(parts: Seq<Part>, a: int) -> bool {
    match parent_of(parts, a) {
        Some(parent) => parent != a && climbs(parts, parent, a, parts.len()),
        None => false,
    }
}

/// Whether the parts' parent links hold no cycle: no part climbs back to itself.
pub open spec fn acyclic(parts: Seq<Part>) -> bool {
    forall|a: int| 0 <= a < parts.len() ==> !loops_back(parts, a)
}

/// Whether `new` is `old` with part `at` storing `cell` as its parent, every
/// other part as it was.
pub open spec fn rehung(new: Seq<Part>, old: Seq<Part>, at: int, cell: i32) -> bool {
    &&& new.len() == old.len()
    &&& 0 <= at < old.len()
    &&& new[at].cells@.len() > 0
    &&& new[at].cells@[0] == cell
    &&& forall|i: int| 0 <= i < old.len() && i != at ==> #[trigger] new[i] == old[i]
}

/// A climb that reaches its goal within some steps reaches it within more.
proof fn lemma_climb_longer(parts: Seq<Part>, from: int, to: int, steps: nat, more: nat)
    requires
        climbs(parts, from, to, steps),
        steps <= more,
    ensures
        climbs(parts, from, to, more),
    decreases steps,
{
    if from != to {
        if let Some(parent) = parent_of(parts, from) {
            lemma_climb_longer(parts, parent, to, (steps - 1) as nat, (more - 1) as nat);
        }
    }
}

/// Two climbs, the second starting where the first arrives, make one.
proof fn lemma_climb_joined(parts: Seq<Part>, from: int, via: int, to: int, first: nat, second: nat)
    requires
        climbs(parts, from, via, first),
        climbs(parts, via, to, second),
    ensures
        climbs(parts, from, to, (first + second - 1) as nat),
    decreases first,
{
    if from == via {
        lemma_climb_longer(parts, via, to, second, (first + second - 1) as nat);
    } else if from != to {
        let parent = parent_of(parts, from)->Some_0;
        lemma_climb_joined(parts, parent, via, to, (first - 1) as nat, second);
    }
}

/// A climb after part `at` was rehung either climbs the old links too, or
/// climbs them to `at` within `reach` steps and goes on from `at` with the
/// steps that are left.
proof fn lemma_climb_detour(new: Seq<Part>, old: Seq<Part>, at: int, cell: i32, from: int, to: int, steps: nat) -> (reach: nat)
    requires
        rehung(new, old, at, cell),
        climbs(new, from, to, steps),
    ensures
        climbs(old, from, to, steps) || (1 <= reach <= steps && climbs(old, from, at, reach) && climbs(
            new,
            at,
            to,
            (steps - reach + 1) as nat,
        )),
    decreases steps,
{
    if from == to {
        0
    } else if from == at {
        1
    } else {
        if 0 <= from < old.len() {
            assert(new[from] == old[from]);
        }
        let parent = parent_of(new, from)->Some_0;
        let reach = lemma_climb_detour(new, old, at, cell, parent, to, (steps - 1) as nat);
        if climbs(old, parent, to, (steps - 1) as nat) {
            0
        } else {
            reach + 1
        }
    }
}

/// Rehanging a part keeps the links free of cycles, as long as the new
/// parent did not already climb to the part.
proof fn lemma_rehung_acyclic(new: Seq<Part>, old: Seq<Part>, at: int, cell: i32)
    requires
        rehung(new, old, at, cell),
        acyclic(old),
        cell >= 0 ==> !climbs(old, cell as int, at, old.len()),
    ensures
        acyclic(new),
{
    let count = new.len();
    assert forall|a: int| 0 <= a < count implies !loops_back(new, a) by {
        if loops_back(new, a) {
            let up = parent_of(new, a)->Some_0;
            if a == at {
                let reach = lemma_climb_detour(new, old, at, cell, up, at, count);
                if !climbs(old, up, at, count) {
                    lemma_climb_longer(old, up, at, reach, count);
                }
                assert(false);
            } else {
                assert(new[a] == old[a]);
                assert(parent_of(old, a) == Some(up));
                let reach = lemma_climb_detour(new, old, at, cell, up, a, count);
                assert(!loops_back(old, a));
                if !climbs(old, up, a, count) {
                    let hung = cell as int;
                    assert(parent_of(new, at) == Some(hung));
                    let left = (count - reach) as nat;
                    assert(climbs(new, at, a, left + 1));
                    assert(hung != at);
                    assert(climbs(new, hung, a, left));
                    let further = lemma_climb_detour(new, old, at, cell, hung, a, left);
                    if climbs(old, hung, a, left) {
                        assert(climbs(old, up, up, 1));
                        assert(climbs(old, a, up, 2));
                        lemma_climb_joined(old, hung, a, up, left, 2);
                        lemma_climb_joined(old, hung, up, at, left + 1, reach);
                        assert(climbs(old, hung, at, count));
                    } else {
                        lemma_climb_longer(old, hung, at, further, count);
                    }
                }
                assert(false);
            }
        }
    }
}

/// The sheet id of the first part that is drawn, or the not-drawn mark.
pub open spec fn first_drawn(parts: Seq<Part>, from: int) -> i32
    decreases parts.len() - from,
{
    if from < 0 || from >= parts.len() {
        NOT_DRAWN
    } else if parts[from].cells@[1] != NOT_DRAWN {
        parts[from].cells@[1]
    } else {
        first_drawn(parts, from + 1)
    }
}

/// A parent index as the cell that stores it: the root sentinel for none, or
/// for an index no cell can hold.
pub open spec fn parent_cell(parent: Option<usize>) -> i32 {
    match parent {
        Some(at) => if at <= i32::MAX { at as i32 } else { NO_PARENT },
        None => NO_PARENT,
    }
}

/// The cells a new part starts from: no parent, the model's own sheet id, the
/// model's unit scale and opacity, and zero everywhere else.
pub open spec fn default_cells(model: Model) -> Seq<i32> {
    seq![
        NO_PARENT, first_drawn(model.parts@, 0), 0i32, 0i32, 0i32, 0i32, 0i32, 0i32,
        model.scale_unit, model.scale_unit, 0i32, model.opacity_unit, 0i32,
    ]
}

/// The cells of a part added under `parent`: the defaults, hung off that
/// parent and drawn one layer in front of it.
pub open spec fn seeded_cells(model: Model, parent: Option<usize>) -> Seq<i32> {
    let z = match parent {
        Some(at) => if at < model.parts@.len() {
            let held = model.parts@[at as int].cells@[3];
            if held == i32::MAX { held } else { (held + 1) as i32 }
        } else {
            0i32
        },
        None => 0i32,
    };
    default_cells(model).update(0, parent_cell(parent)).update(3, z)
}

/// The index a part has after part `at` of `count` is removed, if it survives.
pub open spec fn moved_to(count: int, at: int, old: int) -> Option<usize> {
    if old == at {
        None
    } else if old > at {
        Some((old - 1) as usize)
    } else {
        Some(old as usize)
    }
}

/// A parent index after part `at` of `count` is removed: the removed part's
/// children name its own parent, every later index moves up one, and a parent
/// that went with the removed part, or is out of range, is kept as it was
/// where the renumbering does not reach it.
pub open spec fn reparented(count: int, at: int, inherited: i32, parent: i32) -> i32 {
    let handed = if parent == at { inherited } else { parent };
    if handed < 0 || handed >= count {
        handed
    } else if handed == at {
        NO_PARENT
    } else if handed > at {
        (handed - 1) as i32
    } else {
        handed
    }
}

/// Where an item lands when another is removed from a list: the removed one
/// nowhere, and every other at the index where the shortened list holds it.
pub proof fn lemma_landing_finds_the_same_item<T>(items: Seq<T>, at: int, index: int)
    requires
        0 <= at < items.len() <= usize::MAX,
        0 <= index < items.len(),
    ensures
        match moved_to(items.len() as int, at, index) {
            Some(landed) => landed < items.len() - 1 && items.remove(at)[landed as int] == items[index],
            None => index == at,
        },
{
    if index > at {
        assert(items.remove(at)[index - 1] == items[index]);
    }
}

/// Removing a part keeps every surviving link: a parent that survives the
/// removal is still the parent afterwards, named by its new index, whichever
/// part was removed.
pub proof fn lemma_reparented_keeps_link(count: int, at: int, inherited: i32, parent: i32)
    requires
        0 <= at < count,
        0 <= parent < count,
        parent != at,
    ensures
        ({
            let hung = reparented(count, at, inherited, parent) as int;
            &&& 0 <= hung < count - 1
            &&& (if hung < at { hung } else { hung + 1 }) == parent
        }),
{
}

/// Removing a cut and pointing the parts at where their cuts landed keeps
/// every part on the cut it drew: a part that drew a surviving cut draws, in
/// the shortened list, that same cut, and a part on the removed cut draws
/// nothing.
pub proof fn lemma_retargeted_part_draws_same_cut<T>(cuts: Seq<T>, at: int, sprite: i32)
    requires
        0 <= at < cuts.len() <= i32::MAX,
        0 <= sprite < cuts.len(),
    ensures
        ({
            let moved = Seq::new(cuts.len(), |index: int| moved_to(cuts.len() as int, at, index));
            let drawn = retargeted(moved, sprite) as int;
            &&& sprite != at ==> 0 <= drawn < cuts.len() - 1 && cuts.remove(at)[drawn] == cuts[sprite as int]
            &&& sprite == at ==> drawn == NOT_DRAWN
        }),
{
}

/// The sprite a part draws after the cut list was renumbered by `moved`.
pub open spec fn retargeted(moved: Seq<Option<usize>>, sprite: i32) -> i32 {
    if sprite < 0 || sprite >= moved.len() {
        sprite
    } else {
        match moved[sprite as int] {
            Some(landed) => if landed <= i32::MAX { landed as i32 } else { NOT_DRAWN },
            None => NOT_DRAWN,
        }
    }
}

/// A part's cells once parts drawn from another unit's sheet are moved onto `unit`.
pub open spec fn restamped(cells: Seq<i32>, unit: i32) -> Seq<i32> {
    let id = cells[SHEET_FIELD as int];
    if id >= 0 && id != unit {
        cells.update(SHEET_FIELD as int, unit)
    } else {
        cells
    }
}

/// How many of the first `upto` parts carry a sheet id of their own other than `unit`.
pub open spec fn borrowed_count(parts: Seq<Part>, unit: i32, upto: int) -> int
    decreases upto,
{
    if upto <= 0 {
        0
    } else {
        borrowed_count(parts, unit, upto - 1) + if parts[upto - 1].cells@[SHEET_FIELD as int] >= 0
            && parts[upto - 1].cells@[SHEET_FIELD as int] != unit {
            1int
        } else {
            0int
        }
    }
}

impl Mamodel {
    /// Whether the studio may add alignment rows: the model declares a units
    /// row and the file has a revision line to raise.
    pub closed spec fn can_align(self) -> bool {
        self.model.version >= UNITED_VERSION && self.roles@.contains(Some(Role::Version))
    }

    /// The name of one part, where it exists.
    pub fn name(&self, part: usize) -> (name: Option<&str>)
        ensures
            match name {
                Some(text) => part < self.held().parts@.len() && text@ == self.held().parts@[part as int].name@,
                None => part >= self.held().parts@.len(),
            },
    {
        if part < self.model.parts.len() {
            Some(self.model.parts[part].name.as_str())
        } else {
            None
        }
    }

    /// Moves every part drawn from another unit's sheet onto `unit`, returning
    /// how many moved.
    pub fn restamp(&mut self, unit: i32) -> (moved: usize)
        requires
            old(self).wf(),
        ensures
            final(self).wf(),
            final(self).same_source(*old(self)),
            final(self).same_rows(*old(self)),
            same_but_parts(final(self).held(), old(self).held()),
            final(self).held().parts@.len() == old(self).held().parts@.len(),
            forall|i: int|
                0 <= i < old(self).held().parts@.len() ==> #[trigger] final(self).held().parts@[i].cells@
                    == restamped(old(self).held().parts@[i].cells@, unit),
            forall|i: int|
                0 <= i < old(self).held().parts@.len() ==> #[trigger] final(self).held().parts@[i].name@
                    == old(self).held().parts@[i].name@,
            moved == borrowed_count(old(self).held().parts@, unit, old(self).held().parts@.len() as int),
    {
        let ghost start = self.model.parts@;
        let count = self.model.parts.len();
        let mut moved: usize = 0;
        let mut part: usize = 0;
        while part < count
            invariant
                self.wf(),
                self.same_source(*old(self)),
                self.same_rows(*old(self)),
                same_but_parts(self.held(), old(self).held()),
                start == old(self).held().parts@,
                count == start.len(),
                part <= count,
                self.held().parts@.len() == count,
                moved == borrowed_count(start, unit, part as int),
                moved <= part,
                forall|i: int|
                    0 <= i < part ==> #[trigger] self.held().parts@[i].cells@ == restamped(start[i].cells@, unit),
                forall|i: int| part <= i < count ==> #[trigger] self.held().parts@[i].cells@ == start[i].cells@,
                forall|i: int| 0 <= i < count ==> #[trigger] self.held().parts@[i].name@ == start[i].name@,
            decreases count - part,
        {
            let id = self.model.parts[part].cells[SHEET_FIELD];
            let ghost before = self.held().parts@;
            if id >= 0 && id != unit {
                let changed = self.set_field(part, SHEET_FIELD, unit);
                if changed {
                    moved += 1;
                }
                assert forall|i: int| 0 <= i < count && i != part implies #[trigger] self.held().parts@[i] == before[i] by {}
            }
            part += 1;
        }
        moved
    }

    /// Renames one part, reporting whether the name changed.
    pub fn set_name(&mut self, part: usize, name: &str) -> (changed: bool)
        requires
            old(self).wf(),
        ensures
            final(self).wf(),
            final(self).same_source(*old(self)),
            final(self).same_rows(*old(self)),
            changed == (part < old(self).held().parts@.len() && old(self).held().parts@[part as int].name@ != name@),
            changed ==> {
                &&& same_but_parts(final(self).held(), old(self).held())
                &&& final(self).held().parts@.len() == old(self).held().parts@.len()
                &&& final(self).held().parts@[part as int].cells@ == old(self).held().parts@[part as int].cells@
                &&& final(self).held().parts@[part as int].name@ == name@
                &&& forall|i: int|
                    0 <= i < old(self).held().parts@.len() && i != part ==> #[trigger] final(self).held().parts@[i]
                        == old(self).held().parts@[i]
            },
            !changed ==> final(self).held() == old(self).held(),
    {
        if part >= self.model.parts.len() {
            return false;
        }
        let held = chars_of(self.model.parts[part].name.as_str());
        let wanted = chars_of(name);
        if same_text(held.as_slice(), wanted.as_slice()) {
            return false;
        }
        let row = Row { cells: self.model.parts[part].cells, name: name.to_owned() };
        self.model.parts.set(part, row);
        true
    }

    /// The parent of one part, where it exists and names one.
    pub fn parent(&self, part: usize) -> (parent: Option<usize>)
        ensures
            parent == match parent_of(self.held().parts@, part as int) {
                Some(at) => Some(at as usize),
                None => None::<usize>,
            },
    {
        if part < self.model.parts.len() && self.model.parts[part].cells[0] >= 0 {
            Some(self.model.parts[part].cells[0] as usize)
        } else {
            None
        }
    }

    /// How many alignment rows the model holds.
    pub fn offsets(&self) -> (count: usize)
        ensures
            count == self.held().alignment@.len(),
    {
        self.model.alignment.len()
    }

    /// Whether alignment rows can be added: the model declares a units row and
    /// the file has a revision line to raise. A model below the first revision
    /// would have the engine read a units row the file never wrote.
    pub fn alignable(&self) -> (able: bool)
        ensures
            able == self.can_align(),
    {
        if self.model.version < UNITED_VERSION {
            return false;
        }
        let mut at: usize = 0;
        while at < self.roles.len()
            invariant
                self.model.version >= UNITED_VERSION,
                at <= self.roles@.len(),
                forall|k: int| 0 <= k < at ==> self.roles@[k] != Some(Role::Version),
            decreases self.roles@.len() - at,
        {
            if self.roles[at] == Some(Role::Version) {
                assert(self.roles@[at as int] == Some(Role::Version));
                assert(self.roles@.contains(Some(Role::Version)));
                return true;
            }
            at += 1;
        }
        false
    }

    /// Adds an alignment row naming the part the last one names, raising the
    /// revision to the first that declares alignment rows; returns its index.
    pub fn add_offset(&mut self) -> (added: Option<usize>)
        requires
            old(self).wf(),
            old(self).held().alignment@.len() < usize::MAX,
        ensures
            final(self).wf(),
            final(self).same_source(*old(self)),
            final(self).same_part_rows(*old(self)),
            added.is_none() == !old(self).can_align(),
            added.is_none() ==> *final(self) == *old(self),
            added is Some ==> final(self).align_row_added(*old(self)),
            added matches Some(at) ==> {
                let was = old(self).held();
                let now = final(self).held();
                &&& at == was.alignment@.len()
                &&& same_but_alignment(now, was)
                &&& now.version == if was.version >= ALIGNED_VERSION { was.version } else { ALIGNED_VERSION }
                &&& now.alignment@.len() == was.alignment@.len() + 1
                &&& forall|i: int| 0 <= i < at ==> #[trigger] now.alignment@[i] == was.alignment@[i]
                &&& now.alignment@[at as int].cells@ == seq![
                    if at == 0 { 0i32 } else { was.alignment@[at - 1].cells@[0] }, 0i32, 0i32, 0i32, 0i32, 0i32,
                ]
                &&& now.alignment@[at as int].name@.len() == 0
            },
    {
        if !self.alignable() {
            return None;
        }
        let count = self.model.alignment.len();
        let anchor = if count > 0 { self.model.alignment[count - 1].cells[0] } else { 0 };
        if self.model.version < ALIGNED_VERSION {
            self.model.version = ALIGNED_VERSION;
        }
        let mut row = Row::<6>::zeroed();
        row.cells[0] = anchor;
        assert(row.cells@ =~= seq![anchor, 0i32, 0i32, 0i32, 0i32, 0i32]);
        self.model.alignment.push(row);
        self.rows.push(None);
        Some(count)
    }

    /// Removes one alignment row, reporting whether it existed.
    pub fn remove_offset(&mut self, row: usize) -> (removed: bool)
        requires
            old(self).wf(),
        ensures
            final(self).wf(),
            final(self).same_source(*old(self)),
            final(self).same_part_rows(*old(self)),
            removed == (row < old(self).held().alignment@.len()),
            !removed ==> *final(self) == *old(self),
            removed ==> final(self).align_row_removed(*old(self), row as int),
            removed ==> {
                let was = old(self).held();
                let now = final(self).held();
                &&& same_but_alignment(now, was)
                &&& now.version == was.version
                &&& now.alignment@ == was.alignment@.remove(row as int)
            },
    {
        if row >= self.model.alignment.len() {
            return false;
        }
        self.model.alignment.remove(row);
        if row < self.rows.len() {
            self.rows.remove(row);
        }
        true
    }

    /// The x and y an alignment row places the model by, where it exists.
    pub fn offset(&self, row: usize) -> (placed: Option<(i32, i32)>)
        ensures
            placed == if row < self.held().alignment@.len() {
                Some((self.held().alignment@[row as int].cells@[2], self.held().alignment@[row as int].cells@[3]))
            } else {
                None
            },
    {
        if row < self.model.alignment.len() {
            Some((self.model.alignment[row].cells[2], self.model.alignment[row].cells[3]))
        } else {
            None
        }
    }

    /// The name of an alignment row, where it exists.
    pub fn offset_name(&self, row: usize) -> (name: Option<&str>)
        ensures
            match name {
                Some(text) => row < self.held().alignment@.len() && text@ == self.held().alignment@[row as int].name@,
                None => row >= self.held().alignment@.len(),
            },
    {
        if row < self.model.alignment.len() {
            Some(self.model.alignment[row].name.as_str())
        } else {
            None
        }
    }

    /// Sets the x (`axis` zero) or the y (any other axis) of an alignment row,
    /// reporting whether it changed.
    pub fn set_offset(&mut self, row: usize, axis: usize, value: i32) -> (changed: bool)
        requires
            old(self).wf(),
        ensures
            final(self).wf(),
            final(self).same_source(*old(self)),
            final(self).same_rows(*old(self)),
            ({
                let cell: int = if axis == 0 { 2 } else { 3 };
                &&& changed == (row < old(self).held().alignment@.len()
                    && old(self).held().alignment@[row as int].cells@[cell] != value)
                &&& changed ==> {
                    let was = old(self).held();
                    let now = final(self).held();
                    &&& same_but_alignment(now, was)
                    &&& now.version == was.version
                    &&& now.alignment@.len() == was.alignment@.len()
                    &&& now.alignment@[row as int].cells@ == was.alignment@[row as int].cells@.update(cell, value)
                    &&& now.alignment@[row as int].name@ == was.alignment@[row as int].name@
                    &&& forall|i: int|
                        0 <= i < was.alignment@.len() && i != row ==> #[trigger] now.alignment@[i] == was.alignment@[i]
                }
            }),
            !changed ==> *final(self) == *old(self),
    {
        if row >= self.model.alignment.len() {
            return false;
        }
        let cell: usize = if axis == 0 { 2 } else { 3 };
        if self.model.alignment[row].cells[cell] == value {
            return false;
        }
        let mut held = self.model.alignment[row].duplicate();
        held.cells[cell] = value;
        self.model.alignment.set(row, held);
        true
    }

    /// Whether climbing from part `at` through its parents reaches part `of`
    /// within as many steps as the model has parts.
    pub fn descends(&self, at: usize, of: usize) -> (reached: bool)
        ensures
            reached == climbs(self.held().parts@, at as int, of as int, self.held().parts@.len()),
    {
        let count = self.model.parts.len();
        let mut walker = at;
        let mut step: usize = 0;
        while step < count
            invariant
                step <= count,
                count == self.held().parts@.len(),
                climbs(self.held().parts@, at as int, of as int, count as nat) == climbs(
                    self.held().parts@,
                    walker as int,
                    of as int,
                    (count - step) as nat,
                ),
            decreases count - step,
        {
            if walker == of {
                return true;
            }
            match self.parent(walker) {
                Some(parent) => {
                    if parent == walker {
                        return false;
                    }
                    walker = parent;
                },
                None => {
                    return false;
                },
            }
            step += 1;
        }
        false
    }

    /// Hangs a part off another (or off nothing), refusing to hang a part off
    /// itself or off one of its own descendants; reports whether it moved.
    pub fn reparent(&mut self, at: usize, parent: Option<usize>) -> (moved: bool)
        requires
            old(self).wf(),
        ensures
            final(self).wf(),
            final(self).same_source(*old(self)),
            final(self).same_rows(*old(self)),
            moved == (at < old(self).held().parts@.len()
                && old(self).held().parts@[at as int].cells@[0] != parent_cell(parent)
                && !(parent matches Some(p) && climbs(
                    old(self).held().parts@,
                    p as int,
                    at as int,
                    old(self).held().parts@.len(),
                ))),
            moved ==> part_cells_changed(
                final(self).held(),
                old(self).held(),
                at as int,
                old(self).held().parts@[at as int].cells@.update(0, parent_cell(parent)),
            ),
            !moved ==> final(self).held() == old(self).held(),
            acyclic(old(self).held().parts@) ==> acyclic(final(self).held().parts@),
    {
        let wanted: i32 = match parent {
            Some(p) => if p <= i32::MAX as usize { p as i32 } else { NO_PARENT },
            None => NO_PARENT,
        };
        if at >= self.model.parts.len() || self.model.parts[at].cells[0] == wanted {
            return false;
        }
        match parent {
            Some(p) => {
                if self.descends(p, at) {
                    return false;
                }
            },
            None => {},
        }
        let ghost before = self.held().parts@;
        let changed = self.set_field(at, 0, wanted);
        proof {
            if acyclic(before) {
                lemma_rehung_acyclic(self.held().parts@, before, at as int, wanted);
            }
        }
        true
    }
}


/// The cells a new part starts from; see [`default_cells`].
pub fn defaults(model: &Model) -> (cells: [i32; 13])
    ensures
        cells@ == default_cells(*model),
{
    let mut cells = [0i32; 13];
    cells[0] = NO_PARENT;
    cells[1] = drawn_id(model);
    cells[8] = model.scale_unit;
    cells[9] = model.scale_unit;
    cells[11] = model.opacity_unit;
    assert(cells@ =~= default_cells(*model));
    cells
}

/// The sheet id of the first part that is drawn, which a new part takes.
fn drawn_id(model: &Model) -> (id: i32)
    ensures
        id == first_drawn(model.parts@, 0),
{
    let mut at: usize = 0;
    while at < model.parts.len()
        invariant
            at <= model.parts@.len(),
            first_drawn(model.parts@, 0) == first_drawn(model.parts@, at as int),
        decreases model.parts@.len() - at,
    {
        if model.parts[at].cells[1] != NOT_DRAWN {
            return model.parts[at].cells[1];
        }
        at += 1;
    }
    NOT_DRAWN
}

/// A new part hung off `parent` and drawn one layer in front of it.
fn blank_part(parent: Option<usize>, model: &Model) -> (part: Part)
    ensures
        part.cells@ == seeded_cells(*model, parent),
        part.name@.len() == 0,
{
    let mut cells = defaults(model);
    let parent_value: i32 = match parent {
        Some(at) => if at <= i32::MAX as usize { at as i32 } else { NO_PARENT },
        None => NO_PARENT,
    };
    cells[0] = parent_value;
    let z: i32 = match parent {
        Some(at) => if at < model.parts.len() {
            let held = model.parts[at].cells[3];
            if held == i32::MAX { held } else { held + 1 }
        } else {
            0
        },
        None => 0,
    };
    cells[3] = z;
    Row { cells, name: String::new() }
}

impl Mamodel {
    /// Whether two documents keep the same raw alignment rows.
    pub closed spec fn same_align_rows(self, other: Mamodel) -> bool {
        self.rows@ == other.rows@
    }

    /// Whether this document keeps the raw part rows of `other` with one row
    /// for a new part added after them.
    pub closed spec fn part_row_added(self, other: Mamodel) -> bool {
        self.raws@ == other.raws@.push(None)
    }

    /// Whether this document keeps the raw part rows of `other` without row `at`.
    pub closed spec fn part_row_removed(self, other: Mamodel, at: int) -> bool {
        self.raws@ == other.raws@.remove(at)
    }

    /// Whether this document keeps the raw alignment rows of `other` with one
    /// row for a new alignment row added after them.
    pub closed spec fn align_row_added(self, other: Mamodel) -> bool {
        self.rows@ == other.rows@.push(None)
    }

    /// Whether this document keeps the raw alignment rows of `other` without row `at`.
    pub closed spec fn align_row_removed(self, other: Mamodel, at: int) -> bool {
        self.rows@ == other.rows@.remove(at)
    }

    /// The text part `at` and alignment row `at` are written as: their values
    /// and name written over the raw rows they were read from; see
    /// [`rendered_cells`]. A part's values are its cells, except that a model
    /// below the revision that reads blending modes writes back whatever its
    /// row held in that column where the cell is zero.
    pub proof fn lemma_rows_written(self, at: int)
        ensures
            self.part_row(at) == rendered_cells(self.part_raw(at), self.part_values(at), Some(self.held().parts@[at].name@)),
            self.part_values(at) == {
                let cells = self.held().parts@[at].cells@;
                if self.held().version < GLOW_VERSION && cells[GLOW_CELL as int] == 0 {
                    cells.update(GLOW_CELL as int, reading(field_at(row_fields(self.part_raw(at)), GLOW_CELL as int)))
                } else {
                    cells
                }
            },
            self.align_row(at) == rendered_cells(
                self.align_raw(at),
                self.held().alignment@[at].cells@,
                Some(self.held().alignment@[at].name@),
            ),
    {
    }

    /// What a document read from `bytes` holds: the model `nyanko` reads from
    /// them, and for each part and alignment row the raw row of the file's
    /// lines it was read from, where the file holds it.
    pub proof fn lemma_read_from(self, bytes: Seq<u8>)
        requires
            self.wf(),
            self.parsed_from(bytes),
        ensures
            model_reading(bytes) == Ok::<Model, RigFault>(self.held()),
            self.marked() == has_bom(bytes),
            self.file_version() == self.held().version,
            self.declared_parts() == self.held().parts@.len(),
            self.declared_aligns() == self.held().alignment@.len(),
            ({
                let lines = lines_of(crate::text::file_text(bytes));
                let n = lines.len() as int;
                let parts = self.held().parts@.len() as int;
                &&& self.line_count() == n
                &&& self.present_parts() == present_in(n, 3, parts)
                &&& self.present_aligns() == if self.held().version >= ALIGNED_VERSION {
                    present_in(n, 5 + parts, self.held().alignment@.len() as int)
                } else {
                    0
                }
                &&& forall|at: int|
                    0 <= at < self.held().parts@.len() ==> #[trigger] self.part_raw(at) == if 3 + at < lines.len() {
                        Some(lines[3 + at].0)
                    } else {
                        None
                    }
                &&& forall|at: int|
                    0 <= at < self.held().alignment@.len() ==> #[trigger] self.align_raw(at) == {
                        let line = 5 + self.held().parts@.len() + at;
                        if line < lines.len() {
                            Some(lines[line].0)
                        } else {
                            None
                        }
                    }
            }),
    {
        let lines = lines_of(crate::text::file_text(bytes));
        assert(pairs(self.lines@) == lines);
        assert forall|at: int| 0 <= at < self.held().parts@.len() implies #[trigger] self.part_raw(at) == if 3 + at < lines.len() {
            Some(lines[3 + at].0)
        } else {
            None
        } by {
            assert(raw_views(self.raws@)[at] == block_raw(self.lines@, 3, at));
            if 3 + at < lines.len() {
                assert(lines[3 + at].0 == self.lines@[3 + at].text@);
            }
        }
        assert forall|at: int| 0 <= at < self.held().alignment@.len() implies #[trigger] self.align_raw(at) == {
            let line = 5 + self.held().parts@.len() + at;
            if line < lines.len() {
                Some(lines[line].0)
            } else {
                None
            }
        } by {
            let line = 5 + self.held().parts@.len() + at;
            assert(raw_views(self.rows@).len() == self.rows@.len());
            assert(self.model.version >= ALIGNED_VERSION);
            assert(raw_views(self.rows@)[at] == block_raw(self.lines@, 5 + self.parts, at));
            if line < lines.len() {
                assert(lines[line].0 == self.lines@[line].text@);
            }
        }
    }

    /// The revision the file declared, before any edit raised it.
    pub closed spec fn file_version(self) -> i32 {
        self.version
    }

    /// How many parts the file's count line declared.
    pub closed spec fn declared_parts(self) -> int {
        self.parts as int
    }

    /// How many alignment rows the file declared.
    pub closed spec fn declared_aligns(self) -> int {
        self.aligns as int
    }

    /// How many of the declared part rows the file held.
    pub closed spec fn present_parts(self) -> int {
        self.part_present as int
    }

    /// How many of the declared alignment rows the file held.
    pub closed spec fn present_aligns(self) -> int {
        self.align_present as int
    }

    /// How many lines the file held.
    pub closed spec fn line_count(self) -> int {
        self.lines@.len() as int
    }

    /// How many rows of each block are written, which rows get written, and
    /// when and where an alignment block is created, from the file's counts:
    /// the units line is the one after the declared parts from the first
    /// revision on, and the alignment count line the one after it from the
    /// third.
    pub proof fn lemma_layout(self)
        requires
            self.wf(),
        ensures
            self.part_rows() == kept_count(self.held().parts@, self.declared_parts(), self.present_parts()),
            self.align_rows() == kept_count(self.held().alignment@, self.declared_aligns(), self.present_aligns()),
            forall|at: int|
                #[trigger] self.writes_part(at) == (3 < self.line_count() && self.declared_parts() >= 1 && 0 <= at
                    < self.part_rows()),
            self.creating() == ((self.held().alignment@.len() > self.declared_aligns() || self.held().version
                > self.file_version()) && !(self.file_version() >= ALIGNED_VERSION && 4 + self.declared_parts()
                < self.line_count())),
            self.seam() == if self.creating() && self.file_version() >= UNITED_VERSION && 3 + self.declared_parts()
                < self.line_count() {
                Some(3 + self.declared_parts())
            } else {
                None::<int>
            },
            self.align_line() == if self.creating() {
                self.seam()
            } else if self.file_version() >= ALIGNED_VERSION && self.declared_aligns() >= 1 && 5
                + self.declared_parts() < self.line_count() {
                Some(5 + self.declared_parts())
            } else if self.file_version() >= ALIGNED_VERSION && 4 + self.declared_parts() < self.line_count()
                && self.declared_aligns() == 0 && self.held().alignment@.len() > 0 {
                Some(4 + self.declared_parts())
            } else {
                None::<int>
            },
            forall|at: int|
                #[trigger] self.writes_align(at) == (0 <= at < self.align_rows() && (self.creating()
                    || self.align_line().is_some())),
    {
        let n = self.lines@.len() as int;
        let p = self.parts as int;
        let layout = |at: int| layout_role(n, self.version, p, self.aligns as int, at);
        if 4 + p < n {
            assert(self.roles@[4 + p] == layout(4 + p));
        }
        if 5 + p < n {
            assert(self.roles@[5 + p] == layout(5 + p));
        }
        if self.roles@.contains(Some(Role::AlignCount)) {
            let at = choose|at: int| 0 <= at < self.roles@.len() && self.roles@[at] == Some(Role::AlignCount);
            assert(self.roles@[at] == layout(at));
        }
        if self.version >= ALIGNED_VERSION && 4 + p < n {
            assert(self.roles@[4 + p] == Some(Role::AlignCount));
        }
        lemma_first_units_layout(self.roles@, n, self.version, p, self.aligns as int, 0);
    }

    /// Two documents that keep the same file agree on its counts and its mark.
    pub proof fn lemma_same_source(self, other: Mamodel)
        requires
            other.same_source(self),
        ensures
            other.file_version() == self.file_version(),
            other.declared_parts() == self.declared_parts(),
            other.declared_aligns() == self.declared_aligns(),
            other.present_parts() == self.present_parts(),
            other.present_aligns() == self.present_aligns(),
            other.line_count() == self.line_count(),
            other.marked() == self.marked(),
    {
    }

    /// What the raw rows of two documents have in common, by the relation
    /// between them: the same rows, or one added, or one removed.
    pub proof fn lemma_raw_rows(self, other: Mamodel)
        requires
            self.wf(),
            other.wf(),
        ensures
            self.same_rows(other) ==> self.same_part_rows(other) && self.same_align_rows(other),
            self.same_part_rows(other) ==> forall|at: int| #[trigger] self.part_raw(at) == other.part_raw(at),
            self.same_align_rows(other) ==> forall|at: int| #[trigger] self.align_raw(at) == other.align_raw(at),
            self.part_row_added(other) ==> {
                &&& forall|at: int| 0 <= at < other.held().parts@.len() ==> #[trigger] self.part_raw(at) == other.part_raw(at)
                &&& self.part_raw(other.held().parts@.len() as int) is None
            },
            self.align_row_added(other) ==> {
                &&& forall|at: int| 0 <= at < other.held().alignment@.len() ==> #[trigger] self.align_raw(at) == other.align_raw(at)
                &&& self.align_raw(other.held().alignment@.len() as int) is None
            },
            forall|row: int|
                #![trigger self.part_row_removed(other, row)]
                0 <= row < other.held().parts@.len() && self.part_row_removed(other, row) ==> {
                    &&& forall|i: int| 0 <= i < row ==> #[trigger] self.part_raw(i) == other.part_raw(i)
                    &&& forall|i: int| row <= i < other.held().parts@.len() - 1 ==> #[trigger] self.part_raw(i) == other.part_raw(i + 1)
                },
            forall|row: int|
                #![trigger self.align_row_removed(other, row)]
                0 <= row < other.held().alignment@.len() && self.align_row_removed(other, row) ==> {
                    &&& forall|i: int| 0 <= i < row ==> #[trigger] self.align_raw(i) == other.align_raw(i)
                    &&& forall|i: int| row <= i < other.held().alignment@.len() - 1 ==> #[trigger] self.align_raw(i) == other.align_raw(i + 1)
                },
    {
        if self.part_row_added(other) {
            assert forall|at: int| 0 <= at < other.held().parts@.len() implies #[trigger] self.part_raw(at) == other.part_raw(at) by {
                assert(self.raws@[at] == other.raws@[at]);
            }
        }
        if self.align_row_added(other) {
            assert forall|at: int| 0 <= at < other.held().alignment@.len() implies #[trigger] self.align_raw(at) == other.align_raw(at) by {
                assert(self.rows@[at] == other.rows@[at]);
            }
        }
        assert forall|row: int|
            #![trigger self.part_row_removed(other, row)]
            0 <= row < other.held().parts@.len() && self.part_row_removed(other, row) implies {
                &&& forall|i: int| 0 <= i < row ==> #[trigger] self.part_raw(i) == other.part_raw(i)
                &&& forall|i: int| row <= i < other.held().parts@.len() - 1 ==> #[trigger] self.part_raw(i) == other.part_raw(i + 1)
            } by {
            assert forall|i: int| 0 <= i < row implies #[trigger] self.part_raw(i) == other.part_raw(i) by {
                assert(self.raws@[i] == other.raws@[i]);
            }
            assert forall|i: int| row <= i < other.held().parts@.len() - 1 implies #[trigger] self.part_raw(i) == other.part_raw(i + 1) by {
                assert(self.raws@[i] == other.raws@[i + 1]);
            }
        }
        assert forall|row: int|
            #![trigger self.align_row_removed(other, row)]
            0 <= row < other.held().alignment@.len() && self.align_row_removed(other, row) implies {
                &&& forall|i: int| 0 <= i < row ==> #[trigger] self.align_raw(i) == other.align_raw(i)
                &&& forall|i: int| row <= i < other.held().alignment@.len() - 1 ==> #[trigger] self.align_raw(i) == other.align_raw(i + 1)
            } by {
            assert forall|i: int| 0 <= i < row implies #[trigger] self.align_raw(i) == other.align_raw(i) by {
                assert(self.rows@[i] == other.rows@[i]);
            }
            assert forall|i: int| row <= i < other.held().alignment@.len() - 1 implies #[trigger] self.align_raw(i) == other.align_raw(i + 1) by {
                assert(self.rows@[i] == other.rows@[i + 1]);
            }
        }
    }

    /// Adds a part under `parent` (or under nothing), inheriting the model's
    /// sheet id and drawn one layer in front of its parent; returns its index.
    pub fn add_part(&mut self, parent: Option<usize>) -> (added: usize)
        requires
            old(self).wf(),
            old(self).held().parts@.len() < usize::MAX,
        ensures
            final(self).wf(),
            final(self).same_source(*old(self)),
            final(self).same_align_rows(*old(self)),
            final(self).part_row_added(*old(self)),
            added == old(self).held().parts@.len(),
            same_but_parts(final(self).held(), old(self).held()),
            final(self).held().parts@.len() == added + 1,
            forall|i: int| 0 <= i < added ==> #[trigger] final(self).held().parts@[i] == old(self).held().parts@[i],
            final(self).held().parts@[added as int].cells@ == seeded_cells(old(self).held(), parent),
            final(self).held().parts@[added as int].name@.len() == 0,
    {
        let seeded = blank_part(parent, &self.model);
        self.model.parts.push(seeded);
        self.raws.push(None);
        self.model.parts.len() - 1
    }

    /// Removes a part: its children are handed to its own parent and every
    /// later part moves up one. Returns where each old index landed, or
    /// nothing where there is no such part.
    #[verifier::spinoff_prover]
    pub fn remove_part(&mut self, at: usize) -> (moved: Option<Vec<Option<usize>>>)
        requires
            old(self).wf(),
        ensures
            final(self).wf(),
            final(self).same_source(*old(self)),
            final(self).same_align_rows(*old(self)),
            moved.is_some() == (at < old(self).held().parts@.len()),
            moved.is_none() ==> *final(self) == *old(self),
            moved matches Some(landed) ==> {
                let was = old(self).held().parts@;
                let now = final(self).held().parts@;
                let count = was.len() as int;
                let inherited = was[at as int].cells@[0];
                &&& landed@ == Seq::new(count as nat, |index: int| moved_to(count, at as int, index))
                &&& final(self).part_row_removed(*old(self), at as int)
                &&& same_but_parts(final(self).held(), old(self).held())
                &&& now.len() == count - 1
                &&& forall|i: int|
                    0 <= i < count - 1 ==> {
                        let from = if i < at { i } else { i + 1 };
                        &&& #[trigger] now[i].cells@ == was[from].cells@.update(
                            0,
                            reparented(count, at as int, inherited, was[from].cells@[0]),
                        )
                        &&& now[i].name@ == was[from].name@
                    }
                &&& forall|i: int|
                    #![trigger now[i]]
                    0 <= i < count - 1 ==> {
                        let from = if i < at { i } else { i + 1 };
                        let up = was[from].cells@[0] as int;
                        let hung = now[i].cells@[0] as int;
                        let back = if hung < at { hung } else { hung + 1 };
                        &&& (0 <= up < count && up != at) ==> (0 <= hung < count - 1 && back == up)
                        &&& (up == at && 0 <= inherited < count && inherited != at) ==> (0 <= hung < count - 1 && back
                            == inherited)
                        &&& (up == at && inherited == at) ==> hung == NO_PARENT
                        &&& (up == at && !(0 <= inherited < count)) ==> hung == inherited
                        &&& !(0 <= up < count) ==> hung == up
                    }
            },
    {
        let count = self.model.parts.len();
        if at >= count {
            return None;
        }
        let ghost was = self.model.parts@;
        let inherited = self.model.parts[at].cells[0];
        let mut moved: Vec<Option<usize>> = Vec::new();
        let mut index: usize = 0;
        while index < count
            invariant
                index <= count,
                at < count,
                moved@ == Seq::new(index as nat, |old: int| moved_to(count as int, at as int, old)),
            decreases count - index,
        {
            let landed = if index == at { None } else if index > at { Some(index - 1) } else { Some(index) };
            moved.push(landed);
            assert(moved@ =~= Seq::new((index + 1) as nat, |old: int| moved_to(count as int, at as int, old)));
            index += 1;
        }
        self.model.parts.remove(at);
        self.raws.remove(at);
        let mut index: usize = 0;
        while index < count - 1
            invariant
                self.wf(),
                self.same_source(*old(self)),
                self.same_align_rows(*old(self)),
                self.raws@ == old(self).raws@.remove(at as int),
                same_but_parts(self.held(), old(self).held()),
                was == old(self).held().parts@,
                count == was.len(),
                at < count,
                inherited == was[at as int].cells@[0],
                index <= count - 1,
                self.held().parts@.len() == count - 1,
                forall|i: int|
                    0 <= i < count - 1 ==> {
                        let from = if i < at { i } else { i + 1 };
                        &&& #[trigger] self.held().parts@[i].cells@ == if i < index {
                            was[from].cells@.update(
                                0,
                                reparented(count as int, at as int, inherited, was[from].cells@[0]),
                            )
                        } else {
                            was[from].cells@
                        }
                        &&& self.held().parts@[i].name@ == was[from].name@
                    },
            decreases count - 1 - index,
        {
            let parent = self.model.parts[index].cells[0];
            let handed: i32 = if at <= i32::MAX as usize && parent == at as i32 { inherited } else { parent };
            let renumbered: i32 = if handed < 0 || handed as usize >= count {
                handed
            } else if handed as usize == at {
                NO_PARENT
            } else if handed as usize > at {
                handed - 1
            } else {
                handed
            };
            let ghost before = *self;
            self.set_field(index, 0, renumbered);
            assert forall|i: int| 0 <= i < count - 1 && i != index implies #[trigger] self.held().parts@[i] == before.held().parts@[i] by {}
            index += 1;
        }
        Some(moved)
    }

    /// Points every part's sprite at where its cut landed after the cut list
    /// was renumbered by `moved`, a removed cut leaving its parts undrawn.
    /// Reports whether any sprite changed; nothing changes otherwise.
    pub fn retarget_sprites(&mut self, moved: &[Option<usize>]) -> (shifted: bool)
        requires
            old(self).wf(),
        ensures
            final(self).wf(),
            final(self).same_source(*old(self)),
            final(self).same_rows(*old(self)),
            shifted == exists|i: int|
                0 <= i < old(self).held().parts@.len() && retargeted(
                    moved@,
                    #[trigger] old(self).held().parts@[i].cells@[2],
                ) != old(self).held().parts@[i].cells@[2],
            !shifted ==> *final(self) == *old(self),
            shifted ==> {
                &&& same_but_parts(final(self).held(), old(self).held())
                &&& final(self).held().parts@.len() == old(self).held().parts@.len()
                &&& forall|i: int|
                    0 <= i < old(self).held().parts@.len() ==> {
                        let was = old(self).held().parts@[i];
                        &&& #[trigger] final(self).held().parts@[i].cells@ == was.cells@.update(
                            2,
                            retargeted(moved@, was.cells@[2]),
                        )
                        &&& final(self).held().parts@[i].name@ == was.name@
                    }
            },
            final(self).held().parts@.len() == old(self).held().parts@.len(),
            forall|i: int|
                #![trigger final(self).held().parts@[i]]
                0 <= i < old(self).held().parts@.len() ==> {
                    let sprite = old(self).held().parts@[i].cells@[2] as int;
                    let now = final(self).held().parts@[i].cells@[2];
                    &&& (0 <= sprite < moved@.len() && moved@[sprite] is Some && moved@[sprite]->Some_0 <= i32::MAX)
                        ==> now == moved@[sprite]->Some_0
                    &&& (0 <= sprite < moved@.len() && moved@[sprite] is None) ==> now == NOT_DRAWN
                    &&& !(0 <= sprite < moved@.len()) ==> now == sprite
                },
    {
        let count = self.model.parts.len();
        let ghost was = self.model.parts@;
        let mut index: usize = 0;
        let mut shifted = false;
        while index < count
            invariant
                index <= count,
                count == self.held().parts@.len(),
                was == self.held().parts@,
                shifted == exists|i: int| 0 <= i < index && retargeted(moved@, #[trigger] was[i].cells@[2]) != was[i].cells@[2],
            decreases count - index,
        {
            let sprite = self.model.parts[index].cells[2];
            let landed = self.retarget(moved, sprite);
            if landed != sprite {
                shifted = true;
            }
            index += 1;
        }
        if !shifted {
            return false;
        }
        let mut index: usize = 0;
        while index < count
            invariant
                self.wf(),
                self.same_source(*old(self)),
                self.same_rows(*old(self)),
                same_but_parts(self.held(), old(self).held()),
                was == old(self).held().parts@,
                index <= count,
                count == was.len(),
                self.held().parts@.len() == count,
                forall|i: int|
                    0 <= i < count ==> {
                        &&& #[trigger] self.held().parts@[i].cells@ == if i < index {
                            was[i].cells@.update(2, retargeted(moved@, was[i].cells@[2]))
                        } else {
                            was[i].cells@
                        }
                        &&& self.held().parts@[i].name@ == was[i].name@
                    },
            decreases count - index,
        {
            let landed = self.retarget(moved, self.model.parts[index].cells[2]);
            let mut row = self.model.parts[index].duplicate();
            row.cells[2] = landed;
            let ghost before = self.model.parts@;
            self.model.parts.set(index, row);
            assert forall|i: int| 0 <= i < count && i != index implies #[trigger] self.held().parts@[i] == before[i] by {}
            index += 1;
        }
        true
    }

    /// Where a sprite index lands after the cut list was renumbered.
    fn retarget(&self, moved: &[Option<usize>], sprite: i32) -> (landed: i32)
        ensures
            landed == retargeted(moved@, sprite),
    {
        if sprite < 0 || sprite as usize >= moved.len() {
            return sprite;
        }
        match moved[sprite as usize] {
            Some(at) => if at <= i32::MAX as usize { at as i32 } else { NOT_DRAWN },
            None => NOT_DRAWN,
        }
    }
}

/// Clamps a value typed into one cell of a part to what the engine accepts:
/// a parent between the root sentinel and the last part, a sprite between the
/// not-drawn mark and the last cut, an opacity up to the model's own unit and a
/// blending mode up to the last one. Every other cell is taken as it is.
pub open spec fn bounded(parts: int, opacity_unit: i32, cuts: int, at: int, value: i32) -> i32 {
    let ceiling = |count: int| if count > i32::MAX { i32::MAX - 1 } else { count - 1 };
    let clamp = |low: int, high: int| if value < low { low } else if value > high { high } else { value as int };
    if at == 0 {
        clamp(NO_PARENT as int, ceiling(parts)) as i32
    } else if at == 2 {
        clamp(NOT_DRAWN as int, if ceiling(cuts) < NOT_DRAWN { NOT_DRAWN as int } else { ceiling(cuts) }) as i32
    } else if at == 11 {
        clamp(0, if opacity_unit < 0 { 0 } else { opacity_unit as int }) as i32
    } else if at == 12 {
        clamp(0, GLOW_MODES as int) as i32
    } else {
        value
    }
}

/// Clamps a value typed into one cell of a part; see [`bounded`].
pub fn bound(model: &Model, cuts: usize, at: usize, value: i32) -> (clamped: i32)
    ensures
        clamped == bounded(model.parts@.len() as int, model.opacity_unit, cuts as int, at as int, value),
{
    let parts_ceiling: i32 = if model.parts.len() > i32::MAX as usize { i32::MAX - 1 } else { model.parts.len() as i32 - 1 };
    let cuts_ceiling: i32 = if cuts > i32::MAX as usize { i32::MAX - 1 } else { cuts as i32 - 1 };
    let (low, high): (i32, i32) = if at == 0 {
        (NO_PARENT, parts_ceiling)
    } else if at == 2 {
        (NOT_DRAWN, if cuts_ceiling < NOT_DRAWN { NOT_DRAWN } else { cuts_ceiling })
    } else if at == 11 {
        (0, if model.opacity_unit < 0 { 0 } else { model.opacity_unit })
    } else if at == 12 {
        (0, GLOW_MODES)
    } else {
        return value;
    };
    if value < low {
        low
    } else if value > high {
        high
    } else {
        value
    }
}

/// Whether a character may stand in a name: a delimiter, the bar that would
/// flip the engine's reader into pipe mode, a tab or a line ending may not.
pub open spec fn name_safe(glyph: char) -> bool {
    glyph != ',' && glyph != '|' && glyph != '\t' && glyph != '\n' && glyph != '\r'
}

/// Whether a text can be a part's name without changing how the file reads.
pub fn nameable(text: &str) -> (able: bool)
    ensures
        able == forall|k: int| 0 <= k < text@.len() ==> name_safe(#[trigger] text@[k]),
{
    let glyphs = chars_of(text);
    let mut at: usize = 0;
    while at < glyphs.len()
        invariant
            glyphs@ == text@,
            at <= glyphs@.len(),
            forall|k: int| 0 <= k < at ==> name_safe(#[trigger] glyphs@[k]),
        decreases glyphs@.len() - at,
    {
        let glyph = glyphs[at];
        if glyph == ',' || glyph == '|' || glyph == '\t' || glyph == '\n' || glyph == '\r' {
            assert(!name_safe(glyphs@[at as int]));
            return false;
        }
        at += 1;
    }
    true
}


/// The line ending rows of a block are written with: the ending of the line
/// the block starts on, or a newline where that line had none.
pub open spec fn row_end(end: Seq<char>) -> Seq<char> {
    if end.len() == 0 {
        seq!['\n']
    } else {
        end
    }
}

/// The index of the first line from `from` on whose role is the units row.
pub open spec fn first_units(roles: Seq<Option<Role>>, from: int) -> Option<int>
    decreases roles.len() - from,
{
    if from < 0 || from >= roles.len() {
        None
    } else if roles[from] == Some(Role::Units) {
        Some(from)
    } else {
        first_units(roles, from + 1)
    }
}

impl Mamodel {
    /// The raw text part row `at` was read from, if the file held it.
    pub closed spec fn part_raw(self, at: int) -> Option<Seq<char>> {
        if 0 <= at < self.raws@.len() {
            raw_views(self.raws@)[at]
        } else {
            None
        }
    }

    /// The raw text alignment row `at` was read from, if the file held it.
    pub closed spec fn align_raw(self, at: int) -> Option<Seq<char>> {
        if 0 <= at < self.rows@.len() {
            raw_views(self.rows@)[at]
        } else {
            None
        }
    }

    /// The values part `at` is written with: its cells, except that a model
    /// below the revision that reads blending modes writes back whatever its
    /// row held in that column.
    pub closed spec fn part_values(self, at: int) -> Seq<i32> {
        let cells = self.model.parts@[at].cells@;
        if self.model.version < GLOW_VERSION && cells[GLOW_CELL as int] == 0 {
            cells.update(GLOW_CELL as int, reading(field_at(row_fields(self.part_raw(at)), GLOW_CELL as int)))
        } else {
            cells
        }
    }

    /// The text part `at` is written as, over the row it was read from.
    pub closed spec fn part_row(self, at: int) -> Seq<char> {
        rendered_cells(self.part_raw(at), self.part_values(at), Some(self.model.parts@[at].name@))
    }

    /// The text alignment row `at` is written as, over the row it was read from.
    pub closed spec fn align_row(self, at: int) -> Seq<char> {
        rendered_cells(self.align_raw(at), self.model.alignment@[at].cells@, Some(self.model.alignment@[at].name@))
    }

    /// How many part rows are written.
    pub closed spec fn part_rows(self) -> int {
        kept_count(self.model.parts@, self.parts as int, self.part_present as int)
    }

    /// How many alignment rows are written.
    pub closed spec fn align_rows(self) -> int {
        kept_count(self.model.alignment@, self.aligns as int, self.align_present as int)
    }

    /// The part block, written where its first line stood, which ended in `end`.
    pub closed spec fn parts_block(self, end: Seq<char>) -> Seq<char> {
        concat(self.part_pieces(end))
    }

    /// Each part row written, with its ending: the last one's ending as the
    /// file's last part row ended, the others' as the first one did.
    pub closed spec fn part_pieces(self, end: Seq<char>) -> Seq<Seq<char>> {
        Seq::new(self.part_rows() as nat, |at: int| self.part_row(at) + self.part_ending(end, at))
    }

    /// How part row `at` of the block ends.
    pub closed spec fn part_ending(self, end: Seq<char>, at: int) -> Seq<char> {
        if at == self.part_rows() - 1 {
            self.part_tail@
        } else {
            row_end(end)
        }
    }

    /// The alignment block, written where its first line stood, which ended in `end`.
    pub closed spec fn aligns_block(self, end: Seq<char>) -> Seq<char> {
        concat(self.align_pieces(end))
    }

    /// Each alignment row written, with its ending: the last one's ending as
    /// the file's last alignment row ended, the others' as the first one did.
    pub closed spec fn align_pieces(self, end: Seq<char>) -> Seq<Seq<char>> {
        Seq::new(self.align_rows() as nat, |at: int| self.align_row(at) + self.align_ending(end, at))
    }

    /// How alignment row `at` of the block ends.
    pub closed spec fn align_ending(self, end: Seq<char>, at: int) -> Seq<char> {
        if at == self.align_rows() - 1 {
            self.align_tail@
        } else {
            row_end(end)
        }
    }

    /// The units row's values: scale, angle and opacity, and the fourth column
    /// where the model carries one.
    pub closed spec fn unit_values(self) -> Seq<i32> {
        seq![self.model.scale_unit, self.model.angle_unit, self.model.opacity_unit] + match self.model.unknown_3 {
            Some(extra) => seq![extra],
            None => Seq::empty(),
        }
    }

    /// A header line written back: the revision keeps its text while it still
    /// reads as the model's revision, the counts move with their blocks, and
    /// the units row is written over the row it was read from.
    pub closed spec fn rendered_line(self, role: Role, raw: Seq<char>) -> Seq<char> {
        match role {
            Role::Version => if cell_reading(raw) == self.model.version {
                raw
            } else {
                decimal(self.model.version as int)
            },
            Role::Count => counted_line(raw, self.parts as int, self.model.parts@.len() as int),
            Role::AlignCount => counted_line(raw, self.aligns as int, self.model.alignment@.len() as int),
            Role::Units => rendered_cells(Some(raw), self.unit_values(), None),
            _ => raw,
        }
    }

    /// Whether the alignment block has to be created: it grew, or the revision
    /// rose, and the file has no alignment count line to write it under.
    pub closed spec fn creating(self) -> bool {
        (self.model.alignment@.len() > self.aligns || self.model.version > self.version)
            && !self.roles@.contains(Some(Role::AlignCount))
    }

    /// The line a created block is written after: the units row, where the file has one.
    pub closed spec fn seam(self) -> Option<int> {
        if self.creating() {
            first_units(self.roles@, 0)
        } else {
            None
        }
    }

    /// A created alignment block written after what came before it.
    pub closed spec fn with_block(self, body: Seq<char>) -> Seq<char> {
        terminated(body) + decimal(self.model.alignment@.len() as int) + seq!['\n'] + self.aligns_block(
            seq!['\n'],
        )
    }

    /// What writing line `at` adds after `body`.
    pub closed spec fn emit(self, body: Seq<char>, at: int) -> Seq<char> {
        let text = self.lines@[at].text@;
        let end = self.lines@[at].end@;
        let role = self.roles@[at];
        if role == Some(Role::Skip) {
            body
        } else {
            let grown = match role {
                Some(Role::Parts) => body + self.parts_block(end),
                Some(Role::Aligns) => body + self.aligns_block(end),
                Some(Role::AlignCount) => {
                    let seeding = self.aligns == 0 && self.model.alignment@.len() > 0;
                    let ending = if end.len() == 0 && seeding { seq!['\n'] } else { end };
                    let counted = body + self.rendered_line(Role::AlignCount, text) + ending;
                    if seeding { counted + self.aligns_block(ending) } else { counted }
                },
                Some(other) => body + self.rendered_line(other, text) + end,
                None => body + text + end,
            };
            if self.seam() == Some(at) { self.with_block(grown) } else { grown }
        }
    }

    /// The text written for the first `count` lines.
    pub closed spec fn written_upto(self, count: int) -> Seq<char>
        decreases count,
    {
        if count <= 0 {
            Seq::empty()
        } else {
            self.emit(self.written_upto(count - 1), count - 1)
        }
    }

    /// The whole text written back: every line, and a created alignment block
    /// after a units row of its own where the file had no units row to follow.
    pub closed spec fn written_text(self) -> Seq<char> {
        let body = self.written_upto(self.lines@.len() as int);
        if self.creating() && self.seam().is_none() {
            self.with_block(terminated(body) + rendered_cells(None, self.unit_values(), None) + seq!['\n'])
        } else {
            body
        }
    }

    /// The bytes written back: the byte order mark where the file had one,
    /// then the text.
    pub open spec fn written(self) -> Seq<u8> {
        encoded(self.marked(), self.written_text())
    }

    /// Whether the file began with a byte order mark.
    pub closed spec fn marked(self) -> bool {
        self.bom
    }

    /// The characters of a part's or row's name.
    fn name_chars(name: &String) -> (glyphs: Vec<char>)
        ensures
            glyphs@ == name@,
    {
        chars_of(name.as_str())
    }

    /// The values part `at` is written with; see [`Mamodel::part_values`].
    fn values_of(&self, at: usize) -> (values: Vec<i32>)
        requires
            self.wf(),
            at < self.model.parts@.len(),
        ensures
            values@ == self.part_values(at as int),
    {
        let part = &self.model.parts[at];
        let mut values: Vec<i32> = Vec::new();
        let mut cell: usize = 0;
        while cell < PART_CELLS
            invariant
                cell <= PART_CELLS,
                part.cells@.len() == PART_CELLS,
                values@ == part.cells@.take(cell as int),
            decreases PART_CELLS - cell,
        {
            values.push(part.cells[cell]);
            cell += 1;
        }
        assert(part.cells@.take(PART_CELLS as int) =~= part.cells@);
        if self.model.version < GLOW_VERSION && part.cells[GLOW_CELL] == 0 {
            let raw = self.raw_of(at);
            let glow = match raw {
                Some(text) => {
                    let pieces = if text.len() == 0 { Vec::new() } else { crate::text::split_fields(text) };
                    if GLOW_CELL < pieces.len() {
                        read(Some(pieces[GLOW_CELL].as_slice()))
                    } else {
                        read(None)
                    }
                },
                None => read(None),
            };
            values.set(GLOW_CELL, glow);
        }
        values
    }

    /// The raw text part row `at` was read from.
    fn raw_of(&self, at: usize) -> (raw: Option<&[char]>)
        requires
            self.wf(),
            at < self.raws@.len(),
        ensures
            crate::text::seen(raw) == self.part_raw(at as int),
    {
        match &self.raws[at] {
            Some(text) => Some(text.as_slice()),
            None => None,
        }
    }

    /// The raw text alignment row `at` was read from.
    fn row_of(&self, at: usize) -> (raw: Option<&[char]>)
        requires
            self.wf(),
            at < self.rows@.len(),
        ensures
            crate::text::seen(raw) == self.align_raw(at as int),
    {
        match &self.rows[at] {
            Some(text) => Some(text.as_slice()),
            None => None,
        }
    }

    /// The text part `at` is written as; see [`Mamodel::part_row`].
    fn part_text(&self, at: usize) -> (text: Vec<char>)
        requires
            self.wf(),
            at < self.model.parts@.len(),
        ensures
            text@ == self.part_row(at as int),
    {
        let values = self.values_of(at);
        let name = Self::name_chars(&self.model.parts[at].name);
        cells(self.raw_of(at), values.as_slice(), Some(name.as_slice()))
    }

    /// The text alignment row `at` is written as; see [`Mamodel::align_row`].
    fn align_text(&self, at: usize) -> (text: Vec<char>)
        requires
            self.wf(),
            at < self.model.alignment@.len(),
        ensures
            text@ == self.align_row(at as int),
    {
        let name = Self::name_chars(&self.model.alignment[at].name);
        cells(self.row_of(at), self.model.alignment[at].cells.as_slice(), Some(name.as_slice()))
    }

    /// Writes the part block; see [`Mamodel::parts_block`].
    fn push_parts(&self, body: &mut Vec<char>, end: &[char])
        requires
            self.wf(),
        ensures
            final(body)@ == old(body)@ + self.parts_block(end@),
    {
        let count = kept(&self.model.parts, self.parts, self.part_present);
        let last = if count == 0 { 0 } else { count - 1 };
        let mut ending: Vec<char> = Vec::new();
        if end.len() == 0 {
            ending.push('\n');
        } else {
            extend(&mut ending, end);
        }
        let ghost pieces = self.part_pieces(end@);
        let ghost start = body@;
        let mut at: usize = 0;
        while at < count
            invariant
                self.wf(),
                count == self.part_rows(),
                count <= self.model.parts@.len(),
                last == if count == 0 { 0 } else { count - 1 },
                ending@ == row_end(end@),
                pieces == self.part_pieces(end@),
                at <= count,
                start == old(body)@,
                body@ == start + concat(pieces.take(at as int)),
            decreases count - at,
        {
            let row = self.part_text(at);
            extend(body, row.as_slice());
            if at == last {
                extend(body, self.part_tail.as_slice());
            } else {
                extend(body, ending.as_slice());
            }
            proof {
                lemma_concat_step(pieces, at as int);
            }
            at += 1;
        }
        assert(pieces.take(count as int) =~= pieces);
    }
}


impl Mamodel {
    /// Writes the alignment block; see [`Mamodel::aligns_block`].
    fn push_aligns(&self, body: &mut Vec<char>, end: &[char])
        requires
            self.wf(),
        ensures
            final(body)@ == old(body)@ + self.aligns_block(end@),
    {
        let count = kept(&self.model.alignment, self.aligns, self.align_present);
        let last = if count == 0 { 0 } else { count - 1 };
        let mut ending: Vec<char> = Vec::new();
        if end.len() == 0 {
            ending.push('\n');
        } else {
            extend(&mut ending, end);
        }
        let ghost pieces = self.align_pieces(end@);
        let ghost start = body@;
        let mut at: usize = 0;
        while at < count
            invariant
                self.wf(),
                count == self.align_rows(),
                count <= self.model.alignment@.len(),
                last == if count == 0 { 0 } else { count - 1 },
                ending@ == row_end(end@),
                pieces == self.align_pieces(end@),
                at <= count,
                start == old(body)@,
                body@ == start + concat(pieces.take(at as int)),
            decreases count - at,
        {
            let row = self.align_text(at);
            extend(body, row.as_slice());
            if at == last {
                extend(body, self.align_tail.as_slice());
            } else {
                extend(body, ending.as_slice());
            }
            proof {
                lemma_concat_step(pieces, at as int);
            }
            at += 1;
        }
        assert(pieces.take(count as int) =~= pieces);
    }

    /// The units row's values; see [`Mamodel::unit_values`].
    fn units(&self) -> (values: Vec<i32>)
        ensures
            values@ == self.unit_values(),
    {
        let mut values: Vec<i32> = Vec::new();
        values.push(self.model.scale_unit);
        values.push(self.model.angle_unit);
        values.push(self.model.opacity_unit);
        match self.model.unknown_3 {
            Some(extra) => values.push(extra),
            None => {},
        }
        assert(values@ =~= self.unit_values());
        values
    }

    /// Writes a header line back; see [`Mamodel::rendered_line`].
    fn render(&self, role: Role, raw: &[char]) -> (text: Vec<char>)
        ensures
            text@ == self.rendered_line(role, raw@),
    {
        match role {
            Role::Version => if cell_value(raw) == self.model.version {
                copy_range(raw, 0, raw.len())
            } else {
                decimal_text(self.model.version as i128)
            },
            Role::Count => count_line(raw, self.parts, self.model.parts.len()),
            Role::AlignCount => count_line(raw, self.aligns, self.model.alignment.len()),
            Role::Units => {
                let values = self.units();
                cells(Some(raw), values.as_slice(), None)
            },
            _ => copy_range(raw, 0, raw.len()),
        }
    }

    /// Whether the alignment block has to be created; see [`Mamodel::creating`].
    fn is_creating(&self) -> (creating: bool)
        ensures
            creating == self.creating(),
    {
        let grown = self.model.alignment.len() > self.aligns || self.model.version > self.version;
        if !grown {
            return false;
        }
        let mut at: usize = 0;
        while at < self.roles.len()
            invariant
                at <= self.roles@.len(),
                forall|k: int| 0 <= k < at ==> self.roles@[k] != Some(Role::AlignCount),
            decreases self.roles@.len() - at,
        {
            if self.roles[at] == Some(Role::AlignCount) {
                assert(self.roles@[at as int] == Some(Role::AlignCount));
                assert(self.roles@.contains(Some(Role::AlignCount)));
                return false;
            }
            at += 1;
        }
        true
    }

    /// The line a created block follows; see [`Mamodel::seam`].
    fn find_seam(&self) -> (seam: Option<usize>)
        ensures
            match seam {
                Some(at) => self.seam() == Some(at as int),
                None => self.seam().is_none(),
            },
    {
        if !self.is_creating() {
            return None;
        }
        let mut at: usize = 0;
        while at < self.roles.len()
            invariant
                self.creating(),
                at <= self.roles@.len(),
                first_units(self.roles@, 0) == first_units(self.roles@, at as int),
            decreases self.roles@.len() - at,
        {
            if self.roles[at] == Some(Role::Units) {
                return Some(at);
            }
            at += 1;
        }
        None
    }

    /// Writes a created alignment block; see [`Mamodel::with_block`].
    fn push_block(&self, body: &mut Vec<char>)
        requires
            self.wf(),
        ensures
            final(body)@ == self.with_block(old(body)@),
    {
        terminate(body);
        let count = decimal_text(self.model.alignment.len() as i128);
        extend(body, count.as_slice());
        body.push('\n');
        let mut ending: Vec<char> = Vec::new();
        ending.push('\n');
        self.push_aligns(body, ending.as_slice());
        assert(ending@ =~= seq!['\n']);
    }

    /// Writes one line; see [`Mamodel::emit`].
    fn push_line(&self, body: &mut Vec<char>, at: usize, seam: Option<usize>)
        requires
            self.wf(),
            at < self.lines@.len(),
            match seam {
                Some(found) => self.seam() == Some(found as int),
                None => self.seam().is_none(),
            },
        ensures
            final(body)@ == self.emit(old(body)@, at as int),
    {
        let line = &self.lines[at];
        let role = self.roles[at];
        if role == Some(Role::Skip) {
            return;
        }
        match role {
            Some(Role::Parts) => self.push_parts(body, line.end.as_slice()),
            Some(Role::Aligns) => self.push_aligns(body, line.end.as_slice()),
            Some(Role::AlignCount) => {
                let seeding = self.aligns == 0 && self.model.alignment.len() > 0;
                let mut ending: Vec<char> = Vec::new();
                if line.end.len() == 0 && seeding {
                    ending.push('\n');
                } else {
                    extend(&mut ending, line.end.as_slice());
                }
                let counted = self.render(Role::AlignCount, line.text.as_slice());
                extend(body, counted.as_slice());
                extend(body, ending.as_slice());
                if seeding {
                    self.push_aligns(body, ending.as_slice());
                }
            },
            Some(other) => {
                let rendered = self.render(other, line.text.as_slice());
                extend(body, rendered.as_slice());
                extend(body, line.end.as_slice());
            },
            None => {
                extend(body, line.text.as_slice());
                extend(body, line.end.as_slice());
            },
        }
        if seam == Some(at) {
            self.push_block(body);
        }
    }

    /// Writes the document back as bytes. Every line is written as it was
    /// read unless what it holds changed: a part or alignment row keeps each
    /// cell's text while it still reads the same, and a block the file ran
    /// short of is not filled in with the rows the engine repeated.
    pub fn write(&self) -> (bytes: Vec<u8>)
        requires
            self.wf(),
        ensures
            bytes@ == self.written(),
    {
        let seam = self.find_seam();
        let mut body: Vec<char> = Vec::new();
        let mut at: usize = 0;
        while at < self.lines.len()
            invariant
                self.wf(),
                match seam {
                    Some(found) => self.seam() == Some(found as int),
                    None => self.seam().is_none(),
                },
                at <= self.lines@.len(),
                body@ == self.written_upto(at as int),
            decreases self.lines@.len() - at,
        {
            self.push_line(&mut body, at, seam);
            at += 1;
        }
        if self.is_creating() && seam.is_none() {
            terminate(&mut body);
            let values = self.units();
            let row = cells(None, values.as_slice(), None);
            extend(&mut body, row.as_slice());
            let ghost before = body@;
            body.push('\n');
            assert(body@ =~= before + seq!['\n']);
            self.push_block(&mut body);
        }
        encode(self.bom, body.as_slice())
    }
}


/// The values a part read from row `text` is written with; see [`Mamodel::part_values`].
pub open spec fn part_values_of(model: Model, text: Seq<char>, at: int) -> Seq<i32> {
    let cells = model.parts@[at].cells@;
    if model.version < GLOW_VERSION && cells[GLOW_CELL as int] == 0 {
        cells.update(GLOW_CELL as int, reading(field_at(row_fields(Some(text)), GLOW_CELL as int)))
    } else {
        cells
    }
}

/// The units row's values of a model.
pub open spec fn units_of(model: Model) -> Seq<i32> {
    seq![model.scale_unit, model.angle_unit, model.opacity_unit] + match model.unknown_3 {
        Some(extra) => seq![extra],
        None => Seq::empty(),
    }
}

/// Whether a model agrees with the lines it was read from: the revision line
/// reads as its revision, each row it read reads as its cells and trims to its
/// name, a block the file ran short of after at least one row is filled with
/// repeats of its last row (as the engine fills it), and the rows of each
/// block end alike. A block none of whose rows the file holds is written
/// nowhere, whatever the engine filled it with.
pub open spec fn model_agrees(lines: Seq<(Seq<char>, Seq<char>)>, model: Model) -> bool {
    let n = lines.len() as int;
    let parts = model.parts@.len() as int;
    let aligns = model.alignment@.len() as int;
    let version = model.version;
    let held = present_in(n, 3, parts);
    let base = 5 + parts;
    let aligned = if version >= ALIGNED_VERSION { present_in(n, base, aligns) } else { 0 };
    &&& n > 1 ==> cell_reading(lines[1].0) == version
    &&& held >= 1 ==> kept_count(model.parts@, parts, held) == held
    &&& forall|at: int|
        0 <= at < held ==> crate::rows::row_agrees(
            #[trigger] lines[3 + at].0,
            part_values_of(model, lines[3 + at].0, at),
            Some(model.parts@[at].name@),
        )
    &&& crate::imgcut::endings_uniform(lines, 3, held)
    &&& version >= UNITED_VERSION && 3 + parts < n ==> crate::rows::row_agrees(lines[3 + parts].0, units_of(model), None)
    &&& version >= ALIGNED_VERSION ==> {
        &&& aligned >= 1 ==> kept_count(model.alignment@, aligns, aligned) == aligned
        &&& forall|at: int|
            0 <= at < aligned ==> crate::rows::row_agrees(
                #[trigger] lines[base + at].0,
                model.alignment@[at].cells@,
                Some(model.alignment@[at].name@),
            )
        &&& crate::imgcut::endings_uniform(lines, base, aligned)
    }
}

impl Mamodel {
    /// The written text of the first `count` lines of the file, as they were.
    pub closed spec fn source_upto(self, count: int) -> Seq<char> {
        concat(crate::text::line_pieces(pairs(self.lines@)).take(count))
    }

    /// Where the alignment block starts and how many of its rows the file holds.
    pub closed spec fn align_span(self) -> (int, int) {
        let base = 5 + self.parts as int;
        if self.version >= ALIGNED_VERSION {
            (base, self.align_present as int)
        } else {
            (base, 0)
        }
    }

    /// The text the first `k` lines write back when nothing was touched: the
    /// lines as they were, each block counted from its first line on.
    pub closed spec fn unchanged_upto(self, k: int) -> Seq<char> {
        let p = self.part_present as int;
        let (base, a) = self.align_span();
        if 3 < k < 3 + p {
            self.source_upto(3 + p)
        } else if base < k < base + a {
            self.source_upto(base + a)
        } else {
            self.source_upto(k)
        }
    }

    /// The preconditions of the round trip, on a document.
    pub closed spec fn untouched_from(self, bytes: Seq<u8>) -> bool {
        &&& self.wf()
        &&& self.parsed_from(bytes)
        &&& vstd::utf8::valid_utf8(crate::text::body_bytes(bytes))
        &&& model_agrees(pairs(self.lines@), self.model)
    }

    proof fn lemma_parts_block(self, bytes: Seq<u8>)
        requires
            self.untouched_from(bytes),
            self.part_present >= 1,
        ensures
            self.source_upto(3) + self.parts_block(self.lines@[3].end@) == self.source_upto(3 + self.part_present),
    {
        let lines = self.lines@;
        let p = self.part_present as int;
        let views = pairs(lines);
        let pieces = self.part_pieces(self.lines@[3].end@);
        let source = crate::text::line_pieces(views);
        assert(self.part_rows() == p);
        assert forall|at: int| 0 <= at < p implies pieces[at] == source[3 + at] by {
            let text = lines[3 + at].text@;
            assert(views[3 + at].0 == text);
            assert(self.part_raw(at) == Some(text));
            assert(self.part_values(at) == part_values_of(self.model, text, at));
            crate::rows::lemma_agreeing_row_is_kept(text, self.part_values(at), Some(self.model.parts@[at].name@));
            if at < p - 1 {
                assert(views[3 + at].1 == row_end(views[3].1));
            }
        }
        assert(source.take(3 + p) =~= source.take(3) + pieces);
        crate::text::lemma_concat_append(source.take(3), pieces);
    }

    proof fn lemma_aligns_block(self, bytes: Seq<u8>)
        requires
            self.untouched_from(bytes),
            self.version >= ALIGNED_VERSION,
            self.align_present >= 1,
        ensures
            self.source_upto(self.align_span().0) + self.aligns_block(self.lines@[self.align_span().0].end@)
                == self.source_upto(self.align_span().0 + self.align_present),
    {
        let lines = self.lines@;
        let a = self.align_present as int;
        let base = self.align_span().0;
        let views = pairs(lines);
        let pieces = self.align_pieces(self.lines@[base].end@);
        let source = crate::text::line_pieces(views);
        assert(self.align_rows() == a);
        assert forall|at: int| 0 <= at < a implies pieces[at] == source[base + at] by {
            let text = lines[base + at].text@;
            assert(views[base + at].0 == text);
            assert(self.align_raw(at) == Some(text));
            crate::rows::lemma_agreeing_row_is_kept(
                text,
                self.model.alignment@[at].cells@,
                Some(self.model.alignment@[at].name@),
            );
            if at < a - 1 {
                assert(views[base + at].1 == row_end(views[base].1));
            }
        }
        assert(source.take(base + a) =~= source.take(base) + pieces);
        crate::text::lemma_concat_append(source.take(base), pieces);
    }

    #[verifier::spinoff_prover]
    #[verifier::rlimit(40)]
    proof fn lemma_unchanged_upto(self, bytes: Seq<u8>, k: int)
        requires
            self.untouched_from(bytes),
            0 <= k <= self.lines@.len(),
        ensures
            self.written_upto(k) == self.unchanged_upto(k),
        decreases k,
    {
        if k > 0 {
            self.lemma_unchanged_upto(bytes, k - 1);
            let at = k - 1;
            let lines = self.lines@;
            let views = pairs(lines);
            let source = crate::text::line_pieces(views);
            let text = lines[at].text@;
            assert(views[at] == (text, lines[at].end@));
            crate::text::lemma_concat_step(source, at);
            assert(!self.creating());
            if at == 3 && self.part_present >= 1 {
                self.lemma_parts_block(bytes);
            }
            if self.version >= ALIGNED_VERSION && at == self.align_span().0 && self.align_present >= 1 {
                self.lemma_aligns_block(bytes);
            }
            if at == 3 + self.parts && self.version >= UNITED_VERSION {
                crate::rows::lemma_agreeing_row_is_kept(text, units_of(self.model), None);
            }
        }
    }

    /// An untouched model writes back byte for byte: reading a file whose text
    /// is valid UTF-8, whose rows the model agrees with (see [`model_agrees`]),
    /// and writing it again gives the same bytes.
    #[verifier::spinoff_prover]
    #[verifier::rlimit(40)]
    pub proof fn lemma_untouched_model_writes_back(bytes: Seq<u8>, doc: Mamodel)
        requires
            doc.wf(),
            doc.parsed_from(bytes),
            vstd::utf8::valid_utf8(crate::text::body_bytes(bytes)),
            model_agrees(lines_of(vstd::utf8::decode_utf8(crate::text::body_bytes(bytes))), doc.held()),
        ensures
            doc.written() == bytes,
    {
        let n = doc.lines@.len() as int;
        let views = pairs(doc.lines@);
        let source = crate::text::line_pieces(views);
        assert(doc.untouched_from(bytes));
        doc.lemma_unchanged_upto(bytes, n);
        assert(!doc.creating());
        assert(source.take(n) =~= source);
        crate::text::lemma_rejoined_concat(views);
        crate::text::lemma_lines_rejoin(vstd::utf8::decode_utf8(crate::text::body_bytes(bytes)));
        crate::text::lemma_file_roundtrip(bytes);
    }
}

/// The units line a created block is written after is a units line.
proof fn lemma_first_units(roles: Seq<Option<Role>>, from: int)
    ensures
        first_units(roles, from) matches Some(at) ==> 0 <= at < roles.len() && roles[at] == Some(Role::Units),
    decreases roles.len() - from,
{
    if 0 <= from < roles.len() && roles[from] != Some(Role::Units) {
        lemma_first_units(roles, from + 1);
    }
}

impl Mamodel {
    /// What line `at` adds after the text before it, before any created
    /// alignment block that follows it.
    spec fn line_suffix(self, at: int) -> Seq<char> {
        let text = self.lines@[at].text@;
        let end = self.lines@[at].end@;
        match self.roles@[at] {
            Some(Role::Skip) => Seq::empty(),
            Some(Role::Parts) => self.parts_block(end),
            Some(Role::Aligns) => self.aligns_block(end),
            Some(Role::AlignCount) => {
                let seeding = self.aligns == 0 && self.model.alignment@.len() > 0;
                let ending = if end.len() == 0 && seeding { seq!['\n'] } else { end };
                let counted = self.rendered_line(Role::AlignCount, text) + ending;
                if seeding { counted + self.aligns_block(ending) } else { counted }
            },
            Some(other) => self.rendered_line(other, text) + end,
            None => text + end,
        }
    }

    /// What a created alignment block adds once the text before it is closed.
    spec fn block_suffix(self) -> Seq<char> {
        decimal(self.model.alignment@.len() as int) + seq!['\n'] + self.aligns_block(seq!['\n'])
    }

    /// Writing a line appends what the line adds, and where a created block
    /// follows it, closes the text and appends the block.
    proof fn lemma_emit_shape(self, body: Seq<char>, at: int)
        requires
            0 <= at < self.lines@.len(),
        ensures
            self.emit(body, at) == if self.roles@[at] == Some(Role::Skip) {
                body
            } else if self.seam() == Some(at) {
                terminated(body + self.line_suffix(at)) + self.block_suffix()
            } else {
                body + self.line_suffix(at)
            },
    {
        let text = self.lines@[at].text@;
        let end = self.lines@[at].end@;
        if self.roles@[at] == Some(Role::AlignCount) {
            let seeding = self.aligns == 0 && self.model.alignment@.len() > 0;
            let ending = if end.len() == 0 && seeding { seq!['\n'] } else { end };
            let counted = self.rendered_line(Role::AlignCount, text) + ending;
            assert(body + counted + self.aligns_block(ending) =~= body + (counted + self.aligns_block(ending)));
            assert(body + self.rendered_line(Role::AlignCount, text) + ending =~= body + counted);
        } else if self.roles@[at] != Some(Role::Skip) {
            match self.roles@[at] {
                Some(Role::Parts) => {},
                Some(Role::Aligns) => {},
                Some(other) => {
                    assert(body + self.rendered_line(other, text) + end =~= body + (self.rendered_line(other, text)
                        + end));
                },
                None => {
                    assert(body + text + end =~= body + (text + end));
                },
            }
        }
        if self.seam() == Some(at) {
            let grown = body + self.line_suffix(at);
            assert(self.with_block(grown) =~= terminated(grown) + self.block_suffix());
        }
    }

    /// A created block closes the text before it and follows it.
    proof fn lemma_with_block(self, body: Seq<char>)
        ensures
            self.with_block(body) == terminated(body) + self.block_suffix(),
    {
        assert(self.with_block(body) =~= terminated(body) + self.block_suffix());
    }

    /// Two documents that agree but for the contents of their parts create an
    /// alignment block alike.
    proof fn lemma_same_creation(before: Mamodel, after: Mamodel)
        requires
            before.wf(),
            after.wf(),
            after.same_source(before),
            after.same_rows(before),
            same_but_parts(after.model, before.model),
            after.model.parts@.len() == before.model.parts@.len(),
        ensures
            after.block_suffix() == before.block_suffix(),
            after.creating() == before.creating(),
            after.seam() == before.seam(),
            after.unit_values() == before.unit_values(),
            forall|end: Seq<char>| #[trigger] after.aligns_block(end) == before.aligns_block(end),
    {
        assert(after.align_rows() == before.align_rows());
        assert forall|end: Seq<char>| #[trigger] after.aligns_block(end) == before.aligns_block(end) by {
            assert forall|i: int| 0 <= i < before.align_rows() implies #[trigger] after.align_row(i) == before.align_row(
                i,
            ) by {
                assert(after.align_raw(i) == before.align_raw(i));
            }
            assert(after.align_pieces(end) =~= before.align_pieces(end));
        }
    }

    /// Two documents that agree but for the contents of their parts write
    /// every line but the part block's first the same way.
    proof fn lemma_same_suffix(before: Mamodel, after: Mamodel, at: int)
        requires
            before.wf(),
            after.wf(),
            after.same_source(before),
            after.same_rows(before),
            same_but_parts(after.model, before.model),
            after.model.parts@.len() == before.model.parts@.len(),
            0 <= at < before.lines@.len(),
            before.roles@[at] != Some(Role::Parts),
        ensures
            after.line_suffix(at) == before.line_suffix(at),
    {
        Self::lemma_same_creation(before, after);
        let text = before.lines@[at].text@;
        match before.roles@[at] {
            Some(role) => {
                assert(after.rendered_line(role, text) == before.rendered_line(role, text));
            },
            None => {},
        }
    }

    /// Two documents that agree but for part `at` write the same part rows
    /// but for that one, which ends the same way in both.
    proof fn lemma_part_pieces_agree(before: Mamodel, after: Mamodel, at: int, end: Seq<char>)
        requires
            before.wf(),
            after.wf(),
            after.same_source(before),
            after.same_rows(before),
            same_but_parts(after.model, before.model),
            after.model.parts@.len() == before.model.parts@.len(),
            forall|i: int|
                0 <= i < before.model.parts@.len() && i != at ==> #[trigger] after.model.parts@[i]
                    == before.model.parts@[i],
            after.part_rows() == before.part_rows(),
        ensures
            after.part_pieces(end).len() == before.part_pieces(end).len(),
            before.part_pieces(end).len() == before.part_rows(),
            forall|i: int|
                0 <= i < before.part_rows() && i != at ==> #[trigger] after.part_pieces(end)[i]
                    == before.part_pieces(end)[i],
            0 <= at < before.part_rows() ==> before.part_pieces(end)[at] == before.part_row(at) + before.part_ending(
                end,
                at,
            ),
            0 <= at < before.part_rows() ==> after.part_pieces(end)[at] == after.part_row(at) + before.part_ending(
                end,
                at,
            ),
    {
        assert(before.part_rows() <= before.model.parts@.len());
        assert forall|i: int| 0 <= i < before.part_rows() && i != at implies #[trigger] after.part_pieces(end)[i]
            == before.part_pieces(end)[i] by {
            assert(after.part_raw(i) == before.part_raw(i));
            assert(after.model.parts@[i] == before.model.parts@[i]);
            assert(after.part_values(i) == before.part_values(i));
            assert(after.part_row(i) == before.part_row(i));
        }
    }

    /// A line other than the part block's first, written after the same text,
    /// writes the same text.
    proof fn lemma_step_same(before: Mamodel, after: Mamodel, i: int)
        requires
            before.wf(),
            after.wf(),
            after.same_source(before),
            after.same_rows(before),
            same_but_parts(after.model, before.model),
            after.model.parts@.len() == before.model.parts@.len(),
            0 <= i < before.lines@.len(),
            before.roles@[i] != Some(Role::Parts),
            after.written_upto(i) == before.written_upto(i),
        ensures
            after.written_upto(i + 1) == before.written_upto(i + 1),
    {
        let body = before.written_upto(i);
        before.lemma_emit_shape(body, i);
        after.lemma_emit_shape(body, i);
        Self::lemma_same_creation(before, after);
        Self::lemma_same_suffix(before, after, i);
    }

    /// A line other than the part block's first, written after two texts that
    /// differ only in the row of part `at`, keeps them differing only there.
    proof fn lemma_step_swapped(
        before: Mamodel,
        after: Mamodel,
        at: int,
        i: int,
        head: Seq<char>,
        tail: Seq<char>,
    ) -> (around: (Seq<char>, Seq<char>))
        requires
            before.wf(),
            after.wf(),
            after.same_source(before),
            after.same_rows(before),
            same_but_parts(after.model, before.model),
            after.model.parts@.len() == before.model.parts@.len(),
            0 <= i < before.lines@.len(),
            before.roles@[i] != Some(Role::Parts),
            before.creating() ==> ends_alike(before.part_row(at), after.part_row(at)),
            before.written_upto(i) == head + before.part_row(at) + tail,
            after.written_upto(i) == head + after.part_row(at) + tail,
        ensures
            before.written_upto(i + 1) == around.0 + before.part_row(at) + around.1,
            after.written_upto(i + 1) == around.0 + after.part_row(at) + around.1,
    {
        let rb = before.part_row(at);
        let ra = after.part_row(at);
        let body_b = before.written_upto(i);
        let body_a = after.written_upto(i);
        assert(before.written_upto(i + 1) == before.emit(body_b, i));
        assert(after.written_upto(i + 1) == after.emit(body_a, i));
        before.lemma_emit_shape(body_b, i);
        after.lemma_emit_shape(body_a, i);
        Self::lemma_same_creation(before, after);
        Self::lemma_same_suffix(before, after, i);
        let suffix = before.line_suffix(i);
        let block = before.block_suffix();
        if before.roles@[i] == Some(Role::Skip) {
            (head, tail)
        } else if before.seam() == Some(i) {
            lemma_first_units(before.roles@, 0);
            assert(body_b + suffix =~= head + rb + (tail + suffix));
            assert(body_a + suffix =~= head + ra + (tail + suffix));
            let closed = lemma_terminated_swap(head, rb, ra, tail + suffix);
            assert(head + rb + closed + block =~= head + rb + (closed + block));
            assert(head + ra + closed + block =~= head + ra + (closed + block));
            (head, closed + block)
        } else {
            assert(body_b + suffix =~= head + rb + (tail + suffix));
            assert(body_a + suffix =~= head + ra + (tail + suffix));
            (head, tail + suffix)
        }
    }

    /// The part block's first line, written after the same text, writes two
    /// texts that differ only in the row of part `at`, or none at all where
    /// that row is not written.
    proof fn lemma_part_line(before: Mamodel, after: Mamodel, at: int) -> (around: (Seq<char>, Seq<char>))
        requires
            before.wf(),
            after.wf(),
            after.same_source(before),
            after.same_rows(before),
            same_but_parts(after.model, before.model),
            after.model.parts@.len() == before.model.parts@.len(),
            forall|i: int|
                0 <= i < before.model.parts@.len() && i != at ==> #[trigger] after.model.parts@[i]
                    == before.model.parts@[i],
            after.part_rows() == before.part_rows(),
            3 < before.lines@.len(),
            before.roles@[3] == Some(Role::Parts),
            after.written_upto(3) == before.written_upto(3),
        ensures
            !(0 <= at < before.part_rows()) ==> after.written_upto(4) == before.written_upto(4),
            0 <= at < before.part_rows() ==> {
                &&& before.written_upto(4) == around.0 + before.part_row(at) + around.1
                &&& after.written_upto(4) == around.0 + after.part_row(at) + around.1
            },
    {
        let body = before.written_upto(3);
        before.lemma_emit_shape(body, 3);
        after.lemma_emit_shape(body, 3);
        Self::lemma_same_creation(before, after);
        lemma_first_units(before.roles@, 0);
        let end = before.lines@[3].end@;
        let pb = before.part_pieces(end);
        let pa = after.part_pieces(end);
        Self::lemma_part_pieces_agree(before, after, at, end);
        assert(before.written_upto(4) == body + concat(pb));
        assert(after.written_upto(4) == body + concat(pa));
        if 0 <= at < before.part_rows() {
            let ending = before.part_ending(end, at);
            lemma_swap_row(body, pb, pa, at, before.part_row(at), after.part_row(at), ending);
            (body + concat(pb.take(at)), ending + concat(pb.skip(at + 1)))
        } else {
            assert(pa =~= pb);
            (Seq::empty(), Seq::empty())
        }
    }

    /// The text the first `k` lines write for two documents that agree but
    /// for part `at`: the same, until the part block is written with that
    /// part's row in it, and from then on the same but for that row.
    proof fn lemma_part_text(before: Mamodel, after: Mamodel, at: int, k: int) -> (around: (Seq<char>, Seq<char>))
        requires
            before.wf(),
            after.wf(),
            after.same_source(before),
            after.same_rows(before),
            same_but_parts(after.model, before.model),
            after.model.parts@.len() == before.model.parts@.len(),
            forall|i: int|
                0 <= i < before.model.parts@.len() && i != at ==> #[trigger] after.model.parts@[i]
                    == before.model.parts@[i],
            after.part_rows() == before.part_rows(),
            before.creating() ==> ends_alike(before.part_row(at), after.part_row(at)),
            0 <= k <= before.lines@.len(),
        ensures
            !(before.writes_part(at) && k > 3) ==> after.written_upto(k) == before.written_upto(k),
            before.writes_part(at) && k > 3 ==> {
                &&& before.written_upto(k) == around.0 + before.part_row(at) + around.1
                &&& after.written_upto(k) == around.0 + after.part_row(at) + around.1
            },
        decreases k,
    {
        if k == 0 {
            return (Seq::empty(), Seq::empty());
        }
        let i = k - 1;
        let prior = Self::lemma_part_text(before, after, at, i);
        let n = before.lines@.len() as int;
        assert(before.roles@[i] == layout_role(n, before.version, before.parts as int, before.aligns as int, i));
        if before.roles@[i] == Some(Role::Parts) {
            Self::lemma_part_line(before, after, at)
        } else if before.writes_part(at) && i > 3 {
            Self::lemma_step_swapped(before, after, at, i, prior.0, prior.1)
        } else {
            Self::lemma_step_same(before, after, i);
            prior
        }
    }

    /// A block created after the text closes two texts that differ only in
    /// one piece, ending alike, and keeps them differing only there.
    proof fn lemma_closing_swapped(
        before: Mamodel,
        after: Mamodel,
        head: Seq<char>,
        rb: Seq<char>,
        ra: Seq<char>,
        tail: Seq<char>,
    ) -> (rest: Seq<char>)
        requires
            before.creating(),
            before.seam().is_none(),
            after.creating(),
            after.seam().is_none(),
            after.unit_values() == before.unit_values(),
            after.block_suffix() == before.block_suffix(),
            after.lines@.len() == before.lines@.len(),
            ends_alike(rb, ra),
            before.written_upto(before.lines@.len() as int) == head + rb + tail,
            after.written_upto(before.lines@.len() as int) == head + ra + tail,
        ensures
            before.written_text() == head + rb + rest,
            after.written_text() == head + ra + rest,
    {
        let n = before.lines@.len() as int;
        let closed = lemma_terminated_swap(head, rb, ra, tail);
        let units = rendered_cells(None, before.unit_values(), None) + seq!['\n'];
        let grown_b = terminated(before.written_upto(n)) + rendered_cells(None, before.unit_values(), None) + seq![
            '\n',
        ];
        let grown_a = terminated(after.written_upto(n)) + rendered_cells(None, after.unit_values(), None) + seq![
            '\n',
        ];
        assert(grown_b =~= head + rb + (closed + units));
        assert(grown_a =~= head + ra + (closed + units));
        let again = lemma_terminated_swap(head, rb, ra, closed + units);
        before.lemma_with_block(grown_b);
        after.lemma_with_block(grown_a);
        assert(before.written_text() == before.with_block(grown_b));
        assert(after.written_text() == after.with_block(grown_a));
        let rest = again + before.block_suffix();
        assert(before.written_text() =~= head + rb + rest);
        assert(after.written_text() =~= head + ra + rest);
        rest
    }

    /// Whether writing the document writes a row for part `at`: the file held
    /// the part block's first line, and `at` is among the rows written.
    pub closed spec fn writes_part(self, at: int) -> bool {
        3 < self.lines@.len() && self.parts >= 1 && 0 <= at < self.part_rows()
    }

    /// Editing one part rewrites only its own row: of two documents that keep
    /// the same file and raw rows, hold the same model but for its parts, as
    /// many parts and the same ones but for part `at`, and write as many part
    /// rows, the written texts differ only in the row of that part, and not at
    /// all where that row is not written. Where the document creates an
    /// alignment block, whose line break depends on how the text before it
    /// ends, the two rows end alike.
    pub proof fn lemma_part_edit_rewrites_only_its_row(before: Mamodel, after: Mamodel, at: int)
        requires
            before.wf(),
            after.wf(),
            after.same_source(before),
            after.same_rows(before),
            same_but_parts(after.held(), before.held()),
            after.held().parts@.len() == before.held().parts@.len(),
            forall|i: int|
                0 <= i < before.held().parts@.len() && i != at ==> #[trigger] after.held().parts@[i]
                    == before.held().parts@[i],
            after.part_rows() == before.part_rows(),
            before.creating() ==> ends_alike(before.part_row(at), after.part_row(at)),
        ensures
            after.writes_part(at) == before.writes_part(at),
            after.marked() == before.marked(),
            before.writes_part(at) ==> swapped(
                before.written_text(),
                after.written_text(),
                before.part_row(at),
                after.part_row(at),
            ),
            !before.writes_part(at) ==> after.written_text() == before.written_text(),
    {
        let n = before.lines@.len() as int;
        let (head, tail) = Self::lemma_part_text(before, after, at, n);
        Self::lemma_same_creation(before, after);
        if before.writes_part(at) {
            let rb = before.part_row(at);
            let ra = after.part_row(at);
            if before.creating() && before.seam().is_none() {
                let rest = Self::lemma_closing_swapped(before, after, head, rb, ra, tail);
                assert(before.written_text() == head + rb + rest);
                assert(after.written_text() == head + ra + rest);
            } else {
                assert(before.written_text() == head + rb + tail);
                assert(after.written_text() == head + ra + tail);
            }
        }
    }
}

impl Mamodel {
    /// The line whose writing writes the alignment block: the line of its
    /// first row, the count line a first row lands under, or the line a
    /// created block follows; none where a created block follows the whole
    /// text, or no block is written.
    pub closed spec fn align_line(self) -> Option<int> {
        let p = self.parts as int;
        let n = self.lines@.len() as int;
        if self.creating() {
            self.seam()
        } else if 5 + p < n && self.roles@[5 + p] == Some(Role::Aligns) {
            Some(5 + p)
        } else if 4 + p < n && self.roles@[4 + p] == Some(Role::AlignCount) && self.aligns == 0
            && self.model.alignment@.len() > 0 {
            Some(4 + p)
        } else {
            None
        }
    }

    /// Whether the first `k` lines take in the line the alignment block is
    /// written at.
    spec fn past_align_line(self, k: int) -> bool {
        match self.align_line() {
            Some(w) => k > w,
            None => false,
        }
    }

    /// Whether writing the document writes alignment row `at`: the block is
    /// written, and `at` is among its rows.
    pub closed spec fn writes_align(self, at: int) -> bool {
        0 <= at < self.align_rows() && (self.creating() || self.align_line().is_some())
    }

    /// Two documents that agree but for their alignment rows create a block
    /// alike and write it at the same line.
    proof fn lemma_same_placing(before: Mamodel, after: Mamodel)
        requires
            before.wf(),
            after.wf(),
            after.same_source(before),
            after.same_rows(before),
            same_but_alignment(after.model, before.model),
            after.model.version == before.model.version,
            after.model.alignment@.len() == before.model.alignment@.len(),
        ensures
            after.creating() == before.creating(),
            after.seam() == before.seam(),
            after.align_line() == before.align_line(),
            after.unit_values() == before.unit_values(),
            forall|end: Seq<char>| #[trigger] after.parts_block(end) == before.parts_block(end),
    {
        assert(after.part_rows() == before.part_rows());
        assert forall|end: Seq<char>| #[trigger] after.parts_block(end) == before.parts_block(end) by {
            assert forall|i: int| 0 <= i < before.part_rows() implies #[trigger] after.part_row(i) == before.part_row(
                i,
            ) by {
                assert(after.part_raw(i) == before.part_raw(i));
                assert(after.part_values(i) == before.part_values(i));
            }
            assert(after.part_pieces(end) =~= before.part_pieces(end));
        }
    }

    /// A line the alignment block is not written at writes the same text in
    /// two documents that agree but for their alignment rows, and closes no
    /// created block.
    proof fn lemma_align_other(before: Mamodel, after: Mamodel, i: int)
        requires
            before.wf(),
            after.wf(),
            after.same_source(before),
            after.same_rows(before),
            same_but_alignment(after.model, before.model),
            after.model.version == before.model.version,
            after.model.alignment@.len() == before.model.alignment@.len(),
            0 <= i < before.lines@.len(),
            before.align_line() != Some(i),
        ensures
            after.line_suffix(i) == before.line_suffix(i),
            before.seam() != Some(i),
    {
        Self::lemma_same_placing(before, after);
        let n = before.lines@.len() as int;
        let p = before.parts as int;
        assert(before.roles@[i] == layout_role(n, before.version, p, before.aligns as int, i));
        if 4 + p < n {
            assert(before.roles@[4 + p] == layout_role(n, before.version, p, before.aligns as int, 4 + p));
        }
        if 5 + p < n {
            assert(before.roles@[5 + p] == layout_role(n, before.version, p, before.aligns as int, 5 + p));
        }
        if before.roles@[i] == Some(Role::AlignCount) || before.roles@[i] == Some(Role::Aligns) {
            assert(before.roles@[4 + p] == Some(Role::AlignCount));
            assert(before.roles@.contains(Some(Role::AlignCount)));
        }
        let text = before.lines@[i].text@;
        match before.roles@[i] {
            Some(role) => {
                assert(after.rendered_line(role, text) == before.rendered_line(role, text));
            },
            None => {},
        }
    }

    /// Two documents that agree but for alignment row `at` write the same
    /// alignment rows but for that one, which ends the same way in both.
    proof fn lemma_align_pieces_agree(before: Mamodel, after: Mamodel, at: int, end: Seq<char>)
        requires
            before.wf(),
            after.wf(),
            after.same_source(before),
            after.same_rows(before),
            same_but_alignment(after.model, before.model),
            after.model.version == before.model.version,
            after.model.alignment@.len() == before.model.alignment@.len(),
            forall|i: int|
                0 <= i < before.model.alignment@.len() && i != at ==> #[trigger] after.model.alignment@[i]
                    == before.model.alignment@[i],
            after.align_rows() == before.align_rows(),
        ensures
            after.align_pieces(end).len() == before.align_pieces(end).len(),
            before.align_pieces(end).len() == before.align_rows(),
            forall|i: int|
                0 <= i < before.align_rows() && i != at ==> #[trigger] after.align_pieces(end)[i]
                    == before.align_pieces(end)[i],
            0 <= at < before.align_rows() ==> before.align_pieces(end)[at] == before.align_row(at)
                + before.align_ending(end, at),
            0 <= at < before.align_rows() ==> after.align_pieces(end)[at] == after.align_row(at)
                + before.align_ending(end, at),
    {
        assert forall|i: int| 0 <= i < before.align_rows() && i != at implies #[trigger] after.align_pieces(end)[i]
            == before.align_pieces(end)[i] by {
            assert(after.align_raw(i) == before.align_raw(i));
            assert(after.model.alignment@[i] == before.model.alignment@[i]);
            assert(after.align_row(i) == before.align_row(i));
        }
    }

    /// Writing the alignment block after `prefix` writes two texts that differ
    /// only in alignment row `at`.
    proof fn lemma_align_block_swapped(before: Mamodel, after: Mamodel, at: int, prefix: Seq<char>, end: Seq<char>)
        -> (around: (Seq<char>, Seq<char>))
        requires
            before.wf(),
            after.wf(),
            after.same_source(before),
            after.same_rows(before),
            same_but_alignment(after.model, before.model),
            after.model.version == before.model.version,
            after.model.alignment@.len() == before.model.alignment@.len(),
            forall|i: int|
                0 <= i < before.model.alignment@.len() && i != at ==> #[trigger] after.model.alignment@[i]
                    == before.model.alignment@[i],
            after.align_rows() == before.align_rows(),
            0 <= at < before.align_rows(),
        ensures
            prefix + before.aligns_block(end) == around.0 + before.align_row(at) + around.1,
            prefix + after.aligns_block(end) == around.0 + after.align_row(at) + around.1,
    {
        let pb = before.align_pieces(end);
        let pa = after.align_pieces(end);
        Self::lemma_align_pieces_agree(before, after, at, end);
        let ending = before.align_ending(end, at);
        lemma_swap_row(prefix, pb, pa, at, before.align_row(at), after.align_row(at), ending);
        (prefix + concat(pb.take(at)), ending + concat(pb.skip(at + 1)))
    }

    /// The line the alignment block is written at, written after the same
    /// text, writes two texts that differ only in alignment row `at`.
    proof fn lemma_align_line(before: Mamodel, after: Mamodel, at: int, w: int) -> (around: (Seq<char>, Seq<char>))
        requires
            before.wf(),
            after.wf(),
            after.same_source(before),
            after.same_rows(before),
            same_but_alignment(after.model, before.model),
            after.model.version == before.model.version,
            after.model.alignment@.len() == before.model.alignment@.len(),
            forall|i: int|
                0 <= i < before.model.alignment@.len() && i != at ==> #[trigger] after.model.alignment@[i]
                    == before.model.alignment@[i],
            after.align_rows() == before.align_rows(),
            0 <= at < before.align_rows(),
            before.align_line() == Some(w),
            0 <= w < before.lines@.len(),
            after.written_upto(w) == before.written_upto(w),
        ensures
            before.written_upto(w + 1) == around.0 + before.align_row(at) + around.1,
            after.written_upto(w + 1) == around.0 + after.align_row(at) + around.1,
    {
        Self::lemma_same_placing(before, after);
        let body = before.written_upto(w);
        before.lemma_emit_shape(body, w);
        after.lemma_emit_shape(body, w);
        lemma_first_units(before.roles@, 0);
        let n = before.lines@.len() as int;
        let p = before.parts as int;
        assert(before.roles@[w] == layout_role(n, before.version, p, before.aligns as int, w));
        let text = before.lines@[w].text@;
        let end = before.lines@[w].end@;
        if before.creating() {
            assert(before.seam() == Some(w));
            assert(before.roles@[w] == Some(Role::Units));
            assert(after.rendered_line(Role::Units, text) == before.rendered_line(Role::Units, text));
            let closed = terminated(body + before.line_suffix(w));
            let prefix = closed + decimal(before.model.alignment@.len() as int) + seq!['\n'];
            let around = Self::lemma_align_block_swapped(before, after, at, prefix, seq!['\n']);
            assert(before.written_upto(w + 1) == prefix + before.aligns_block(seq!['\n']));
            assert(after.written_upto(w + 1) == prefix + after.aligns_block(seq!['\n']));
            around
        } else if before.roles@[w] == Some(Role::Aligns) {
            assert(before.seam().is_none());
            Self::lemma_align_block_swapped(before, after, at, body, end)
        } else {
            assert(before.seam().is_none());
            assert(before.roles@[w] == Some(Role::AlignCount));
            let ending = if end.len() == 0 { seq!['\n'] } else { end };
            let counted = before.rendered_line(Role::AlignCount, text) + ending;
            assert(after.rendered_line(Role::AlignCount, text) == before.rendered_line(Role::AlignCount, text));
            let around = Self::lemma_align_block_swapped(before, after, at, body + counted, ending);
            assert(before.written_upto(w + 1) =~= body + counted + before.aligns_block(ending));
            assert(after.written_upto(w + 1) =~= body + counted + after.aligns_block(ending));
            around
        }
    }

    /// A line past the one the alignment block is written at keeps two texts
    /// that differ only in alignment row `at` differing only there.
    proof fn lemma_align_step_swapped(
        before: Mamodel,
        after: Mamodel,
        at: int,
        i: int,
        head: Seq<char>,
        tail: Seq<char>,
    ) -> (around: (Seq<char>, Seq<char>))
        requires
            before.wf(),
            after.wf(),
            after.same_source(before),
            after.same_rows(before),
            same_but_alignment(after.model, before.model),
            after.model.version == before.model.version,
            after.model.alignment@.len() == before.model.alignment@.len(),
            0 <= i < before.lines@.len(),
            before.align_line() != Some(i),
            before.written_upto(i) == head + before.align_row(at) + tail,
            after.written_upto(i) == head + after.align_row(at) + tail,
        ensures
            before.written_upto(i + 1) == around.0 + before.align_row(at) + around.1,
            after.written_upto(i + 1) == around.0 + after.align_row(at) + around.1,
    {
        let rb = before.align_row(at);
        let ra = after.align_row(at);
        let body_b = before.written_upto(i);
        let body_a = after.written_upto(i);
        before.lemma_emit_shape(body_b, i);
        after.lemma_emit_shape(body_a, i);
        Self::lemma_same_placing(before, after);
        Self::lemma_align_other(before, after, i);
        let suffix = before.line_suffix(i);
        if before.roles@[i] == Some(Role::Skip) {
            (head, tail)
        } else {
            assert(body_b + suffix =~= head + rb + (tail + suffix));
            assert(body_a + suffix =~= head + ra + (tail + suffix));
            (head, tail + suffix)
        }
    }

    /// A line the alignment block is not written at, written after the same
    /// text, writes the same text.
    proof fn lemma_align_step_same(before: Mamodel, after: Mamodel, i: int)
        requires
            before.wf(),
            after.wf(),
            after.same_source(before),
            after.same_rows(before),
            same_but_alignment(after.model, before.model),
            after.model.version == before.model.version,
            after.model.alignment@.len() == before.model.alignment@.len(),
            0 <= i < before.lines@.len(),
            before.align_line() != Some(i),
            after.written_upto(i) == before.written_upto(i),
        ensures
            after.written_upto(i + 1) == before.written_upto(i + 1),
    {
        let body = before.written_upto(i);
        before.lemma_emit_shape(body, i);
        after.lemma_emit_shape(body, i);
        Self::lemma_same_placing(before, after);
        Self::lemma_align_other(before, after, i);
    }

    /// The text the first `k` lines write for two documents that agree but
    /// for alignment row `at`: the same, until the line the block is written
    /// at, and from then on the same but for that row.
    proof fn lemma_align_text(before: Mamodel, after: Mamodel, at: int, k: int) -> (around: (Seq<char>, Seq<char>))
        requires
            before.wf(),
            after.wf(),
            after.same_source(before),
            after.same_rows(before),
            same_but_alignment(after.model, before.model),
            after.model.version == before.model.version,
            after.model.alignment@.len() == before.model.alignment@.len(),
            forall|i: int|
                0 <= i < before.model.alignment@.len() && i != at ==> #[trigger] after.model.alignment@[i]
                    == before.model.alignment@[i],
            after.align_rows() == before.align_rows(),
            0 <= k <= before.lines@.len(),
        ensures
            !(before.writes_align(at) && before.past_align_line(k)) ==> after.written_upto(k)
                == before.written_upto(k),
            before.writes_align(at) && before.past_align_line(k) ==> {
                &&& before.written_upto(k) == around.0 + before.align_row(at) + around.1
                &&& after.written_upto(k) == around.0 + after.align_row(at) + around.1
            },
        decreases k,
    {
        lemma_first_units(before.roles@, 0);
        if k == 0 {
            return (Seq::empty(), Seq::empty());
        }
        let i = k - 1;
        let prior = Self::lemma_align_text(before, after, at, i);
        if before.align_line() == Some(i) {
            if before.writes_align(at) {
                Self::lemma_align_line(before, after, at, i)
            } else {
                let body = before.written_upto(i);
                before.lemma_emit_shape(body, i);
                after.lemma_emit_shape(body, i);
                Self::lemma_same_placing(before, after);
                assert forall|end: Seq<char>| #[trigger] after.aligns_block(end) == before.aligns_block(end) by {
                    Self::lemma_align_pieces_agree(before, after, at, end);
                    assert(after.align_pieces(end) =~= before.align_pieces(end));
                }
                let text = before.lines@[i].text@;
                match before.roles@[i] {
                    Some(role) => {
                        assert(after.rendered_line(role, text) == before.rendered_line(role, text));
                    },
                    None => {},
                }
                prior
            }
        } else if before.writes_align(at) && before.past_align_line(i) {
            Self::lemma_align_step_swapped(before, after, at, i, prior.0, prior.1)
        } else {
            Self::lemma_align_step_same(before, after, i);
            prior
        }
    }

    /// Moving one alignment row rewrites only that row: of two documents that
    /// keep the same file and raw rows, hold the same model but for its
    /// alignment rows, as many of them and the same ones but for row `at`, and
    /// write as many alignment rows, the written texts differ only in that
    /// row, and not at all where that row is not written.
    pub proof fn lemma_align_edit_rewrites_only_its_row(before: Mamodel, after: Mamodel, at: int)
        requires
            before.wf(),
            after.wf(),
            after.same_source(before),
            after.same_rows(before),
            same_but_alignment(after.held(), before.held()),
            after.held().version == before.held().version,
            after.held().alignment@.len() == before.held().alignment@.len(),
            forall|i: int|
                0 <= i < before.held().alignment@.len() && i != at ==> #[trigger] after.held().alignment@[i]
                    == before.held().alignment@[i],
            after.align_rows() == before.align_rows(),
        ensures
            after.writes_align(at) == before.writes_align(at),
            after.marked() == before.marked(),
            before.writes_align(at) ==> swapped(
                before.written_text(),
                after.written_text(),
                before.align_row(at),
                after.align_row(at),
            ),
            !before.writes_align(at) ==> after.written_text() == before.written_text(),
    {
        let n = before.lines@.len() as int;
        let (head, tail) = Self::lemma_align_text(before, after, at, n);
        Self::lemma_same_placing(before, after);
        lemma_first_units(before.roles@, 0);
        if before.creating() && before.seam().is_none() {
            let body = before.written_upto(n);
            assert(after.written_upto(n) == body);
            let grown = terminated(body) + rendered_cells(None, before.unit_values(), None) + seq!['\n'];
            assert(after.written_text() == after.with_block(grown));
            assert(before.written_text() == before.with_block(grown));
            before.lemma_with_block(grown);
            after.lemma_with_block(grown);
            let prefix = terminated(grown) + decimal(before.model.alignment@.len() as int) + seq!['\n'];
            assert(before.block_suffix() =~= decimal(before.model.alignment@.len() as int) + seq!['\n']
                + before.aligns_block(seq!['\n']));
            assert(after.block_suffix() =~= decimal(before.model.alignment@.len() as int) + seq!['\n']
                + after.aligns_block(seq!['\n']));
            assert(before.written_text() =~= prefix + before.aligns_block(seq!['\n']));
            assert(after.written_text() =~= prefix + after.aligns_block(seq!['\n']));
            if before.writes_align(at) {
                Self::lemma_align_block_swapped(before, after, at, prefix, seq!['\n']);
            } else {
                Self::lemma_align_pieces_agree(before, after, at, seq!['\n']);
                assert(after.align_pieces(seq!['\n']) =~= before.align_pieces(seq!['\n']));
            }
        } else {
            assert(before.written_text() == before.written_upto(n));
            assert(after.written_text() == after.written_upto(n));
        }
    }
}


/// The first units line of a file laid out by [`layout_role`] from `from` on:
/// the line after the declared parts, from the first revision on.
proof fn lemma_first_units_layout(roles: Seq<Option<Role>>, n: int, version: i32, parts: int, aligns: int, from: int)
    requires
        roles.len() == n,
        parts >= 0,
        forall|at: int| 0 <= at < n ==> #[trigger] roles[at] == layout_role(n, version, parts, aligns, at),
        0 <= from <= 3 + parts,
    ensures
        first_units(roles, from) == if version >= UNITED_VERSION && 3 + parts < n {
            Some(3 + parts)
        } else {
            None::<int>
        },
    decreases roles.len() - from,
{
    if from < n {
        assert(roles[from] == layout_role(n, version, parts, aligns, from));
        if from < 3 + parts {
            lemma_first_units_layout(roles, n, version, parts, aligns, from + 1);
        } else if roles[from] != Some(Role::Units) {
            lemma_first_units_none(roles, n, version, parts, aligns, from + 1);
        }
    }
}

/// Past the line after the declared parts, a file laid out by [`layout_role`]
/// holds no units line.
proof fn lemma_first_units_none(roles: Seq<Option<Role>>, n: int, version: i32, parts: int, aligns: int, from: int)
    requires
        roles.len() == n,
        parts >= 0,
        forall|at: int| 0 <= at < n ==> #[trigger] roles[at] == layout_role(n, version, parts, aligns, at),
        from > 3 + parts,
    ensures
        first_units(roles, from) is None,
    decreases roles.len() - from,
{
    if from < n {
        assert(roles[from] == layout_role(n, version, parts, aligns, from));
        lemma_first_units_none(roles, n, version, parts, aligns, from + 1);
    }
}
} // verus!
