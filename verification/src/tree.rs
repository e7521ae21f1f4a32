//! The file tree's filter: which names a typed query keeps.

use vstd::prelude::*;
use vstd::string::StringSliceAdditionalSpecFns;

use crate::branches::Guide;

verus! {

/// A byte with ASCII capitals lowered, as `u8::to_ascii_lowercase` lowers it.
pub open spec fn lowered(byte: u8) -> u8 {
    if 65 <= byte <= 90 {
        (byte + 32) as u8
    } else {
        byte
    }
}

/// Whether the bytes of `name` starting at `at` spell `query`, ignoring ASCII
/// case.
pub open spec fn spelled_at(name: Seq<u8>, query: Seq<u8>, at: int) -> bool {
    forall|k: int| 0 <= k < query.len() ==> lowered(#[trigger] name[at + k]) == lowered(query[k])
}

/// Whether a name holds a query anywhere, ignoring ASCII case; every name
/// holds the empty query.
pub open spec fn holds_query(name: Seq<u8>, query: Seq<u8>) -> bool {
    query.len() == 0 || exists|at: int| 0 <= at && at + query.len() <= name.len() && #[trigger] spelled_at(name, query, at)
}

fn lower(byte: u8) -> (low: u8)
    ensures
        low == lowered(byte),
{
    if 65 <= byte && byte <= 90 {
        byte + 32
    } else {
        byte
    }
}

fn spells_at(name: &[u8], query: &[u8], at: usize) -> (found: bool)
    requires
        at + query@.len() <= name@.len(),
    ensures
        found == spelled_at(name@, query@, at as int),
{
    let length = name.len();
    let mut k: usize = 0;
    while k < query.len()
        invariant
            name@.len() == length,
            at + query@.len() <= name@.len(),
            k <= query@.len(),
            forall|j: int| 0 <= j < k ==> lowered(#[trigger] name@[at + j]) == lowered(query@[j]),
        decreases query@.len() - k,
    {
        if lower(name[at + k]) != lower(query[k]) {
            return false;
        }
        k = k + 1;
    }
    true
}

/// Whether a file name passes the tree's filter; see [`holds_query`].
pub fn matches(name: &str, query: &str) -> (kept: bool)
    ensures
        kept == holds_query(name.spec_bytes(), query.spec_bytes()),
{
    let held = name.as_bytes();
    let sought = query.as_bytes();
    assert(held@ == name.spec_bytes() && sought@ == query.spec_bytes());
    if sought.len() == 0 {
        return true;
    }
    let length = held.len();
    if length < sought.len() {
        return false;
    }
    let last = length - sought.len();
    let mut at: usize = 0;
    while at <= last
        invariant
            held@ == name.spec_bytes(),
            sought@ == query.spec_bytes(),
            1 <= sought@.len() <= held@.len(),
            held@.len() == length,
            last == held@.len() - sought@.len(),
            at <= last + 1,
            forall|before: int| 0 <= before < at ==> !#[trigger] spelled_at(held@, sought@, before),
        decreases last + 1 - at,
    {
        if spells_at(held, sought, at) {
            assert(holds_query(held@, sought@));
            return true;
        }
        at = at + 1;
    }
    false
}

/// One row of the flattened file tree.
#[derive(Clone, Debug)]
pub struct Row {
    /// The folder or file name.
    pub name: String,
    /// How deep it sits below the mount.
    pub depth: u16,
    /// Whether it is a folder.
    pub folder: bool,
    /// Whether it is an open folder.
    pub expanded: bool,
    /// The guide lines drawn in front of it.
    pub guide: Guide,
}

/// The names of the folders above a row, root first, found by walking back
/// from row `upto` for each shallower level in turn: the nearest row above at
/// one level up is the parent, the nearest above that at two levels up the
/// grandparent, and so on.
pub open spec fn ancestry(rows: Seq<Row>, upto: int, wanted: int) -> Seq<Seq<char>>
    decreases upto,
{
    if upto <= 0 || wanted <= 0 {
        Seq::empty()
    } else if rows[upto - 1].depth == wanted - 1 {
        ancestry(rows, upto - 1, wanted - 1).push(rows[upto - 1].name@)
    } else {
        ancestry(rows, upto - 1, wanted)
    }
}

/// A sequence in reverse order.
pub open spec fn backwards<T>(items: Seq<T>) -> Seq<T> {
    Seq::new(items.len(), |at: int| items[items.len() - 1 - at])
}

/// The path of the row at `index`, as the names from the root down to it;
/// none where there is no such row.
pub fn path_of(rows: &[Row], index: usize) -> (parts: Option<Vec<String>>)
    ensures
        match parts {
            Some(found) => index < rows@.len() && found@.map_values(|part: String| part@) == ancestry(
                rows@,
                index as int,
                rows@[index as int].depth as int,
            ).push(rows@[index as int].name@),
            None => index >= rows@.len(),
        },
{
    if index >= rows.len() {
        return None;
    }
    let target = &rows[index];
    let mut found: Vec<String> = Vec::new();
    let mut wanted: u16 = target.depth;
    let mut at: usize = index;
    let ghost full = ancestry(rows@, index as int, target.depth as int);
    while at > 0 && wanted > 0
        invariant
            at <= index < rows@.len(),
            full == ancestry(rows@, at as int, wanted as int) + backwards(found@.map_values(|part: String| part@)),
        decreases at,
    {
        let row = &rows[at - 1];
        if row.depth == wanted - 1 {
            let ghost before = found@.map_values(|part: String| part@);
            found.push(row.name.clone());
            assert(backwards(found@.map_values(|part: String| part@)) == seq![row.name@] + backwards(before));
            wanted = wanted - 1;
        }
        at = at - 1;
    }
    let ghost collected = backwards(found@.map_values(|part: String| part@));
    assert(full == collected);
    let mut parts: Vec<String> = Vec::new();
    let mut back: usize = found.len();
    while back > 0
        invariant
            back <= found@.len(),
            parts@.len() == found@.len() - back,
            collected.len() == found@.len(),
            collected == backwards(found@.map_values(|part: String| part@)),
            parts@.map_values(|part: String| part@) == collected.take(found@.len() - back),
        decreases back,
    {
        let ghost slot = found@.len() - back;
        let ghost before = parts@;
        parts.push(found[back - 1].clone());
        assert(collected[slot] == found@[back - 1]@);
        assert(parts@[slot] == found@[back - 1]);
        back = back - 1;
        assert forall|k: int| 0 <= k < slot implies parts@[k] == before[k] by {}
        assert(parts@.map_values(|part: String| part@) =~= collected.take(found@.len() - back));
    }
    assert(collected.take(found@.len() as int) == collected);
    parts.push(target.name.clone());
    Some(parts)
}

/// A row as the tree lists it: its name, depth, whether it is a folder and
/// whether it is open.
pub open spec fn listed(row: Row) -> (Seq<char>, u16, bool, bool) {
    (row.name@, row.depth, row.folder, row.expanded)
}

/// Whether a name passes a query; see [`holds_query`].
pub open spec fn kept_by(name: String, query: Seq<char>) -> bool {
    holds_query(vstd::utf8::encode_utf8(name@), vstd::utf8::encode_utf8(query))
}

/// The file rows of the names that pass the query, at `depth`, in order.
pub open spec fn file_rows(names: Seq<String>, query: Seq<char>, depth: u16) -> Seq<(Seq<char>, u16, bool, bool)>
    decreases names.len(),
{
    if names.len() == 0 {
        Seq::empty()
    } else {
        let prior = file_rows(names.drop_last(), query, depth);
        if kept_by(names.last(), query) {
            prior.push((names.last()@, depth, false, false))
        } else {
            prior
        }
    }
}

/// Whether any of the names passes the query.
pub open spec fn any_kept(names: Seq<String>, query: Seq<char>) -> bool {
    exists|at: int| 0 <= at < names.len() && kept_by(#[trigger] names[at], query)
}

/// The rows of the first `upto` packs: each pack with a file that passes the
/// query is a folder row, followed, where the pack is open, by those files.
pub open spec fn pack_rows(
    groups: Seq<(String, Vec<String>)>,
    open: Seq<bool>,
    query: Seq<char>,
    upto: int,
) -> Seq<(Seq<char>, u16, bool, bool)>
    decreases upto,
{
    if upto <= 0 {
        Seq::empty()
    } else {
        let prior = pack_rows(groups, open, query, upto - 1);
        let (pack, files) = groups[upto - 1];
        if !any_kept(files@, query) {
            prior
        } else {
            let heading = prior.push((pack@, 0u16, true, open[upto - 1]));
            if open[upto - 1] {
                heading + file_rows(files@, query, 1)
            } else {
                heading
            }
        }
    }
}

/// The row a marked name selects: the last file row of that name.
pub open spec fn selects(rows: Seq<(Seq<char>, u16, bool, bool)>, marked: Option<Seq<char>>, selected: Option<usize>) -> bool {
    match selected {
        Some(at) => {
            &&& at < rows.len()
            &&& marked == Some(rows[at as int].0)
            &&& !rows[at as int].2
            &&& forall|later: int| at < later < rows.len() ==> !(!rows[later].2 && marked == Some(#[trigger] rows[later].0))
        },
        None => forall|any: int| 0 <= any < rows.len() ==> !(!rows[any].2 && marked == Some(#[trigger] rows[any].0)),
    }
}

/// The rows the tree lists, the one selected, and whether any is a folder.
pub struct Flattened {
    /// The rows, top to bottom.
    pub rows: Vec<Row>,
    /// The row of the marked file, if it is listed.
    pub selected: Option<usize>,
    /// Whether a folder row is listed.
    pub folders: bool,
}

/// The characters of an optional name.
pub open spec fn seen_name(name: Option<&str>) -> Option<Seq<char>> {
    match name {
        Some(held) => Some(held@),
        None => None,
    }
}

fn blank_guide() -> (guide: Guide)
    ensures
        guide == (Guide { trunks: 0, last: false, first: false }),
{
    Guide { trunks: 0, last: false, first: false }
}

fn is_marked(name: &String, marked: Option<&str>) -> (hit: bool)
    ensures
        hit == (seen_name(marked) == Some(name@)),
{
    match marked {
        Some(held) => crate::text::same_text(crate::text::chars_of(held).as_slice(), crate::text::chars_of(name.as_str()).as_slice()),
        None => false,
    }
}

fn push_files(
    out: &mut Flattened,
    names: &[String],
    query: &str,
    marked: Option<&str>,
    depth: u16,
)
    requires
        selects(old(out).rows@.map_values(|row: Row| listed(row)), seen_name(marked), old(out).selected),
    ensures
        final(out).rows@.map_values(|row: Row| listed(row)) == old(out).rows@.map_values(|row: Row| listed(row))
            + file_rows(names@, query@, depth),
        selects(final(out).rows@.map_values(|row: Row| listed(row)), seen_name(marked), final(out).selected),
        final(out).folders == old(out).folders,
{
    let ghost start = out.rows@.map_values(|row: Row| listed(row));
    let mut at: usize = 0;
    while at < names.len()
        invariant
            at <= names@.len(),
            out.rows@.map_values(|row: Row| listed(row)) == start + file_rows(names@.take(at as int), query@, depth),
            selects(out.rows@.map_values(|row: Row| listed(row)), seen_name(marked), out.selected),
            out.folders == old(out).folders,
        decreases names@.len() - at,
    {
        assert(names@.take(at + 1).drop_last() == names@.take(at as int));
        let name = &names[at];
        if matches(name.as_str(), query) {
            let ghost before = out.rows@.map_values(|row: Row| listed(row));
            if is_marked(name, marked) {
                out.selected = Some(out.rows.len());
            }
            out.rows.push(Row { name: name.clone(), depth, folder: false, expanded: false, guide: blank_guide() });
            let ghost after = out.rows@.map_values(|row: Row| listed(row));
            assert(after == before.push((name@, depth, false, false)));
        }
        at = at + 1;
    }
    assert(names@.take(at as int) == names@);
}

/// The flat listing: a file row for every key that passes the query; the
/// row of the marked key is the selected one.
pub fn flat(keys: &[String], query: &str, marked: Option<&str>) -> (listing: Flattened)
    ensures
        listing.rows@.map_values(|row: Row| listed(row)) == file_rows(keys@, query@, 0),
        selects(listing.rows@.map_values(|row: Row| listed(row)), seen_name(marked), listing.selected),
        !listing.folders,
{
    let mut listing = Flattened { rows: Vec::new(), selected: None, folders: false };
    push_files(&mut listing, keys, query, marked, 0);
    listing
}

fn any_passes(names: &[String], query: &str) -> (found: bool)
    ensures
        found == any_kept(names@, query@),
{
    let mut at: usize = 0;
    while at < names.len()
        invariant
            at <= names@.len(),
            forall|before: int| 0 <= before < at ==> !kept_by(#[trigger] names@[before], query@),
        decreases names@.len() - at,
    {
        if matches(names[at].as_str(), query) {
            return true;
        }
        at = at + 1;
    }
    false
}

/// The pack listing: each pack with a file that passes the query, followed
/// (where it is open) by those files one level in, and then the files that
/// belong to no pack; the row of the marked file is the selected one. `open`
/// says, pack by pack, whether it is expanded.
pub fn packs(
    groups: &[(String, Vec<String>)],
    open: &[bool],
    roots: &[String],
    query: &str,
    marked: Option<&str>,
) -> (listing: Flattened)
    requires
        open@.len() == groups@.len(),
    ensures
        listing.rows@.map_values(|row: Row| listed(row)) == pack_rows(groups@, open@, query@, groups@.len() as int)
            + file_rows(roots@, query@, 0),
        selects(listing.rows@.map_values(|row: Row| listed(row)), seen_name(marked), listing.selected),
        listing.folders == exists|at: int| 0 <= at < groups@.len() && any_kept((#[trigger] groups@[at]).1@, query@),
{
    let mut listing = Flattened { rows: Vec::new(), selected: None, folders: false };
    let mut at: usize = 0;
    while at < groups.len()
        invariant
            at <= groups@.len(),
            open@.len() == groups@.len(),
            listing.rows@.map_values(|row: Row| listed(row)) == pack_rows(groups@, open@, query@, at as int),
            selects(listing.rows@.map_values(|row: Row| listed(row)), seen_name(marked), listing.selected),
            listing.folders == exists|before: int| 0 <= before < at && any_kept((#[trigger] groups@[before]).1@, query@),
        decreases groups@.len() - at,
    {
        let (pack, files) = &groups[at];
        if any_passes(files.as_slice(), query) {
            listing.folders = true;
            let ghost before = listing.rows@.map_values(|row: Row| listed(row));
            listing.rows.push(Row { name: pack.clone(), depth: 0, folder: true, expanded: open[at], guide: blank_guide() });
            assert(listing.rows@.map_values(|row: Row| listed(row)) == before.push((pack@, 0u16, true, open@[at as int])));
            if open[at] {
                push_files(&mut listing, files.as_slice(), query, marked, 1);
            }
        }
        at = at + 1;
    }
    push_files(&mut listing, roots, query, marked, 0);
    listing
}

} // verus!
