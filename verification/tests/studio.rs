use kore::blank::{art, cuts, model, sheet, track, BOX_SPAN, SHEET_SPAN};
use kore::branches::{Guide, Tracer};
use kore::history::{shelve, History, COALESCE_MILLIS, DEPTH};
use std::path::{Path, PathBuf};
use kore::imgcut::Imgcut;
use kore::utilities::Tool;
use nyanko::graphics::animate;
use nyanko::graphics::rig::{Animation, Model, Rig};

fn trace(depths: &[u16]) -> Vec<Guide> {
    let mut tracer = Tracer::default();
    let mut traced: Vec<Guide> = (0..depths.len())
        .rev()
        .map(|index| tracer.back(depths[index], index.checked_sub(1).map(|prev| depths[prev])))
        .collect();

    traced.reverse();
    traced
}

#[test]
fn a_walk_leaves_a_trunk_for_every_ancestor_still_going() {
    let read = trace(&[0, 1, 2, 2, 1, 0]);
    let trunks: Vec<bool> = read.iter().map(|guide| guide.trunks & 1 != 0).collect();
    let last: Vec<bool> = read.iter().map(|guide| guide.last).collect();
    let first: Vec<bool> = read.iter().map(|guide| guide.first).collect();

    assert_eq!(last, vec![false, false, false, true, true, true]);
    assert_eq!(trunks[2..4], [true, true], "b carries on past c and d, down to e");
    assert_eq!(first[1..], [true, true, false, false, false], "only b and c open a nest");
}

#[test]
fn a_sibling_below_keeps_the_trunk_running_past_a_nested_child() {
    let read = trace(&[0, 1, 2, 1, 2]);

    assert!(read[2].trunks & 1 != 0, "B still has C below it, so b keeps a trunk at column 0");
    assert!(read[4].trunks & 1 == 0, "C is the last child, so c has nothing to carry");
}

#[test]
fn a_closed_subtree_stops_carrying_its_own_trunks() {
    let mut tracer = Tracer::default();

    tracer.back(3, None);
    tracer.back(1, None);

    assert_eq!(tracer.back(2, None).trunks, 0b1);
}

#[test]
fn rows_deeper_than_the_last_level_share_its_bit() {
    let mut tracer = Tracer::default();

    tracer.back(200, None);

    assert!(!tracer.back(63, None).last, "the deep row below still counts at the last level");
}

fn names(store: &[(String, u32)]) -> Vec<&str> {
    store.iter().map(|(name, _)| name.as_str()).collect()
}

#[test]
fn the_shelf_holds_three_sets_and_evicts_the_oldest() {
    let mut store: Vec<(String, u32)> = Vec::new();

    for (at, name) in ["a", "b", "c", "d"].into_iter().enumerate() {
        shelve(&mut store, name.to_owned(), at as u32, 3);
    }

    assert_eq!(names(&store), vec!["b", "c", "d"], "a fell off the back");
}

#[test]
fn re_shelving_a_set_moves_it_to_the_front_without_duplicating() {
    let mut store: Vec<(String, u32)> = Vec::new();

    for (at, name) in ["a", "b", "c"].into_iter().enumerate() {
        shelve(&mut store, name.to_owned(), at as u32, 3);
    }

    shelve(&mut store, "a".to_owned(), 99, 3);

    assert_eq!(names(&store), vec!["b", "c", "a"]);
    assert_eq!(store.last().map(|(_, held)| *held), Some(99), "and it carries the new value");

    shelve(&mut store, "d".to_owned(), 4, 3);

    assert_eq!(names(&store), vec!["c", "a", "d"], "b is now the oldest and goes");
}

#[test]
fn a_shelf_with_no_room_keeps_nothing() {
    let mut store: Vec<(String, u32)> = vec![("a".to_owned(), 1)];

    shelve(&mut store, "b".to_owned(), 2, 0);

    assert!(store.is_empty());
}

#[test]
fn the_utilities_page_opens_on_the_cut_editor() {
    assert_eq!(Tool::default(), Tool::Imgcut);
}

#[test]
fn the_seed_atlas_decodes_at_the_declared_span() {
    let decoded = image::load_from_memory(&sheet()).expect("the atlas decodes");

    assert_eq!((decoded.width(), decoded.height()), (SHEET_SPAN, SHEET_SPAN));
}

#[test]
fn the_seed_box_has_a_pale_rim_around_blue_ink_and_nothing_beside_it() {
    let decoded = image::load_from_memory(&sheet()).expect("the atlas decodes").to_rgba8();

    assert_eq!(decoded.get_pixel(0, 0).0, [235, 245, 255, 255]);
    assert_eq!(decoded.get_pixel(63, 20).0, [235, 245, 255, 255]);
    assert_eq!(decoded.get_pixel(10, 10).0, [90, 160, 235, 255]);
    assert_eq!(decoded.get_pixel(64, 10).0, [0, 0, 0, 0]);
    assert_eq!(decoded.get_pixel(100, 100).0, [0, 0, 0, 0]);
    assert_eq!(art().len(), 128 * 128 * 4);
}

#[test]
fn every_seeded_document_parses_back() {
    let parsed = Imgcut::parse(cuts("Test").as_bytes()).expect("the cut list parses");
    assert_eq!(parsed.count(), 1);
    assert_eq!(parsed.sheet(), "Test.png");

    let parsed = Model::parse(model().as_bytes()).expect("the model parses");
    assert_eq!(parsed.parts.len(), 2);
    assert_eq!(parsed.alignment.len(), 2);

    let parsed = Animation::parse(track().as_bytes()).expect("the animation parses");
    assert_eq!(parsed.modifications.len(), 1);
}

#[test]
fn the_root_is_a_base_the_art_hangs_off_rather_than_a_part_of_its_own() {
    let model = Model::parse(model().as_bytes()).expect("the model parses");
    let (root, box_part) = (&model.parts[0], &model.parts[1]);

    assert_eq!((root.parent, root.id), (-1, -1), "the root draws nothing");
    assert_eq!(box_part.parent, 0, "and the only art hangs off it");
    assert!(model.alignment.iter().all(|row| row.part == 0), "placement measures against the root");

    let track = Animation::parse(track().as_bytes()).expect("the animation parses");
    assert!(track.modifications.iter().all(|drive| drive.part != 0), "nothing moves the root");
}

#[test]
fn the_seeded_entity_stands_on_the_ground_line() {
    let rig = Rig::parse(sheet(), cuts("Test"), model()).expect("the rig parses");
    let placed = animate::resolve_frame(&rig, None, 0, Some(0));

    assert_eq!(placed.len(), 1, "the undrawn root contributes no quad");

    let box_part = placed.first().expect("the seed draws one part");

    let xs: Vec<f32> = box_part.vertices.iter().step_by(2).copied().collect();
    let ys: Vec<f32> = box_part.vertices.iter().skip(1).step_by(2).copied().collect();

    let span = |axis: &[f32]| axis.iter().fold((f32::MAX, f32::MIN), |(low, high), at| (low.min(*at), high.max(*at)));

    let (left, right) = span(&xs);
    let (top, bottom) = span(&ys);

    assert_eq!(bottom, 0.0, "its feet rest on the origin");
    assert_eq!(top, -(BOX_SPAN as f32));
    assert_eq!((left, right), (-(BOX_SPAN as f32) / 2.0, BOX_SPAN as f32 / 2.0), "centred on it");
}

#[test]
fn the_seeded_cut_list_names_its_sheet_after_the_set() {
    assert_eq!(cuts("044"), "[imgcut]\n1\n044.png\n1\n0,0,64,64,box\n");
    assert!(model().contains("\n0,0,0,1,0,-32,32,32,1000,"));
}

#[derive(Clone, Copy, PartialEq, Eq, Debug)]
enum Tag {
    Cut(usize, usize),
}

fn cut_list() -> Imgcut {
    Imgcut::parse(b"[imgcut]\n1\nx.png\n1\n0,0,4,4,box\n").expect("the sample parses")
}

#[test]
fn typing_into_one_cell_costs_a_single_entry() {
    // Every keystroke asks; only the first within the window is taken.
    let mut history: History<Tag, PathBuf, Imgcut> = History::default();
    let path = PathBuf::from("studio/a/x.imgcut");
    let tag = Tag::Cut(0, 0);

    assert!(history.wanted(&tag, Some(&path), 0));
    history.push(tag, Some(path.clone()), cut_list(), 0);

    assert!(!history.wanted(&tag, Some(&path), 0));
    assert!(history.wanted(&Tag::Cut(0, 1), Some(&path), 0), "a different cell is a new edit");
    assert!(history.wanted(&tag, Some(&Path::new("studio/a/y.imgcut").to_path_buf()), 0), "so is another file");
}

#[test]
fn the_stack_never_grows_past_its_depth() {
    let mut history: History<Tag, PathBuf, Imgcut> = History::default();
    let path = PathBuf::from("studio/a/x.imgcut");

    for at in 0..DEPTH + 10 {
        history.push(Tag::Cut(at, 0), Some(path.clone()), cut_list(), 0);
    }

    assert_eq!(history.len(), DEPTH);
    assert_eq!(history.tag_at(0), Some(&Tag::Cut(10, 0)), "the oldest entries fall off the front");
}

#[test]
fn the_same_edit_after_the_window_is_a_new_entry() {
    let mut history: History<Tag, PathBuf, u8> = History::new();
    let path = PathBuf::from("studio/a/x.imgcut");

    history.push(Tag::Cut(2, 1), Some(path.clone()), 7, 1_000);

    assert!(!history.wanted(&Tag::Cut(2, 1), Some(&path), 1_000 + COALESCE_MILLIS - 1));
    assert!(history.wanted(&Tag::Cut(2, 1), Some(&path), 1_000 + COALESCE_MILLIS));
    assert!(!history.wanted(&Tag::Cut(2, 1), Some(&path), 10), "a clock that went back is no time at all");
    assert!(history.wanted(&Tag::Cut(2, 1), None, 1_000), "an edit of no file is not one of this file");
}

#[test]
fn undoing_takes_the_newest_edit_back_first() {
    let mut history: History<Tag, PathBuf, u8> = History::new();

    history.push(Tag::Cut(0, 0), None, 1, 0);
    history.push(Tag::Cut(1, 0), None, 2, 0);

    assert_eq!(history.pop(), Some(2));
    assert_eq!(history.len(), 1);
    history.clear();
    assert_eq!(history.pop(), None);
    assert!(history.wanted(&Tag::Cut(0, 0), None, 0), "an empty stack wants every edit");
}
