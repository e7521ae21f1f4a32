use kore::mamodel::{bound, nameable, Mamodel};
use kore::rig::{Model, RigFault};
use kore::rows::Row;

const BOM: [u8; 3] = [0xef, 0xbb, 0xbf];

const SAMPLE: &str = "[modelanim:model]\n3\n2\n-1,0,0,0,0,0,0,0,1000,1000,0,1000,0,body\n0,0,1,400,10,-20,5,5,1000,1000,0,1000,0,\t head \t\n1000,3600,1000\n1\n0,0,-30,120,1000,1000,align\n";

fn round_trip(source: &str) -> String {
    let doc = Mamodel::parse(source.as_bytes()).expect("the sample parses");

    String::from_utf8(doc.write()).expect("the output is text")
}

fn round_trip_of(doc: &Mamodel) -> String {
    String::from_utf8(doc.write()).expect("the output is text")
}

#[test]
fn an_untouched_model_writes_back_byte_for_byte() {
    assert_eq!(round_trip(SAMPLE), SAMPLE);
}

#[test]
fn a_zero_padded_number_survives_because_the_raw_field_is_kept() {
    let padded = SAMPLE.replace("0,0,1,400,", "0,000,001,0400,");

    assert_eq!(round_trip(&padded), padded);
}

#[test]
fn a_byte_order_mark_and_carriage_returns_are_both_kept() {
    let windows: String = SAMPLE.replace('\n', "\r\n");
    let with_bom: Vec<u8> = BOM.iter().copied().chain(windows.bytes()).collect();
    let doc = Mamodel::parse(&with_bom).expect("the sample parses");

    assert_eq!(doc.write(), with_bom);
}

#[test]
fn a_line_past_the_alignment_block_is_kept_verbatim() {
    let odd = format!("{}999,junk\n", SAMPLE);

    assert_eq!(round_trip(&odd), odd);
}

#[test]
fn a_blank_line_is_a_row_like_any_other() {
    let blanked = SAMPLE.replace("1000,3600,1000\n", "\n1000,3600,1000\n");
    let doc = Mamodel::parse(blanked.as_bytes()).expect("the sample parses");

    assert_eq!(doc.model().scale_unit, 0);
    assert_eq!(String::from_utf8(doc.write()).expect("the output is text"), blanked);
}

#[test]
fn a_count_larger_than_the_rows_present_writes_back_the_rows_it_had() {
    let truncated = "[modelanim:model]\n1\n4\n-1,0,0,0,0,0,0,0,1000,1000,0,1000,0,body\n";

    assert_eq!(round_trip(truncated), truncated);
}

#[test]
fn editing_one_field_rewrites_only_that_field() {
    let mut doc = Mamodel::parse(SAMPLE.as_bytes()).expect("the sample parses");
    assert!(doc.set_field(1, 3, 500));

    let written = String::from_utf8(doc.write()).expect("the output is text");

    assert!(written.contains("0,0,1,500,10,-20,5,5,1000,1000,0,1000,0,\t head \t\n"));
    assert!(written.contains("-1,0,0,0,0,0,0,0,1000,1000,0,1000,0,body\n"));
}

#[test]
fn renaming_a_part_drops_the_padding_it_no_longer_matches() {
    let mut doc = Mamodel::parse(SAMPLE.as_bytes()).expect("the sample parses");
    assert!(doc.set_name(1, "arm"));

    let written = String::from_utf8(doc.write()).expect("the output is text");

    assert!(written.ends_with("0,1000,0,arm\n1000,3600,1000\n1\n0,0,-30,120,1000,1000,align\n"));
}

#[test]
fn an_added_part_lands_after_the_block_and_updates_the_count() {
    let mut doc = Mamodel::parse(SAMPLE.as_bytes()).expect("the sample parses");

    assert_eq!(doc.add_part(Some(0)), 2);

    let written = String::from_utf8(doc.write()).expect("the output is text");

    assert!(written.contains("\n3\n-1,0,0,"), "{}", written);
    assert!(written.contains("\t head \t\n0,0,0,1,0,0,0,0,1000,1000,0,1000,0\n1000,3600,1000\n"), "{}", written);
}

#[test]
fn moving_the_alignment_row_rewrites_only_its_own_columns() {
    let mut doc = Mamodel::parse(SAMPLE.as_bytes()).expect("the sample parses");
    assert!(doc.set_offset(0, 0, 44));

    let written = String::from_utf8(doc.write()).expect("the output is text");

    assert!(written.ends_with("0,0,44,120,1000,1000,align\n"));
}

#[test]
fn a_first_offset_lands_under_a_count_line_that_had_no_rows() {
    let bare = SAMPLE.replace("1\n0,0,-30,120,1000,1000,align\n", "0\n");
    let mut doc = Mamodel::parse(bare.as_bytes()).expect("the sample parses");

    assert_eq!(doc.add_offset(), Some(0));
    assert!(round_trip_of(&doc).ends_with("1000,3600,1000\n1\n0,0,0,0,0,0\n"), "{}", round_trip_of(&doc));
}

#[test]
fn a_model_below_the_aligned_revision_gains_the_block_and_the_revision_with_it() {
    let old = "[modelanim:model]\n2\n1\n-1,0,0,0,0,0,0,0,1000,1000,0,1000,0,body\n1000,3600,1000\n";
    let mut doc = Mamodel::parse(old.as_bytes()).expect("the sample parses");

    assert_eq!(round_trip(old), old, "an untouched one is left alone");
    assert_eq!(doc.add_offset(), Some(0));

    let written = round_trip_of(&doc);

    assert!(written.starts_with("[modelanim:model]\n3\n1\n"), "{}", written);
    assert!(written.ends_with("1000,3600,1000\n1\n0,0,0,0,0,0\n"), "{}", written);
    assert_eq!(nyanko::graphics::rig::Model::parse(&written).map(|held| held.alignment.len()), Ok(1));
}

#[test]
fn a_file_that_stops_before_its_offset_count_still_gains_one() {
    let cut = "[modelanim:model]\n3\n1\n-1,0,0,0,0,0,0,0,1000,1000,0,1000,0,body\n0,0,0\n";
    let mut doc = Mamodel::parse(cut.as_bytes()).expect("the sample parses");

    assert_eq!(round_trip(cut), cut, "an untouched one is left alone");
    assert_eq!(doc.add_offset(), Some(0));
    assert!(round_trip_of(&doc).ends_with("body\n0,0,0\n1\n0,0,0,0,0,0\n"), "{}", round_trip_of(&doc));
}

#[test]
fn a_created_block_lands_where_the_reader_looks_not_at_the_end_of_the_file() {
    let seeded = "[modelanim:model]\n1\n1\n-1,0,0,0,0,0,32,32,1000,1000,0,1000,0,box\n1000,3600,1000\n2\n0,0,9,9,0,0,combat\n0,0,9,9,0,0,gacha\n";
    let mut doc = Mamodel::parse(seeded.as_bytes()).expect("the sample parses");

    assert_eq!(round_trip(seeded), seeded, "an untouched one is left alone");
    assert_eq!(doc.add_offset(), Some(0));
    assert!(doc.set_offset(0, 0, 32) && doc.set_offset(0, 1, 64));

    let written = round_trip_of(&doc);
    let back = nyanko::graphics::rig::Model::parse(&written).expect("it reads back");

    assert_eq!(back.alignment.len(), 1, "{}", written);
    assert_eq!((back.alignment[0].x, back.alignment[0].y), (32, 64), "{}", written);
    assert!(written.contains("0,0,9,9,0,0,combat"), "the old lines are still kept: {}", written);
}

#[test]
fn a_model_with_no_units_row_of_its_own_declares_no_offsets() {
    let old = SAMPLE.replace("model]\n3\n", "model]\n0\n");
    let mut doc = Mamodel::parse(old.as_bytes()).expect("the sample parses");

    assert!(!doc.alignable());
    assert_eq!(doc.add_offset(), None);
}

#[test]
fn a_new_offset_names_the_part_the_row_before_it_does() {
    let mut doc = Mamodel::parse(SAMPLE.as_bytes()).expect("the sample parses");

    assert_eq!(doc.add_offset(), Some(1));
    assert!(round_trip_of(&doc).ends_with("0,0,-30,120,1000,1000,align\n0,0,0,0,0,0\n"));
}

#[test]
fn removing_the_last_offset_takes_the_block_and_its_count_down_with_it() {
    let mut doc = Mamodel::parse(SAMPLE.as_bytes()).expect("the sample parses");

    assert!(doc.remove_offset(0));
    assert!(!doc.remove_offset(0), "there is nothing left to take");
    assert!(round_trip_of(&doc).ends_with("1000,3600,1000\n0\n"), "{}", round_trip_of(&doc));
}

#[test]
fn a_row_with_no_name_field_does_not_grow_one() {
    let nameless = SAMPLE.replace(",0,body\n", ",0\n");

    assert_eq!(round_trip(&nameless), nameless);
}

#[test]
fn a_delimiter_can_never_enter_a_name() {
    assert!(nameable("left arm"));
    assert!(!nameable("left,arm"));
    assert!(!nameable("left|arm"));
    assert!(!nameable("left\narm"));
}

#[test]
fn a_new_part_inherits_the_unit_id_and_draws_in_front_of_its_parent() {
    let mut doc = Mamodel::parse(SAMPLE.as_bytes()).expect("the sample parses");
    let added = doc.add_part(Some(1));

    assert_eq!(doc.field(added, 0), Some(1));
    assert_eq!(doc.field(added, 1), Some(0), "the unit id is taken from the first drawn part");
    assert_eq!(doc.field(added, 2), Some(0));
    assert_eq!(doc.field(added, 3), Some(401), "one layer in front of its parent's 400");
    assert_eq!(doc.field(added, 8), Some(1000));
    assert_eq!(doc.field(added, 11), Some(1000));
}

#[test]
fn removing_a_part_hands_its_children_to_its_own_parent_and_renumbers() {
    let mut doc = Mamodel::parse(SAMPLE.as_bytes()).expect("the sample parses");
    doc.add_part(Some(1));

    let moved = doc.remove_part(1).expect("the part exists");

    assert_eq!(moved, vec![Some(0), None, Some(1)]);
    assert_eq!(doc.count(), 2);
    assert_eq!(doc.field(1, 0), Some(0), "the orphan inherits the removed part's own parent");
}

#[test]
fn a_part_cannot_be_reparented_under_its_own_descendant() {
    let mut doc = Mamodel::parse(SAMPLE.as_bytes()).expect("the sample parses");

    assert!(!doc.reparent(0, Some(1)), "part 1 already hangs off part 0");
    assert!(!doc.reparent(0, Some(0)), "nor can a part hang off itself");
}

#[test]
fn only_the_fields_the_engine_bounds_are_clamped() {
    let model = Model { parts: vec![Row::zeroed(); 4], opacity_unit: 1000, ..Model::default() };

    assert_eq!(bound(&model, 9, 0, 12), 3, "parent stops at the last part");
    assert_eq!(bound(&model, 9, 0, -7), -1, "and at the root sentinel");
    assert_eq!(bound(&model, 9, 2, 40), 8, "sprite stops at the last cut");
    assert_eq!(bound(&model, 9, 11, 4000), 1000, "opacity stops at its own unit");
    assert_eq!(bound(&model, 9, 12, 9), 3, "glow stops at the last blending mode");
    assert_eq!(bound(&model, 9, 3, i32::MAX), i32::MAX, "z order has no bound at all");
    assert_eq!(bound(&model, 9, 4, i32::MIN), i32::MIN, "and neither does an offset");
}

#[test]
fn the_parsed_model_matches_what_the_engine_reads() {
    let doc = Mamodel::parse(SAMPLE.as_bytes()).expect("the sample parses");

    assert_eq!(doc.count(), 2);
    assert_eq!(doc.model().version, 3);
    assert_eq!(doc.model().angle_unit, 3600);
    assert_eq!(doc.name(0), Some("body"));
    assert_eq!(doc.parent(1), Some(0));
    assert_eq!(doc.parent(0), None);
    assert_eq!(doc.offsets(), 1);
    assert_eq!(doc.offset(0), Some((-30, 120)));
    assert_eq!(doc.offset_name(0), Some("align"));
    assert!(doc.descends(1, 0));
    assert!(!doc.descends(0, 1));
}

#[test]
fn an_empty_file_is_refused_with_the_readers_own_reason() {
    assert_eq!(Mamodel::parse(b"").err(), Some(RigFault::EmptyFile));
    assert_eq!(Mamodel::parse(b"[modelanim:model]\n3\n0\n").err(), Some(RigFault::NoPartHeader));
}

#[test]
fn restamping_moves_every_drawn_part_to_the_new_sheet() {
    let mut doc = Mamodel::parse(SAMPLE.as_bytes()).expect("the sample parses");

    assert_eq!(doc.restamp(7), 2);
    assert_eq!(doc.field(0, 1), Some(7));
    assert_eq!(doc.field(1, 1), Some(7));
    assert_eq!(doc.restamp(7), 0, "a second stamp with the same id moves nothing");
}

#[test]
fn cells_read_as_the_engine_reads_them() {
    for sample in [
        "", "12", " \t+7x", "-0040", "--5", "abc", "2147483648", "-2147483649", "99999999999999999999",
        "-99999999999999999999", "4294967297", "\r\n3", "\u{a0}5", "+", "-", "12 34",
    ] {
        let glyphs: Vec<char> = sample.chars().collect();

        assert_eq!(kore::rows::read(Some(&glyphs)), nyanko::common::cell_value(sample), "{:?}", sample);
        assert_eq!(kore::rows::read(Some(&glyphs)), documented_reading(&glyphs), "{:?}", sample);
    }

    assert_eq!(kore::rows::read(None), 0);
}

/// The reading `kore::text::cell_reading` states, written out step by step.
fn documented_reading(text: &[char]) -> i32 {
    let rest: Vec<char> =
        text.iter().copied().skip_while(|glyph| matches!(glyph, ' ' | '\t' | '\n' | '\u{b}' | '\u{c}' | '\r')).collect();
    let negative = rest.first() == Some(&'-');
    let body: &[char] = if matches!(rest.first(), Some('-') | Some('+')) { &rest[1..] } else { &rest };
    let digits: Vec<u32> = body.iter().take_while(|glyph| glyph.is_ascii_digit()).map(|glyph| *glyph as u32 - 48).collect();

    if digits.is_empty() {
        return 0;
    }

    let magnitude = digits.iter().fold(0i128, |held, digit| (held * 10 + i128::from(*digit)).min(i128::from(u64::MAX)));
    let value = if negative { -magnitude } else { magnitude };

    value.clamp(i128::from(i64::MIN), i128::from(i64::MAX)) as i32
}

#[test]
fn an_edited_part_leaves_every_other_byte_alone() {
    let mut doc = Mamodel::parse(SAMPLE.as_bytes()).expect("the sample parses");

    assert!(doc.set_field(0, 8, 900));
    assert_eq!(
        round_trip_of(&doc),
        SAMPLE.replace("-1,0,0,0,0,0,0,0,1000,1000,0,1000,0,body", "-1,0,0,0,0,0,0,0,900,1000,0,1000,0,body")
    );
}

#[test]
fn a_moved_alignment_row_leaves_every_other_byte_alone() {
    let mut doc = Mamodel::parse(SAMPLE.as_bytes()).expect("the sample parses");

    assert!(doc.set_offset(0, 1, 7));
    assert_eq!(round_trip_of(&doc), SAMPLE.replace("0,0,-30,120,1000,1000,align", "0,0,-30,7,1000,1000,align"));
}

#[test]
fn a_part_block_past_the_end_of_the_file_writes_back_as_it_was() {
    let short = "[modelanim:model]\n1\n2\n";

    assert_eq!(round_trip(short), short);
}

#[test]
fn parents_may_swap_only_once_the_old_link_is_gone() {
    let mut doc = Mamodel::parse(SAMPLE.as_bytes()).expect("the sample parses");

    assert!(doc.reparent(1, None));
    assert!(doc.reparent(0, Some(1)), "once part 1 is a root, part 0 may hang off it");
    assert!(!doc.reparent(1, Some(0)));
}
