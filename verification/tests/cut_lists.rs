use kore::imgcut::Imgcut;

const SAMPLE: &str = "[imgcut]\n2\n044_f.png\n3\n0,0,64,64,head\n64,0,32,48,\t arm \t\n0,64,128,16\n";

fn round_trip(source: &str) -> String {
    let doc = Imgcut::parse(source.as_bytes()).expect("the sample parses");

    String::from_utf8(doc.write()).expect("the output is text")
}

fn round_trip_of(doc: &Imgcut) -> String {
    String::from_utf8(doc.write()).expect("the output is text")
}

#[test]
fn an_untouched_cut_list_writes_back_byte_for_byte() {
    assert_eq!(round_trip(SAMPLE), SAMPLE);
}

#[test]
fn zero_padding_and_carriage_returns_both_survive() {
    let padded = SAMPLE.replace("64,0,32,48", "064,000,032,048").replace('\n', "\r\n");

    assert_eq!(round_trip(&padded), padded);
}

#[test]
fn a_file_that_ends_without_a_newline_is_not_given_one() {
    let bare = SAMPLE.trim_end_matches('\n');

    assert_eq!(round_trip(bare), bare);
}

#[test]
fn placing_a_cut_rewrites_only_its_own_row() {
    let mut doc = Imgcut::parse(SAMPLE.as_bytes()).expect("the sample parses");

    assert!(doc.place(1, [10, 20, 30, 40]));

    let written = round_trip_of(&doc);

    assert!(written.contains("\n10,20,30,40,\t arm \t\n"), "{}", written);
    assert!(written.contains("\n0,0,64,64,head\n"), "{}", written);
}

#[test]
fn a_row_with_no_name_does_not_grow_one() {
    let mut doc = Imgcut::parse(SAMPLE.as_bytes()).expect("the sample parses");

    assert!(doc.set_field(2, 2, 100));
    assert!(round_trip_of(&doc).ends_with("\n0,64,100,16\n"));
}

#[test]
fn removing_a_cut_renumbers_the_ones_after_it_and_updates_the_count() {
    let mut doc = Imgcut::parse(SAMPLE.as_bytes()).expect("the sample parses");
    let moved = doc.remove_cut(0).expect("the cut exists");

    assert_eq!(moved, vec![None, Some(0), Some(1)]);
    assert_eq!(doc.count(), 2);

    let written = round_trip_of(&doc);

    assert!(written.starts_with("[imgcut]\n2\n044_f.png\n2\n64,0,32,48"), "{}", written);
}

#[test]
fn the_last_cut_cannot_be_removed() {
    let mut doc = Imgcut::parse("[imgcut]\n2\nx.png\n1\n0,0,4,4\n".as_bytes()).expect("it parses");

    assert!(doc.remove_cut(0).is_none());
}

#[test]
fn a_parsed_list_reads_its_sheet_cuts_and_names() {
    let doc = Imgcut::parse(SAMPLE.as_bytes()).expect("the sample parses");

    assert_eq!(doc.sheet(), "044_f.png");
    assert_eq!(doc.count(), 3);
    assert_eq!(doc.field(1, 2), Some(32));
    assert_eq!(doc.field(1, 4), None);
    assert_eq!(doc.field(3, 0), None);
    assert_eq!(doc.name(0), Some("head"));
    assert_eq!(doc.name(2), Some(""));
    assert_eq!(doc.name(3), None);
    assert_eq!(doc.cut(0).map(|cut| cut.cells), Some([0, 0, 64, 64]));
}

#[test]
fn renaming_and_adding_cuts_show_up_in_the_written_list() {
    let mut doc = Imgcut::parse(SAMPLE.as_bytes()).expect("the sample parses");

    assert!(doc.set_name(0, "face"));
    assert!(!doc.set_name(0, "face"), "the same name again changes nothing");
    assert_eq!(doc.add_cut(), 3);
    assert_eq!(doc.count(), 4);

    let written = round_trip_of(&doc);

    assert!(written.starts_with("[imgcut]\n2\n044_f.png\n4\n0,0,64,64,face\n"), "{}", written);
    assert!(written.ends_with("0,64,128,16\n0,0,0,0\n"), "{}", written);
}

#[test]
fn a_list_with_no_cuts_is_refused() {
    assert!(Imgcut::parse("[imgcut]\n2\nx.png\n0\n".as_bytes()).is_err());
    assert!(Imgcut::parse(b"").is_err());
}

#[test]
fn a_placed_cut_leaves_every_other_byte_alone() {
    let mut doc = Imgcut::parse(SAMPLE.as_bytes()).expect("the sample parses");

    assert!(doc.place(0, [1, 2, 3, 4]));
    assert_eq!(round_trip_of(&doc), SAMPLE.replace("0,0,64,64,head", "1,2,3,4,head"));
}

#[test]
fn a_written_row_reads_back_as_the_values_it_was_written_with() {
    let raw: Vec<char> = "064,000, 32,+48,\t arm \t,extra".chars().collect();
    let values = [64, 7, -2147483648, 48];
    let name: Vec<char> = "leg".chars().collect();
    let written: String = kore::rows::cells(Some(&raw), &values, Some(&name)).into_iter().collect();
    let fields: Vec<Vec<char>> = written.split(',').map(|field| field.chars().collect()).collect();

    for (at, value) in values.iter().enumerate() {
        assert_eq!(kore::rows::read(fields.get(at).map(|field| field.as_slice())), *value, "{written}");
    }
    assert_eq!(fields[4].iter().collect::<String>().trim(), "leg");
    assert_eq!(written, "064,7,-2147483648,+48,leg,extra", "cells that still read the same keep their text");
}

#[test]
fn a_blank_cut_row_writes_back_blank() {
    let blanked = "[imgcut]\n2\nx.png\n3\n0,0,4,4,a\n\n1,1,2,2,b\n";

    assert_eq!(round_trip(blanked), blanked);
    assert_eq!(round_trip("[imgcut]\n2\nx.png\n2\n0,0,4,4,a\n\n"), "[imgcut]\n2\nx.png\n2\n0,0,4,4,a\n\n");
}
