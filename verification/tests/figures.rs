use kore::combos::{hunted, key_of, keyed, next_key, options, packed, refine, rule as combo_rule, seed, seed_key, spoken, titled, vacant_label, window, ABSENT};
use kore::costs::{rule, COST_HEAD, COST_LEVELS};
use kore::resolved::Rule;

fn rows(keys: &[(i32, i32)]) -> Vec<String> {
    keys.iter().map(|(series, id)| format!("{id},{series},-1")).collect()
}

#[test]
fn every_level_refuses_a_cost_the_engine_would_drop() {
    for index in COST_HEAD..COST_HEAD + COST_LEVELS {
        assert_eq!(rule(index), Rule::Floor(0), "level column {index} must stay non-negative");
    }
}

#[test]
fn a_column_past_the_tenth_level_is_flagged_rather_than_shown_as_a_cost() {
    assert_eq!(rule(COST_HEAD + COST_LEVELS), Rule::Opaque);
}

#[test]
fn the_id_column_before_the_levels_is_plain() {
    assert_eq!(rule(0), Rule::Plain);
}

#[test]
fn a_new_combo_takes_the_next_free_id_in_the_series_it_was_opened_on() {
    let lines = rows(&[(6, 3064), (6, 3066), (1, 109)]);

    assert_eq!(next_key(&lines, ',', 6), (6, 3067), "the id counts on within series 6 alone");
    assert_eq!(next_key(&lines, ',', 1), (1, 110), "series 1 counts from its own highest");
}

#[test]
fn a_superseded_row_hands_the_new_combo_to_the_highest_live_series() {
    let lines = rows(&[(-1, 0), (1, 109), (6, 3066)]);

    assert_eq!(
        next_key(&lines, ',', -1),
        (6, 3067),
        "a negative series is retired, so a new combo must not join it",
    );
}

#[test]
fn a_series_without_rows_starts_at_zero_and_an_empty_table_opens_the_first() {
    let lines = rows(&[(6, 3066)]);

    assert_eq!(next_key(&lines, ',', 9), (9, 0));
    assert_eq!(next_key(&[], ',', 0), (1, 0));
    assert_eq!(next_key(&rows(&[(-3, 4)]), ',', 0), (1, 0));
    assert_eq!(next_key(&rows(&[(2, i32::MAX)]), ',', 2), (2, i32::MAX), "the id saturates");
}

#[test]
fn a_row_is_keyed_by_its_trimmed_id_and_series() {
    assert_eq!(key_of(" 12 , 3 ,x", ','), Some((3, 12)));
    assert_eq!(key_of("12|3", '|'), Some((3, 12)));
    assert_eq!(key_of("12", ','), None, "a row without a series has no key");
    assert_eq!(key_of("a,3", ','), None);
    assert_eq!(key_of("12,", ','), None);
    assert_eq!(key_of("", ','), None);
}

#[test]
fn integers_read_as_the_standard_library_reads_them() {
    for sample in ["0", "-0", "+7", "-2147483648", "2147483648", "", "-", "+", " 1", "1 ", "12a", "007", "1 2"] {
        let expected = sample.trim().parse::<i32>().ok().map(|id| (5, id));

        assert_eq!(key_of(&format!("{sample},5"), ','), expected, "{:?}", sample);
    }
}

#[test]
fn an_unnamed_combo_is_labelled_by_its_key() {
    assert_eq!(keyed(6, 3067), "Combo 6-3067");
    assert_eq!(keyed(-1, -1), "Combo -1--1");
}

#[test]
fn an_empty_slot_shows_a_plus_and_a_filled_one_its_padded_unit() {
    assert_eq!(vacant_label(-1, 0), "+");
    assert_eq!(vacant_label(44, 2), "044-3");
    assert_eq!(vacant_label(1234, -5), "1234-1");
    assert_eq!(vacant_label(0, 0), "000-1");
}

#[test]
fn a_blank_name_is_no_name() {
    let names = vec![Some("Brave Cats".to_owned()), Some("  ".to_owned()), None];

    assert_eq!(spoken(&names, 0), Some("Brave Cats".to_owned()));
    assert_eq!(spoken(&names, 1), None);
    assert_eq!(spoken(&names, 2), None);
    assert_eq!(spoken(&names, 3), None);
}

#[test]
fn the_combo_columns_each_have_their_rule() {
    assert_eq!(combo_rule("combo_id"), Some(Rule::Plain));
    assert_eq!(combo_rule("series"), Some(Rule::Plain));
    assert_eq!(combo_rule("slot_3_form"), Some(Rule::Floor(-1)));
    assert_eq!(combo_rule("effect_level"), Some(Rule::Floor(-1)));
    assert_eq!(combo_rule("unknown_15"), Some(Rule::Opaque));
    assert_eq!(combo_rule("slot_6_form"), None);
}

fn slot_places() -> Vec<(usize, usize)> {
    (0..5).map(|slot| (5 + 2 * slot, 6 + 2 * slot)).collect()
}

#[test]
fn clearing_a_middle_member_closes_the_gap_it_leaves() {
    let places = slot_places();
    let mut cells = vec![-1; 16];

    cells[places[0].0] = 44;
    cells[places[0].1] = 0;
    cells[places[2].0] = 90;
    cells[places[2].1] = 2;

    for (index, raw) in packed(&places, &cells) {
        cells[index] = raw;
    }

    assert_eq!(cells[places[1].0], 90, "the third member moves up into the hole");
    assert_eq!(cells[places[1].1], 2, "and brings its form with it");
    assert_eq!(cells[places[2].0], -1, "the slot it left is emptied");
    assert!(packed(&places, &cells).is_empty(), "a packed row rewrites nothing");
}

#[test]
fn a_half_filled_slot_is_not_a_member() {
    let places = slot_places();
    let mut cells = vec![-1; 16];

    cells[places[0].0] = 7;
    cells[places[1].0] = 8;
    cells[places[1].1] = 1;

    assert_eq!(packed(&places, &cells), vec![(5, 8), (6, 1), (7, -1), (8, -1)]);
    assert_eq!(packed(&places, &[]).len(), 10, "a row too short to hold a slot has every column written");
}

#[test]
fn a_blank_combo_is_seeded_with_its_anchor_at_the_places_given() {
    let mut fields: Vec<String> = vec!["-1".to_owned(); 6];

    seed(&mut fields, Some(2), Some(3), Some((44, 2)));
    assert_eq!(fields, vec!["-1", "-1", "44", "2", "-1", "-1"]);

    seed(&mut fields, Some(9), None, Some((7, 1)));
    assert_eq!(fields, vec!["-1", "-1", "44", "2", "-1", "-1"], "a place past the row writes nothing");

    seed(&mut fields, Some(0), Some(1), None);
    assert_eq!(fields[0], "-1", "with no anchor nothing is seeded");
}

#[test]
fn a_new_combo_is_keyed_from_the_series_its_field_holds() {
    let lines: Vec<String> = vec!["3064,6,a".to_owned(), "3066,6,b".to_owned(), "109,1,c".to_owned()];
    let mut fields: Vec<String> = vec![" 6 ".to_owned(), "0".to_owned(), "x".to_owned()];

    seed_key(&mut fields, Some(0), Some(1), &lines, ',');
    assert_eq!(fields, vec!["6", "3067", "x"]);

    let mut unread: Vec<String> = vec!["six".to_owned(), "0".to_owned()];

    seed_key(&mut unread, Some(0), Some(1), &lines, ',');
    assert_eq!(unread, vec!["6", "3067"], "a series that does not read joins the highest live one");
}

#[test]
fn a_combo_row_is_titled_by_its_name_or_else_its_key() {
    let keys = [(6, 3064), (1, 109)];
    let names = vec![Some("Fire Team".to_string()), Some("   ".to_string())];

    assert_eq!(titled(&keys, &names, 0), "Fire Team");
    assert_eq!(titled(&keys, &names, 1), "Combo 1-109", "a blank name falls back to the key");
    assert_eq!(titled(&keys, &names, 5), "Combo -1--1", "a row past the table reads as retired");
}

#[test]
fn a_picker_offers_nothing_first_and_then_every_line_with_text() {
    let table = vec![Some(" Attack Up ".to_string()), None, Some("\t".to_string()), Some("Speed".to_string())];
    let offered: Vec<(i32, String)> = options(&table, "None").into_iter().map(|choice| (choice.raw, choice.text)).collect();

    assert_eq!(
        offered,
        vec![(ABSENT, "None".to_string()), (0, "Attack Up".to_string()), (3, "Speed".to_string())]
    );
}

#[test]
fn the_catalogue_is_searched_by_padded_id_and_lowered_name() {
    let entries = vec![hunted(7, "Mohawk CAT"), hunted(44, "Crazed Dragon"), hunted(123, "\u{c9}clair")];

    assert_eq!(entries, vec!["007 mohawk cat", "044 crazed dragon", "123 \u{e9}clair"]);
    assert_eq!(refine(&entries, "  CAT "), vec![0], "the search is trimmed and lowered");
    assert_eq!(refine(&entries, "0"), vec![0, 1], "a padded id is found by its zeros");
    assert_eq!(refine(&entries, "\u{c9}CLAIR"), vec![2]);
    assert_eq!(refine(&entries, "   "), vec![0, 1, 2], "a blank search keeps everything");
}

#[test]
fn a_window_shows_the_kept_entries_in_its_range() {
    let entries = vec!["a", "b", "c", "d"];
    let kept = vec![3, 1, 9, 0];

    assert_eq!(window(&entries, &kept, 0, 3), vec!["d", "b"], "an index past the entries shows nothing");
    assert_eq!(window(&entries, &kept, 3, 4), vec!["a"]);
    assert!(window(&entries, &kept, 2, 5).is_empty(), "a range past what was kept shows nothing at all");
    assert!(window(&entries, &kept, 3, 2).is_empty());
}
