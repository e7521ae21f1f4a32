use kore::enemy::zombie_name;
use kore::branches::Guide;
use kore::import::{action_button, censored, import_type_of, job_outcome, masked, run_button, shorten, target_of, ActionButton, AdbImportType, AdbTarget, Banner, ImportSubTab, JobEvent, JobOutcome, JobSlot, Reaction, Region, SuccessFlag, ELLIPSIS, PATH_BUDGET};
use kore::tree::{flat, packs, path_of, Row};
use kore::io::{gatya_item_names, stray_spelling};
use kore::localized::{
    atlas, cat_arrivals, code, describes, enemy_arrivals, explanation, mineable, named, reads, restore, roster, stage_arrivals, titled, titles, Delimiter,
    RowDelta, Table, FORMS,
};
use kore::plain::lines_in;
use kore::menu::{Mark, Marks};
use kore::row_window::{band, BAND_ROWS};

#[test]
fn a_localized_table_is_recognised_only_in_its_own_family() {
    assert_eq!(explanation("Unit_Explanation301_ko.csv"), Some((300, "ko".to_string())));
    assert_eq!(explanation("Unit_Explanation301.csv"), Some((300, String::new())));
    assert!(explanation("Unit_Explanation0.csv").is_none(), "there is no unit before the first");
    assert!(explanation("SkillDescriptions.csv").is_none());

    assert!(matches!(roster("Enemyname_en.tsv"), Some((Table::Names, code)) if code == "en"));
    assert!(matches!(roster("EnemyPictureBook.csv"), Some((Table::Book, code)) if code.is_empty()));

    assert!(roster("EnemyPictureBook2_en.csv").is_none());
    assert!(roster("EnemyPictureBookQuestion.csv").is_none());
}

#[test]
fn a_map_name_table_is_recognised_by_its_own_name() {
    assert!(matches!(atlas("Map_Name_en.csv"), Some(code) if code == "en"));
    assert!(atlas("Map_option.csv").is_none());
    assert!(mineable("Map_Name.csv"));
    assert!(!mineable("Map_Name_EN.csv"), "codes are lowercase");
    assert!(describes("Enemyname.tsv"));
    assert_eq!(code("_fr"), Some("fr".to_owned()));
    assert_eq!(code("fr"), None);
    assert_eq!(code("_fra"), None);
    assert_eq!(explanation("Unit_Explanation99999999999_en.csv"), None, "a number past u32 reads as nothing");
    assert_eq!(explanation("Unit_Explanation_en.csv"), None, "and so does no number at all");
}

#[test]
fn a_deep_path_is_cut_to_the_budget_the_column_can_hold() {
    let parts: Vec<String> = ["home", "somebody", "Downloads", "battle cats data", "apk extraction", "files"]
        .iter()
        .map(|part| part.to_string())
        .collect();
    let path = "/home/somebody/Downloads/battle cats data/apk extraction/files";
    let shown = censored(path, path, &parts, '/');

    assert!(shown.chars().count() <= PATH_BUDGET, "{}", shown);
    assert!(shown.starts_with(ELLIPSIS), "{}", shown);
    assert!(shown.ends_with("files"), "the leaf stays readable: {}", shown);
}

#[test]
fn a_short_path_is_left_whole() {
    let parts = vec!["tmp".to_string(), "data".to_string()];

    assert_eq!(censored("/tmp/data", "/tmp/data", &parts, '/'), "tmp/data");
    assert_eq!(censored("", "", &[], '/'), "");
    assert_eq!(censored("No source selected", "No source selected", &[], '/'), "");
}

#[test]
fn shortening_keeps_both_ends_within_the_room() {
    assert_eq!(shorten("abcdefghij", 7), "abc\u{2026}hij");
    assert_eq!(shorten("abcdefghij", 8), "abc\u{2026}ghij");
    assert_eq!(shorten("abcdefghij", 3), "\u{2026}");
    assert_eq!(shorten("abc", 3), "abc");
}

#[test]
fn an_abort_outranks_whatever_the_job_returned() {
    assert_eq!(job_outcome(Ok(()), true), JobOutcome::Aborted);
    assert_eq!(job_outcome(Err("disk".to_owned()), false), JobOutcome::Failed("disk".to_owned()));
    assert_eq!(job_outcome(Ok(()), false), JobOutcome::Completed);
}

#[test]
fn the_filter_ignores_ascii_case_and_keeps_everything_for_no_query() {
    assert!(kore::tree::matches("Unit_Explanation301_en.csv", "explanation"));
    assert!(kore::tree::matches("anything", ""));
    assert!(!kore::tree::matches("ab", "abc"));
    assert!(!kore::tree::matches("uni000.png", "f00"));
    assert!(kore::tree::matches("土上.png", "上.PNG"));
}

#[test]
fn scrolling_inside_one_band_keeps_the_very_same_rows() {
    let settled = band(1000, 0, 20);

    for anchor in 1..BAND_ROWS {
        assert_eq!(band(1000, anchor, 20), settled, "anchor {anchor} rebuilt the window");
    }

    assert_ne!(band(1000, BAND_ROWS, 20), settled, "the next band moves");
}

#[test]
fn the_window_still_covers_the_viewport_everywhere_in_its_band() {
    for anchor in 0..64usize {
        let held = band(1000, anchor, 20);

        assert!(held.start <= anchor);
        assert!(held.end > anchor + 19);
    }

    assert_eq!(band(0, 5, 20), 0..0);
    assert_eq!(band(10, 9, 20), 8..10, "the window stops at the end of the list");
}

#[test]
fn a_stray_spelling_is_found_only_where_the_exact_name_is_missing() {
    let listed: Vec<String> = ["Uni000_f00.png", "uni000_f01.png"].iter().map(|name| name.to_string()).collect();

    assert_eq!(stray_spelling(&listed, "uni000_f00.png"), Some(0));
    assert_eq!(stray_spelling(&listed, "uni000_f01.png"), None, "the name is already there");
    assert_eq!(stray_spelling(&listed, "uni000_f02.png"), None, "nothing else is a spelling of it");

    let both: Vec<String> = ["A.png", "a.png"].iter().map(|name| name.to_string()).collect();

    assert_eq!(stray_spelling(&both, "a.png"), None, "an exact name later in the listing still wins");
}

#[test]
fn a_gatya_icon_is_looked_up_under_each_padding_of_its_id() {
    assert_eq!(gatya_item_names(5), vec!["gatyaitemD_005_f.png", "gatyaitemD_05_f.png", "gatyaitemD_5_f.png"]);
    assert_eq!(gatya_item_names(123)[1], "gatyaitemD_123_f.png");
    assert_eq!(gatya_item_names(-5)[0], format!("gatyaitemD_{:03}_f.png", -5));
    assert_eq!(gatya_item_names(-5)[1], format!("gatyaitemD_{:02}_f.png", -5));
}

#[test]
fn a_zombie_animation_is_named_by_its_number() {
    assert_eq!(zombie_name(0), Some("Burrow"));
    assert_eq!(zombie_name(2), Some("Surface"));
    assert_eq!(zombie_name(3), None);
}

#[test]
fn the_armed_mark_wins_over_the_failed_one() {
    let trail = [1usize, 2];
    let other = [3usize];
    let marks = Marks { armed: Some(&trail), failed: Some(&trail) };

    assert_eq!(marks.at(&[1, 2]), Mark::Armed);
    assert_eq!(Marks { armed: Some(&other), failed: Some(&trail) }.at(&[1, 2]), Mark::Failed);
    assert_eq!(marks.at(&[1]), Mark::Idle);
    assert!(Mark::Failed.alerting());
    assert!(!Mark::Idle.alerting());
}

#[test]
fn a_finished_job_stops_and_puts_up_its_banner() {
    let mut slot = JobSlot::new();

    slot.begin();
    assert!(slot.running);

    assert_eq!(slot.apply(JobEvent::Log("unpacking".to_owned())), Reaction { snap: true, banner: None, settled: false });
    slot.apply(JobEvent::Log("done".to_owned()));
    assert_eq!(slot.log, "unpacking\ndone");

    assert_eq!(slot.apply(JobEvent::Progress), Reaction { snap: false, banner: None, settled: false });

    slot.request_abort();
    assert!(slot.aborting);

    let reaction = slot.apply(JobEvent::Finished(JobOutcome::Aborted));

    assert_eq!(reaction, Reaction { snap: false, banner: Some(Banner::Aborted), settled: true });
    assert!(!slot.running && !slot.aborting);
    assert_eq!(slot.banner, Some(Banner::Aborted));
}

#[test]
fn a_failed_job_logs_its_error_instead_of_a_banner() {
    let mut slot = JobSlot::new();

    slot.begin();

    let reaction = slot.apply(JobEvent::Finished(JobOutcome::Failed("no space".to_owned())));

    assert_eq!(reaction, Reaction { snap: true, banner: None, settled: true });
    assert_eq!(slot.log, "Error: no space");
    assert_eq!(slot.banner, None);
}

#[test]
fn a_row_path_climbs_through_each_nearest_shallower_row() {
    let row = |name: &str, depth: u16| Row {
        name: name.to_owned(),
        depth,
        folder: false,
        expanded: false,
        guide: Guide { trunks: 0, last: false, first: false },
    };
    let rows = vec![row("a", 0), row("b", 1), row("c", 2), row("d", 1), row("e", 2), row("f", 0)];

    assert_eq!(path_of(&rows, 4), Some(vec!["a".to_owned(), "d".to_owned(), "e".to_owned()]));
    assert_eq!(path_of(&rows, 2), Some(vec!["a".to_owned(), "b".to_owned(), "c".to_owned()]));
    assert_eq!(path_of(&rows, 5), Some(vec!["f".to_owned()]));
    assert_eq!(path_of(&rows, 6), None);
}

fn strings(names: &[&str]) -> Vec<String> {
    names.iter().map(|name| name.to_string()).collect()
}

#[test]
fn the_flat_listing_keeps_the_names_the_query_passes_and_selects_the_marked_one() {
    let listing = flat(&strings(&["a.png", "B.csv", "c.PNG"]), "png", Some("c.PNG"));
    let names: Vec<&str> = listing.rows.iter().map(|row| row.name.as_str()).collect();

    assert_eq!(names, ["a.png", "c.PNG"]);
    assert_eq!(listing.selected, Some(1));
    assert!(!listing.folders);
    assert!(listing.rows.iter().all(|row| row.depth == 0 && !row.folder));
}

#[test]
fn a_pack_is_listed_only_where_one_of_its_files_passes_the_query() {
    let groups = vec![
        ("p1".to_string(), strings(&["x.png", "y.csv"])),
        ("p2".to_string(), strings(&["z.csv"])),
        ("p3".to_string(), strings(&["w.png"])),
    ];
    let listing = packs(&groups, &[true, true, false], &strings(&["r.png", "s.csv"]), "png", Some("x.png"));
    let shape: Vec<(&str, u16, bool, bool)> =
        listing.rows.iter().map(|row| (row.name.as_str(), row.depth, row.folder, row.expanded)).collect();

    assert_eq!(
        shape,
        [("p1", 0, true, true), ("x.png", 1, false, false), ("p3", 0, true, false), ("r.png", 0, false, false)]
    );
    assert_eq!(listing.selected, Some(1));
    assert!(listing.folders);
    assert_eq!(packs(&groups, &[true, true, false], &[], "nothing", Some("x.png")).selected, None);
}

#[test]
fn a_new_form_is_not_a_new_language() {
    let arrived = vec![RowDelta { key: "3".to_string(), before: None, after: Some("Ultra Cat|An ultra form.".to_string()) }];

    let after = "Normal Cat|A cat.\nEvolved Cat|B cat.\nTrue Cat|C cat.\nUltra Cat|An ultra form.";

    assert_eq!(named(after.as_bytes()), [true; FORMS]);
    assert_eq!(
        named(restore(after, &arrived).as_bytes()),
        [true, true, true, false],
        "the earlier forms were already named before the ultra form landed"
    );

    let fresh = vec![RowDelta { key: "0".to_string(), before: None, after: Some("Normal Cat|A cat.".to_string()) }];

    assert_eq!(named(restore("Normal Cat|A cat.", &fresh).as_bytes()), [false; FORMS]);
}

#[test]
fn a_bare_identifier_is_not_a_name() {
    assert!(named(b"Ragnarok|A fallen angel.")[0]);
    assert!(!named(b"301|")[0], "a bare identifier is not a name");
}

#[test]
fn restoring_puts_changed_rows_back_and_removed_ones_after() {
    let rows = vec![
        RowDelta { key: "1".to_string(), before: Some("old b".to_string()), after: Some("b".to_string()) },
        RowDelta { key: "9".to_string(), before: Some("gone".to_string()), after: None },
    ];

    assert_eq!(restore("a\r\nb\nc\n", &rows), "a\nold b\nc\ngone");
    assert_eq!(restore("", &[]), "");
}

#[test]
fn plain_lines_are_the_lines_the_standard_library_yields() {
    for sample in ["", "\n", "a", "a\n", "a\r\nb", "a\rb\r", "\r\n\r\n", "x\n\ny\r\n", "\r"] {
        let glyphs: Vec<char> = sample.chars().collect();
        let cut: Vec<String> = lines_in(&glyphs).into_iter().map(|line| line.into_iter().collect()).collect();
        let expected: Vec<String> = sample.lines().map(str::to_owned).collect();

        assert_eq!(cut, expected, "{:?}", sample);
    }
}

#[test]
fn only_the_forms_a_table_newly_names_arrive() {
    let arrived = vec![RowDelta { key: "3".to_string(), before: None, after: Some("Ultra Cat|An ultra form.".to_string()) }];
    let after = "Normal Cat|A cat.\nEvolved Cat|B cat.\nTrue Cat|C cat.\nUltra Cat|An ultra form.";

    assert_eq!(cat_arrivals("Unit_Explanation301_en.csv", after.as_bytes(), true, &arrived), vec![(300, 3, "en".to_string())]);
    assert_eq!(cat_arrivals("Unit_Explanation301_en.csv", b"Normal Cat|A cat.", false, &[]), vec![(300, 0, "en".to_string())]);
    assert!(cat_arrivals("Enemyname_en.tsv", after.as_bytes(), false, &[]).is_empty());
}

#[test]
fn names_sort_as_str_sorts_them() {
    let mut names: Vec<String> = ["b.png", "a.csv", "B.png", "ab", "a", "\u{e9}t\u{e9}", "z"].iter().map(|name| name.to_string()).collect();
    let mut expected = names.clone();

    expected.sort_unstable();
    kore::names::sort_names(&mut names);
    assert_eq!(names, expected);
    assert_eq!(names[0], "B.png", "capitals come before lower case");
}

#[test]
fn files_are_grouped_under_their_packs_in_order() {
    let names: Vec<String> = ["z.csv", "b.png", "a.png", "c.csv", "d.csv"].iter().map(|name| name.to_string()).collect();
    let packs = vec![
        Some("ImageLocal".to_string()),
        Some("DataLocal".to_string()),
        Some("DataLocal".to_string()),
        None,
        Some(String::new()),
    ];
    let (groups, roots) = kore::names::group_packs(&names, &packs);

    assert_eq!(
        groups,
        vec![
            ("DataLocal".to_string(), vec!["a.png".to_string(), "b.png".to_string()]),
            ("ImageLocal".to_string(), vec!["z.csv".to_string()]),
        ]
    );
    assert_eq!(roots, vec!["c.csv".to_string(), "d.csv".to_string()], "an empty pack is no pack");
}

#[test]
fn the_users_name_is_masked_wherever_it_appears() {
    assert_eq!(masked("C:\\Users\\alice\\alice_game\\data", "alice"), "C:\\Users\\***\\***_game\\data");
    assert_eq!(masked("aaaa", "aa"), "******", "matches are taken from the left, whole");
    assert_eq!(masked("/home/bob", ""), "/home/bob", "an empty name masks nothing");
    assert_eq!(masked("/home/bob", "bob"), "/home/bob".replace("bob", "***"));
}

#[test]
fn a_success_is_kept_until_it_is_taken_whatever_comes_after() {
    let mut flag = SuccessFlag::new();

    flag.record(&JobEvent::Finished(JobOutcome::Completed));
    flag.record(&JobEvent::Finished(JobOutcome::Failed("disk full".to_string())));
    flag.record(&JobEvent::Finished(JobOutcome::Aborted));
    assert!(flag.take(), "a later job does not clear an earlier success");
    assert!(!flag.take(), "taking it lowers it");
}

#[test]
fn the_job_button_says_what_is_missing() {
    assert_eq!(run_button(None, true, "a", "b"), ("Select a Job".to_string(), false));
    assert_eq!(run_button(Some(ImportSubTab::Emulator), false, "", ""), ("Bridge Missing".to_string(), false));
    assert_eq!(run_button(Some(ImportSubTab::Decrypt), true, "", "x"), ("Select Source Folder".to_string(), false));
    assert_eq!(run_button(Some(ImportSubTab::Sort), false, "", "x"), ("Start Job".to_string(), true));
    assert_eq!(action_button(Some(Banner::Aborted), true, true), ActionButton::Aborted);
    assert_eq!(action_button(None, true, true), ActionButton::Aborting);
    assert_eq!(action_button(None, true, false), ActionButton::Abort);
    assert_eq!(action_button(None, false, false), ActionButton::Run);
}

#[test]
fn the_pickers_indices_name_the_import() {
    assert_eq!(import_type_of(1), AdbImportType::Update);
    assert_eq!(import_type_of(0), AdbImportType::All);
    assert_eq!(target_of(2), AdbTarget::Specific(Region::Tw));
    assert_eq!(target_of(9), AdbTarget::All);
}

// The separator a table is written with follows its language: the English
// map names are pipe-separated and the Japanese ones comma-separated.
#[test]
fn an_empty_map_name_is_not_a_localization() {
    assert!(matches!(atlas("Map_Name_en.csv"), Some(code) if code == "en"));
    assert!(atlas("Map_option.csv").is_none());

    assert_eq!(titled("4081|Pac-Man Collab EX", Delimiter::Pipe), Some(4081));
    assert_eq!(titled("4081|", Delimiter::Pipe), None, "a named-but-empty row is not localized");
    assert_eq!(titled("4081,\u{30d1}\u{30c3}\u{30af}\u{30de}\u{30f3}", Delimiter::Comma), Some(4081));
}

#[test]
fn a_placeholder_row_is_not_a_localization() {
    assert!(reads(Table::Names, "Ragnarok", Delimiter::Tab));
    assert!(!reads(Table::Names, "ダミー", Delimiter::Tab));
    assert!(!reads(Table::Names, "   ", Delimiter::Tab));

    assert!(named(b"Ragnarok|A fallen angel.")[0]);
    assert!(!named(b"301|")[0], "a bare identifier is not a name");
}

#[test]
fn a_picture_book_row_reads_only_with_a_real_description() {
    assert!(reads(Table::Book, "0|A small dog", Delimiter::Pipe));
    assert!(!reads(Table::Book, "0|", Delimiter::Pipe));
    assert!(!reads(Table::Book, "0|仮", Delimiter::Pipe), "a provisional line is a placeholder");
    assert!(!reads(Table::Book, "0|A small dog", Delimiter::Comma), "the wrong separator leaves no description");
}

#[test]
fn a_whole_enemy_table_localizes_each_line_that_reads() {
    let table = "Ragnarok\nダミー\n\nChef Bun Bun\n";

    assert_eq!(enemy_arrivals(Table::Names, table.as_bytes(), false, &[], Delimiter::Tab), vec![0, 3]);
    assert!(enemy_arrivals(Table::Names, b"", false, &[], Delimiter::Tab).is_empty());
}

#[test]
fn only_changed_enemy_rows_that_became_names_arrive() {
    let rows = vec![
        RowDelta { key: "4".to_string(), before: Some("ダミー".to_string()), after: Some("Ragnarok".to_string()) },
        RowDelta { key: "5".to_string(), before: Some("Old".to_string()), after: Some("New".to_string()) },
        RowDelta { key: "x".to_string(), before: None, after: Some("Unkeyed".to_string()) },
        RowDelta { key: "7".to_string(), before: None, after: Some("Fresh".to_string()) },
        RowDelta { key: "8".to_string(), before: Some("Gone".to_string()), after: None },
    ];

    assert_eq!(enemy_arrivals(Table::Names, b"ignored", true, &rows, Delimiter::Tab), vec![4, 7]);
}

#[test]
fn a_whole_map_table_localizes_every_map_it_names() {
    let mut ids = titles(b"1|One\n2|\n3|Three // a note\n", Delimiter::Pipe);
    ids.sort_unstable();
    assert_eq!(ids, vec![1, 3]);

    let mut whole = stage_arrivals(b"10|Ten\n11|Eleven\n", false, &[], Delimiter::Pipe);
    whole.sort_unstable();
    assert_eq!(whole, vec![10, 11]);
    assert!(stage_arrivals(b"", false, &[], Delimiter::Pipe).is_empty());
}

#[test]
fn only_changed_map_rows_that_came_to_name_a_map_arrive() {
    let rows = vec![
        RowDelta { key: "0".to_string(), before: Some("4081|".to_string()), after: Some("4081|Pac-Man".to_string()) },
        RowDelta { key: "1".to_string(), before: Some("5|Five".to_string()), after: Some("5|Cinq".to_string()) },
        RowDelta { key: "2".to_string(), before: None, after: Some("6|Six".to_string()) },
        RowDelta { key: "3".to_string(), before: None, after: Some("7|".to_string()) },
    ];

    assert_eq!(stage_arrivals(b"", true, &rows, Delimiter::Pipe), vec![4081, 6]);
}

#[test]
fn a_language_is_recorded_once() {
    let mut spoken: Vec<String> = Vec::new();

    kore::localized::record(&mut spoken, "en");
    kore::localized::record(&mut spoken, "ja");
    kore::localized::record(&mut spoken, "en");
    assert_eq!(spoken, vec!["en".to_string(), "ja".to_string()]);
}
