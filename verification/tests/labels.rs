use kore::glyphs::{columns, shaping, wide, Shaping};
use kore::name_box::{allowance, middle, MAX_FONT_HALF_POINTS, MAX_LINES, MIN_FONT_HALF_POINTS, UNBROKEN_LINES};
use kore::text::{is_blank, trimmed};

#[test]
fn punctuation_around_the_ranges_stays_narrow() {
    assert!(!wide('·'));
    assert!(!wide('#'));
    assert!(wide('\u{ff21}'));
}

#[test]
fn kana_and_kanji_take_two_columns() {
    assert_eq!(columns("リンゴ") as f32, 6.0);
    assert_eq!(columns("土") as f32, 2.0);
    assert_eq!(columns("abc") as f32, 3.0);
}

#[test]
fn a_mixed_label_counts_each_half_separately() {
    assert_eq!(columns("067土1.png") as f32, 10.0);
}

#[test]
fn the_wide_ranges_end_where_they_are_declared() {
    assert!(wide('\u{1100}') && wide('\u{115f}'));
    assert!(!wide('\u{10ff}') && !wide('\u{1160}'));
    assert!(wide('\u{20000}') && wide('\u{3fffd}'));
    assert!(!wide('\u{3fffe}'));
    assert_eq!(columns(""), 0);
}

#[test]
fn only_our_own_separator_earns_the_cheap_shaper() {
    assert_eq!(shaping("Angle \u{00b7} 6 keys"), Shaping::Basic);
    assert_eq!(shaping("Part 3"), Shaping::Basic);
    assert_eq!(shaping("Part 3 \u{00b7} \u{571f}"), Shaping::Auto);
    assert_eq!(shaping("\u{25b8}"), Shaping::Auto);
}

#[test]
fn a_decorative_dot_in_a_name_does_not_earn_advanced_shaping() {
    assert_eq!(shaping("Kitaro Cat \u{00b7} Nezumi-Otoko Cat"), Shaping::Basic);
    assert_eq!(shaping("\u{9b3c}\u{592a}\u{90ce}\u{30cd}\u{30b3}"), Shaping::Auto);
}

#[test]
fn a_name_too_long_to_shrink_keeps_both_ends() {
    let glyphs: Vec<char> = "Orbital Annihilator Ragnarok".chars().collect();

    let clipped = middle(&glyphs, 12);

    assert_eq!(clipped, "Orbita...gnarok");
    assert_eq!(shaping(&clipped), Shaping::Basic, "the marker must stay cheap to shape");
}

#[test]
fn a_name_that_already_fits_is_never_marked() {
    let glyphs: Vec<char> = "Cat Army".chars().collect();

    assert_eq!(middle(&glyphs, glyphs.len()), "Cat Army");
    assert_eq!(middle(&glyphs, 99), "Cat Army");
}

#[test]
fn an_odd_budget_keeps_the_extra_character_at_the_front() {
    let glyphs: Vec<char> = "abcdefgh".chars().collect();

    assert_eq!(middle(&glyphs, 3), "ab...h");
    assert_eq!(middle(&glyphs, 1), "a...");
    assert_eq!(middle(&glyphs, 0), "...");
}

#[test]
fn a_name_with_no_break_in_it_shrinks_instead_of_wrapping() {
    assert_eq!(allowance("ragnarokssssssssssssssssss"), UNBROKEN_LINES);
    assert_eq!(allowance("Orbital Annihilator"), MAX_LINES);
    assert_eq!(allowance(""), UNBROKEN_LINES);
}

#[test]
fn blanks_around_a_single_word_do_not_make_a_second_one() {
    assert_eq!(allowance("  ragnarok \t"), UNBROKEN_LINES);
    assert_eq!(allowance(" \u{3000}土 上"), MAX_LINES);
}

#[test]
fn the_fitting_loop_is_worth_caching() {
    let max_font_size = MAX_FONT_HALF_POINTS as f32 / 2.0;
    let min_font_size = MIN_FONT_HALF_POINTS as f32 / 2.0;
    let steps = ((max_font_size - min_font_size) / 0.5) as u32;

    assert_eq!((max_font_size, min_font_size), (22.0, 8.0));
    assert!(steps > 20, "the fit costs {steps} shapes, so it must not run every layout");
}

#[test]
fn blanks_are_exactly_the_characters_the_standard_library_calls_whitespace() {
    for glyph in (0..=0x10ffff_u32).filter_map(char::from_u32) {
        assert_eq!(is_blank(glyph), glyph.is_whitespace(), "{:?}", glyph);
    }
}

#[test]
fn trimming_matches_the_standard_library() {
    for sample in ["", "   ", " a ", "\t head \t", "\u{3000}土\u{3000}", "x", " a b ", "\u{85}q\u{a0}"] {
        let glyphs: Vec<char> = sample.chars().collect();
        let kept: String = trimmed(&glyphs).into_iter().collect();

        assert_eq!(kept, sample.trim(), "{:?}", sample);
    }
}
