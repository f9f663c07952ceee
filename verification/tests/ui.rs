use gd::diff::build;
use gd::keys::Action;
use gd::ui::{cell_runs, centered, describe, find_all, gutter_width, is_control, layout, split_runs, Rect};

const BASE: u8 = 0;
const MARK: u8 = 1;

fn plain(runs: &[(String, u8)]) -> String {
    runs.iter().map(|(s, _)| s.as_str()).collect()
}

fn runs(text: &str) -> Vec<(String, u8)> {
    vec![(text.to_string(), BASE)]
}

#[test]
fn tabs_expand_to_the_next_tab_stop() {
    assert_eq!(plain(&layout(&runs("a\tb"), 0, 100)), "a   b");
}

#[test]
fn horizontal_scroll_drops_leading_columns() {
    assert_eq!(plain(&layout(&runs("abcdefgh"), 3, 100)), "defgh");
}

#[test]
fn output_is_clipped_to_the_pane_width() {
    assert_eq!(plain(&layout(&runs("abcdefgh"), 0, 3)), "abc");
}

#[test]
fn control_characters_are_shown_as_dots() {
    assert_eq!(plain(&layout(&runs("a\rb"), 0, 100)), "a\u{b7}b");
}

#[test]
fn runs_split_at_mark_boundaries() {
    let runs = split_runs("hello world", BASE, &[(6, 11, MARK)]);
    assert_eq!(runs.len(), 2);
    assert_eq!(runs[0].0, "hello ");
    assert_eq!(runs[1].0, "world");
    assert_eq!(runs[1].1, MARK);
}

#[test]
fn marks_inside_a_character_never_drop_text() {
    // Byte 1 is inside the two-byte 'é'; the text must survive regardless.
    assert_eq!(plain(&split_runs("é", BASE, &[(1, 2, MARK)])), "é");
    assert_eq!(plain(&split_runs("aéb", BASE, &[(1, 2, MARK)])), "aéb");
}

#[test]
fn wide_characters_count_two_columns() {
    // Three double-width glyphs cannot fit in five columns.
    assert_eq!(plain(&layout(&runs("日本語"), 0, 5)), "日本");
}

#[test]
fn find_all_is_smart_case() {
    assert_eq!(find_all("Foo foo", "foo"), vec![(0, 3), (4, 7)]);
    assert_eq!(find_all("Foo foo", "Foo"), vec![(0, 3)]);
    assert!(find_all("abc", "").is_empty());
}

#[test]
fn find_all_skips_non_ascii_folding() {
    // Folding would shift byte offsets, so no highlight is safer.
    assert!(find_all("İstanbul", "i").is_empty());
}

#[test]
fn find_all_does_not_overlap_matches() {
    assert_eq!(find_all("aaaa", "aa"), vec![(0, 2), (2, 4)]);
}

#[test]
fn runs_without_marks_keep_the_whole_text() {
    let r = split_runs("", BASE, &[]);
    assert_eq!(r, vec![(String::new(), BASE)]);
    let r = split_runs("abc", 7u8, &[]);
    assert_eq!(r, vec![("abc".to_string(), 7u8)]);
}

#[test]
fn the_last_covering_mark_wins() {
    let r = split_runs("abcdef", BASE, &[(0, 6, 1u8), (2, 4, 2u8)]);
    let got: Vec<(&str, u8)> = r.iter().map(|(s, st)| (s.as_str(), *st)).collect();
    assert_eq!(got, vec![("ab", 1), ("cd", 2), ("ef", 1)]);
}

#[test]
fn a_tab_can_be_cut_by_the_scroll() {
    // The tab spans columns 1..4; scrolling by two keeps two of its spaces.
    assert_eq!(plain(&layout(&runs("a\tb"), 2, 100)), "  b");
}

#[test]
fn empty_runs_produce_no_pieces() {
    let r = layout(&[("".to_string(), BASE), ("x".to_string(), MARK)], 0, 10);
    assert_eq!(r, vec![("x".to_string(), MARK)]);
}

#[test]
fn layout_stops_at_the_first_run_that_overflows() {
    let r = layout(&[("abc".to_string(), BASE), ("def".to_string(), MARK)], 0, 4);
    assert_eq!(r, vec![("abc".to_string(), BASE), ("d".to_string(), MARK)]);
}

#[test]
fn search_hits_outrank_word_emphasis() {
    let r = cell_runs("let x = 1;", &[(4, 5)], "x", BASE, 5u8, 9u8, 0, 100);
    let got: Vec<(&str, u8)> = r.iter().map(|(s, st)| (s.as_str(), *st)).collect();
    assert_eq!(got, vec![("let ", BASE), ("x", 9), (" = 1;", BASE)]);
}

#[test]
fn control_characters_are_the_c0_and_c1_ranges() {
    assert!(is_control('\u{0}'));
    assert!(is_control('\u{1f}'));
    assert!(!is_control(' '));
    assert!(is_control('\u{7f}'));
    assert!(is_control('\u{9f}'));
    assert!(!is_control('\u{a0}'));
}

#[test]
fn the_gutter_fits_the_largest_line_number() {
    let small = build("a\n", "b\n", None);
    assert_eq!(gutter_width(&small), 3);
    let text: String = (0..1234).map(|i| format!("{i}\n")).collect();
    let big = build(&text, &format!("{text}x\n"), None);
    assert_eq!(gutter_width(&big), 4);
    let _ = big;
}

#[test]
fn overlays_are_centred() {
    let r = centered(Rect { x: 0, y: 0, width: 100, height: 40 }, 90, 85);
    assert_eq!(r, Rect { x: 5, y: 3, width: 90, height: 34 });
}

#[test]
fn help_text_describes_the_added_actions() {
    assert_eq!(describe(Action::ClearSearch), "clear the search");
    assert_eq!(describe(Action::TreeToggleAll), "toggle all directories");
}

#[test]
fn a_laid_out_line_never_takes_more_columns_than_the_pane() {
    assert_eq!(plain(&layout(&runs("ab\tcdefgh"), 0, 6)), "ab  cd");
    assert_eq!(plain(&layout(&runs("ab\tcdefgh"), 3, 3)), " cd");
    assert_eq!(plain(&layout(&runs("日本語"), 1, 3)), "本");
}
