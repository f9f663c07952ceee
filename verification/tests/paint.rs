use gd::diff::build;
use gd::git::{FileEntry, Status};
use gd::paint::{preview_start, result_line, side_line, tree_line, unified_line, window, Paint, Side};
use gd::picker::{Candidate, Item, Target};
use gd::tree::Tree;

fn texts(spans: &[(String, Paint)]) -> Vec<(&str, Paint)> {
    spans.iter().map(|(s, p)| (s.as_str(), *p)).collect()
}

#[test]
fn a_changed_row_shows_number_sign_and_word_emphasis() {
    let doc = build("let a = 1;\n", "let a = 2;\n", None);
    let row = &doc.rows[0];
    let old = side_line(row, Side::Old, true, 3, 20, 0, "");
    assert_eq!(
        texts(&old.spans),
        vec![
            ("\u{258c}", Paint::BorderFocus),
            ("  1 ", Paint::Gutter),
            ("-", Paint::Removed),
            ("let a = ", Paint::Removed),
            ("1;", Paint::RemovedWord),
        ]
    );
    assert_eq!(old.line, Some(Paint::Bold));
    let new = side_line(row, Side::New, false, 3, 20, 0, "");
    assert_eq!(new.spans[2].1, Paint::Added);
    assert_eq!(new.line, None);
}

#[test]
fn a_missing_side_is_filled() {
    let doc = build("", "new line\n", None);
    let row = &doc.rows[0];
    let old = side_line(row, Side::Old, false, 3, 6, 0, "");
    assert_eq!(texts(&old.spans), vec![(" ", Paint::BorderFocus), ("     ", Paint::Filler)]);
}

#[test]
fn unified_rows_carry_both_numbers() {
    let doc = build("a\nb\n", "a\nc\n", None);
    let u = gd::diff::unify(&doc);
    let ctx = unified_line(&u.rows[0], false, 3, 0, "");
    assert_eq!(texts(&ctx.spans)[1], ("  1   1 ", Paint::Gutter));
    let removed = unified_line(&u.rows[1], false, 3, 0, "");
    assert_eq!(texts(&removed.spans)[1], ("  2     ", Paint::Gutter));
    assert_eq!(texts(&removed.spans)[2], ("-", Paint::Removed));
}

#[test]
fn tree_rows_show_guides_arrows_and_badges() {
    let files = vec![
        FileEntry { path: "src/a.rs".into(), old_path: "src/a.rs".into(), status: Status::Added },
        FileEntry { path: "src/b.rs".into(), old_path: "src/b.rs".into(), status: Status::Modified },
    ];
    let tree = Tree::new(&files);
    let dir = tree_line(&tree.nodes[0], true, true);
    assert_eq!(
        texts(&dir.spans),
        vec![("", Paint::Dim), ("\u{25be} ", Paint::Dir), ("src", Paint::Dir), (" 2", Paint::Dim)]
    );
    assert_eq!(dir.line, Some(Paint::Selection));
    let first = tree_line(&tree.nodes[1], false, true);
    assert_eq!(
        texts(&first.spans),
        vec![("\u{251c} ", Paint::Dim), ("A ", Paint::Badge(Status::Added)), ("a.rs", Paint::Text)]
    );
    let last = tree_line(&tree.nodes[2], true, false);
    assert_eq!(texts(&last.spans)[0], ("\u{2514} ", Paint::Dim));
    assert_eq!(last.line, Some(Paint::Bold));
}

#[test]
fn the_window_follows_the_selection() {
    assert_eq!(window(0, 5, 10, 100), 0);
    assert_eq!(window(20, 5, 10, 100), 11);
    assert_eq!(window(7, 5, 10, 100), 5);
    // Never past the last full window.
    assert_eq!(window(7, 50, 10, 12), 2);
}

#[test]
fn matched_characters_are_highlighted_and_the_detail_is_pushed_right() {
    let item = Item {
        candidate: Candidate { display: "abcd".into(), detail: "M".into(), target: Target::Row(0) },
        indices: vec![1, 2],
    };
    let line = result_line(&item, true, 12);
    assert_eq!(
        texts(&line.spans),
        vec![
            ("\u{258c} ", Paint::BorderFocus),
            ("a", Paint::Text),
            ("bc", Paint::MatchHit),
            ("d", Paint::Text),
            ("    ", Paint::Plain),
            ("M", Paint::Dim),
        ]
    );
    assert_eq!(line.line, Some(Paint::Selection));
}

#[test]
fn the_preview_keeps_the_focus_a_third_down() {
    assert_eq!(preview_start(30, 9, 100), 27);
    assert_eq!(preview_start(1, 9, 100), 0);
    assert_eq!(preview_start(99, 9, 100), 91);
    assert_eq!(preview_start(5, 9, 3), 0);
}

#[test]
fn the_help_screen_lists_each_pane_by_description_then_the_picker() {
    let map = gd::keys::Keymap::new();
    let lines = gd::paint::help_lines(&map);
    let flat: Vec<Vec<(&str, Paint)>> = lines.iter().map(|l| texts(&l.spans)).collect();
    assert_eq!(flat[0], vec![("  diff pane", Paint::Title)]);
    // Every entry of a section comes after the one before it by description.
    let mut i = 1;
    let mut prev: Option<&str> = None;
    while !flat[i].is_empty() {
        assert_eq!(flat[i].len(), 2);
        assert_eq!(flat[i][0].1, Paint::Prompt);
        assert!(flat[i][0].0.starts_with("    "));
        assert!(flat[i][0].0.chars().count() >= 16);
        if let Some(p) = prev {
            assert!(p <= flat[i][1].0);
        }
        prev = Some(flat[i][1].0);
        i += 1;
    }
    assert!(flat[1..i].contains(&vec![("    q           ", Paint::Prompt), ("quit", Paint::Text)]));
    assert_eq!(flat[i + 1], vec![("  tree pane", Paint::Title)]);
    let n = flat.len();
    assert_eq!(flat[n - 8], vec![("  picker", Paint::Title)]);
    assert_eq!(flat[n - 7], vec![("    <C-j> <C-n> ", Paint::Prompt), ("next result", Paint::Text)]);
    assert_eq!(flat[n - 1], vec![("    <Esc>       ", Paint::Prompt), ("close", Paint::Text)]);
}
