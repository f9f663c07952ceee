use gd::app::{AfterLoad, App, Effect, Layout, Overlay};
use gd::git::{Blob, FileEntry, Repo, Spec, Status};
use gd::keys::{Context, Key, KeyCode, CONTROL, NONE};
use gd::paint::Paint;
use gd::picker::{Kind, Target};
use gd::search::Hit;

fn entry(path: &str) -> FileEntry {
    FileEntry { path: path.to_string(), old_path: path.to_string(), status: Status::Modified }
}

fn text(s: &str) -> Result<Blob, String> {
    Ok(Blob::Text(s.to_string()))
}

fn press(app: &mut App, c: char) -> Effect {
    app.on_key(Key::new(KeyCode::Char(c), NONE))
}

fn press_code(app: &mut App, code: KeyCode) -> Effect {
    app.on_key(Key::new(code, NONE))
}

/// A viewer of two changed files with the first one loaded.
fn viewer() -> App {
    let repo = Repo::discover(true, "/tmp/gd-tests\n").unwrap();
    let (mut app, first) = App::new(repo, Spec::Worktree, vec![entry("src/a.rs"), entry("src/b.rs")], false);
    match first {
        Effect::Load(i) => {
            assert_eq!(i, 0);
            let e = app.loaded(i, text("one\ntwo\nthree\n"), text("one\nTWO\nthree\nfour\n"));
            assert!(matches!(e, Effect::Nothing));
        }
        _ => panic!("the first file was not asked for"),
    }
    app
}

#[test]
fn launch_shows_the_first_changed_file_from_the_top() {
    let app = viewer();
    assert_eq!(app.current, Some(0));
    assert_eq!(app.current_file().unwrap().path, "src/a.rs");
    assert_eq!(app.cursor, 0);
    assert_eq!(app.summary(), "+2 -1");
    assert_eq!(app.hunk_position(), Some((1, 1)));
    assert_eq!(app.doc.as_ref().unwrap().rows.len(), 4);
}

#[test]
fn an_empty_change_list_asks_for_nothing() {
    let repo = Repo::discover(true, "/tmp/gd-tests").unwrap();
    let (app, first) = App::new(repo, Spec::Staged, Vec::new(), false);
    assert!(matches!(first, Effect::Nothing));
    assert_eq!(app.summary(), "no file");
}

#[test]
fn movement_keys_stay_within_the_rows() {
    let mut app = viewer();
    for _ in 0..10 {
        press(&mut app, 'j');
    }
    assert_eq!(app.cursor, 3);
    press(&mut app, 'k');
    assert_eq!(app.cursor, 2);
    press(&mut app, 'g');
    assert_eq!(app.pending_label(), "g");
    press(&mut app, 'g');
    assert_eq!(app.cursor, 0);
    press(&mut app, 'G');
    assert_eq!(app.cursor, 3);
}

#[test]
fn the_search_prompt_is_smart_case() {
    let mut app = viewer();
    press(&mut app, '/');
    assert!(matches!(app.overlay, Some(Overlay::Prompt(_))));
    for c in "two".chars() {
        press(&mut app, c);
    }
    press_code(&mut app, KeyCode::Enter);
    assert!(app.overlay.is_none());
    assert_eq!(app.find_query(), "two");
    assert_eq!(app.find_matches(), &[1]);
    assert_eq!(app.cursor, 1);
    assert_eq!(app.message.as_deref(), Some("match 1/1"));
    // An uppercase letter makes the search exact.
    press(&mut app, '/');
    for c in "Two".chars() {
        press(&mut app, c);
    }
    press_code(&mut app, KeyCode::Enter);
    assert!(app.find_matches().is_empty());
    assert_eq!(app.message.as_deref(), Some("pattern not found: Two"));
    // Escape clears it.
    press_code(&mut app, KeyCode::Esc);
    assert_eq!(app.find_query(), "");
}

#[test]
fn hunks_wrap_at_the_end() {
    let mut app = viewer();
    // The one hunk starts at the first row, with its context.
    press(&mut app, 'j');
    press(&mut app, 'j');
    press(&mut app, ']');
    press(&mut app, 'c');
    assert_eq!(app.cursor, 0);
    assert_eq!(app.message.as_deref(), Some("search hit the end, wrapped"));
    press(&mut app, '[');
    press(&mut app, 'c');
    assert_eq!(app.cursor, 0);
}

#[test]
fn the_next_file_is_asked_for() {
    let mut app = viewer();
    press(&mut app, ']');
    let e = press(&mut app, 'g');
    assert!(matches!(e, Effect::Load(1)));
    assert!(matches!(app.after_load, AfterLoad::Stay));
    let e = app.loaded(1, text("x\n"), text("y\n"));
    assert!(matches!(e, Effect::Nothing));
    assert_eq!(app.current, Some(1));
}

#[test]
fn a_side_that_cannot_be_read_shows_as_absent() {
    let mut app = viewer();
    let e = app.loaded(1, Err("reading src/b.rs".to_string()), text("y\n"));
    assert!(matches!(e, Effect::Nothing));
    assert_eq!(app.message.as_deref(), Some("reading src/b.rs"));
    assert_eq!(app.summary(), "no content change");
}

#[test]
fn binary_sides_show_no_rows() {
    let mut app = viewer();
    app.loaded(1, Ok(Blob::Binary), text("y\n"));
    assert_eq!(app.summary(), "binary");
    assert_eq!(app.doc.as_ref().unwrap().rows.len(), 0);
}

#[test]
fn switching_the_layout_reloads_and_keeps_the_cursor() {
    let mut app = viewer();
    press(&mut app, 'G');
    let e = press_code(&mut app, KeyCode::Tab);
    assert!(matches!(e, Effect::Load(0)));
    app.loaded(0, text("one\ntwo\nthree\n"), text("one\nTWO\nthree\nfour\n"));
    assert_eq!(app.layout, Layout::Unified);
    // The changed row became a removed row and an added row.
    assert_eq!(app.doc.as_ref().unwrap().rows.len(), 5);
    assert_eq!(app.cursor, 3);
}

#[test]
fn showing_the_whole_file_says_so() {
    let mut app = viewer();
    press(&mut app, 'z');
    let e = press(&mut app, 'a');
    assert!(matches!(e, Effect::Load(0)));
    app.loaded(0, text("one\ntwo\nthree\n"), text("one\nTWO\nthree\nfour\n"));
    assert!(app.full_context);
    assert_eq!(app.message.as_deref(), Some("showing whole file"));
}

#[test]
fn yanking_asks_for_the_clipboard() {
    let mut app = viewer();
    match press(&mut app, 'Y') {
        Effect::Yank(p) => assert_eq!(p, "src/a.rs"),
        _ => panic!("no yank"),
    }
    assert_eq!(app.message.as_deref(), Some("yanked src/a.rs"));
    assert!(matches!(app.resume(), Effect::Nothing));
}

#[test]
fn the_editor_opens_at_the_line_under_the_cursor() {
    let mut app = viewer();
    press(&mut app, 'G');
    match press(&mut app, 'e') {
        Effect::OpenEditor { path, line } => {
            assert_eq!(path, "src/a.rs");
            assert_eq!(line, 4);
        }
        _ => panic!("no editor"),
    }
}

#[test]
fn reloading_reopens_the_file_on_screen() {
    let mut app = viewer();
    assert!(matches!(press(&mut app, 'R'), Effect::Reload));
    let e = app.reloaded(Ok(vec![entry("src/0.rs"), entry("src/a.rs"), entry("src/b.rs")]));
    assert!(matches!(e, Effect::Load(1)));
    app.loaded(1, text("a\n"), text("b\n"));
    assert_eq!(app.message.as_deref(), Some("reloaded -- 3 changed files"));
    let e = app.reloaded(Err("git diff failed".to_string()));
    assert!(matches!(e, Effect::Nothing));
    assert_eq!(app.message.as_deref(), Some("git diff failed"));
}

#[test]
fn the_live_grep_waits_for_two_characters() {
    let mut app = viewer();
    press(&mut app, ' ');
    press(&mut app, 'k');
    assert!(matches!(app.overlay, Some(Overlay::Picker(_))));
    assert!(matches!(press(&mut app, 't'), Effect::Nothing));
    match press(&mut app, 'w') {
        Effect::Grep(q) => assert_eq!(q, "tw"),
        _ => panic!("no grep"),
    }
    let hit = Hit { path: "src/b.rs".to_string(), line: 2, text: "two".to_string() };
    assert!(matches!(app.grep_done(vec![hit]), Effect::Nothing));
    match &app.overlay {
        Some(Overlay::Picker(p)) => {
            assert_eq!(p.items().len(), 1);
            assert_eq!(p.items()[0].candidate.detail, "src/b.rs:2");
        }
        _ => panic!("the picker closed"),
    }
    // Enter opens the file of the hit and then finds its line.
    let e = press_code(&mut app, KeyCode::Enter);
    assert!(matches!(e, Effect::Load(1)));
    assert!(matches!(app.after_load, AfterLoad::NewLine(2)));
    app.loaded(1, text("one\n"), text("one\ntwo\n"));
    assert_eq!(app.cursor, 1);
    assert_eq!(app.focus, Context::Diff);
}

#[test]
fn the_quickfix_list_takes_every_result() {
    let mut app = viewer();
    press(&mut app, ' ');
    press(&mut app, 'j');
    let e = app.on_key(Key::new(KeyCode::Char('q'), CONTROL));
    assert!(matches!(e, Effect::Load(_)));
    assert_eq!(app.quickfix.len(), 2);
    assert_eq!(app.message.as_deref(), Some("2 items in quickfix -- ]q / [q"));
}

#[test]
fn the_line_picker_jumps_to_a_row() {
    let mut app = viewer();
    press(&mut app, ' ');
    press(&mut app, 'f');
    press(&mut app, 's');
    for c in "four".chars() {
        press(&mut app, c);
    }
    press_code(&mut app, KeyCode::Enter);
    assert_eq!(app.cursor, 3);
}

#[test]
fn help_scrolls_and_any_other_key_closes_it() {
    let mut app = viewer();
    press(&mut app, '?');
    press(&mut app, 'j');
    assert!(matches!(app.overlay, Some(Overlay::Help { scroll: 1 })));
    press(&mut app, 'x');
    assert!(app.overlay.is_none());
}

#[test]
fn the_preview_of_a_location_centres_on_its_line() {
    let app = viewer();
    let blob = Blob::Text("l1\nl2\nl3\n".to_string());
    let p = app.preview(&Target::Location { path: "src/b.rs".to_string(), line: 3 }, Some(&blob));
    assert_eq!(p.title, "src/b.rs:3");
    assert_eq!(p.lines, vec!["l1", "l2", "l3"]);
    assert_eq!(p.focus, 2);
    let p = app.preview(&Target::File("src/b.rs".to_string()), Some(&Blob::Binary));
    assert_eq!(p.lines, vec!["<binary file>"]);
}

#[test]
fn the_word_under_the_cursor_prefers_the_changed_one() {
    let mut app = viewer();
    app.loaded(1, text("let alpha = beta;\n"), text("let alpha = gamma;\n"));
    assert_eq!(app.word_under_cursor(), "gamma");
}

#[test]
fn quitting_sets_the_flag() {
    let mut app = viewer();
    press(&mut app, 'q');
    assert!(app.quit);
}

#[test]
fn the_status_line_sums_up_the_view() {
    let app = viewer();
    let line = app.status_line("main");
    let got: Vec<(&str, Paint)> = line.spans.iter().map(|(s, p)| (s.as_str(), *p)).collect();
    assert_eq!(
        got,
        vec![
            (" DIFF ", Paint::StatusAccent),
            (" main ", Paint::Status),
            ("\u{2502} src/a.rs ", Paint::Status),
            ("\u{2502} 1/4 ", Paint::Status),
            ("\u{2502} +2 -1 ", Paint::Status),
            ("\u{2502} hunk 1/1 ", Paint::Status),
            ("\u{2502} ? help ", Paint::Status),
        ]
    );
    assert_eq!(line.line, Some(Paint::Status));
}

#[test]
fn a_message_takes_over_the_status_line() {
    let mut app = viewer();
    press(&mut app, 'Y');
    let line = app.status_line("main");
    assert_eq!(line.spans.len(), 1);
    assert_eq!(line.spans[0].0, " yanked src/a.rs");
    assert_eq!(line.spans[0].1, Paint::Warn);
}

#[test]
fn resuming_reopens_the_closed_picker_with_its_prompt() {
    let mut app = viewer();
    press(&mut app, ' ');
    press(&mut app, 'j');
    press(&mut app, 'b');
    press_code(&mut app, KeyCode::Esc);
    assert!(app.overlay.is_none());
    press(&mut app, ' ');
    press(&mut app, 'f');
    press(&mut app, 'r');
    match &app.overlay {
        Some(Overlay::Picker(p)) => {
            assert_eq!(p.kind(), Kind::Files);
            assert_eq!(p.prompt_str(), "b");
            assert_eq!(p.items().len(), 1);
        }
        _ => panic!("expected the file picker to be open again"),
    }
}

#[test]
fn quickfix_steps_come_back_to_the_same_entry() {
    let mut app = viewer();
    press(&mut app, ' ');
    press(&mut app, 'j');
    app.on_key(Key::new(KeyCode::Char('q'), CONTROL));
    let before = app.quickfix_at;
    press(&mut app, ']');
    press(&mut app, 'q');
    assert_eq!(app.message.as_deref(), Some("(2/2)"));
    press(&mut app, '[');
    press(&mut app, 'q');
    assert_eq!(app.quickfix_at, before);
    assert_eq!(app.quickfix.len(), 2);
}

#[test]
fn the_tree_filter_follows_its_prompt_and_escape_clears_it() {
    let mut app = viewer();
    app.focus = Context::Tree;
    press(&mut app, '/');
    press(&mut app, 'B');
    let rows: Vec<&str> = app.tree.nodes.iter().map(|n| n.path.as_str()).collect();
    assert_eq!(rows, vec!["src", "src/b.rs"]);
    assert_eq!(app.tree.filter(), "b");
    press_code(&mut app, KeyCode::Esc);
    assert!(app.overlay.is_none());
    assert_eq!(app.tree.filter(), "");
    assert_eq!(app.tree.nodes.len(), 3);
}

#[test]
fn swapping_twice_puts_the_old_side_back_on_the_left() {
    let mut app = viewer();
    assert!(!app.swapped);
    assert!(matches!(press(&mut app, 's'), Effect::Nothing));
    assert!(app.swapped);
    assert!(matches!(press(&mut app, 's'), Effect::Nothing));
    assert!(!app.swapped);
}

#[test]
fn sideways_scrolling_stays_within_its_bounds() {
    let mut app = viewer();
    for _ in 0..300 {
        press(&mut app, 'l');
    }
    assert_eq!(app.hscroll, 2000);
    press(&mut app, 'h');
    assert_eq!(app.hscroll, 1992);
    press(&mut app, '0');
    assert_eq!(app.hscroll, 0);
    press(&mut app, 'h');
    assert_eq!(app.hscroll, 0);
}
