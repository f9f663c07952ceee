use gd::picker::{Candidate, Kind, Picker, Target};

fn files(paths: &[&str]) -> Vec<Candidate> {
    paths
        .iter()
        .map(|p| Candidate {
            display: p.to_string(),
            detail: "M".into(),
            target: Target::File(p.to_string()),
        })
        .collect()
}

#[test]
fn empty_prompt_lists_everything() {
    let p = Picker::new(Kind::Files, "Files", files(&["a.rs", "b.rs"]));
    assert_eq!(p.items().len(), 2);
}

#[test]
fn fuzzy_matches_across_path_segments() {
    let mut p = Picker::new(
        Kind::Files,
        "Files",
        files(&["src/main.rs", "docs/readme.md", "src/ui/split.rs"]),
    );
    for c in "srmain".chars() {
        p.insert(c);
    }
    assert_eq!(p.items().len(), 1);
    assert_eq!(p.items()[0].candidate.display, "src/main.rs");
    assert!(!p.items()[0].indices.is_empty());
}

#[test]
fn non_matches_are_dropped() {
    let mut p = Picker::new(Kind::Files, "Files", files(&["a.rs"]));
    for c in "zzzz".chars() {
        p.insert(c);
    }
    assert!(p.items().is_empty());
    assert!(p.selected_target().is_none());
}

#[test]
fn ctrl_u_clears_the_prompt_and_restores_the_list() {
    let mut p = Picker::new(Kind::Files, "Files", files(&["a.rs", "b.rs"]));
    p.insert('a');
    assert_eq!(p.items().len(), 1);
    p.clear_prompt();
    assert_eq!(p.items().len(), 2);
    assert!(p.prompt.is_empty());
}

#[test]
fn delete_word_cuts_back_to_a_separator() {
    let mut p = Picker::new(Kind::Files, "Files", files(&["a.rs"]));
    p.prompt = "src/main".into();
    p.delete_word();
    assert_eq!(p.prompt, "src/");
}

#[test]
fn selection_wraps_like_telescope() {
    let mut p = Picker::new(Kind::Files, "Files", files(&["a.rs", "b.rs", "c.rs"]));
    p.move_selection(-1);
    assert_eq!(p.selected, 2);
    p.move_selection(1);
    assert_eq!(p.selected, 0);
}

#[test]
fn live_pickers_keep_backend_order() {
    let mut p = Picker::new(Kind::Grep, "Grep", Vec::new());
    p.insert('x');
    p.set_items(files(&["z.rs", "a.rs"]));
    assert_eq!(p.items()[0].candidate.display, "z.rs");
}

#[test]
fn scrolling_follows_the_selection() {
    let mut p = Picker::new(
        Kind::Files,
        "Files",
        files(&["a", "b", "c", "d", "e", "f", "g"]),
    );
    p.selected = 6;
    p.scroll_into_view(3);
    assert_eq!(p.offset, 4);
    p.selected = 0;
    p.scroll_into_view(3);
    assert_eq!(p.offset, 0);
}

#[test]
fn seeded_prompt_filters_immediately() {
    let p = Picker::new(Kind::Files, "Files", files(&["alpha.rs", "beta.rs"]))
        .with_prompt("alpha");
    assert_eq!(p.items().len(), 1);
}

#[test]
fn match_positions_are_sorted_and_distinct() {
    let mut p = Picker::new(Kind::Files, "Files", files(&["abcabc.rs"]));
    for c in "abc abc".chars() {
        p.insert(c);
    }
    assert_eq!(p.items().len(), 1);
    let ix = &p.items()[0].indices;
    assert!(ix.windows(2).all(|w| w[0] < w[1]), "{ix:?}");
}

#[test]
fn equal_scores_keep_source_order_and_targets_follow_items() {
    let mut p = Picker::new(Kind::Files, "Files", files(&["x1", "x2", "x3"]));
    p.insert('x');
    let names: Vec<&str> = p.items().iter().map(|i| i.candidate.display.as_str()).collect();
    assert_eq!(names, vec!["x1", "x2", "x3"]);
    let targets = p.all_targets();
    assert_eq!(targets[2], Target::File("x3".to_string()));
    p.backspace();
    assert_eq!(p.prompt, "");
    p.move_selection(-4);
    assert_eq!(p.selected, 2);
    assert_eq!(p.selected_target(), Some(&Target::File("x3".to_string())));
}

#[test]
fn delete_word_drops_trailing_space_and_whole_words() {
    let mut p = Picker::new(Kind::Grep, "Grep", Vec::new());
    p.prompt = "foo bar  ".into();
    p.delete_word();
    assert_eq!(p.prompt, "foo ");
    p.delete_word();
    assert_eq!(p.prompt, "");
    assert!(Kind::Grep.is_live());
    assert!(!Kind::Lines.is_live());
}
