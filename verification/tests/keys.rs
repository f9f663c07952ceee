use gd::keys::{
    longest_complete, parse, render_pending, resolve, Action, Context, Key, KeyCode, Keymap, MediaKeyCode,
    Resolved, ALT, CONTROL, NONE, SHIFT,
};

fn k(c: char) -> Key {
    Key::new(KeyCode::Char(c), NONE)
}

fn ctrl(c: char) -> Key {
    Key::new(KeyCode::Char(c), CONTROL)
}

#[test]
fn parses_nvim_notation() {
    assert_eq!(parse("<leader>fw"), vec![k(' '), k('f'), k('w')]);
    assert_eq!(parse("<C-d>"), vec![ctrl('d')]);
    assert_eq!(parse("]g"), vec![k(']'), k('g')]);
    assert_eq!(parse("<CR>"), vec![Key::new(KeyCode::Enter, NONE)]);
    assert_eq!(parse("<bslash>"), vec![k('\\')]);
}

#[test]
fn renders_back_to_notation() {
    assert_eq!(ctrl('d').render(), "<C-d>");
    assert_eq!(k('j').render(), "j");
    assert_eq!(k(' ').render(), "<Space>");
}

#[test]
fn leader_sequence_resolves_after_all_keys() {
    let map = Keymap::new();
    let mut p = Vec::new();
    assert_eq!(resolve(&map, Context::Diff, &mut p, k(' ')), Resolved::Pending);
    assert_eq!(resolve(&map, Context::Diff, &mut p, k('f')), Resolved::Pending);
    assert_eq!(
        resolve(&map, Context::Diff, &mut p, k('w')),
        Resolved::Action(Action::PickGrepWord)
    );
    assert!(p.is_empty());
}

#[test]
fn single_key_fires_immediately() {
    let map = Keymap::new();
    let mut p = Vec::new();
    assert_eq!(
        resolve(&map, Context::Diff, &mut p, k('j')),
        Resolved::Action(Action::Down)
    );
}

#[test]
fn space_toggles_a_tree_node_when_nothing_extends_it() {
    // nvim's `nowait = false`: <Space> is both a mapping and the leader.
    let map = Keymap::new();
    let mut p = Vec::new();
    assert_eq!(resolve(&map, Context::Tree, &mut p, k(' ')), Resolved::Pending);
    // `x` extends nothing, so <Space> falls back to toggle_node and `x`
    // is replayed on its own.
    assert_eq!(
        resolve(&map, Context::Tree, &mut p, k('x')),
        Resolved::ActionThenReplay(Action::TreeToggleNode, k('x'))
    );
}

#[test]
fn space_still_works_as_leader_in_the_tree() {
    let map = Keymap::new();
    let mut p = Vec::new();
    resolve(&map, Context::Tree, &mut p, k(' '));
    resolve(&map, Context::Tree, &mut p, k('f'));
    assert_eq!(
        resolve(&map, Context::Tree, &mut p, k('b')),
        Resolved::Action(Action::PickBuffers)
    );
}

#[test]
fn unknown_sequences_are_discarded() {
    let map = Keymap::new();
    let mut p = Vec::new();
    assert_eq!(resolve(&map, Context::Diff, &mut p, k('Q')), Resolved::Nothing);
    assert!(p.is_empty());
}

#[test]
fn z_folds_the_tree_without_waiting() {
    let map = Keymap::new();
    let mut p = Vec::new();
    assert_eq!(
        resolve(&map, Context::Tree, &mut p, k('z')),
        Resolved::Action(Action::TreeToggleAll)
    );
    assert!(p.is_empty());
}

#[test]
fn z_still_starts_a_sequence_in_the_diff_pane() {
    let map = Keymap::new();
    let mut p = Vec::new();
    assert_eq!(resolve(&map, Context::Diff, &mut p, k('z')), Resolved::Pending);
    assert_eq!(
        resolve(&map, Context::Diff, &mut p, k('a')),
        Resolved::Action(Action::ToggleFullContext)
    );
}

#[test]
fn timeout_falls_back_to_the_longest_complete_prefix() {
    let map = Keymap::new();
    // <Space> alone toggles a tree node once the timeout expires.
    assert_eq!(
        longest_complete(&map, Context::Tree, &[k(' ')]),
        Some(Action::TreeToggleNode)
    );
    // In the diff pane <Space> is only ever a leader, so nothing fires.
    assert_eq!(longest_complete(&map, Context::Diff, &[k(' ')]), None);
    // A half-typed leader sequence also resolves to nothing.
    assert_eq!(longest_complete(&map, Context::Diff, &[k(' '), k('f')]), None);
}

#[test]
fn bracket_g_moves_between_files_in_both_panes() {
    let map = Keymap::new();
    for ctx in [Context::Diff, Context::Tree] {
        let mut p = Vec::new();
        resolve(&map, ctx, &mut p, k(']'));
        assert_eq!(
            resolve(&map, ctx, &mut p, k('g')),
            Resolved::Action(Action::NextFile)
        );
    }
}

#[test]
fn shift_is_dropped_from_characters_only() {
    assert_eq!(Key::new(KeyCode::Char('A'), SHIFT), k('A'));
    assert_eq!(Key::new(KeyCode::Char('A'), SHIFT | CONTROL).mods, CONTROL);
    assert_eq!(Key::new(KeyCode::Tab, SHIFT).mods, SHIFT);
}

#[test]
fn names_are_case_insensitive_and_unknown_ones_stay_literal() {
    assert_eq!(parse("<c-D>"), vec![ctrl('d')]);
    assert_eq!(parse("<M-x>"), vec![Key::new(KeyCode::Char('x'), ALT)]);
    assert_eq!(parse("<PageDown>"), vec![Key::new(KeyCode::PageDown, NONE)]);
    assert_eq!(parse("<nope>"), vec![k('<'), k('n'), k('o'), k('p'), k('e'), k('>')]);
    assert_eq!(parse("<C->"), vec![k('<'), k('C'), k('-'), k('>')]);
    assert_eq!(parse("<"), vec![k('<')]);
}

#[test]
fn rendering_spells_out_special_keys() {
    assert_eq!(Key::new(KeyCode::F(12), NONE).render(), "<F12>");
    assert_eq!(Key::new(KeyCode::Enter, CONTROL | ALT).render(), "<C-M-CR>");
    assert_eq!(Key::new(KeyCode::Media(MediaKeyCode::Play), NONE).render(), "<Media(Play)>");
    assert_eq!(Key::new(KeyCode::Delete, NONE).render(), "<Delete>");
    assert_eq!(k('é').render(), "<é>");
    assert_eq!(render_pending(&[k(' '), k('f'), ctrl('w')]), "<Space>f<C-w>");
}

#[test]
fn pane_bindings_win_over_shared_ones() {
    let map = Keymap::new();
    let help: Vec<(String, Action)> = map.entries(Context::Tree);
    assert!(help.iter().any(|(s, a)| s == "<Space>" && *a == Action::TreeToggleNode));
    assert!(help.iter().any(|(s, a)| s == "q" && *a == Action::Quit));
    let mut seen = std::collections::HashSet::new();
    for (s, _) in &help {
        assert!(seen.insert(s.clone()), "{s} bound twice");
    }
    // `<C-w>` alone waits for the window command.
    let mut p = Vec::new();
    assert_eq!(resolve(&map, Context::Diff, &mut p, ctrl('w')), Resolved::Pending);
    assert_eq!(resolve(&map, Context::Diff, &mut p, k('l')), Resolved::Action(Action::FocusDiff));
}

#[test]
fn capital_z_expands_the_whole_tree() {
    let map = Keymap::new();
    let mut p = Vec::new();
    assert_eq!(resolve(&map, Context::Tree, &mut p, k('Z')), Resolved::Action(Action::TreeExpandAll));
    assert!(p.is_empty());
}
