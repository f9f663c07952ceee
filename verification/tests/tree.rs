use gd::git::{FileEntry, Status};
use gd::tree::{parent_of, NodeKind, Tree};

fn entries(paths: &[&str]) -> Vec<FileEntry> {
    paths
        .iter()
        .map(|p| FileEntry {
            path: p.to_string(),
            old_path: p.to_string(),
            status: Status::Modified,
        })
        .collect()
}

#[test]
fn nests_directories_and_files() {
    let files = entries(&["src/a.rs", "src/b.rs", "README.md"]);
    let t = Tree::new(&files);
    let paths: Vec<&str> = t.nodes.iter().map(|n| n.path.as_str()).collect();
    assert_eq!(paths, vec!["src", "src/a.rs", "src/b.rs", "README.md"]);
}

#[test]
fn groups_single_child_directory_chains() {
    let files = entries(&["a/b/c/deep.rs"]);
    let t = Tree::new(&files);
    assert_eq!(t.nodes[0].name, "a/b/c");
    assert_eq!(t.nodes[0].path, "a/b/c");
    assert_eq!(t.nodes.len(), 2);
}

#[test]
fn grouping_can_be_turned_off() {
    let files = entries(&["a/b/c/deep.rs"]);
    let mut t = Tree::new(&files);
    t.toggle_group_dirs(&files);
    assert_eq!(t.nodes.len(), 4);
    assert_eq!(t.nodes[0].name, "a");
}

#[test]
fn collapsing_hides_children() {
    let files = entries(&["src/a.rs", "src/b.rs"]);
    let mut t = Tree::new(&files);
    assert_eq!(t.nodes.len(), 3);
    t.selected = 0;
    t.toggle(&files);
    assert_eq!(t.nodes.len(), 1);
    t.toggle(&files);
    assert_eq!(t.nodes.len(), 3);
}

#[test]
fn step_file_skips_directory_rows_and_wraps() {
    let files = entries(&["src/a.rs", "src/b.rs"]);
    let mut t = Tree::new(&files);
    t.selected = 0; // on the "src" directory
    assert_eq!(t.step_file(true), Some(0));
    assert_eq!(t.step_file(true), Some(1));
    // Wrapping past the end comes back to the first file.
    assert_eq!(t.step_file(true), Some(0));
    assert_eq!(t.step_file(false), Some(1));
}

#[test]
fn toggle_all_alternates_between_the_two_extremes() {
    let files = entries(&["src/deep/x.rs", "src/y.rs", "other.rs"]);
    let mut t = Tree::new(&files);
    let open = t.nodes.len();

    assert_eq!(t.toggle_all(&files), Some(false));
    let shut = t.nodes.len();
    assert!(shut < open, "collapsing should hide rows");

    assert_eq!(t.toggle_all(&files), Some(true));
    assert_eq!(t.nodes.len(), open);
}

#[test]
fn toggle_all_collapses_first_from_a_partly_open_tree() {
    let files = entries(&["a/one.rs", "b/two.rs"]);
    let mut t = Tree::new(&files);
    let open = t.nodes.len();
    // Collapse just one of the two directories.
    t.reveal_path("a", &files);
    t.toggle(&files);
    assert!(t.nodes.len() < open);

    // Anything still open means the first press closes the rest.
    assert_eq!(t.toggle_all(&files), Some(false));
    assert!(!t.nodes.iter().any(|n| n.is_dir() && n.expanded));
    assert_eq!(t.toggle_all(&files), Some(true));
    assert_eq!(t.nodes.len(), open);
}

#[test]
fn toggle_all_reports_nothing_to_do_on_a_flat_tree() {
    let files = entries(&["a.rs", "b.rs"]);
    let mut t = Tree::new(&files);
    assert_eq!(t.toggle_all(&files), None);
    assert_eq!(t.nodes.len(), 2);
}

#[test]
fn reveal_expands_ancestors() {
    let files = entries(&["src/deep/x.rs", "other.rs"]);
    let mut t = Tree::new(&files);
    t.close_all(&files);
    assert!(!t.nodes.iter().any(|n| n.path == "src/deep/x.rs"));
    assert!(t.reveal_path("src/deep/x.rs", &files));
    assert_eq!(t.selected_path(), Some("src/deep/x.rs"));
}

#[test]
fn filter_keeps_matching_paths_only() {
    let files = entries(&["src/alpha.rs", "src/beta.rs", "docs/alpha.md"]);
    let mut t = Tree::new(&files);
    t.set_filter("beta", &files);
    let paths: Vec<&str> = t.nodes.iter().map(|n| n.path.as_str()).collect();
    assert_eq!(paths, vec!["src", "src/beta.rs"]);
}

#[test]
fn directory_rows_carry_a_count() {
    let files = entries(&["src/a.rs", "src/b.rs", "src/c.rs"]);
    let t = Tree::new(&files);
    assert_eq!(t.nodes[0].count, 3);
}

#[test]
fn reload_keeps_the_cursor_on_the_same_file() {
    let files = entries(&["src/a.rs", "src/b.rs"]);
    let mut t = Tree::new(&files);
    t.reveal_path("src/b.rs", &files);
    let more = entries(&["src/a.rs", "src/b.rs", "src/c.rs"]);
    t.reload(&more);
    assert_eq!(t.selected_path(), Some("src/b.rs"));
}

#[test]
fn rows_carry_guides_last_child_and_status() {
    let mut files = entries(&["src/a.rs", "src/b.rs", "z.rs"]);
    files[2].status = Status::Added;
    let t = Tree::new(&files);
    let n = &t.nodes;
    assert_eq!(n.len(), 4);
    assert_eq!(n[0].kind, NodeKind::Dir);
    assert!(!n[0].last_child);
    assert_eq!(n[1].depth, 1);
    assert_eq!(n[1].guides, vec![false]);
    assert!(!n[1].last_child);
    assert!(n[2].last_child);
    assert_eq!(n[2].kind, NodeKind::File(1));
    assert_eq!(n[3].status, Some(Status::Added));
    assert!(n[3].last_child);
    assert_eq!(n[0].status, None);
}

#[test]
fn close_node_collapses_the_parent_of_a_file_and_lands_on_it() {
    let files = entries(&["src/a.rs", "src/b.rs", "z.rs"]);
    let mut t = Tree::new(&files);
    t.selected = 2; // src/b.rs
    t.close_node(&files);
    let paths: Vec<&str> = t.nodes.iter().map(|n| n.path.as_str()).collect();
    assert_eq!(paths, vec!["src", "z.rs"]);
    assert_eq!(t.selected_path(), Some("src"));
    assert!(!t.nodes[0].expanded);
}

#[test]
fn navigate_up_and_cursor_movement() {
    let files = entries(&["src/a.rs", "src/b.rs", "z.rs"]);
    let mut t = Tree::new(&files);
    t.selected = 2;
    t.navigate_up();
    assert_eq!(t.selected, 0);
    t.move_by(10);
    assert_eq!(t.selected, 3);
    t.move_by(-2);
    assert_eq!(t.selected, 1);
    t.move_by(-5);
    assert_eq!(t.selected, 0);
    t.select_last();
    assert_eq!(t.selected_file(), Some(2));
    t.select_first();
    assert_eq!(t.selected_file(), None);
    assert!(t.selected_node().unwrap().is_dir());
}

#[test]
fn duplicate_paths_keep_the_last_index() {
    let files = entries(&["a.rs", "a.rs"]);
    let t = Tree::new(&files);
    assert_eq!(t.nodes.len(), 1);
    assert_eq!(t.nodes[0].kind, NodeKind::File(1));
}

#[test]
fn filter_is_lowercased_and_case_insensitive() {
    let files = entries(&["src/Alpha.rs", "src/beta.rs"]);
    let mut t = Tree::new(&files);
    t.set_filter("ALPHA", &files);
    assert_eq!(t.filter(), "alpha");
    let paths: Vec<&str> = t.nodes.iter().map(|n| n.path.as_str()).collect();
    assert_eq!(paths, vec!["src", "src/Alpha.rs"]);
}

#[test]
fn parent_of_cuts_at_the_last_slash() {
    assert_eq!(parent_of("a/b/c.rs"), Some("a/b"));
    assert_eq!(parent_of("c.rs"), None);
    assert_eq!(parent_of("/x"), Some(""));
}

#[test]
fn revealing_keeps_statuses_that_were_shown() {
    let mut files = entries(&["src/a.rs", "top.rs"]);
    files[1].status = Status::Deleted;
    let mut t = Tree::new(&files);
    t.selected = 0;
    t.toggle(&files);
    assert!(t.reveal_path("src/a.rs", &files));
    assert_eq!(t.selected_path(), Some("src/a.rs"));
    // Revealing re-derives the rows but changes no badge.
    let top = t.nodes.iter().find(|n| n.path == "top.rs").unwrap();
    assert_eq!(top.status, Some(Status::Deleted));
    let a = t.nodes.iter().find(|n| n.path == "src/a.rs").unwrap();
    assert_eq!(a.status, Some(Status::Modified));
}

#[test]
fn files_that_a_reveal_uncovers_keep_their_badges() {
    let mut files = entries(&["src/deep/x.rs", "other.rs"]);
    files[0].status = Status::Added;
    let mut t = Tree::new(&files);
    t.close_all(&files);
    assert!(t.reveal_path("src/deep/x.rs", &files));
    let x = t.nodes.iter().find(|n| n.path == "src/deep/x.rs").unwrap();
    assert_eq!(x.status, Some(Status::Added));
    for n in &t.nodes {
        if !n.is_dir() {
            assert!(n.status.is_some());
        }
    }
}

#[test]
fn every_directory_counts_the_files_below_it() {
    let files = entries(&["src/ui/b.rs", "src/a.rs", "src/ui/c.rs", "docs/x.md", "README"]);
    let t = Tree::new(&files);
    let rows: Vec<(&str, usize)> = t
        .nodes
        .iter()
        .filter(|n| n.is_dir())
        .map(|n| (n.path.as_str(), n.count))
        .collect();
    assert_eq!(rows, vec![("docs", 1), ("src", 3), ("src/ui", 2)]);
}

#[test]
fn toggling_all_twice_from_an_open_tree_restores_its_rows() {
    let files = entries(&["a/one.rs", "b/c/two.rs", "top.rs"]);
    let mut t = Tree::new(&files);
    let rows: Vec<String> = t.nodes.iter().map(|n| n.path.clone()).collect();
    assert_eq!(t.toggle_all(&files), Some(false));
    assert!(t.nodes.len() < rows.len());
    assert_eq!(t.toggle_all(&files), Some(true));
    let again: Vec<String> = t.nodes.iter().map(|n| n.path.clone()).collect();
    assert_eq!(again, rows);
}
