use gd::diff::{build, merge, unify, word_emphasis, Body, Document, RowKind};

#[test]
fn sides_stay_aligned_row_for_row() {
    let doc = build("a\nb\nc\n", "a\nB\nc\n", None);
    assert_eq!(doc.rows.len(), 3);
    for row in &doc.rows {
        // No row may be blank on both sides outside a separator.
        assert!(row.old.is_some() || row.new.is_some());
    }
    assert_eq!(doc.rows[1].kind, RowKind::Changed);
    assert_eq!(doc.added, 1);
    assert_eq!(doc.removed, 1);
}

#[test]
fn deletions_leave_the_right_side_empty() {
    let doc = build("a\nb\nc\n", "a\nc\n", None);
    let removed: Vec<_> = doc
        .rows
        .iter()
        .filter(|r| r.kind == RowKind::Removed)
        .collect();
    assert_eq!(removed.len(), 1);
    assert_eq!(removed[0].old.as_ref().unwrap().text, "b");
    assert!(removed[0].new.is_none());
}

#[test]
fn line_numbers_track_each_side_independently() {
    let doc = build("a\nb\nc\n", "a\nx\ny\nb\nc\n", None);
    let last = doc.rows.last().unwrap();
    assert_eq!(last.old.as_ref().unwrap().number, 3);
    assert_eq!(last.new.as_ref().unwrap().number, 5);
}

#[test]
fn word_emphasis_marks_only_the_changed_token() {
    let (old, new) = word_emphasis("let x = 1;", "let x = 2;");
    assert_eq!(old.len(), 1);
    assert_eq!(new.len(), 1);
    // The tokenizer keeps trailing punctuation with its word, so the span
    // is the whole token -- but it must not reach back over "let x".
    let (s, e) = new[0];
    assert!("let x = 2;"[s..e].contains('2'));
    assert!(!"let x = 2;"[s..e].contains('x'));
    assert!(s >= "let x = ".len());
}

#[test]
fn wholly_rewritten_lines_get_no_confetti() {
    let (old, new) = word_emphasis("alpha beta gamma", "zzz qqq www");
    assert!(old.is_empty() && new.is_empty());
}

#[test]
fn context_mode_inserts_separators_between_hunks() {
    let mut o = String::new();
    let mut n = String::new();
    for i in 0..100 {
        o.push_str(&format!("line {i}\n"));
        n.push_str(&format!("line {i}\n"));
    }
    let o = o.replace("line 5\n", "LINE 5\n");
    let n = n.replace("line 90\n", "LINE 90\n");
    let doc = build(&o, &n, Some(3));
    assert_eq!(doc.hunks.len(), 2);
    assert!(doc.rows.iter().any(|r| r.kind == RowKind::Separator));
    // Far fewer rows than the 100-line file: context is actually collapsed.
    assert!(doc.rows.len() < 30, "got {} rows", doc.rows.len());
}

#[test]
fn unify_splits_changed_rows_in_two() {
    let doc = build("a\nb\nc\n", "a\nB\nc\n", None);
    let u = unify(&doc);
    assert_eq!(u.rows.len(), 4);
    assert_eq!(u.rows[1].kind, RowKind::Removed);
    assert_eq!(u.rows[1].old.as_ref().unwrap().text, "b");
    assert!(u.rows[1].new.is_none());
    assert_eq!(u.rows[2].kind, RowKind::Added);
    assert_eq!(u.rows[2].new.as_ref().unwrap().text, "B");
    // Counts are a property of the diff, not of how it is drawn.
    assert_eq!((u.added, u.removed), (doc.added, doc.removed));
}

#[test]
fn unify_keeps_hunk_markers_pointing_at_the_right_rows() {
    let mut o = String::new();
    let mut n = String::new();
    for i in 0..60 {
        o.push_str(&format!("line {i}\n"));
        n.push_str(&format!("line {i}\n"));
    }
    let o = o.replace("line 5\n", "LINE 5\n");
    let n = n.replace("line 50\n", "LINE 50\n");
    let doc = build(&o, &n, Some(3));
    let u = unify(&doc);
    assert_eq!(u.hunks.len(), doc.hunks.len());
    for &row in &u.hunks {
        assert!(row < u.rows.len());
    }
    // Every hunk marker still lands on the first row of its hunk.
    for (i, &row) in u.hunks.iter().enumerate() {
        assert_eq!(u.rows[row].hunk, i + 1);
    }
}

/// A document with hunks starting at the given rows.
fn with_hunks(hunks: &[usize]) -> Document {
    Document {
        rows: Vec::new(),
        hunks: hunks.to_vec(),
        added: 0,
        removed: 0,
        body: Body::Text,
    }
}

#[test]
fn step_hunk_walks_forward_and_back() {
    let doc = with_hunks(&[0, 10, 20]);
    assert_eq!(doc.step_hunk(0, true), Some((10, false)));
    assert_eq!(doc.step_hunk(10, true), Some((20, false)));
    assert_eq!(doc.step_hunk(20, false), Some((10, false)));
    // From between two hunks, not just from a hunk start.
    assert_eq!(doc.step_hunk(5, true), Some((10, false)));
    assert_eq!(doc.step_hunk(15, false), Some((10, false)));
}

#[test]
fn step_hunk_wraps_at_both_ends() {
    let doc = with_hunks(&[0, 10, 20]);
    assert_eq!(doc.step_hunk(20, true), Some((0, true)));
    assert_eq!(doc.step_hunk(0, false), Some((20, true)));
}

#[test]
fn step_hunk_reports_a_file_with_no_hunks() {
    assert_eq!(with_hunks(&[]).step_hunk(0, true), None);
}

#[test]
fn step_hunk_handles_a_single_hunk() {
    let doc = with_hunks(&[7]);
    // The only hunk is always the answer, and going there is a wrap.
    assert_eq!(doc.step_hunk(7, true), Some((7, true)));
    assert_eq!(doc.step_hunk(7, false), Some((7, true)));
    assert_eq!(doc.step_hunk(0, true), Some((7, false)));
}

#[test]
fn empty_and_missing_sides_are_handled() {
    let doc = build("", "a\nb\n", None);
    assert_eq!(doc.added, 2);
    assert_eq!(doc.removed, 0);
    let doc = build("a\nb\n", "", None);
    assert_eq!(doc.removed, 2);
}

#[test]
fn identical_input_is_flagged() {
    let doc = build("a\nb\n", "a\nb\n", Some(3));
    assert_eq!(doc.body, Body::Identical);
    assert_eq!(doc.rows.len(), 2);
}

#[test]
fn file_without_trailing_newline_keeps_its_last_line() {
    let doc = build("a\nb", "a\nc", None);
    assert_eq!(doc.rows.len(), 2);
    assert_eq!(doc.rows[1].new.as_ref().unwrap().text, "c");
}

#[test]
fn full_view_reads_back_both_files_side_by_side() {
    let doc = build("a\nb\nc\nd\n", "a\nx\nc\ny\nz\n", None);
    let old: Vec<(usize, &str)> = doc
        .rows
        .iter()
        .filter_map(|r| r.old.as_ref().map(|c| (c.number, c.text.as_str())))
        .collect();
    let new: Vec<(usize, &str)> = doc
        .rows
        .iter()
        .filter_map(|r| r.new.as_ref().map(|c| (c.number, c.text.as_str())))
        .collect();
    assert_eq!(old, vec![(1, "a"), (2, "b"), (3, "c"), (4, "d")]);
    assert_eq!(new, vec![(1, "a"), (2, "x"), (3, "c"), (4, "y"), (5, "z")]);
}

#[test]
fn carriage_returns_count_as_a_change() {
    let doc = build("a\r\nb\n", "a\nb\n", None);
    assert_eq!(doc.body, Body::Text);
    assert_eq!(doc.added, 1);
    assert_eq!(doc.removed, 1);
}

#[test]
fn merge_sorts_and_joins_touching_ranges() {
    assert_eq!(merge(vec![(5, 7), (0, 2), (2, 4)]), vec![(0, 4), (5, 7)]);
    assert_eq!(merge(vec![(0, 5), (1, 2)]), vec![(0, 5)]);
    assert_eq!(merge(vec![(3, 4)]), vec![(3, 4)]);
    assert_eq!(merge(Vec::new()), Vec::<(usize, usize)>::new());
}

#[test]
fn unify_leaves_no_changed_rows_and_keeps_both_sides() {
    let doc = build("a\nb\nc\n", "a\nB\nC\nd\n", None);
    let u = unify(&doc);
    assert!(u.rows.iter().all(|r| r.kind != RowKind::Changed));
    let count = doc.rows.iter().filter(|r| r.kind == RowKind::Changed).count();
    assert_eq!(u.rows.len(), doc.rows.len() + count);
}

#[test]
fn binary_documents_are_empty() {
    let doc = Document::binary();
    assert_eq!(doc.body, Body::Binary);
    assert!(doc.rows.is_empty() && doc.hunks.is_empty());
}
