use gd::git::Spec;
use gd::search::{add_rg_output, in_memory, parse_vimgrep, rg_args, rg_plan, uses_ripgrep, Hit, MAX_HITS, PATH_BATCH};

#[test]
fn parses_a_vimgrep_record() {
    let h = parse_vimgrep("src/main.rs:12:5:    let x = 1;").unwrap();
    assert_eq!(h.path, "src/main.rs");
    assert_eq!(h.line, 12);
    assert_eq!(h.text, "    let x = 1;");
}

#[test]
fn keeps_colons_that_belong_to_the_matched_text() {
    let h = parse_vimgrep("a.rs:1:1:foo: bar: baz").unwrap();
    assert_eq!(h.text, "foo: bar: baz");
}

#[test]
fn rejects_malformed_records() {
    assert!(parse_vimgrep("no colons here").is_none());
    assert!(parse_vimgrep("a.rs:notanumber:1:x").is_none());
    assert!(parse_vimgrep("a.rs:1:notanumber:x").is_none());
}

#[test]
fn in_memory_is_smart_case() {
    let src = vec![("a.rs".to_string(), "Hello world\nhello again\n".to_string())];
    // Lowercase query matches both.
    assert_eq!(in_memory("hello", &src).len(), 2);
    // Uppercase query is case-sensitive.
    let hits = in_memory("Hello", &src);
    assert_eq!(hits.len(), 1);
    assert_eq!(hits[0].line, 1);
}

#[test]
fn in_memory_reports_one_based_line_numbers() {
    let src = vec![("a.rs".to_string(), "xx\nfoo\n".to_string())];
    let hits = in_memory("foo", &src);
    assert_eq!(hits[0].line, 2);
}

#[test]
fn empty_query_matches_nothing() {
    let src = vec![("a.rs".to_string(), "anything\n".to_string())];
    assert!(in_memory("", &src).is_empty());
}

#[test]
fn in_memory_trims_leading_whitespace_and_walks_files_in_order() {
    let src = vec![
        ("a.rs".to_string(), "  foo()\nbar\n".to_string()),
        ("b.rs".to_string(), "\tFOO\r\nfoo".to_string()),
    ];
    let hits = in_memory("foo", &src);
    assert_eq!(hits.len(), 3);
    assert_eq!((hits[0].path.as_str(), hits[0].line, hits[0].text.as_str()), ("a.rs", 1, "foo()"));
    assert_eq!((hits[1].path.as_str(), hits[1].line, hits[1].text.as_str()), ("b.rs", 1, "FOO"));
    assert_eq!((hits[2].path.as_str(), hits[2].line, hits[2].text.as_str()), ("b.rs", 2, "foo"));
}

#[test]
fn in_memory_stops_at_the_cap() {
    let body = "x\n".repeat(MAX_HITS + 5);
    let src = vec![("a.rs".to_string(), body), ("b.rs".to_string(), "x\n".to_string())];
    let hits = in_memory("x", &src);
    assert_eq!(hits.len(), MAX_HITS);
    assert!(hits.iter().all(|h| h.path == "a.rs"));
    assert_eq!(hits[MAX_HITS - 1].line, MAX_HITS);
}

#[test]
fn ripgrep_runs_only_against_the_working_tree() {
    assert!(uses_ripgrep(&Spec::Worktree, true));
    assert!(uses_ripgrep(&Spec::Rev("HEAD~1".to_string()), true));
    assert!(!uses_ripgrep(&Spec::Worktree, false));
    assert!(!uses_ripgrep(&Spec::Staged, true));
    assert!(!uses_ripgrep(&Spec::Range("a".to_string(), "b".to_string()), true));
}

#[test]
fn ripgrep_output_is_parsed_line_by_line() {
    let mut hits: Vec<Hit> = Vec::new();
    add_rg_output(&mut hits, "a.rs:3:1:one\r\nnot a record\nb.rs:7:2:two: three\n");
    assert_eq!(hits.len(), 2);
    assert_eq!((hits[0].path.as_str(), hits[0].line, hits[0].text.as_str()), ("a.rs", 3, "one"));
    assert_eq!((hits[1].path.as_str(), hits[1].line, hits[1].text.as_str()), ("b.rs", 7, "two: three"));
}

#[test]
fn ripgrep_output_stops_at_the_cap() {
    let mut hits: Vec<Hit> = Vec::new();
    let out = "a.rs:1:1:x\n".repeat(MAX_HITS - 1);
    add_rg_output(&mut hits, &out);
    assert_eq!(hits.len(), MAX_HITS - 1);
    add_rg_output(&mut hits, "b.rs:1:1:y\nc.rs:1:1:z\n");
    assert_eq!(hits.len(), MAX_HITS);
    assert_eq!(hits[MAX_HITS - 1].path, "b.rs");
}

#[test]
fn ripgrep_runs_are_batched() {
    let paths: Vec<String> = (0..PATH_BATCH + 3).map(|i| format!("f{i}.rs")).collect();
    let plan = rg_plan("needle", &paths);
    assert_eq!(plan.len(), 2);
    let flags = rg_args();
    assert_eq!(plan[0].len(), flags.len() + 3 + PATH_BATCH);
    assert_eq!(plan[1].len(), flags.len() + 3 + 3);
    for (i, f) in flags.iter().enumerate() {
        assert_eq!(plan[0][i], *f);
    }
    assert_eq!(plan[0][flags.len()], "-e");
    assert_eq!(plan[0][flags.len() + 1], "needle");
    assert_eq!(plan[0][flags.len() + 2], "--");
    assert_eq!(plan[0][flags.len() + 3], "f0.rs");
    assert_eq!(plan[1][flags.len() + 3], format!("f{}.rs", PATH_BATCH));
    assert!(rg_plan("", &paths).is_empty());
    assert!(rg_plan("x", &[]).is_empty());
}
