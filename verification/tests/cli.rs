use gd::cli::{back, is_count, parse_args, range, split_range, Parsed};
use gd::git::Spec;

fn spec(args: &[&str]) -> Spec {
    let owned: Vec<String> = args.iter().map(|s| s.to_string()).collect();
    match parse_args(&owned) {
        Ok(Parsed::Spec(s)) => s,
        _ => panic!("expected a spec for {args:?}"),
    }
}

fn err(args: &[&str]) -> String {
    let owned: Vec<String> = args.iter().map(|s| s.to_string()).collect();
    parse_args(&owned).expect_err(&format!("expected an error for {args:?}"))
}

#[test]
fn no_arguments_means_head_against_the_working_tree() {
    assert_eq!(spec(&[]), Spec::Worktree);
}

#[test]
fn staged_flags_are_equivalent() {
    assert_eq!(spec(&["--staged"]), Spec::Staged);
    assert_eq!(spec(&["--cached"]), Spec::Staged);
    assert_eq!(spec(&["-s"]), Spec::Staged);
}

#[test]
fn one_revision_compares_against_the_working_tree() {
    assert_eq!(spec(&["HEAD~3"]), Spec::Rev("HEAD~3".into()));
}

#[test]
fn range_syntax_is_accepted_in_both_forms() {
    let expected = Spec::Range("v1".into(), "v2".into());
    assert_eq!(spec(&["v1..v2"]), expected);
    assert_eq!(spec(&["v1...v2"]), expected);
    assert_eq!(spec(&["v1", "v2"]), expected);
}

#[test]
fn double_dash_protects_revisions_that_look_like_flags() {
    assert_eq!(spec(&["--", "-weird-branch"]), Spec::Rev("-weird-branch".into()));
}

#[test]
fn a_bare_count_is_the_last_n_commits() {
    assert_eq!(spec(&["1"]), Spec::Range("HEAD~1".into(), "HEAD".into()));
    assert_eq!(spec(&["2"]), Spec::Range("HEAD~2".into(), "HEAD".into()));
    assert_eq!(spec(&["10"]), Spec::Range("HEAD~10".into(), "HEAD".into()));
}

#[test]
fn a_count_range_covers_both_endpoints() {
    // Counting back, 1 is the last commit, so 2..4 is the second, third
    // and fourth back: from the commit before the fourth, up to the second.
    assert_eq!(spec(&["2..4"]), Spec::Range("HEAD~4".into(), "HEAD~1".into()));
    assert_eq!(spec(&["1..3"]), Spec::Range("HEAD~3".into(), "HEAD".into()));
}

#[test]
fn a_bare_count_equals_the_range_that_starts_at_one() {
    for n in 1..8 {
        assert_eq!(spec(&[&n.to_string()]), spec(&[&format!("1..{n}")]));
    }
}

#[test]
fn count_ranges_read_the_same_in_either_order() {
    assert_eq!(spec(&["4..2"]), spec(&["2..4"]));
    assert_eq!(spec(&["2", "4"]), spec(&["2..4"]));
    assert_eq!(spec(&["2...4"]), spec(&["2..4"]));
}

#[test]
fn counts_are_rejected_when_they_cannot_mean_a_commit() {
    assert!(err(&["0"]).contains("start at 1"));
    assert!(err(&["0..3"]).contains("start at 1"));
    // A count on one side and a revision on the other is ambiguous.
    assert!(err(&["2..main"]).contains("mixes a commit count"));
    assert!(err(&["main..2"]).contains("mixes a commit count"));
}

#[test]
fn revisions_that_merely_look_numeric_still_parse_as_counts() {
    assert_eq!(spec(&["1234"]), Spec::Range("HEAD~1234".into(), "HEAD".into()));
    assert_eq!(spec(&["refs/tags/2"]), Spec::Rev("refs/tags/2".into()));
    assert_eq!(spec(&["v2"]), Spec::Rev("v2".into()));
    // A SHA with any letter in it is unambiguous already.
    assert_eq!(spec(&["1234abc"]), Spec::Rev("1234abc".into()));
}

#[test]
fn named_revisions_are_untouched_by_the_shorthand() {
    assert_eq!(spec(&["HEAD~3"]), Spec::Rev("HEAD~3".into()));
    assert_eq!(spec(&["v1.0..v2.0"]), Spec::Range("v1.0".into(), "v2.0".into()));
}

#[test]
fn bad_input_is_rejected() {
    let owned = |v: &[&str]| v.iter().map(|s| s.to_string()).collect::<Vec<_>>();
    assert!(parse_args(&owned(&["--nope"])).is_err());
    assert!(parse_args(&owned(&["a", "b", "c"])).is_err());
    assert!(parse_args(&owned(&["--staged", "HEAD"])).is_err());
    assert!(parse_args(&owned(&["..v2"])).is_err());
}

#[test]
fn help_and_version_short_circuit() {
    let owned = |v: &[&str]| v.iter().map(|s| s.to_string()).collect::<Vec<_>>();
    assert!(matches!(parse_args(&owned(&["-h"])), Ok(Parsed::Help)));
    assert!(matches!(parse_args(&owned(&["--version"])), Ok(Parsed::Version)));
}

#[test]
fn error_messages_name_the_offending_input() {
    assert_eq!(err(&["--nope"]), "unknown option `--nope`");
    assert_eq!(err(&["a", "b", "c"]), "expected at most 2 revisions, got 3");
    assert_eq!(err(&["--staged", "HEAD"]), "--staged takes no revisions");
    assert_eq!(err(&["..v2"]), "`..v2` needs a revision on both sides");
    // Help wins even after an unknown revision count would have failed.
    assert!(matches!(parse_args(&["a".to_string(), "-h".to_string()]), Ok(Parsed::Help)));
}

#[test]
fn helpers_behave_as_documented() {
    assert!(is_count("007"));
    assert!(!is_count(""));
    assert!(!is_count("1a"));
    assert_eq!(back(0), "HEAD");
    assert_eq!(back(12), "HEAD~12");
    assert_eq!(split_range("a..b").unwrap(), Some(("a".to_string(), "b".to_string())));
    assert_eq!(split_range("a...b").unwrap(), Some(("a".to_string(), "b".to_string())));
    assert_eq!(split_range("plain").unwrap(), None);
    assert!(matches!(range("3", "3"), Ok(Parsed::Spec(Spec::Range(a, b))) if a == "HEAD~3" && b == "HEAD~2"));
}
