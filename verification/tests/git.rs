use gd::git::{classify, parse_name_status, preview_needs_old, preview_side, Blob, BlobSource, FileEntry, Repo, Spec, Status};

#[test]
fn parses_plain_records() {
    let entries = parse_name_status("M\0src/main.rs\0A\0src/new.rs\0");
    assert_eq!(entries.len(), 2);
    assert_eq!(entries[0].path, "src/main.rs");
    assert_eq!(entries[0].status, Status::Modified);
    assert_eq!(entries[1].status, Status::Added);
}

#[test]
fn parses_renames_as_three_fields() {
    let entries = parse_name_status("R096\0old/a.rs\0new/b.rs\0M\0c.rs\0");
    assert_eq!(entries.len(), 2);
    assert_eq!(entries[0].status, Status::Renamed);
    assert_eq!(entries[0].old_path, "old/a.rs");
    assert_eq!(entries[0].path, "new/b.rs");
    // The record after a rename must still line up.
    assert_eq!(entries[1].path, "c.rs");
}

#[test]
fn truncated_record_does_not_panic() {
    assert!(parse_name_status("R100\0only-old\0").is_empty());
}

#[test]
fn nul_byte_means_binary() {
    assert!(matches!(classify(vec![0x89, 0x50, 0x00, 0x4e]), Blob::Binary));
    assert!(matches!(classify(b"hello".to_vec()), Blob::Text(_)));
}

#[test]
fn invalid_utf8_is_binary_and_late_nul_is_not_looked_at() {
    assert!(matches!(classify(vec![0xff, 0xfe, 0x41]), Blob::Binary));
    let mut late = vec![b'a'; 8000];
    late.push(0);
    match classify(late) {
        Blob::Text(s) => assert_eq!(s.len(), 8001),
        other => panic!("expected text, got {:?}", other),
    }
    assert_eq!(Blob::Binary.text(), "");
    assert_eq!(classify(b"hi".to_vec()).text(), "hi");
}

#[test]
fn status_codes_and_badges() {
    assert_eq!(Status::from_code("A"), Status::Added);
    assert_eq!(Status::from_code("D"), Status::Deleted);
    assert_eq!(Status::from_code("C075"), Status::Copied);
    assert_eq!(Status::from_code("T"), Status::TypeChanged);
    assert_eq!(Status::from_code("U"), Status::Unmerged);
    assert_eq!(Status::from_code("X"), Status::Modified);
    assert_eq!(Status::from_code(""), Status::Modified);
    assert_eq!(Status::Untracked.badge(), "?");
    assert_eq!(Status::Renamed.badge(), "R");
}

#[test]
fn spec_labels_and_diff_arguments() {
    assert_eq!(Spec::Worktree.old_label(), "HEAD");
    assert_eq!(Spec::Worktree.new_label(), "working tree");
    assert_eq!(Spec::Staged.new_label(), "index");
    assert_eq!(Spec::Staged.diff_args(), vec!["--cached".to_string(), "HEAD".to_string()]);
    let r = Spec::Range("v1".to_string(), "v2".to_string());
    assert_eq!(r.old_label(), "v1");
    assert_eq!(r.new_label(), "v2");
    assert_eq!(r.revisions(), vec!["v1", "v2"]);
    assert!(!r.right_is_worktree());
    assert!(Spec::Rev("x".to_string()).right_is_worktree());
    assert!(Spec::Staged.revisions().is_empty());
}

fn repo() -> Repo {
    Repo::discover(true, "/tmp/project\n").unwrap()
}

#[test]
fn discover_trims_the_top_level_and_reports_outside_a_repo() {
    assert_eq!(repo().root(), "/tmp/project");
    assert_eq!(Repo::discover(false, "").unwrap_err(), "not inside a git repository");
}

#[test]
fn head_label_prefers_the_branch() {
    let r = repo();
    assert_eq!(r.head_label(Some("main\n"), Some("abc123\n")), "main");
    assert_eq!(r.head_label(Some("HEAD\n"), Some("abc123\n")), "abc123");
    assert_eq!(r.head_label(None, None), "(no commits)");
}

#[test]
fn unknown_head_counts_explain_the_history_length() {
    assert_eq!(Repo::unknown_revision("nope", 3), "unknown revision `nope`");
    assert_eq!(
        Repo::unknown_revision("HEAD~5", 3),
        "unknown revision `HEAD~5`\n       this repository has 3 commits, so there is nothing 5 back"
    );
    assert_eq!(
        Repo::unknown_revision("HEAD~2", 1),
        "unknown revision `HEAD~2`\n       this repository has 1 commit, so there is nothing 2 back"
    );
    let r = repo();
    let spec = Spec::Range("a".to_string(), "HEAD~9".to_string());
    assert!(r.verify(&spec, &vec![true, true], 4).is_ok());
    assert_eq!(
        r.verify(&spec, &vec![true, false], 4).unwrap_err(),
        "unknown revision `HEAD~9`\n       this repository has 4 commits, so there is nothing 9 back"
    );
    assert_eq!(r.commit_count(Some("12\n")), 12);
    assert_eq!(r.commit_count(Some("x")), 0);
    assert_eq!(r.commit_count(None), 0);
}

#[test]
fn changed_files_adds_untracked_sorts_and_dedups() {
    let r = repo();
    let files = r
        .changed_files(&Spec::Worktree, Ok("M\0b.rs\0A\0a.rs\0"), None, Ok("c.rs\0b.rs\0"))
        .unwrap();
    let paths: Vec<&str> = files.iter().map(|f| f.path.as_str()).collect();
    assert_eq!(paths, vec!["a.rs", "b.rs", "c.rs"]);
    assert_eq!(files[1].status, Status::Modified);
    assert_eq!(files[2].status, Status::Untracked);
    // A revision range never lists untracked files.
    let range = Spec::Range("a".to_string(), "b".to_string());
    let files = r.changed_files(&range, Ok("D\0z.rs\0"), None, Err("unused")).unwrap();
    assert_eq!(files.len(), 1);
    // No HEAD yet: everything untracked is an addition.
    let files = r.changed_files(&Spec::Worktree, Err("bad HEAD"), Some(false), Ok("new.rs\0")).unwrap();
    assert_eq!(files.len(), 1);
    assert_eq!(r.changed_files(&Spec::Staged, Err("bad HEAD"), Some(false), Ok("")).unwrap_err(), "bad HEAD");
}

#[test]
fn blob_sources_follow_the_spec() {
    let r = repo();
    let f = FileEntry { path: "new.rs".to_string(), old_path: "old.rs".to_string(), status: Status::Renamed };
    match r.old_blob(&Spec::Worktree, &f) {
        BlobSource::Show(o) => assert_eq!(o, "HEAD:old.rs"),
        other => panic!("{:?}", other),
    }
    match r.new_blob(&Spec::Staged, &f) {
        BlobSource::Show(o) => assert_eq!(o, ":new.rs"),
        other => panic!("{:?}", other),
    }
    match r.new_blob(&Spec::Range("a".to_string(), "b".to_string()), &f) {
        BlobSource::Show(o) => assert_eq!(o, "b:new.rs"),
        other => panic!("{:?}", other),
    }
    match r.new_blob(&Spec::Worktree, &f) {
        BlobSource::Worktree(p) => assert_eq!(p, "new.rs"),
        other => panic!("{:?}", other),
    }
    let added = FileEntry { path: "n.rs".to_string(), old_path: "n.rs".to_string(), status: Status::Added };
    assert!(matches!(r.old_blob(&Spec::Worktree, &added), BlobSource::Absent));
}

#[test]
fn a_preview_prefers_the_new_side_and_falls_back_to_the_old() {
    let new = Ok(Blob::Text("new".to_string()));
    assert!(!preview_needs_old(&new));
    assert!(matches!(preview_side(new, Err(String::new())), Some(Blob::Text(t)) if t == "new"));
    let gone: Result<Blob, String> = Ok(Blob::Absent);
    assert!(preview_needs_old(&gone));
    assert!(matches!(preview_side(gone, Ok(Blob::Text("old".to_string()))), Some(Blob::Text(t)) if t == "old"));
    assert!(preview_side(Err("x".to_string()), Err("y".to_string())).is_none());
}
