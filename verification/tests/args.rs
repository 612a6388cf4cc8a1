use riff::git::args::{
    ahead_behind_args, blame_args, commit_args, commit_log_args, commit_log_excluding_args,
    commit_paths_args, conflict_side_flag, create_branch_args, delete_branch_args,
    diff_files_args, hunk_patch, not_in_target_args, push_args, reset_args, set_upstream_args,
    stage_args, stash_apply_args, stash_save_args, stash_selector, trailer_arguments,
    unstage_args, validate_paths,
};
use riff::git::cli::COMMIT_LOG_FORMAT;
use riff::git::error::GitError;
use riff::git::DiffMode;

fn s(v: &[&str]) -> Vec<String> {
    v.iter().map(|x| x.to_string()).collect()
}

#[test]
fn stage_and_unstage() {
    assert_eq!(stage_args(None).unwrap(), s(&["add", "-A"]));
    assert_eq!(stage_args(Some(&s(&["a", "b c"]))).unwrap(), s(&["add", "--", "a", "b c"]));
    assert!(matches!(stage_args(Some(&s(&["ok", "-x"]))), Err(GitError::InvalidRef(m)) if m == "invalid path: -x"));
    assert_eq!(unstage_args(None).unwrap(), s(&["restore", "--staged", "--", "."]));
    assert_eq!(unstage_args(Some(&s(&["a"]))).unwrap(), s(&["restore", "--staged", "--", "a"]));
    assert!(validate_paths(&s(&["", "x"])).is_err());
}

#[test]
fn commit_arguments() {
    assert!(matches!(commit_args("  ", "", false, false, &[]), Err(GitError::CommandFailed(m)) if m == "commit subject is empty"));
    assert_eq!(
        commit_args("fix", "  ", true, true, &s(&[" Ann <a@x> ", " ", "Bob"])).unwrap(),
        s(&["commit", "--amend", "-s", "-m", "fix", "--trailer", "Co-authored-by: Ann <a@x>", "--trailer", "Co-authored-by: Bob"])
    );
    assert_eq!(commit_args("t", "body", false, false, &[]).unwrap(), s(&["commit", "-m", "t", "-m", "body"]));
    assert_eq!(trailer_arguments(&s(&[""])), Vec::<String>::new());
}

#[test]
fn commit_paths_arguments() {
    assert!(matches!(commit_paths_args(&[], "x", "", false, &[]), Err(GitError::CommandFailed(m)) if m == "no files to commit"));
    assert!(matches!(commit_paths_args(&s(&["-bad"]), "x", "", false, &[]), Err(GitError::InvalidRef(_))));
    let (add, c) = commit_paths_args(&s(&["a", "b"]), "msg", "", true, &[]).unwrap();
    assert_eq!(add, s(&["add", "--", "a", "b"]));
    assert_eq!(c, s(&["commit", "-s", "-m", "msg", "--", "a", "b"]));
}

const DIFF: &str = "diff --git a/f b/f\n--- a/f\n+++ b/f\n@@ -1 +1 @@\n-a\n+b\n@@ -5 +5 @@\n-c\n+d\n";

#[test]
fn hunk_patches() {
    assert_eq!(
        hunk_patch(DIFF, &[1], false).unwrap(),
        "diff --git a/f b/f\n--- a/f\n+++ b/f\n@@ -5 +5 @@\n-c\n+d\n"
    );
    assert_eq!(
        hunk_patch(DIFF, &[1, 0], true).unwrap(),
        "diff --git a/f b/f\n--- a/f\n+++ b/f\n@@ -5 +5 @@\n-c\n+d\n@@ -1 +1 @@\n-a\n+b\n"
    );
    assert!(matches!(hunk_patch(DIFF, &[2], false), Err(GitError::CommandFailed(m)) if m == "file changed since hunks were listed; refresh"));
    assert!(matches!(hunk_patch("", &[0], false), Err(GitError::CommandFailed(m)) if m == "no diff to apply (file may have changed)"));
    assert!(matches!(hunk_patch("", &[0], true), Err(GitError::CommandFailed(m)) if m == "no diff to discard (file may have changed)"));
}

#[test]
fn branch_and_stash_arguments() {
    assert_eq!(reset_args("HEAD~1", "hard").unwrap(), s(&["reset", "--hard", "HEAD~1"]));
    assert_eq!(reset_args("x", "weird").unwrap(), s(&["reset", "--mixed", "x"]));
    assert!(reset_args("-x", "soft").is_err());
    assert_eq!(stash_selector(12), "stash@{12}");
    assert_eq!(stash_apply_args(0, true), s(&["stash", "pop", "stash@{0}"]));
    assert_eq!(stash_save_args(Some(" "), true), s(&["stash", "push", "--include-untracked"]));
    assert_eq!(stash_save_args(Some("wip"), false), s(&["stash", "push", "-m", "wip"]));
    assert_eq!(push_args(Some("feat"), true).unwrap(), s(&["push", "--force-with-lease", "--set-upstream", "origin", "feat"]));
    assert_eq!(push_args(None, false).unwrap(), s(&["push"]));
    assert_eq!(create_branch_args("b", Some("main"), true).unwrap(), s(&["checkout", "-b", "b", "main"]));
    assert_eq!(create_branch_args("b", None, false).unwrap(), s(&["branch", "b"]));
    assert!(create_branch_args("b", Some("-x"), false).is_err());
    assert_eq!(delete_branch_args("b", true).unwrap(), s(&["branch", "-D", "b"]));
    assert_eq!(set_upstream_args("b", "origin/b").unwrap(), s(&["branch", "--set-upstream-to=origin/b", "b"]));
    assert_eq!(conflict_side_flag("theirs").unwrap(), "--theirs");
    assert!(conflict_side_flag("mine").is_err());
}

#[test]
fn history_arguments() {
    assert_eq!(
        commit_log_args("", false, 50, 100).unwrap(),
        s(&["log", "-z", COMMIT_LOG_FORMAT, "-n", "50", "--skip", "100", "HEAD"])
    );
    assert_eq!(
        commit_log_args("x", true, 1, 0).unwrap(),
        s(&["log", "-z", COMMIT_LOG_FORMAT, "-n", "1", "--skip", "0", "--all", "--date-order"])
    );
    assert!(commit_log_args("-x", false, 1, 0).is_err());
    assert_eq!(
        commit_log_excluding_args("", "main", 10, 0).unwrap(),
        s(&["log", "-z", COMMIT_LOG_FORMAT, "-n", "10", "--skip", "0", "--date-order", "--all", "--not", "main"])
    );
    assert_eq!(
        diff_files_args("main", "feat", DiffMode::ThreeDot, true).unwrap(),
        s(&["diff", "--name-status", "-z", "--find-renames", "-w", "main...feat"])
    );
    assert_eq!(
        diff_files_args("main", "feat", DiffMode::TwoDot, false).unwrap(),
        s(&["diff", "--name-status", "-z", "--find-renames", "main..feat"])
    );
    assert_eq!(
        blame_args("f.rs", "", true, "/r/f.rs").unwrap(),
        s(&["blame", "-w", "-M", "--porcelain", "--contents", "/r/f.rs", "HEAD", "--", "f.rs"])
    );
    assert_eq!(blame_args("f.rs", "abc", false, "").unwrap(), s(&["blame", "-w", "-M", "--porcelain", "abc", "--", "f.rs"]));
    assert!(blame_args("f.rs", "", false, "").is_err());
    assert_eq!(not_in_target_args("", "main"), s(&["rev-list", "--all", "--not", "main"]));
    assert_eq!(ahead_behind_args("feat", "main"), s(&["rev-list", "--left-right", "--count", "main...feat"]));
}
