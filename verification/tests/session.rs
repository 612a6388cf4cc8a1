use riff::git::cli::{command_failure, containment_of, gitmodules_outcome, introducing_merge, merge_base_result, parse_batch_header, validate_diff_paths, BatchHeader};
use riff::git::uasset::{uasset_config, uasset_tool, DEFAULT_ENGINE_VERSION};
use riff::git::GitError;

#[test]
fn batch_header_found_missing_and_bad() {
    assert_eq!(
        parse_batch_header("3b18e512dba79e4c8300dd08aeb37f8e728b8dad blob 12\n").unwrap(),
        BatchHeader::Found { size: 12 }
    );
    assert_eq!(parse_batch_header("HEAD:nope.txt missing\r\n").unwrap(), BatchHeader::Missing);
    match parse_batch_header("abc blob twelve\n") {
        Err(GitError::Parse(m)) => assert_eq!(m, "bad batch header: abc blob twelve"),
        other => panic!("unexpected {other:?}"),
    }
    assert!(matches!(parse_batch_header("abc blob\n"), Err(GitError::Parse(_))));
}

#[test]
fn merge_base_outcomes() {
    assert_eq!(merge_base_result(true, b"  abc123\n", "main", "feature").unwrap(), "abc123");
    match merge_base_result(false, b"abc123\n", "main", "feature") {
        Err(GitError::CommandFailed(m)) => assert_eq!(m, "no merge-base between main and feature"),
        other => panic!("unexpected {other:?}"),
    }
    assert!(matches!(merge_base_result(true, b" \n", "a", "b"), Err(GitError::CommandFailed(_))));
    // Output that is not UTF-8 is decoded lossily.
    assert_eq!(merge_base_result(true, b"ab\xffc\n", "a", "b").unwrap(), "ab\u{FFFD}c");
}

#[test]
fn command_failure_is_trimmed_stderr() {
    match command_failure(b"  fatal: bad revision 'x'\n") {
        GitError::CommandFailed(m) => assert_eq!(m, "fatal: bad revision 'x'"),
        other => panic!("unexpected {other:?}"),
    }
    match command_failure(b"bad \xfe byte") {
        GitError::CommandFailed(m) => assert_eq!(m, "bad \u{FFFD} byte"),
        other => panic!("unexpected {other:?}"),
    }
}

#[test]
fn error_messages() {
    assert_eq!(GitError::NotARepo("/x".into()).message(), "path is not a git repository: /x");
    assert_eq!(GitError::CommandFailed("boom".into()).message(), "git command failed: boom");
    assert_eq!(GitError::InvalidRef("-x".into()).message(), "invalid ref name: -x");
    assert_eq!(GitError::Parse("p".into()).message(), "failed to parse git output: p");
    let io = GitError::Io(std::io::Error::new(std::io::ErrorKind::Other, "disk on fire"));
    assert_eq!(io.message(), "io error: disk on fire");
}

#[test]
fn uasset_config_prefers_user_path_and_defaults_version() {
    let c = uasset_config(true, Some("C:/u.exe".into()), Some("C:/b.exe".into()), Some("5.3".into()));
    assert!(c.enabled);
    assert_eq!(c.uassetgui_path.as_deref(), Some("C:/u.exe"));
    assert_eq!(c.engine_version, "5.3");

    let c = uasset_config(false, None, Some("C:/b.exe".into()), Some("  ".into()));
    assert!(!c.enabled);
    assert_eq!(c.uassetgui_path.as_deref(), Some("C:/b.exe"));
    assert_eq!(c.engine_version, DEFAULT_ENGINE_VERSION);

    let c = uasset_config(true, None, None, None);
    assert_eq!(c.uassetgui_path, None);
    assert_eq!(c.engine_version, "5.5");
    assert_eq!(uasset_tool(&c), None);

    let blank = uasset_config(true, Some("   ".into()), None, None);
    assert_eq!(uasset_tool(&blank), None);
    let set = uasset_config(true, Some(" C:/u.exe".into()), None, None);
    assert_eq!(uasset_tool(&set).as_deref(), Some(" C:/u.exe"));
}

#[test]
fn gitmodules_run_outcomes() {
    assert!(gitmodules_outcome(false, Some(1), b"", b"").unwrap().is_empty());
    match gitmodules_outcome(false, Some(1), b"error: bad config\n", b"") {
        Err(GitError::CommandFailed(m)) => assert_eq!(m, "error: bad config"),
        other => panic!("unexpected {other:?}"),
    }
    assert!(matches!(gitmodules_outcome(false, Some(128), b"", b""), Err(GitError::CommandFailed(_))));
    assert!(matches!(gitmodules_outcome(false, None, b"", b""), Err(GitError::CommandFailed(_))));
    let paths =
        gitmodules_outcome(true, Some(0), b"", b"submodule.a.path\nlibs/a\0submodule.b.path\nb\0").unwrap();
    assert_eq!(paths, vec!["libs/a".to_string(), "b".to_string()]);
}

#[test]
fn containment_from_git_output() {
    let c = containment_of(true, "aaa\n bbb \n\n", "- ccc\n+ ddd\n", "3\t5\n");
    assert_eq!(c.not_in_target, vec!["aaa".to_string(), "bbb".to_string()]);
    assert_eq!(c.equivalent, vec!["ccc".to_string()]);
    assert_eq!((c.behind, c.ahead), (3, 5));
    let all = containment_of(false, "aaa\n", "- ccc\n", "3\t5\n");
    assert!(all.equivalent.is_empty() && all.ahead == 0 && all.behind == 0 && !all.source_is_branch);
    assert_eq!(introducing_merge("m3\nm2\nm1\n").as_deref(), Some("m1"));
    assert_eq!(introducing_merge("\n"), None);
    assert!(validate_diff_paths("a.txt", Some("b.txt")).is_ok());
    assert!(matches!(validate_diff_paths("-a", Some("-b")), Err(GitError::InvalidRef(m)) if m == "invalid path: -a"));
    assert!(matches!(validate_diff_paths("a", Some("-b")), Err(GitError::InvalidRef(m)) if m == "invalid path: -b"));
}
