use riff::git::GitError;
use riff::paths::{blame_read_gate, check_repo_file, repo_file_check, root_keys, PathPart, BLAME_READ_CAP};

fn failed(r: Result<(), GitError>) -> String {
    match r {
        Err(GitError::CommandFailed(m)) => m,
        other => panic!("unexpected {other:?}"),
    }
}

#[test]
fn repo_file_check_decisions() {
    let normal = vec![PathPart::Normal("src".into()), PathPart::Normal("a.rs".into())];
    assert!(repo_file_check("src/a.rs", false, &normal).is_ok());
    assert_eq!(failed(repo_file_check("", false, &[])), "empty file path");
    assert_eq!(failed(repo_file_check("/etc/passwd", true, &[PathPart::Root])), "absolute path not allowed");
    let up = vec![PathPart::Normal("a".into()), PathPart::Parent, PathPart::Normal("b".into())];
    assert_eq!(failed(repo_file_check("a/../b", false, &up)), "invalid path component in file path");
    let rooted = vec![PathPart::Root, PathPart::Normal("x".into())];
    assert_eq!(failed(repo_file_check("\\x", false, &rooted)), "invalid path component in file path");
    let cur = vec![PathPart::CurDir, PathPart::Normal("x".into())];
    assert!(repo_file_check("./x", false, &cur).is_ok());
}

#[test]
fn check_repo_file_on_this_platform() {
    assert!(check_repo_file("src/main.rs").is_ok());
    assert_eq!(failed(check_repo_file("")), "empty file path");
    assert_eq!(failed(check_repo_file("../secret")), "invalid path component in file path");
    assert!(check_repo_file("/etc/passwd").is_err());
}

#[test]
fn blame_read_cap() {
    assert!(blame_read_gate(BLAME_READ_CAP).is_ok());
    assert_eq!(failed(blame_read_gate(2_000_001)), "file too large for blame view (2000001 bytes)");
}

#[test]
fn roots_compare_by_components() {
    let keys = root_keys(&["/r".to_string(), "/r/".to_string(), "/r//".to_string(), "/s".to_string()]);
    assert_eq!(keys.len(), 4);
    assert_eq!(keys[0], keys[1]);
    assert_eq!(keys[0], keys[2]);
    assert_ne!(keys[0], keys[3]);
}
