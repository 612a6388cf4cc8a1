use riff::git::blame::blame_outcome;
use riff::git::GitError;
use riff::git::blame::{is_header_line, parse_porcelain, UNCOMMITTED_SHORT};

#[test]
fn blame_parse_empty() {
    let b = parse_porcelain(b"").unwrap();
    assert!(b.commits.is_empty());
    assert!(b.line_commit.is_empty());
}

#[test]
fn parse_single_line() {
    let input = b"abcdef0123456789abcdef0123456789abcdef01 1 1 1
author Alice
author-mail <alice@example.com>
author-time 1700000000
author-tz +0000
committer Alice
committer-mail <alice@example.com>
committer-time 1700000000
committer-tz +0000
summary initial commit
filename src/main.rs
\tfn main() {}
";
    let b = parse_porcelain(input).unwrap();
    assert_eq!(b.commits.len(), 1);
    assert_eq!(b.commits[0].sha, "abcdef01");
    assert_eq!(b.commits[0].author, "Alice");
    assert_eq!(b.commits[0].author_time, 1700000000);
    assert_eq!(b.commits[0].summary, "initial commit");
    assert_eq!(b.line_commit, vec![0]);
}

#[test]
fn parse_same_commit_multiple_lines_dedups() {
    // 3 lines, all from same commit. Porcelain emits full metadata only on
    // the first occurrence.
    let input = b"aaaa111122223333444455556666777788889999 1 1 3
author Alice
author-mail <a@x>
author-time 100
author-tz +0000
committer Alice
committer-mail <a@x>
committer-time 100
committer-tz +0000
summary commit A
filename f.rs
\tline 1
aaaa111122223333444455556666777788889999 2 2
\tline 2
aaaa111122223333444455556666777788889999 3 3
\tline 3
";
    let b = parse_porcelain(input).unwrap();
    assert_eq!(b.commits.len(), 1);
    assert_eq!(b.commits[0].sha, "aaaa1111");
    assert_eq!(b.line_commit, vec![0, 0, 0]);
}

#[test]
fn parse_two_commits_interleaved() {
    let input = b"aaaa111122223333444455556666777788889999 1 1 1
author Alice
author-mail <a@x>
author-time 100
author-tz +0000
committer Alice
committer-mail <a@x>
committer-time 100
committer-tz +0000
summary A
filename f.rs
\tline 1
bbbb222233334444555566667777888899990000 2 2 1
author Bob
author-mail <b@x>
author-time 200
author-tz +0000
committer Bob
committer-mail <b@x>
committer-time 200
committer-tz +0000
summary B
filename f.rs
\tline 2
aaaa111122223333444455556666777788889999 3 3
\tline 3
";
    let b = parse_porcelain(input).unwrap();
    assert_eq!(b.commits.len(), 2);
    assert_eq!(b.commits[0].sha, "aaaa1111");
    assert_eq!(b.commits[0].author, "Alice");
    assert_eq!(b.commits[1].sha, "bbbb2222");
    assert_eq!(b.commits[1].author, "Bob");
    assert_eq!(b.line_commit, vec![0, 1, 0]);
}

#[test]
fn parse_uncommitted_yields_zero_short() {
    let input = b"0000000000000000000000000000000000000000 1 1 1
author Not Committed Yet
author-mail <not.committed.yet>
author-time 1700000000
author-tz +0000
committer Not Committed Yet
committer-mail <not.committed.yet>
committer-time 1700000000
committer-tz +0000
summary Version of f.rs from f.rs
filename f.rs
\tnew uncommitted line
";
    let b = parse_porcelain(input).unwrap();
    assert_eq!(b.commits.len(), 1);
    assert_eq!(b.commits[0].sha, UNCOMMITTED_SHORT);
    assert_eq!(b.commits[0].author, "Not Committed Yet");
}

#[test]
fn parse_ignores_previous_filename_committer_fields() {
    let input = b"abcdef0123456789abcdef0123456789abcdef01 1 1 1
author Alice
author-mail <a@x>
author-time 100
author-tz +0000
committer Bob
committer-mail <b@x>
committer-time 200
committer-tz +0000
summary moved file
previous deadbeef00000000000000000000000000000000 old.rs
filename new.rs
\tcontent
";
    let b = parse_porcelain(input).unwrap();
    assert_eq!(b.commits.len(), 1);
    assert_eq!(b.commits[0].author, "Alice");
    assert_eq!(b.commits[0].summary, "moved file");
}

#[test]
fn header_recognition() {
    assert!(is_header_line(
        "abcdef0123456789abcdef0123456789abcdef01 1 1 1"
    ));
    assert!(is_header_line(
        "0000000000000000000000000000000000000000 1 1"
    ));
    assert!(!is_header_line("author Alice"));
    assert!(!is_header_line("\tcontent"));
    assert!(!is_header_line("too short"));
    // 40 chars but with non-hex
    assert!(!is_header_line(
        "zzzzzzzzzzzzzzzzzzzzzzzzzzzzzzzzzzzzzzzz 1 1 1"
    ));
}

#[test]
fn blame_rejects_non_utf8() {
    let e = parse_porcelain(&[0xff, 0xfe]).unwrap_err();
    assert_eq!(e.message(), "failed to parse git output: blame output not utf-8");
}

#[test]
fn blame_rejects_content_without_header() {
    let e = parse_porcelain(b"\torphan line\n").unwrap_err();
    assert_eq!(e.message(), "failed to parse git output: blame: content line with no sha");
}

#[test]
fn blame_rejects_final_line_zero() {
    let e = parse_porcelain(b"abcdef0123456789abcdef0123456789abcdef01 1 0 1\n\tx\n").unwrap_err();
    assert_eq!(e.message(), "failed to parse git output: blame: final-line is 0");
}

#[test]
fn blame_rejects_bad_header() {
    let line = "abcdef0123456789abcdef0123456789abcdef01 1 x 1";
    let e = parse_porcelain(format!("{line}\n").as_bytes()).unwrap_err();
    assert_eq!(e.message(), format!("failed to parse git output: blame: bad header: {line}"));
}

#[test]
fn blame_out_of_order_lines_fill_gaps_with_zero() {
    // Group for line 3 arrives first: lines 1 and 2 are padded with index 0
    // until their own groups arrive.
    let input = b"aaaa111122223333444455556666777788889999 1 3 1\nauthor A\n\tc\nbbbb222233334444555566667777888899990000 1 1 1\nauthor B\n\ta\n";
    let b = parse_porcelain(input).unwrap();
    assert_eq!(b.commits.len(), 2);
    assert_eq!(b.line_commit, vec![1, 0, 0]);
}

#[test]
fn blame_run_outcomes() {
    assert!(matches!(
        blame_outcome(false, Ok(()), Some((true, "exit status: 0".into())), b"", b""),
        Err(GitError::CommandFailed(m)) if m == "blame cancelled"
    ));
    let io = std::io::Error::new(std::io::ErrorKind::Other, "pipe closed");
    assert!(matches!(blame_outcome(true, Err(io), None, b"", b""), Err(GitError::Io(_))));
    assert!(matches!(
        blame_outcome(true, Ok(()), Some((false, "exit status: 128".into())), b"  fatal: no such path\n", b""),
        Err(GitError::CommandFailed(m)) if m == "fatal: no such path"
    ));
    assert!(matches!(
        blame_outcome(true, Ok(()), Some((false, "exit status: 128".into())), b" \n", b""),
        Err(GitError::CommandFailed(m)) if m == "git blame failed: exit exit status: 128"
    ));
    let ok = blame_outcome(true, Ok(()), Some((true, "exit status: 0".into())), b"ignored", b"").unwrap();
    assert!(ok.commits.is_empty() && ok.line_commit.is_empty());
    assert!(matches!(blame_outcome(true, Ok(()), None, b"", b"\xff"), Err(GitError::Parse(_))));
}

#[test]
fn blame_failure_with_non_utf8_stderr_reports_exit() {
    assert!(matches!(
        blame_outcome(true, Ok(()), Some((false, "exit status: 1".into())), b"bad \xff stderr", b""),
        Err(GitError::CommandFailed(m)) if m == "git blame failed: exit exit status: 1"
    ));
}
