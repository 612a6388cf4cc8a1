use riff::git::cli::{
    base64_encode, blob_spec, branch_size_gate, changes_old_spec, content_diff, diff_args,
    gitlink_diff, gitlink_text, hex16_string, hunk_id, image_diff, image_mime, is_binary,
    is_image_path, nonempty_lines, parse_ahead_behind, parse_cherry_equivalent,
    parse_commit_log, parse_gitlink_sha, parse_gitmodules_paths, parse_hunks,
    parse_ls_files_stage, parse_name_status, parse_refs, parse_stash_list, parse_status,
    sides_needed, split_diff, status_text_ok, timelapse_diff, validate_path, validate_ref,
    NameStatusParser, BINARY_SNIFF_BYTES,
};
use riff::git::error::GitError;
use riff::git::{BranchKind, ChangedFile, FileDiff, FileStatus};

fn collect(input: &[u8]) -> Vec<ChangedFile> {
    parse_name_status(input).unwrap()
}

#[test]
fn parse_simple_modified() {
    let out = collect(b"M\0src/main.rs\0");
    assert_eq!(out.len(), 1);
    assert_eq!(out[0].path, "src/main.rs");
    assert_eq!(out[0].status, FileStatus::Modified);
    assert!(out[0].old_path.is_none());
}

#[test]
fn parse_rename() {
    let out = collect(b"R100\0old.txt\0new.txt\0M\0other.rs\0");
    assert_eq!(out.len(), 2);
    assert_eq!(out[0].path, "new.txt");
    assert_eq!(out[0].old_path.as_deref(), Some("old.txt"));
    assert_eq!(out[0].status, FileStatus::Renamed);
    assert_eq!(out[1].path, "other.rs");
    assert_eq!(out[1].status, FileStatus::Modified);
}

#[test]
fn cli_parse_empty() {
    let out = collect(b"");
    assert!(out.is_empty());
}

#[test]
fn name_status_parser_yields_one_entry_per_record() {
    // The streaming reader completes an entry on each path field, so a
    // consumer sees every entry as soon as its record is read.
    let mut parser = NameStatusParser::new();
    let mut seen = Vec::new();
    for field in [&b"M"[..], b"a", b"R100", b"old", b"new", b"M", b"c"] {
        if let Some(f) = parser.feed(field).unwrap() {
            seen.push((f.path, f.old_path));
        }
    }
    assert!(parser.finish().is_ok());
    assert_eq!(
        seen,
        vec![
            ("a".to_string(), None),
            ("new".to_string(), Some("old".to_string())),
            ("c".to_string(), None)
        ]
    );
    // A record cut short after its status is an error.
    let mut cut = NameStatusParser::new();
    assert!(cut.feed(b"M").unwrap().is_none());
    assert!(cut.finish().is_err());
}

#[test]
fn reject_invalid_ref() {
    assert!(validate_ref("").is_err());
    assert!(validate_ref("-foo").is_err());
    assert!(validate_ref("main").is_ok());
    assert!(validate_ref("feature/x").is_ok());
}

#[test]
fn reject_invalid_path() {
    assert!(validate_path("").is_err());
    assert!(validate_path("-rf").is_err());
    assert!(validate_path("src/main.rs").is_ok());
    assert!(validate_path("a b/c.txt").is_ok());
}

#[test]
fn cherry_keeps_only_equivalent() {
    let input = "- aaa111\n+ bbb222\n- ccc333\n";
    assert_eq!(parse_cherry_equivalent(input), vec!["aaa111", "ccc333"]);
}

#[test]
fn cherry_empty_is_empty() {
    assert!(parse_cherry_equivalent("").is_empty());
    assert!(parse_cherry_equivalent("+ only222\n").is_empty());
}

#[test]
fn ahead_behind_parses_left_right() {
    assert_eq!(parse_ahead_behind("2\t5\n"), (2, 5));
    assert_eq!(parse_ahead_behind("0 0"), (0, 0));
    assert_eq!(parse_ahead_behind(""), (0, 0));
}

#[test]
fn nonempty_lines_trims_and_filters() {
    assert_eq!(nonempty_lines("  a \n\n b\nc\n"), vec!["a", "b", "c"]);
    assert!(nonempty_lines("\n  \n").is_empty());
}

#[test]
fn parse_ls_files_stage_basic() {
    let input = b"100644 abc123 0\tsrc/main.rs\0100755 def456 0\tscripts/run.sh\0";
    let out = parse_ls_files_stage(input).unwrap();
    assert_eq!(out, vec!["src/main.rs", "scripts/run.sh"]);
}

#[test]
fn parse_ls_files_stage_filters_submodule() {
    let input =
        b"100644 abc123 0\tsrc/main.rs\0160000 deadbeef 0\tvendor/sub\0100644 def456 0\tREADME\0";
    let out = parse_ls_files_stage(input).unwrap();
    assert_eq!(out, vec!["src/main.rs", "README"]);
}

#[test]
fn parse_ls_files_stage_empty() {
    assert!(parse_ls_files_stage(b"").unwrap().is_empty());
}

#[test]
fn parse_ls_files_stage_path_with_spaces() {
    let input = b"100644 abc123 0\tsrc/file with spaces.rs\0";
    let out = parse_ls_files_stage(input).unwrap();
    assert_eq!(out, vec!["src/file with spaces.rs"]);
}

#[test]
fn parse_ls_files_stage_rejects_missing_tab() {
    let input = b"100644 abc123 0 src/main.rs\0";
    assert!(parse_ls_files_stage(input).is_err());
}

#[test]
fn parse_gitmodules_paths_basic() {
    let input = b"submodule.vendor/sub.path\nvendor/sub\0submodule.shared.path\nshared/lib\0";
    let out = parse_gitmodules_paths(input).unwrap();
    assert_eq!(out, vec!["vendor/sub", "shared/lib"]);
}

#[test]
fn parse_gitmodules_paths_empty() {
    assert!(parse_gitmodules_paths(b"").unwrap().is_empty());
}

#[test]
fn parse_gitmodules_paths_path_with_spaces() {
    let input = b"submodule.my name.path\npath with spaces/sub\0";
    let out = parse_gitmodules_paths(input).unwrap();
    assert_eq!(out, vec!["path with spaces/sub"]);
}

#[test]
fn parse_gitmodules_paths_rejects_missing_newline() {
    let input = b"submodule.bad.pathvendor/sub\0";
    assert!(parse_gitmodules_paths(input).is_err());
}

#[test]
fn parse_gitlink_sha_basic() {
    let input = b"160000 commit a1b2c3d4e5f6a7b8c9d0e1f2a3b4c5d6e7f8a9b0\tvendor/sub\n";
    let out = parse_gitlink_sha(input).unwrap();
    assert_eq!(out.as_deref(), Some("a1b2c3d4e5f6a7b8c9d0e1f2a3b4c5d6e7f8a9b0"));
}

#[test]
fn parse_gitlink_sha_empty_means_none() {
    assert!(parse_gitlink_sha(b"").unwrap().is_none());
}

#[test]
fn parse_gitlink_sha_blob_means_none() {
    let input = b"100644 blob abc123\tsrc/main.rs\n";
    assert!(parse_gitlink_sha(input).unwrap().is_none());
}

#[test]
fn parse_gitlink_sha_tree_means_none() {
    let input = b"040000 tree abc123\tvendor\n";
    assert!(parse_gitlink_sha(input).unwrap().is_none());
}

#[test]
fn parse_gitlink_sha_rejects_missing_tab() {
    let input = b"160000 commit abc123 vendor/sub\n";
    assert!(parse_gitlink_sha(input).is_err());
}

#[test]
fn binary_detection() {
    assert!(!is_binary(b""));
    assert!(!is_binary(b"hello world\nfoo"));
    assert!(is_binary(b"hello\0world"));
    let mut big = vec![b'a'; BINARY_SNIFF_BYTES + 10];
    big[BINARY_SNIFF_BYTES + 5] = 0;
    assert!(!is_binary(&big));
}

fn log_record(
    sha: &str,
    short: &str,
    parents: &str,
    author: &str,
    time: &str,
    subject: &str,
    refs: &str,
) -> String {
    format!("{sha}\u{1f}{short}\u{1f}{parents}\u{1f}{author}\u{1f}{time}\u{1f}{subject}\u{1f}{refs}\0")
}

#[test]
fn parse_commit_log_basic() {
    let input = format!(
        "{}{}",
        log_record(
            "a1b2c3d",
            "a1b2c3d",
            "f00ba12 c0ffee0",
            "Jane",
            "1700000000",
            "merge: feature into main",
            "HEAD -> main, origin/main",
        ),
        log_record("f00ba12", "f00ba12", "", "Bob", "1699990000", "init", ""),
    );
    let out = parse_commit_log(&input);
    assert_eq!(out.len(), 2);

    assert_eq!(out[0].sha, "a1b2c3d");
    assert_eq!(out[0].short_sha, "a1b2c3d");
    assert_eq!(out[0].parents, vec!["f00ba12", "c0ffee0"]);
    assert_eq!(out[0].author, "Jane");
    assert_eq!(out[0].time, 1700000000);
    assert_eq!(out[0].summary, "merge: feature into main");
    assert_eq!(out[0].refs, vec!["HEAD -> main", "origin/main"]);

    assert!(out[1].parents.is_empty());
    assert!(out[1].refs.is_empty());
    assert_eq!(out[1].summary, "init");
}

#[test]
fn parse_commit_log_empty() {
    assert!(parse_commit_log("").is_empty());
}

#[test]
fn parse_commit_log_subject_with_separators_in_text() {
    let input = log_record(
        "deadbee",
        "deadbee",
        "abc1234",
        "A, B & C",
        "notanumber",
        "fix: a, b, c",
        "tag: v1.0",
    );
    let out = parse_commit_log(&input);
    assert_eq!(out.len(), 1);
    assert_eq!(out[0].author, "A, B & C");
    assert_eq!(out[0].time, 0);
    assert_eq!(out[0].summary, "fix: a, b, c");
    assert_eq!(out[0].refs, vec!["tag: v1.0"]);
}

#[test]
fn parse_status_basic() {
    let input = [
        "# branch.oid 607d018f8459fcf20ee3bf5fb99d0c7be3394f06",
        "# branch.head master",
        "1 A. N... 000000 100644 100644 0000000000000000000000000000000000000000 133064328add2ba3a254ca3d562f604627daf2fe added.txt",
        "2 R. N... 100644 100644 100644 3367afdbbf91e638efe983616377c60477cc6612 3367afdbbf91e638efe983616377c60477cc6612 R100 renamed.txt",
        "torename.txt",
        "1 MM N... 100644 100644 100644 de980441c3ab03a8c07dda1ad27b8a11f39deb1e 7be73ce3c1b1cdaea86e8168dfee8575175953bf tracked.txt",
        "? untracked.txt",
    ]
    .join("\0")
        + "\0";
    let st = parse_status(&input);

    assert_eq!(st.branch.as_deref(), Some("master"));
    assert_eq!(st.upstream, None);
    assert_eq!(st.ahead, 0);
    assert_eq!(st.behind, 0);
    assert_eq!(st.entries.len(), 4);

    assert_eq!(st.entries[0].path, "added.txt");
    assert_eq!(st.entries[0].index_status, "A");
    assert_eq!(st.entries[0].worktree_status, ".");
    assert_eq!(st.entries[0].orig_path, None);

    assert_eq!(st.entries[1].path, "renamed.txt");
    assert_eq!(st.entries[1].orig_path.as_deref(), Some("torename.txt"));
    assert_eq!(st.entries[1].index_status, "R");
    assert_eq!(st.entries[1].worktree_status, ".");

    assert_eq!(st.entries[2].path, "tracked.txt");
    assert_eq!(st.entries[2].index_status, "M");
    assert_eq!(st.entries[2].worktree_status, "M");

    assert_eq!(st.entries[3].path, "untracked.txt");
    assert_eq!(st.entries[3].index_status, "?");
    assert_eq!(st.entries[3].worktree_status, "?");
}

#[test]
fn parse_status_branch_ab() {
    let input = ["# branch.head main", "# branch.upstream origin/main", "# branch.ab +2 -3"]
        .join("\0")
        + "\0";
    let st = parse_status(&input);
    assert_eq!(st.branch.as_deref(), Some("main"));
    assert_eq!(st.upstream.as_deref(), Some("origin/main"));
    assert_eq!(st.ahead, 2);
    assert_eq!(st.behind, 3);
    assert!(st.entries.is_empty());
}

#[test]
fn parse_status_detached_and_empty() {
    let st = parse_status("# branch.head (detached)\0");
    assert_eq!(st.branch, None);
    assert!(parse_status("").entries.is_empty());
}

#[test]
fn parse_status_path_with_spaces() {
    let input = "1 .M N... 100644 100644 100644 aaaaaaa bbbbbbb my file.txt\0";
    let st = parse_status(input);
    assert_eq!(st.entries.len(), 1);
    assert_eq!(st.entries[0].path, "my file.txt");
    assert_eq!(st.entries[0].index_status, ".");
    assert_eq!(st.entries[0].worktree_status, "M");
}

const SAMPLE_DIFF: &str = "diff --git a/f.txt b/f.txt\n\
index 111..222 100644\n\
--- a/f.txt\n\
+++ b/f.txt\n\
@@ -1,3 +1,3 @@\n \
a\n\
-b\n\
+B\n \
c\n\
@@ -10,2 +10,3 @@ fn foo()\n \
x\n\
+y\n \
z\n";

#[test]
fn split_diff_separates_header_and_hunks() {
    let (header, hunks) = split_diff(SAMPLE_DIFF);
    assert!(header.starts_with("diff --git a/f.txt b/f.txt\n"));
    assert!(header.ends_with("+++ b/f.txt\n"));
    assert!(!header.contains("@@"));
    assert_eq!(hunks.len(), 2);
    assert!(hunks[0].starts_with("@@ -1,3 +1,3 @@\n"));
    assert!(hunks[1].starts_with("@@ -10,2 +10,3 @@ fn foo()\n"));
    assert_eq!(format!("{header}{}", hunks[1]).contains("+y\n"), true);
}

#[test]
fn parse_hunks_counts_added_removed() {
    let hunks = parse_hunks(SAMPLE_DIFF);
    assert_eq!(hunks.len(), 2);
    assert_eq!(hunks[0].header, "@@ -1,3 +1,3 @@");
    assert_eq!((hunks[0].added, hunks[0].removed), (1, 1));
    assert_eq!(hunks[1].header, "@@ -10,2 +10,3 @@ fn foo()");
    assert_eq!((hunks[1].added, hunks[1].removed), (1, 0));
}

#[test]
fn parse_stash_list_basic() {
    let input = "stash@{0}\u{1f}WIP on main: a1b2 fix\nstash@{1}\u{1f}On dev: wip\n";
    let s = parse_stash_list(input);
    assert_eq!(s.len(), 2);
    assert_eq!((s[0].index, s[0].message.as_str()), (0, "WIP on main: a1b2 fix"));
    assert_eq!((s[1].index, s[1].message.as_str()), (1, "On dev: wip"));
    assert!(parse_stash_list("").is_empty());
}

#[test]
fn parse_hunks_empty_diff() {
    assert!(parse_hunks("").is_empty());
    let bin = "diff --git a/x.bin b/x.bin\nBinary files a/x.bin and b/x.bin differ\n";
    assert!(parse_hunks(bin).is_empty());
}

#[test]
fn hunk_ids_distinct_and_stable() {
    let hunks = parse_hunks(SAMPLE_DIFF);
    assert_eq!(hunks.len(), 2);
    assert_eq!(hunks[0].id, parse_hunks(SAMPLE_DIFF)[0].id);
    assert_ne!(hunks[0].id, hunks[1].id);
    assert!(!hunks[0].id.is_empty());
}

// ---- own tests ----

#[test]
fn split_diff_reassembles_exactly() {
    let (header, hunks) = split_diff(SAMPLE_DIFF);
    assert_eq!(format!("{header}{}", hunks.concat()), SAMPLE_DIFF);
    let (h2, b2) = split_diff("no hunks here\n");
    assert_eq!(h2, "no hunks here\n");
    assert!(b2.is_empty());
}

#[test]
fn hunk_id_is_sixteen_hex_digits() {
    let id = hunk_id(" a\n-b\n");
    assert_eq!(id.len(), 16);
    assert!(id.chars().all(|c| c.is_ascii_hexdigit() && !c.is_ascii_uppercase()));
    assert_eq!(id, hunk_id(" a\n-b\n"));
}

#[test]
fn hex16_pads_and_lowercases() {
    assert_eq!(hex16_string(0), "0000000000000000");
    assert_eq!(hex16_string(0xdead_beef), "00000000deadbeef");
    assert_eq!(hex16_string(u64::MAX), "ffffffffffffffff");
}

#[test]
fn name_status_missing_paths_are_errors() {
    assert!(matches!(parse_name_status(b"M\0"), Err(GitError::Parse(m)) if m == "missing path"));
    assert!(matches!(parse_name_status(b"R100\0"), Err(GitError::Parse(m)) if m == "missing old path"));
    assert!(matches!(parse_name_status(b"R100\0old\0"), Err(GitError::Parse(m)) if m == "missing new path"));
    assert!(matches!(parse_name_status(b"\xff\0x\0"), Err(GitError::Parse(m)) if m == "status not utf-8"));
    assert!(matches!(parse_name_status(b"M\0\xff\0"), Err(GitError::Parse(m)) if m == "path not utf-8"));
}

#[test]
fn name_status_copy_and_unknown_kinds() {
    let out = collect(b"C75\0a.txt\0b.txt\0A\0new.rs\0D\0gone.rs\0T\0link\0");
    assert_eq!(out.len(), 4);
    assert_eq!(out[0].status, FileStatus::Copied);
    assert_eq!(out[0].old_path.as_deref(), Some("a.txt"));
    assert_eq!(out[1].status, FileStatus::Added);
    assert_eq!(out[2].status, FileStatus::Deleted);
    assert_eq!(out[3].status, FileStatus::TypeChanged);
    // Without a trailing NUL the last field still counts.
    let out = collect(b"M\0tail.rs");
    assert_eq!(out[0].path, "tail.rs");
}

#[test]
fn refs_are_classified() {
    let text = "main\trefs/heads/main\norigin/HEAD\trefs/remotes/origin/HEAD\norigin/main\trefs/remotes/origin/main\nv1\trefs/tags/v1\nnote\trefs/notes/x\n\nbad\n";
    let refs = parse_refs(text);
    assert_eq!(refs.len(), 3);
    assert_eq!((refs[0].name.as_str(), refs[0].kind), ("main", BranchKind::Local));
    assert_eq!((refs[1].name.as_str(), refs[1].kind), ("origin/main", BranchKind::Remote));
    assert_eq!((refs[2].name.as_str(), refs[2].kind), ("v1", BranchKind::Tag));
}

#[test]
fn stash_list_skips_malformed_lines() {
    let s = parse_stash_list("stash@{x}\u{1f}bad\nstash@{2}\nnope\n");
    assert_eq!(s.len(), 1);
    assert_eq!((s[0].index, s[0].message.as_str()), (2, ""));
}

#[test]
fn base64_matches_rfc4648_vectors() {
    assert_eq!(base64_encode(b""), "");
    assert_eq!(base64_encode(b"f"), "Zg==");
    assert_eq!(base64_encode(b"fo"), "Zm8=");
    assert_eq!(base64_encode(b"foo"), "Zm9v");
    assert_eq!(base64_encode(b"foob"), "Zm9vYg==");
    assert_eq!(base64_encode(b"fooba"), "Zm9vYmE=");
    assert_eq!(base64_encode(b"foobar"), "Zm9vYmFy");
    assert_eq!(base64_encode(&[0xff, 0xfe, 0xfd]), "//79");
}

#[test]
fn image_paths_and_mimes() {
    assert!(is_image_path("a/b/Logo.PNG"));
    assert!(is_image_path("x.jpeg"));
    assert!(!is_image_path("icon.svg"));
    assert!(!is_image_path("tex.tga"));
    assert_eq!(image_mime("a.png"), "image/png");
    assert_eq!(image_mime("a.JPG"), "image/jpeg");
    assert_eq!(image_mime("a.jpeg"), "image/jpeg");
    assert_eq!(image_mime("a.ico"), "image/x-icon");
    assert_eq!(image_mime("a.avif"), "image/avif");
    assert_eq!(image_mime("a.txt"), "application/octet-stream");
}

#[test]
fn diff_args_for_staged_and_unstaged() {
    assert_eq!(diff_args(true, "f.rs"), vec!["diff", "--cached", "--", "f.rs"]);
    assert_eq!(diff_args(false, "f.rs"), vec!["diff", "--", "f.rs"]);
}

#[test]
fn gitlink_views() {
    let sha = Some("abc".to_string());
    assert_eq!(gitlink_text(&sha), "Subproject commit abc\n");
    assert_eq!(gitlink_text(&None), "");
    match gitlink_diff(&None, &sha) {
        FileDiff::Text { old_content, new_content, old_size, new_size, changes, derived_label, .. } => {
            assert_eq!(old_content, "");
            assert_eq!(new_content, "Subproject commit abc\n");
            assert_eq!((old_size, new_size), (0, 0));
            assert_eq!(changes.len(), 1);
            assert!(derived_label.is_none());
        }
        other => panic!("unexpected {other:?}"),
    }
}

#[test]
fn branch_gate_decisions() {
    assert!(matches!(
        branch_size_gate(Some(2_000_000), None, false, false, false),
        Some(FileDiff::TooLarge { old_size: 2_000_000, new_size: 0 })
    ));
    assert!(branch_size_gate(Some(2_000_000), None, true, false, false).is_none());
    assert!(branch_size_gate(Some(2_000_000), None, false, false, true).is_none());
    assert!(branch_size_gate(Some(2_000_000), None, false, true, false).is_none());
    match branch_size_gate(None, Some(70_000_000), false, true, false) {
        Some(FileDiff::Binary { note: Some(n), .. }) => {
            assert_eq!(n, "Unreal asset header too large to preview.")
        }
        other => panic!("unexpected {other:?}"),
    }
}

#[test]
fn image_and_content_views() {
    match image_diff("p.png", b"ab", b"", false) {
        FileDiff::Image { old_b64, new_b64, mime, old_size, new_size } => {
            assert_eq!(old_b64, "YWI=");
            assert_eq!(new_b64, "");
            assert_eq!(mime, "image/png");
            assert_eq!((old_size, new_size), (2, 0));
        }
        other => panic!("unexpected {other:?}"),
    }
    assert!(matches!(content_diff(b"a\0b", b"x", 3, 1), FileDiff::Binary { note: None, .. }));
    match content_diff(b"a\r\nb\n", b"a\nc\n", 5, 4) {
        FileDiff::Text { old_content, new_content, changes, .. } => {
            assert_eq!(old_content, "a\nb\n");
            assert_eq!(new_content, "a\nc\n");
            assert!(!changes.is_empty());
        }
        other => panic!("unexpected {other:?}"),
    }
    match content_diff(b"\xff\n", b"", 2, 0) {
        FileDiff::Text { old_content, .. } => assert_eq!(old_content, "\u{fffd}\n"),
        other => panic!("unexpected {other:?}"),
    }
}

#[test]
fn timelapse_gates_large_sides() {
    let big = vec![b'a'; 1_000_001];
    assert!(matches!(timelapse_diff(&big, b""), FileDiff::TooLarge { old_size: 1_000_001, new_size: 0 }));
    assert!(matches!(timelapse_diff(b"x", b"y"), FileDiff::Text { .. }));
}

#[test]
fn change_sides_and_specs() {
    assert_eq!(sides_needed(FileStatus::Added), (false, true));
    assert_eq!(sides_needed(FileStatus::Deleted), (true, false));
    assert_eq!(sides_needed(FileStatus::Modified), (true, true));
    assert_eq!(changes_old_spec(true, "a.rs"), "HEAD:a.rs");
    assert_eq!(changes_old_spec(false, "a.rs"), ":a.rs");
    assert_eq!(blob_spec("main", "x/y"), "main:x/y");
}

#[test]
fn status_input_check() {
    assert!(status_text_ok("? a\0# branch.head x\0"));
    assert!(!status_text_ok("?\0"));
}

#[test]
fn split_diff_blocks_open_with_their_only_hunk_line() {
    let (header, hunks) = split_diff(SAMPLE_DIFF);
    assert!(header.lines().all(|l| !l.starts_with("@@")));
    for h in &hunks {
        let mut lines = h.lines();
        assert!(lines.next().unwrap().starts_with("@@"));
        assert!(lines.all(|l| !l.starts_with("@@")));
    }
}
