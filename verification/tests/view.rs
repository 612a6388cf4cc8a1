use riff::git::cli::{ASSET_TOO_LARGE, LARGE_FILE_BYTES};
use riff::git::view::{
    branch_diff_next, changes_diff_next, BranchFacts, BranchStep, ChangesFacts, ChangesStep, Fetch,
};
use riff::git::{FileDiff, FileStatus};

fn branch(old_size: Option<u64>, new_size: Option<u64>) -> BranchFacts {
    BranchFacts { old_size, new_size, links: None, content: None, images: None }
}

fn changes(is_dir: bool) -> ChangesFacts {
    ChangesFacts {
        is_dir,
        shas: None,
        assets: None,
        images: None,
        old_bytes: None,
        disk_size: None,
        new_bytes: None,
    }
}

fn text_of(d: &FileDiff) -> (&str, &str, usize) {
    match d {
        FileDiff::Text { old_content, new_content, changes, .. } => (old_content, new_content, changes.len()),
        other => panic!("expected text, got {other:?}"),
    }
}

#[test]
fn branch_text_file_reads_content_then_shows_text() {
    let mut f = branch(Some(4), Some(8));
    match branch_diff_next(&f, "base", "feat", "a.txt", None, false, true) {
        BranchStep::ReadContent { old, new } => {
            assert_eq!(old.as_deref(), Some("base:a.txt"));
            assert_eq!(new.as_deref(), Some("feat:a.txt"));
        }
        other => panic!("unexpected {other:?}"),
    }
    f.content = Some((b"one\n".to_vec(), b"one\ntwo\n".to_vec()));
    match branch_diff_next(&f, "base", "feat", "a.txt", None, false, true) {
        BranchStep::Show(d) => {
            let (o, n, k) = text_of(&d);
            assert_eq!((o, n, k), ("one\n", "one\ntwo\n", 1));
        }
        other => panic!("unexpected {other:?}"),
    }
}

#[test]
fn branch_renamed_file_reads_old_path_on_old_side() {
    let f = branch(Some(1), None);
    match branch_diff_next(&f, "base", "feat", "new.txt", Some("old.txt"), false, false) {
        BranchStep::ReadContent { old, new } => {
            assert_eq!(old.as_deref(), Some("base:old.txt"));
            assert_eq!(new, None);
        }
        other => panic!("unexpected {other:?}"),
    }
}

#[test]
fn branch_missing_sides_look_up_submodule_pointers() {
    let mut f = branch(None, None);
    match branch_diff_next(&f, "base", "feat", "sub", None, false, false) {
        BranchStep::LookupGitlinks { old_tree, old_path, new_tree, new_path } => {
            assert_eq!((old_tree.as_str(), old_path.as_str()), ("base", "sub"));
            assert_eq!((new_tree.as_str(), new_path.as_str()), ("feat", "sub"));
        }
        other => panic!("unexpected {other:?}"),
    }
    f.links = Some((None, Some("abc123".to_string())));
    match branch_diff_next(&f, "base", "feat", "sub", None, false, false) {
        BranchStep::Show(d) => {
            let (o, n, k) = text_of(&d);
            assert_eq!((o, n, k), ("", "Subproject commit abc123\n", 1));
        }
        other => panic!("unexpected {other:?}"),
    }
    // No pointer on either side: an ordinary (empty) file.
    f.links = Some((None, None));
    assert!(matches!(
        branch_diff_next(&f, "base", "feat", "sub", None, false, false),
        BranchStep::ReadContent { old: None, new: None }
    ));
}

#[test]
fn branch_large_file_is_gated_unless_forced() {
    let f = branch(Some(LARGE_FILE_BYTES + 1), Some(3));
    assert!(matches!(
        branch_diff_next(&f, "b", "t", "big.log", None, false, false),
        BranchStep::Show(FileDiff::TooLarge { old_size, new_size: 3 }) if old_size == LARGE_FILE_BYTES + 1
    ));
    assert!(matches!(
        branch_diff_next(&f, "b", "t", "big.log", None, true, false),
        BranchStep::ReadContent { .. }
    ));
}

#[test]
fn branch_asset_and_image_paths() {
    let mut f = branch(Some(10), Some(12));
    f.content = Some((vec![0, 2], vec![3]));
    match branch_diff_next(&f, "base", "feat", "Maps/A.uasset", None, false, true) {
        BranchStep::DeriveAsset { old, new, old_uexp, new_uexp, old_size, new_size } => {
            assert_eq!(old, Fetch::Filtered("base:Maps/A.uasset".into()));
            assert_eq!(new, Fetch::Filtered("feat:Maps/A.uasset".into()));
            assert_eq!(old_uexp, Fetch::Filtered("base:Maps/A.uexp".into()));
            assert_eq!(new_uexp, Fetch::Filtered("feat:Maps/A.uexp".into()));
            assert_eq!((old_size, new_size), (10, 12));
        }
        other => panic!("unexpected {other:?}"),
    }
    // With asset parsing off, the asset is just binary content.
    assert!(matches!(
        branch_diff_next(&f, "base", "feat", "Maps/A.uasset", None, false, false),
        BranchStep::Show(FileDiff::Binary { note: None, .. })
    ));

    let mut g = branch(None, Some(3));
    g.content = Some((vec![], vec![0, 1, 2]));
    match branch_diff_next(&g, "base", "feat", "logo.png", None, false, true) {
        BranchStep::ReadImages { old, new } => {
            assert_eq!(old, Fetch::Absent);
            assert_eq!(new, Fetch::Filtered("feat:logo.png".into()));
        }
        other => panic!("unexpected {other:?}"),
    }
    g.images = Some((vec![], b"abc".to_vec()));
    match branch_diff_next(&g, "base", "feat", "logo.png", None, false, true) {
        BranchStep::Show(FileDiff::Image { old_b64, new_b64, mime, old_size, new_size }) => {
            assert_eq!((old_b64.as_str(), new_b64.as_str(), mime.as_str()), ("", "YWJj", "image/png"));
            assert_eq!((old_size, new_size), (0, 3));
        }
        other => panic!("unexpected {other:?}"),
    }
}

#[test]
fn changes_submodule_resolves_pointers() {
    let mut f = changes(true);
    match changes_diff_next(&f, "sub", None, FileStatus::Modified, true, false, true) {
        ChangesStep::ResolveGitlinks { old_spec, new_spec } => {
            assert_eq!(old_spec, "HEAD:sub");
            assert_eq!(new_spec.as_deref(), Some(":sub"));
        }
        other => panic!("unexpected {other:?}"),
    }
    match changes_diff_next(&f, "sub", None, FileStatus::Modified, false, false, true) {
        ChangesStep::ResolveGitlinks { old_spec, new_spec } => {
            assert_eq!(old_spec, ":sub");
            assert_eq!(new_spec, None);
        }
        other => panic!("unexpected {other:?}"),
    }
    f.shas = Some((Some("aaa".into()), Some("bbb".into())));
    match changes_diff_next(&f, "sub", None, FileStatus::Modified, false, false, true) {
        ChangesStep::Show(d) => {
            let (o, n, k) = text_of(&d);
            assert_eq!((o, n, k), ("Subproject commit aaa\n", "Subproject commit bbb\n", 1));
        }
        other => panic!("unexpected {other:?}"),
    }
}

#[test]
fn changes_unstaged_text_reads_index_then_worktree() {
    let mut f = changes(false);
    let step = |f: &ChangesFacts| changes_diff_next(f, "src/a.rs", None, FileStatus::Modified, false, false, true);
    match step(&f) {
        ChangesStep::ReadOld { spec } => assert_eq!(spec, ":src/a.rs"),
        other => panic!("unexpected {other:?}"),
    }
    f.old_bytes = Some(b"fn a() {}\n".to_vec());
    assert!(matches!(step(&f), ChangesStep::StatWorktree));
    f.disk_size = Some(21);
    assert!(matches!(step(&f), ChangesStep::ReadWorktree));
    f.new_bytes = Some(b"fn a() {}\nfn b() {}\n".to_vec());
    match step(&f) {
        ChangesStep::Show(d) => {
            let (o, n, k) = text_of(&d);
            assert_eq!((o, n, k), ("fn a() {}\n", "fn a() {}\nfn b() {}\n", 1));
        }
        other => panic!("unexpected {other:?}"),
    }
}

#[test]
fn changes_large_worktree_file_is_not_read() {
    let mut f = changes(false);
    f.old_bytes = Some(b"x".to_vec());
    f.disk_size = Some(LARGE_FILE_BYTES + 5);
    assert!(matches!(
        changes_diff_next(&f, "big.bin", None, FileStatus::Modified, false, false, true),
        ChangesStep::Show(FileDiff::TooLarge { old_size: 1, new_size }) if new_size == LARGE_FILE_BYTES + 5
    ));
    assert!(matches!(
        changes_diff_next(&f, "big.bin", None, FileStatus::Modified, false, true, true),
        ChangesStep::ReadWorktree
    ));
}

#[test]
fn changes_added_and_deleted_sides() {
    // Staged addition: no old side; the new side is the index blob.
    let mut f = changes(false);
    match changes_diff_next(&f, "n.txt", None, FileStatus::Added, true, false, true) {
        ChangesStep::ReadIndex { spec } => assert_eq!(spec, ":n.txt"),
        other => panic!("unexpected {other:?}"),
    }
    f.new_bytes = Some(b"hi\n".to_vec());
    match changes_diff_next(&f, "n.txt", None, FileStatus::Added, true, false, true) {
        ChangesStep::Show(d) => assert_eq!(text_of(&d), ("", "hi\n", 1)),
        other => panic!("unexpected {other:?}"),
    }
    // Unstaged deletion: the old side only.
    let mut g = changes(false);
    g.old_bytes = Some(b"gone\n".to_vec());
    match changes_diff_next(&g, "d.txt", None, FileStatus::Deleted, false, false, true) {
        ChangesStep::Show(d) => assert_eq!(text_of(&d), ("gone\n", "", 1)),
        other => panic!("unexpected {other:?}"),
    }
}

#[test]
fn changes_asset_reads_sides_then_derives() {
    let mut f = changes(false);
    let step = |f: &ChangesFacts| changes_diff_next(f, "Maps/A.uasset", Some("Maps/Old.uasset"), FileStatus::Renamed, false, false, true);
    match step(&f) {
        ChangesStep::ReadAssets { old, new } => {
            assert_eq!(old, Fetch::Filtered(":Maps/Old.uasset".into()));
            assert_eq!(new, Fetch::Disk("Maps/A.uasset".into()));
        }
        other => panic!("unexpected {other:?}"),
    }
    f.assets = Some((vec![1; 4], vec![2; 6]));
    match step(&f) {
        ChangesStep::DeriveAsset { old_uexp, new_uexp, old_size, new_size } => {
            assert_eq!(old_uexp, Fetch::Filtered(":Maps/Old.uexp".into()));
            assert_eq!(new_uexp, Fetch::Disk("Maps/A.uexp".into()));
            assert_eq!((old_size, new_size), (4, 6));
        }
        other => panic!("unexpected {other:?}"),
    }
    // Staged: the new side comes from the index.
    let g = changes(false);
    match changes_diff_next(&g, "A.uasset", None, FileStatus::Modified, true, false, true) {
        ChangesStep::ReadAssets { old, new } => {
            assert_eq!(old, Fetch::Filtered("HEAD:A.uasset".into()));
            assert_eq!(new, Fetch::Filtered(":A.uasset".into()));
        }
        other => panic!("unexpected {other:?}"),
    }
}

#[test]
fn changes_oversized_asset_gets_a_note() {
    let mut f = changes(false);
    f.assets = Some((vec![], vec![0u8; 64_000_001]));
    match changes_diff_next(&f, "A.umap", None, FileStatus::Added, false, false, true) {
        ChangesStep::Show(FileDiff::Binary { old_size: 0, new_size: 64_000_001, note }) => {
            assert_eq!(note.as_deref(), Some(ASSET_TOO_LARGE));
        }
        other => panic!("unexpected {other:?}"),
    }
}
