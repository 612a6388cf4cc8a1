use riff::store::{
    add_manual_repo, add_recent_repo, remove_manual_repo, remove_recent_repo, set_compare_mode,
    set_font_size, set_theme, set_workspace_layout, PersistedState, MAX_RECENT,
};

#[test]
fn defaults() {
    let s = PersistedState::default();
    assert!(s.recent_repos.is_empty());
    assert_eq!(s.theme, "system");
    assert_eq!(s.font_size, 13);
    assert_eq!(s.compare_mode, "branch");
    assert!(s.manual_repos_by_main.is_empty());
    assert_eq!(s.workspace_layout, "unified");
}

#[test]
fn recent_repos_move_to_front_and_cap() {
    let mut s = PersistedState::default();
    for i in 0..12 {
        add_recent_repo(&mut s, format!("r{i}"));
    }
    assert_eq!(s.recent_repos.len(), MAX_RECENT);
    assert_eq!(s.recent_repos[0], "r11");
    let r = add_recent_repo(&mut s, "r5".to_string());
    assert_eq!(r[0], "r5");
    assert_eq!(r.iter().filter(|p| *p == "r5").count(), 1);
    assert_eq!(r, s.recent_repos);
    let r = remove_recent_repo(&mut s, "r5".to_string());
    assert!(!r.contains(&"r5".to_string()));
    assert_eq!(r.len(), MAX_RECENT - 1);
}

#[test]
fn font_size_is_clamped() {
    let mut s = PersistedState::default();
    set_font_size(&mut s, 2);
    assert_eq!(s.font_size, 8);
    set_font_size(&mut s, 99);
    assert_eq!(s.font_size, 32);
    set_font_size(&mut s, 15);
    assert_eq!(s.font_size, 15);
}

#[test]
fn simple_setters() {
    let mut s = PersistedState::default();
    set_theme(&mut s, "dark".into());
    set_compare_mode(&mut s, "changes".into());
    set_workspace_layout(&mut s, "tabs".into());
    assert_eq!((s.theme.as_str(), s.compare_mode.as_str(), s.workspace_layout.as_str()), ("dark", "changes", "tabs"));
}

#[test]
fn manual_repos_skip_duplicates_and_drop_empty_lists() {
    let mut s = PersistedState::default();
    assert_eq!(add_manual_repo(&mut s, "main".into(), "x".into()), vec!["x"]);
    assert_eq!(add_manual_repo(&mut s, "main".into(), "y".into()), vec!["x", "y"]);
    assert_eq!(add_manual_repo(&mut s, "main".into(), "x".into()), vec!["x", "y"]);
    assert_eq!(add_manual_repo(&mut s, "other".into(), "z".into()), vec!["z"]);
    assert_eq!(s.manual_repos_by_main.len(), 2);
    assert_eq!(remove_manual_repo(&mut s, "main".into(), "x".into()), vec!["y"]);
    assert!(remove_manual_repo(&mut s, "main".into(), "y".into()).is_empty());
    assert_eq!(s.manual_repos_by_main.len(), 1);
    assert!(remove_manual_repo(&mut s, "nobody".into(), "q".into()).is_empty());
    assert_eq!(s.manual_repos_by_main[0].0, "other");
}

#[test]
fn reopening_the_last_repo_changes_nothing() {
    let mut st = PersistedState::default();
    for r in ["a", "b", "c"] {
        add_recent_repo(&mut st, r.to_string());
    }
    let once = add_recent_repo(&mut st, "b".to_string());
    let twice = add_recent_repo(&mut st, "b".to_string());
    assert_eq!(once, vec!["b", "c", "a"]);
    assert_eq!(twice, once);
}
