use riff::watch::{
    burst_starts, debounce_step, event_relevance, git_internal_relevant, slash_path, watch_plan,
    DebounceAction, DebounceEvent, DebounceState, Relevance,
};

#[test]
fn git_state_files_are_relevant() {
    for p in [
        ".git/HEAD",
        ".git/packed-refs",
        ".git/index",
        ".git/refs/heads/main",
        ".git/MERGE_HEAD",
        ".git/rebase-merge/done",
        ".git/modules/sub/refs/heads/x",
    ] {
        assert_eq!(git_internal_relevant(p), Some(true), "{p}");
    }
}

#[test]
fn git_noise_is_filtered() {
    for p in [
        ".git/objects/ab/cdef",
        ".git/logs/HEAD",
        ".git/index.lock",
        ".git/refs/heads/main.lock",
        ".git/COMMIT_EDITMSG",
        ".git/FETCH_HEAD",
    ] {
        assert_eq!(git_internal_relevant(p), Some(false), "{p}");
    }
}

#[test]
fn worktree_paths_are_not_git_internal() {
    assert_eq!(git_internal_relevant("src/main.rs"), None);
    assert_eq!(git_internal_relevant("Saved/Logs/foo.log"), None);
}

// ---- own tests ----

#[test]
fn other_git_files_are_not_relevant() {
    assert_eq!(git_internal_relevant(".git/config"), Some(false));
    assert_eq!(git_internal_relevant(".git/sequencer/todo"), Some(true));
    assert_eq!(git_internal_relevant(".git/lfs/tmp/x"), Some(false));
}

#[test]
fn event_relevance_judgements() {
    assert_eq!(event_relevance(None), Relevance::Relevant);
    assert_eq!(event_relevance(Some("")), Relevance::Relevant);
    assert_eq!(event_relevance(Some(r".git\HEAD")), Relevance::Relevant);
    assert_eq!(event_relevance(Some(".git/objects/x")), Relevance::Irrelevant);
    assert_eq!(event_relevance(Some("src/lib.rs")), Relevance::UnlessIgnored);
    assert_eq!(slash_path(r"a\b\c"), "a/b/c");
}

#[test]
fn debounce_coalesces_bursts() {
    assert_eq!(debounce_step(DebounceState::Idle, DebounceEvent::Event, 0), (DebounceState::Burst, DebounceAction::WaitQuiet));
    assert_eq!(debounce_step(DebounceState::Burst, DebounceEvent::Event, 200), (DebounceState::Burst, DebounceAction::WaitQuiet));
    assert_eq!(debounce_step(DebounceState::Burst, DebounceEvent::Event, 1500), (DebounceState::Idle, DebounceAction::Emit));
    assert_eq!(debounce_step(DebounceState::Burst, DebounceEvent::Quiet, 400), (DebounceState::Idle, DebounceAction::Emit));
    assert_eq!(debounce_step(DebounceState::Burst, DebounceEvent::Disconnected, 10), (DebounceState::Idle, DebounceAction::Stop));
    assert_eq!(debounce_step(DebounceState::Idle, DebounceEvent::Disconnected, 0), (DebounceState::Idle, DebounceAction::Stop));
}

#[test]
fn watch_plan_reaches_the_wanted_set() {
    let current = vec!["a".to_string(), "b".to_string()];
    let wanted = vec!["b".to_string(), "c".to_string(), "c".to_string()];
    let plan = watch_plan(&current, &wanted);
    assert_eq!(plan.stop, vec!["a"]);
    assert_eq!(plan.start, vec!["c"]);
    let again = watch_plan(&wanted, &wanted);
    assert!(again.stop.is_empty() && again.start.is_empty());
}


#[test]
fn bursts_start_on_the_first_event_while_idle() {
    assert!(burst_starts(DebounceState::Idle, DebounceEvent::Event));
    assert!(!burst_starts(DebounceState::Burst, DebounceEvent::Event));
    assert!(!burst_starts(DebounceState::Idle, DebounceEvent::Quiet));
    assert!(!burst_starts(DebounceState::Idle, DebounceEvent::Disconnected));
}
