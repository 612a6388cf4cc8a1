use riff::git::write::{
    add_arg_chunks, command_error_text, op_abort_args, op_continue_args, pending_op_name,
    ADD_CHUNK_SIZE,
};

#[test]
fn add_arg_chunks_empty_produces_no_groups() {
    let paths: Vec<String> = vec![];
    assert!(add_arg_chunks(&paths).is_empty());
}

#[test]
fn add_arg_chunks_one_group_under_the_cap() {
    let paths = vec!["a.txt".to_string(), "b.txt".to_string()];
    let chunks = add_arg_chunks(&paths);
    assert_eq!(chunks.len(), 1);
    assert_eq!(chunks[0], vec!["add", "--", "a.txt", "b.txt"]);
}

#[test]
fn add_arg_chunks_splits_at_the_cap() {
    let paths: Vec<String> = (0..ADD_CHUNK_SIZE + 1).map(|i| format!("f{i}.txt")).collect();
    let chunks = add_arg_chunks(&paths);
    assert_eq!(chunks.len(), 2);
    assert_eq!(chunks[0].len(), 2 + ADD_CHUNK_SIZE);
    assert_eq!(chunks[1].len(), 2 + 1);
    assert_eq!(chunks[0][0], "add");
    assert_eq!(chunks[0][1], "--");
    assert_eq!(chunks[1][2], "f100.txt");
}

#[test]
fn add_arg_chunks_exactly_the_cap_is_one_group() {
    let paths: Vec<String> = (0..ADD_CHUNK_SIZE).map(|i| format!("f{i}.txt")).collect();
    assert_eq!(add_arg_chunks(&paths).len(), 1);
}

#[test]
fn command_error_text_prefers_stderr() {
    assert_eq!(command_error_text(b"stderr msg", b"stdout msg"), "stderr msg");
}

#[test]
fn command_error_text_falls_back_to_stdout_when_stderr_is_empty() {
    assert_eq!(
        command_error_text(b"", b"You must edit all merge conflicts..."),
        "You must edit all merge conflicts..."
    );
}

#[test]
fn command_error_text_falls_back_when_stderr_is_only_whitespace() {
    assert_eq!(command_error_text(b"   \n", b"real message"), "real message");
}

#[test]
fn command_error_text_trims_both_streams() {
    assert_eq!(command_error_text(b"  stderr text \n", b""), "stderr text");
}

#[test]
fn command_error_text_empty_both_is_empty() {
    assert_eq!(command_error_text(b"", b""), "");
}

// ---- own tests ----

#[test]
fn add_arg_chunks_cover_every_path_once_in_order() {
    let paths: Vec<String> = (0..250).map(|i| format!("p{i}")).collect();
    let chunks = add_arg_chunks(&paths);
    assert_eq!(chunks.len(), 3);
    let joined: Vec<&str> = chunks.iter().flat_map(|c| c[2..].iter().copied()).collect();
    let want: Vec<&str> = paths.iter().map(String::as_str).collect();
    assert_eq!(joined, want);
    assert_eq!(chunks[2].len(), 2 + 50);
}

#[test]
fn op_arguments() {
    assert_eq!(op_abort_args("rebase").unwrap(), vec!["rebase", "--abort"]);
    assert!(op_abort_args("none").is_err());
    assert_eq!(op_continue_args("merge").unwrap(), vec!["commit", "--no-edit"]);
    assert_eq!(op_continue_args("revert").unwrap(), vec!["revert", "--continue"]);
    assert!(op_continue_args("bisect").is_err());
}

#[test]
fn pending_op_priority() {
    assert_eq!(pending_op_name(false, true, true, false, false), "rebase");
    assert_eq!(pending_op_name(false, false, true, true, false), "merge");
    assert_eq!(pending_op_name(false, false, false, true, true), "cherry-pick");
    assert_eq!(pending_op_name(false, false, false, false, true), "revert");
    assert_eq!(pending_op_name(false, false, false, false, false), "none");
}

#[test]
fn command_error_text_lossy_decodes() {
    assert_eq!(command_error_text(b"\xff bad", b""), "\u{fffd} bad");
}
