//! The argument lists of the git commands the client runs, built and checked
//! before anything is spawned.

use vstd::prelude::*;

use crate::git::cli::{bad_arg, split_diff, split_diff_spec, validate_path, validate_ref, COMMIT_LOG_FORMAT};
use crate::git::error::{GitError, GitErrorView};
use crate::git::{strs_view, DiffMode};
use crate::text::{chars_of, concat, decimal, decimal_string, owned, push_str, trim, trim_bounds, string_of};

verus! {

/// The strings of some string slices.
fn strings(items: Vec<&str>) -> (r: Vec<String>)
    ensures
        strs_view(r@) == items@.map_values(|s: &str| s@),
{
    let mut out: Vec<String> = Vec::new();
    let mut i: usize = 0;
    while i < items.len()
        invariant
            i <= items@.len(),
            strs_view(out@) == items@.subrange(0, i as int).map_values(|s: &str| s@),
        decreases items@.len() - i,
    {
        let ghost prev = out@;
        out.push(owned(items[i]));
        proof {
            assert(strs_view(out@) =~= strs_view(prev).push(items@[i as int]@));
            assert(items@.subrange(0, i + 1).map_values(|s: &str| s@) =~= items@.subrange(
                0,
                i as int,
            ).map_values(|s: &str| s@).push(items@[i as int]@));
        }
        i += 1;
    }
    assert(items@.subrange(0, items@.len() as int) =~= items@);
    out
}

/// Appends the strings of `more` to `v`.
fn append_all(v: &mut Vec<String>, more: &[String])
    ensures
        strs_view(final(v)@) == strs_view(old(v)@) + strs_view(more@),
{
    let mut i: usize = 0;
    while i < more.len()
        invariant
            i <= more@.len(),
            strs_view(v@) == strs_view(old(v)@) + strs_view(more@.subrange(0, i as int)),
        decreases more@.len() - i,
    {
        let ghost prev = v@;
        v.push(owned(more[i].as_str()));
        proof {
            assert(strs_view(v@) =~= strs_view(prev).push(more@[i as int]@));
            assert(strs_view(more@.subrange(0, i + 1)) =~= strs_view(more@.subrange(0, i as int)).push(
                more@[i as int]@,
            ));
        }
        i += 1;
    }
    assert(more@.subrange(0, more@.len() as int) =~= more@);
}

/// Appends one string to `v`.
fn push_owned(v: &mut Vec<String>, s: &str)
    ensures
        strs_view(final(v)@) == strs_view(old(v)@).push(s@),
{
    let ghost prev = v@;
    v.push(owned(s));
    assert(strs_view(v@) =~= strs_view(prev).push(s@));
}

// ---------------------------------------------------------------------------
// Path lists
// ---------------------------------------------------------------------------

/// The error for the first path that could be read as an option, if any.
pub open spec fn first_bad_path(ps: Seq<Seq<char>>) -> Option<GitErrorView>
    decreases ps.len(),
{
    if ps.len() == 0 {
        None
    } else if bad_arg(ps[0]) {
        Some(GitErrorView::InvalidRef("invalid path: "@ + ps[0]))
    } else {
        first_bad_path(ps.drop_first())
    }
}

/// Checks every path of `paths`, stopping at the first invalid one.
pub fn validate_paths(paths: &[String]) -> (r: Result<(), GitError>)
    ensures
        match (r, first_bad_path(strs_view(paths@))) {
            (Ok(()), None) => true,
            (Err(e), Some(x)) => e@ == x,
            _ => false,
        },
{
    let ghost ps = strs_view(paths@);
    let mut i: usize = 0;
    assert(ps.subrange(0, ps.len() as int) =~= ps);
    while i < paths.len()
        invariant
            ps == strs_view(paths@),
            i <= paths@.len(),
            first_bad_path(ps) == first_bad_path(ps.subrange(i as int, ps.len() as int)),
        decreases paths@.len() - i,
    {
        let ghost rest = ps.subrange(i as int, ps.len() as int);
        assert(rest[0] == paths@[i as int]@);
        validate_path(paths[i].as_str())?;
        assert(rest.drop_first() =~= ps.subrange(i + 1, ps.len() as int));
        i += 1;
    }
    assert(ps.subrange(ps.len() as int, ps.len() as int) =~= Seq::<Seq<char>>::empty());
    Ok(())
}

/// The arguments that stage `files` (every change when `None`).
pub fn stage_args(files: Option<&[String]>) -> (r: Result<Vec<String>, GitError>)
    ensures
        match files {
            None => r matches Ok(v) && strs_view(v@) == seq!["add"@, "-A"@],
            Some(fs) => match first_bad_path(strs_view(fs@)) {
                Some(x) => r matches Err(e) && e@ == x,
                None => r matches Ok(v) && strs_view(v@) == seq!["add"@, "--"@] + strs_view(fs@),
            },
        },
{
    match files {
        None => {
            let v = strings(vec!["add", "-A"]);
            assert(strs_view(v@) =~= seq!["add"@, "-A"@]);
            Ok(v)
        },
        Some(fs) => {
            validate_paths(fs)?;
            let mut v = strings(vec!["add", "--"]);
            append_all(&mut v, fs);
            assert(strs_view(v@) =~= seq!["add"@, "--"@] + strs_view(fs@));
            Ok(v)
        },
    }
}

/// The arguments that unstage `files` (everything when `None`).
pub fn unstage_args(files: Option<&[String]>) -> (r: Result<Vec<String>, GitError>)
    ensures
        match files {
            None => r matches Ok(v) && strs_view(v@) == seq!["restore"@, "--staged"@, "--"@, "."@],
            Some(fs) => match first_bad_path(strs_view(fs@)) {
                Some(x) => r matches Err(e) && e@ == x,
                None => r matches Ok(v) && strs_view(v@) == seq!["restore"@, "--staged"@, "--"@]
                    + strs_view(fs@),
            },
        },
{
    match files {
        None => {
            let v = strings(vec!["restore", "--staged", "--", "."]);
            assert(strs_view(v@) =~= seq!["restore"@, "--staged"@, "--"@, "."@]);
            Ok(v)
        },
        Some(fs) => {
            validate_paths(fs)?;
            let mut v = strings(vec!["restore", "--staged", "--"]);
            append_all(&mut v, fs);
            assert(strs_view(v@) =~= seq!["restore"@, "--staged"@, "--"@] + strs_view(fs@));
            Ok(v)
        },
    }
}

// ---------------------------------------------------------------------------
// Commits
// ---------------------------------------------------------------------------

/// The `Co-authored-by:` trailers of the non-blank co-authors, trimmed.
pub open spec fn trailers(cs: Seq<Seq<char>>) -> Seq<Seq<char>>
    decreases cs.len(),
{
    if cs.len() == 0 {
        seq![]
    } else {
        let rest = trailers(cs.drop_last());
        if trim(cs.last()).len() > 0 {
            rest.push("Co-authored-by: "@ + trim(cs.last()))
        } else {
            rest
        }
    }
}

/// `--trailer <t>` for each trailer.
pub open spec fn trailer_args(ts: Seq<Seq<char>>) -> Seq<Seq<char>>
    decreases ts.len(),
{
    if ts.len() == 0 {
        seq![]
    } else {
        trailer_args(ts.drop_last()) + seq!["--trailer"@, ts.last()]
    }
}

/// The `-m <subject> [-m <body>]` message arguments; a blank body is left out.
pub open spec fn message_args(subject: Seq<char>, body: Seq<char>) -> Seq<Seq<char>> {
    if trim(body).len() > 0 {
        seq!["-m"@, subject, "-m"@, body]
    } else {
        seq!["-m"@, subject]
    }
}

/// The trimmed text of `s`.
fn trimmed(s: &str) -> (t: String)
    ensures
        t@ == trim(s@),
{
    let cs = chars_of(s);
    assert(cs@.subrange(0, cs@.len() as int) =~= cs@);
    let (a, b) = trim_bounds(cs.as_slice(), 0, cs.len());
    string_of(cs.as_slice(), a, b)
}

/// The `--trailer Co-authored-by: <name>` arguments for the co-authors.
pub fn trailer_arguments(coauthors: &[String]) -> (r: Vec<String>)
    ensures
        strs_view(r@) == trailer_args(trailers(strs_view(coauthors@))),
{
    let ghost cs = strs_view(coauthors@);
    let mut out: Vec<String> = Vec::new();
    let ghost mut ts: Seq<Seq<char>> = seq![];
    let mut i: usize = 0;
    while i < coauthors.len()
        invariant
            cs == strs_view(coauthors@),
            i <= coauthors@.len(),
            ts == trailers(cs.subrange(0, i as int)),
            strs_view(out@) == trailer_args(ts),
        decreases coauthors@.len() - i,
    {
        proof {
            assert(cs.subrange(0, i + 1).drop_last() =~= cs.subrange(0, i as int));
            assert(cs.subrange(0, i + 1).last() == coauthors@[i as int]@);
        }
        let t = trimmed(coauthors[i].as_str());
        let tc = chars_of(t.as_str());
        if tc.len() > 0 {
            let mut line = owned("Co-authored-by: ");
            push_str(&mut line, t.as_str());
            let ghost prev = out@;
            push_owned(&mut out, "--trailer");
            push_owned(&mut out, line.as_str());
            proof {
                assert(trailer_args(ts.push(line@)) =~= trailer_args(ts) + seq!["--trailer"@, line@]) by {
                    assert(ts.push(line@).drop_last() =~= ts);
                }
                assert(strs_view(out@) =~= trailer_args(ts) + seq!["--trailer"@, line@]);
                ts = ts.push(line@);
            }
        }
        i += 1;
    }
    assert(cs.subrange(0, coauthors@.len() as int) =~= cs);
    out
}

/// The `git commit` arguments for a commit of the index.
pub open spec fn commit_args_spec(
    subject: Seq<char>,
    body: Seq<char>,
    amend: bool,
    signoff: bool,
    coauthors: Seq<Seq<char>>,
) -> Result<Seq<Seq<char>>, GitErrorView> {
    if trim(subject).len() == 0 {
        Err(GitErrorView::CommandFailed("commit subject is empty"@))
    } else {
        Ok(
            seq!["commit"@] + (if amend {
                seq!["--amend"@]
            } else {
                seq![]
            }) + (if signoff {
                seq!["-s"@]
            } else {
                seq![]
            }) + message_args(subject, body) + trailer_args(trailers(coauthors)),
        )
    }
}

/// The message and trailer arguments shared by both kinds of commit.
fn message_and_trailers(v: &mut Vec<String>, subject: &str, body: &str, coauthors: &[String])
    ensures
        strs_view(final(v)@) == strs_view(old(v)@) + message_args(subject@, body@) + trailer_args(
            trailers(strs_view(coauthors@)),
        ),
{
    push_owned(v, "-m");
    push_owned(v, subject);
    let bt = trimmed(body);
    let bc = chars_of(bt.as_str());
    if bc.len() > 0 {
        push_owned(v, "-m");
        push_owned(v, body);
    }
    let ts = trailer_arguments(coauthors);
    append_all(v, ts.as_slice());
    assert(strs_view(v@) =~= strs_view(old(v)@) + message_args(subject@, body@) + trailer_args(
        trailers(strs_view(coauthors@)),
    ));
}

/// Whether `s` is blank.
fn is_blank(s: &str) -> (b: bool)
    ensures
        b == (trim(s@).len() == 0),
{
    let t = trimmed(s);
    let tc = chars_of(t.as_str());
    tc.len() == 0
}

/// The `git commit` arguments: `--amend` / `-s` as asked, `-m subject`
/// (`-m body` unless blank; git joins them with a blank line), and one
/// `--trailer Co-authored-by: …` per non-blank co-author.
pub fn commit_args(subject: &str, body: &str, amend: bool, signoff: bool, coauthors: &[String]) -> (r: Result<Vec<String>, GitError>)
    ensures
        match (r, commit_args_spec(subject@, body@, amend, signoff, strs_view(coauthors@))) {
            (Ok(v), Ok(w)) => strs_view(v@) == w,
            (Err(e), Err(x)) => e@ == x,
            _ => false,
        },
{
    if is_blank(subject) {
        return Err(GitError::CommandFailed(owned("commit subject is empty")));
    }
    let mut v = strings(vec!["commit"]);
    if amend {
        push_owned(&mut v, "--amend");
    }
    if signoff {
        push_owned(&mut v, "-s");
    }
    let ghost before = strs_view(v@);
    message_and_trailers(&mut v, subject, body, coauthors);
    assert(strs_view(v@) =~= commit_args_spec(subject@, body@, amend, signoff, strs_view(coauthors@))->Ok_0);
    Ok(v)
}

/// The `git add` and path-limited `git commit` arguments that commit exactly
/// `paths` (working-tree content of just those paths).
pub open spec fn commit_paths_spec(
    paths: Seq<Seq<char>>,
    subject: Seq<char>,
    body: Seq<char>,
    signoff: bool,
    coauthors: Seq<Seq<char>>,
) -> Result<(Seq<Seq<char>>, Seq<Seq<char>>), GitErrorView> {
    if trim(subject).len() == 0 {
        Err(GitErrorView::CommandFailed("commit subject is empty"@))
    } else if paths.len() == 0 {
        Err(GitErrorView::CommandFailed("no files to commit"@))
    } else {
        match first_bad_path(paths) {
            Some(x) => Err(x),
            None => Ok(
                (
                    seq!["add"@, "--"@] + paths,
                    seq!["commit"@] + (if signoff {
                        seq!["-s"@]
                    } else {
                        seq![]
                    }) + message_args(subject, body) + trailer_args(trailers(coauthors)) + seq![
                        "--"@,
                    ] + paths,
                ),
            ),
        }
    }
}

/// The arguments that commit exactly `paths`: first `git add -- <paths>` (so
/// untracked files become committable), then `git commit ... -- <paths>`.
pub fn commit_paths_args(
    paths: &[String],
    subject: &str,
    body: &str,
    signoff: bool,
    coauthors: &[String],
) -> (r: Result<(Vec<String>, Vec<String>), GitError>)
    ensures
        match (r, commit_paths_spec(strs_view(paths@), subject@, body@, signoff, strs_view(coauthors@))) {
            (Ok((a, c)), Ok((x, y))) => strs_view(a@) == x && strs_view(c@) == y,
            (Err(e), Err(x)) => e@ == x,
            _ => false,
        },
{
    if is_blank(subject) {
        return Err(GitError::CommandFailed(owned("commit subject is empty")));
    }
    if paths.len() == 0 {
        return Err(GitError::CommandFailed(owned("no files to commit")));
    }
    validate_paths(paths)?;
    let mut add = strings(vec!["add", "--"]);
    append_all(&mut add, paths);
    let mut c = strings(vec!["commit"]);
    if signoff {
        push_owned(&mut c, "-s");
    }
    message_and_trailers(&mut c, subject, body, coauthors);
    push_owned(&mut c, "--");
    append_all(&mut c, paths);
    proof {
        let w = commit_paths_spec(strs_view(paths@), subject@, body@, signoff, strs_view(coauthors@))->Ok_0;
        assert(strs_view(add@) =~= w.0);
        assert(strs_view(c@) =~= w.1);
    }
    Ok((add, c))
}

// ---------------------------------------------------------------------------
// Hunks
// ---------------------------------------------------------------------------

/// The sub-patch of a diff holding the chosen hunks, in the order chosen: the
/// diff's header followed by each chosen block.
pub open spec fn hunk_patch_spec(text: Seq<char>, hunks: Seq<u32>, discard: bool) -> Result<Seq<char>, GitErrorView> {
    let (header, blocks) = split_diff_spec(text);
    if header.len() == 0 || blocks.len() == 0 {
        Err(GitErrorView::CommandFailed(
            if discard {
                "no diff to discard (file may have changed)"@
            } else {
                "no diff to apply (file may have changed)"@
            },
        ))
    } else if exists|k: int| 0 <= k < hunks.len() && hunks[k] >= blocks.len() {
        Err(GitErrorView::CommandFailed("file changed since hunks were listed; refresh"@))
    } else {
        Ok(header + concat(hunks.map_values(|i: u32| blocks[i as int])))
    }
}

/// The patch that stages / unstages (`discard == false`) or discards
/// (`discard == true`) the chosen hunks of a file's current diff `text`. The
/// indices refer to the hunks as listed; one out of range means the file
/// changed since they were listed.
pub fn hunk_patch(text: &str, hunks: &[u32], discard: bool) -> (r: Result<String, GitError>)
    ensures
        match (r, hunk_patch_spec(text@, hunks@, discard)) {
            (Ok(p), Ok(q)) => p@ == q,
            (Err(e), Err(x)) => e@ == x,
            _ => false,
        },
{
    let (header, blocks) = split_diff(text);
    let hc = chars_of(header.as_str());
    if hc.len() == 0 || blocks.len() == 0 {
        let m = if discard {
            owned("no diff to discard (file may have changed)")
        } else {
            owned("no diff to apply (file may have changed)")
        };
        return Err(GitError::CommandFailed(m));
    }
    let ghost bv = strs_view(blocks@);
    let mut patch = header;
    let mut k: usize = 0;
    while k < hunks.len()
        invariant
            bv == strs_view(blocks@),
            split_diff_spec(text@).0.len() > 0,
            bv.len() > 0,
            k <= hunks@.len(),
            forall|m: int| 0 <= m < k ==> hunks@[m] < blocks@.len(),
            patch@ == split_diff_spec(text@).0 + concat(
                hunks@.subrange(0, k as int).map_values(|i: u32| bv[i as int]),
            ),
            bv == split_diff_spec(text@).1,
        decreases hunks@.len() - k,
    {
        let i = hunks[k];
        if i as usize >= blocks.len() {
            proof {
                assert(hunks@[k as int] >= bv.len());
                assert(0 <= k < hunks@.len() && hunks@[k as int] >= split_diff_spec(text@).1.len());
            }
            return Err(GitError::CommandFailed(owned("file changed since hunks were listed; refresh")));
        }
        push_str(&mut patch, blocks[i as usize].as_str());
        proof {
            let pre = hunks@.subrange(0, k as int).map_values(|j: u32| bv[j as int]);
            let post = hunks@.subrange(0, k + 1).map_values(|j: u32| bv[j as int]);
            assert(post.drop_last() =~= pre);
            assert(post.last() == bv[i as int]);
        }
        k += 1;
    }
    proof {
        assert(hunks@.subrange(0, hunks@.len() as int) =~= hunks@);
    }
    Ok(patch)
}

// ---------------------------------------------------------------------------
// Branches, stashes, history
// ---------------------------------------------------------------------------

/// The `git reset` flag for a mode: `--soft`, `--hard`, anything else
/// `--mixed`.
pub open spec fn reset_flag(mode: Seq<char>) -> Seq<char> {
    if mode == "soft"@ {
        "--soft"@
    } else if mode == "hard"@ {
        "--hard"@
    } else {
        "--mixed"@
    }
}

/// The reset flag names the mode: `--soft` for `soft`, `--hard` for `hard`
/// (`--` followed by the mode itself), and `--mixed` for anything else.
pub proof fn lemma_reset_flag_names_mode(mode: Seq<char>)
    ensures
        mode == "soft"@ || mode == "hard"@ ==> reset_flag(mode) == "--"@ + mode,
        mode != "soft"@ && mode != "hard"@ ==> reset_flag(mode) == "--mixed"@,
        reset_flag("soft"@) == "--soft"@,
        reset_flag("hard"@) == "--hard"@,
{
    reveal_strlit("--");
    reveal_strlit("soft");
    reveal_strlit("hard");
    reveal_strlit("--soft");
    reveal_strlit("--hard");
    reveal_strlit("--mixed");
    assert("--"@ + "soft"@ =~= "--soft"@);
    assert("--"@ + "hard"@ =~= "--hard"@);
    assert("soft"@ != "hard"@) by {
        assert("soft"@[0] != "hard"@[0]);
    }
}

/// The `git reset <flag> <target>` arguments.
pub fn reset_args(target: &str, mode: &str) -> (r: Result<Vec<String>, GitError>)
    ensures
        bad_arg(target@) ==> (r matches Err(e) && e@ == GitErrorView::InvalidRef(target@)),
        !bad_arg(target@) ==> (r matches Ok(v) && strs_view(v@) == seq![
            "reset"@,
            reset_flag(mode@),
            target@,
        ]),
{
    validate_ref(target)?;
    let flag = if crate::text::str_eq(mode, "soft") {
        "--soft"
    } else if crate::text::str_eq(mode, "hard") {
        "--hard"
    } else {
        "--mixed"
    };
    let v = strings(vec!["reset", flag, target]);
    assert(strs_view(v@) =~= seq!["reset"@, reset_flag(mode@), target@]);
    Ok(v)
}

/// `stash@{<index>}`.
pub fn stash_selector(index: u32) -> (s: String)
    ensures
        s@ == "stash@{"@ + decimal(index as nat) + "}"@,
{
    let mut s = owned("stash@{");
    let n = decimal_string(index as u64);
    push_str(&mut s, n.as_str());
    push_str(&mut s, "}");
    s
}

/// `git stash pop|apply stash@{<index>}`.
pub fn stash_apply_args(index: u32, pop: bool) -> (r: Vec<String>)
    ensures
        strs_view(r@) == seq![
            "stash"@,
            if pop { "pop"@ } else { "apply"@ },
            "stash@{"@ + decimal(index as nat) + "}"@,
        ],
{
    let sel = stash_selector(index);
    let v = strings(vec!["stash", if pop { "pop" } else { "apply" }, sel.as_str()]);
    assert(strs_view(v@) =~= seq![
        "stash"@,
        if pop { "pop"@ } else { "apply"@ },
        "stash@{"@ + decimal(index as nat) + "}"@,
    ]);
    v
}

/// `git stash push [--include-untracked] [-m <message>]`; a blank message is
/// left out.
pub fn stash_save_args(message: Option<&str>, include_untracked: bool) -> (r: Vec<String>)
    ensures
        strs_view(r@) == seq!["stash"@, "push"@] + (if include_untracked {
            seq!["--include-untracked"@]
        } else {
            seq![]
        }) + (match message {
            Some(m) => if trim(m@).len() > 0 {
                seq!["-m"@, m@]
            } else {
                seq![]
            },
            None => seq![],
        }),
{
    let mut v = strings(vec!["stash", "push"]);
    if include_untracked {
        push_owned(&mut v, "--include-untracked");
    }
    match message {
        Some(m) => {
            if !is_blank(m) {
                push_owned(&mut v, "-m");
                push_owned(&mut v, m);
            }
        },
        None => {},
    }
    assert(strs_view(v@) =~= seq!["stash"@, "push"@] + (if include_untracked {
        seq!["--include-untracked"@]
    } else {
        seq![]
    }) + (match message {
        Some(m) => if trim(m@).len() > 0 {
            seq!["-m"@, m@]
        } else {
            seq![]
        },
        None => seq![],
    }));
    v
}

/// `git push [--force-with-lease] [--set-upstream origin <branch>]`.
pub fn push_args(set_upstream_branch: Option<&str>, force: bool) -> (r: Result<Vec<String>, GitError>)
    ensures
        match set_upstream_branch {
            Some(b) => if bad_arg(b@) {
                r matches Err(e) && e@ == GitErrorView::InvalidRef(b@)
            } else {
                r matches Ok(v) && strs_view(v@) == seq!["push"@] + (if force {
                    seq!["--force-with-lease"@]
                } else {
                    seq![]
                }) + seq!["--set-upstream"@, "origin"@, b@]
            },
            None => r matches Ok(v) && strs_view(v@) == seq!["push"@] + (if force {
                seq!["--force-with-lease"@]
            } else {
                seq![]
            }),
        },
{
    let mut v = strings(vec!["push"]);
    if force {
        push_owned(&mut v, "--force-with-lease");
    }
    match set_upstream_branch {
        Some(b) => {
            validate_ref(b)?;
            push_owned(&mut v, "--set-upstream");
            push_owned(&mut v, "origin");
            push_owned(&mut v, b);
            assert(strs_view(v@) =~= seq!["push"@] + (if force {
                seq!["--force-with-lease"@]
            } else {
                seq![]
            }) + seq!["--set-upstream"@, "origin"@, b@]);
        },
        None => {
            assert(strs_view(v@) =~= seq!["push"@] + (if force {
                seq!["--force-with-lease"@]
            } else {
                seq![]
            }));
        },
    }
    Ok(v)
}

/// `git checkout -b <name> [<start>]`, or `git branch <name> [<start>]`.
pub fn create_branch_args(name: &str, start_point: Option<&str>, checkout: bool) -> (r: Result<Vec<String>, GitError>)
    ensures
        bad_arg(name@) ==> (r matches Err(e) && e@ == GitErrorView::InvalidRef(name@)),
        !bad_arg(name@) && (start_point matches Some(sp) && bad_arg(sp@)) ==> (r matches Err(e)
            && e@ == GitErrorView::InvalidRef(start_point->Some_0@)),
        !bad_arg(name@) && !(start_point matches Some(sp) && bad_arg(sp@)) ==> (r matches Ok(v)
            && strs_view(v@) == (if checkout {
            seq!["checkout"@, "-b"@, name@]
        } else {
            seq!["branch"@, name@]
        }) + (match start_point {
            Some(sp) => seq![sp@],
            None => seq![],
        })),
{
    validate_ref(name)?;
    match start_point {
        Some(sp) => {
            validate_ref(sp)?;
        },
        None => {},
    }
    let mut v = if checkout {
        strings(vec!["checkout", "-b", name])
    } else {
        strings(vec!["branch", name])
    };
    match start_point {
        Some(sp) => push_owned(&mut v, sp),
        None => {},
    }
    assert(strs_view(v@) =~= (if checkout {
        seq!["checkout"@, "-b"@, name@]
    } else {
        seq!["branch"@, name@]
    }) + (match start_point {
        Some(sp) => seq![sp@],
        None => seq![],
    }));
    Ok(v)
}

/// `git branch -d|-D <name>`.
pub fn delete_branch_args(name: &str, force: bool) -> (r: Result<Vec<String>, GitError>)
    ensures
        bad_arg(name@) ==> (r matches Err(e) && e@ == GitErrorView::InvalidRef(name@)),
        !bad_arg(name@) ==> (r matches Ok(v) && strs_view(v@) == seq![
            "branch"@,
            if force { "-D"@ } else { "-d"@ },
            name@,
        ]),
{
    validate_ref(name)?;
    let v = strings(vec!["branch", if force { "-D" } else { "-d" }, name]);
    assert(strs_view(v@) =~= seq!["branch"@, if force { "-D"@ } else { "-d"@ }, name@]);
    Ok(v)
}

/// `git branch --set-upstream-to=<upstream> <branch>`.
pub fn set_upstream_args(branch: &str, upstream: &str) -> (r: Result<Vec<String>, GitError>)
    ensures
        bad_arg(branch@) ==> (r matches Err(e) && e@ == GitErrorView::InvalidRef(branch@)),
        !bad_arg(branch@) && bad_arg(upstream@) ==> (r matches Err(e) && e@ == GitErrorView::InvalidRef(upstream@)),
        !bad_arg(branch@) && !bad_arg(upstream@) ==> (r matches Ok(v) && strs_view(v@) == seq![
            "branch"@,
            "--set-upstream-to="@ + upstream@,
            branch@,
        ]),
{
    validate_ref(branch)?;
    validate_ref(upstream)?;
    let mut arg = owned("--set-upstream-to=");
    push_str(&mut arg, upstream);
    let v = strings(vec!["branch", arg.as_str(), branch]);
    assert(strs_view(v@) =~= seq!["branch"@, "--set-upstream-to="@ + upstream@, branch@]);
    Ok(v)
}

/// The `git checkout` flag that takes one side of a conflict.
pub fn conflict_side_flag(side: &str) -> (r: Result<&'static str, GitError>)
    ensures
        side@ == "ours"@ ==> (r matches Ok(f) && f@ == "--ours"@),
        side@ == "theirs"@ ==> (r matches Ok(f) && f@ == "--theirs"@),
        side@ != "ours"@ && side@ != "theirs"@ ==> (r matches Err(e) && e@
            == GitErrorView::CommandFailed("invalid conflict side"@)),
{
    proof {
        reveal_strlit("ours");
        reveal_strlit("theirs");
        assert("ours"@.len() == 4);
        assert("theirs"@.len() == 6);
    }
    if crate::text::str_eq(side, "ours") {
        Ok("--ours")
    } else if crate::text::str_eq(side, "theirs") {
        Ok("--theirs")
    } else {
        Err(GitError::CommandFailed(owned("invalid conflict side")))
    }
}

/// The `git log` arguments of one page of history: `limit` commits after
/// `skip`, of every ref by date when `all`, else from `start_ref` (HEAD when
/// empty).
pub open spec fn commit_log_args_spec(start_ref: Seq<char>, all: bool, limit: u32, skip: u32) -> Result<Seq<Seq<char>>, GitErrorView> {
    let base = seq!["log"@, "-z"@, COMMIT_LOG_FORMAT@, "-n"@, decimal(limit as nat), "--skip"@, decimal(skip as nat)];
    if all {
        Ok(base + seq!["--all"@, "--date-order"@])
    } else if start_ref.len() == 0 {
        Ok(base.push("HEAD"@))
    } else if bad_arg(start_ref) {
        Err(GitErrorView::InvalidRef(start_ref))
    } else {
        Ok(base.push(start_ref))
    }
}

/// `log -z <format> -n <limit> --skip <skip>`.
fn log_page_base(limit: u32, skip: u32) -> (v: Vec<String>)
    ensures
        strs_view(v@) == seq!["log"@, "-z"@, COMMIT_LOG_FORMAT@, "-n"@, decimal(limit as nat), "--skip"@, decimal(skip as nat)],
{
    let l = decimal_string(limit as u64);
    let s = decimal_string(skip as u64);
    let v = strings(vec!["log", "-z", COMMIT_LOG_FORMAT, "-n", l.as_str(), "--skip", s.as_str()]);
    assert(strs_view(v@) =~= seq!["log"@, "-z"@, COMMIT_LOG_FORMAT@, "-n"@, decimal(limit as nat), "--skip"@, decimal(skip as nat)]);
    v
}

/// The `git log` arguments of one page of history.
pub fn commit_log_args(start_ref: &str, all: bool, limit: u32, skip: u32) -> (r: Result<Vec<String>, GitError>)
    ensures
        match (r, commit_log_args_spec(start_ref@, all, limit, skip)) {
            (Ok(v), Ok(w)) => strs_view(v@) == w,
            (Err(e), Err(x)) => e@ == x,
            _ => false,
        },
{
    let mut v = log_page_base(limit, skip);
    if all {
        push_owned(&mut v, "--all");
        push_owned(&mut v, "--date-order");
        assert(strs_view(v@) =~= commit_log_args_spec(start_ref@, all, limit, skip)->Ok_0);
    } else if chars_of(start_ref).len() == 0 {
        push_owned(&mut v, "HEAD");
    } else {
        let r = validate_ref(start_ref)?;
        push_owned(&mut v, r);
    }
    Ok(v)
}

/// The `git log` arguments of one page of the commits reachable from `source`
/// (every ref when empty) but not from `target`.
pub open spec fn log_excluding_spec(source: Seq<char>, target: Seq<char>, limit: u32, skip: u32) -> Result<Seq<Seq<char>>, GitErrorView> {
    let base = seq!["log"@, "-z"@, COMMIT_LOG_FORMAT@, "-n"@, decimal(limit as nat), "--skip"@, decimal(skip as nat), "--date-order"@];
    if bad_arg(target) {
        Err(GitErrorView::InvalidRef(target))
    } else if source.len() == 0 {
        Ok(base + seq!["--all"@, "--not"@, target])
    } else if bad_arg(source) {
        Err(GitErrorView::InvalidRef(source))
    } else {
        Ok(base + seq![source, "--not"@, target])
    }
}

/// The `git log` arguments of one page of commits not yet in `target`.
pub fn commit_log_excluding_args(source: &str, target: &str, limit: u32, skip: u32) -> (r: Result<Vec<String>, GitError>)
    ensures
        match (r, log_excluding_spec(source@, target@, limit, skip)) {
            (Ok(v), Ok(w)) => strs_view(v@) == w,
            (Err(e), Err(x)) => e@ == x,
            _ => false,
        },
{
    validate_ref(target)?;
    let mut v = log_page_base(limit, skip);
    push_owned(&mut v, "--date-order");
    if chars_of(source).len() == 0 {
        push_owned(&mut v, "--all");
    } else {
        let s = validate_ref(source)?;
        push_owned(&mut v, s);
    }
    push_owned(&mut v, "--not");
    push_owned(&mut v, target);
    assert(strs_view(v@) =~= log_excluding_spec(source@, target@, limit, skip)->Ok_0);
    Ok(v)
}

/// The `git diff --name-status` arguments of a branch comparison:
/// `start...target` (from the merge base) or `start..target`, `-w` to ignore
/// whitespace.
pub open spec fn diff_files_spec(start: Seq<char>, target: Seq<char>, mode: DiffMode, ignore_ws: bool) -> Result<Seq<Seq<char>>, GitErrorView> {
    if bad_arg(start) {
        Err(GitErrorView::InvalidRef(start))
    } else if bad_arg(target) {
        Err(GitErrorView::InvalidRef(target))
    } else {
        Ok(
            seq!["diff"@, "--name-status"@, "-z"@, "--find-renames"@] + (if ignore_ws {
                seq!["-w"@]
            } else {
                seq![]
            }) + seq![
                start + (match mode {
                    DiffMode::ThreeDot => "..."@,
                    DiffMode::TwoDot => ".."@,
                }) + target,
            ],
        )
    }
}

/// The `git diff --name-status -z` arguments of a branch comparison.
pub fn diff_files_args(start: &str, target: &str, mode: DiffMode, ignore_whitespace: bool) -> (r: Result<Vec<String>, GitError>)
    ensures
        match (r, diff_files_spec(start@, target@, mode, ignore_whitespace)) {
            (Ok(v), Ok(w)) => strs_view(v@) == w,
            (Err(e), Err(x)) => e@ == x,
            _ => false,
        },
{
    validate_ref(start)?;
    validate_ref(target)?;
    let mut spec = owned(start);
    match mode {
        DiffMode::ThreeDot => push_str(&mut spec, "..."),
        DiffMode::TwoDot => push_str(&mut spec, ".."),
    }
    push_str(&mut spec, target);
    let mut v = strings(vec!["diff", "--name-status", "-z", "--find-renames"]);
    if ignore_whitespace {
        push_owned(&mut v, "-w");
    }
    push_owned(&mut v, spec.as_str());
    assert(strs_view(v@) =~= diff_files_spec(start@, target@, mode, ignore_whitespace)->Ok_0);
    Ok(v)
}

/// The `git blame --porcelain` arguments: the working copy (its contents at
/// `contents_path`) against HEAD when `use_contents`, else the file at `rev`.
pub open spec fn blame_args_spec(file_path: Seq<char>, rev: Seq<char>, use_contents: bool, contents_path: Seq<char>) -> Result<Seq<Seq<char>>, GitErrorView> {
    if bad_arg(file_path) {
        Err(GitErrorView::InvalidRef("invalid path: "@ + file_path))
    } else if !use_contents && bad_arg(rev) {
        Err(GitErrorView::InvalidRef(rev))
    } else {
        Ok(
            seq!["blame"@, "-w"@, "-M"@, "--porcelain"@] + (if use_contents {
                seq!["--contents"@, contents_path, "HEAD"@]
            } else {
                seq![rev]
            }) + seq!["--"@, file_path],
        )
    }
}

/// The `git blame` arguments of a file.
pub fn blame_args(file_path: &str, rev: &str, use_contents: bool, contents_path: &str) -> (r: Result<Vec<String>, GitError>)
    ensures
        match (r, blame_args_spec(file_path@, rev@, use_contents, contents_path@)) {
            (Ok(v), Ok(w)) => strs_view(v@) == w,
            (Err(e), Err(x)) => e@ == x,
            _ => false,
        },
{
    validate_path(file_path)?;
    if !use_contents {
        validate_ref(rev)?;
    }
    let mut v = strings(vec!["blame", "-w", "-M", "--porcelain"]);
    if use_contents {
        push_owned(&mut v, "--contents");
        push_owned(&mut v, contents_path);
        push_owned(&mut v, "HEAD");
    } else {
        push_owned(&mut v, rev);
    }
    push_owned(&mut v, "--");
    push_owned(&mut v, file_path);
    assert(strs_view(v@) =~= blame_args_spec(file_path@, rev@, use_contents, contents_path@)->Ok_0);
    Ok(v)
}

/// The `git rev-list` arguments of the commits reachable from `source` (every
/// ref when empty) but not from `target`.
pub fn not_in_target_args(source: &str, target: &str) -> (r: Vec<String>)
    ensures
        strs_view(r@) == seq!["rev-list"@, if source@.len() == 0 { "--all"@ } else { source@ }, "--not"@, target@],
{
    let src = if chars_of(source).len() == 0 { "--all" } else { source };
    let v = strings(vec!["rev-list", src, "--not", target]);
    assert(strs_view(v@) =~= seq!["rev-list"@, if source@.len() == 0 { "--all"@ } else { source@ }, "--not"@, target@]);
    v
}

/// The `git rev-list --left-right --count target...source` arguments.
pub fn ahead_behind_args(source: &str, target: &str) -> (r: Vec<String>)
    ensures
        strs_view(r@) == seq!["rev-list"@, "--left-right"@, "--count"@, target@ + "..."@ + source@],
{
    let mut spec = owned(target);
    push_str(&mut spec, "...");
    push_str(&mut spec, source);
    let v = strings(vec!["rev-list", "--left-right", "--count", spec.as_str()]);
    assert(strs_view(v@) =~= seq!["rev-list"@, "--left-right"@, "--count"@, target@ + "..."@ + source@]);
    v
}

} // verus!
