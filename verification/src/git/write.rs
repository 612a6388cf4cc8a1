//! The pure parts of the repository-modifying operations: batching of
//! `git add` argument lists, the arguments of the in-progress-operation
//! commands, and the choice of a failed command's error text.

use vstd::prelude::*;
use vstd::utf8::{decode_utf8, valid_utf8};

use crate::git::error::{GitError, GitErrorView};
use crate::git::{strs_of, strs_view};
use crate::text::{chars_of, lossy_utf8, owned, str_eq, string_of, trim, trim_bounds, utf8_lossy};

verus! {

/// Conservative cap on paths per `git add` invocation. Windows caps a command
/// line at 32,767 characters; even at a few hundred characters per path, 100
/// paths stay far under that limit.
pub const ADD_CHUNK_SIZE: usize = 100;

/// Group `g` of `git add -- <paths>` arguments for `paths`.
pub open spec fn add_group(paths: Seq<Seq<char>>, g: int) -> Seq<Seq<char>> {
    let lo = g * ADD_CHUNK_SIZE;
    let hi = if lo + ADD_CHUNK_SIZE <= paths.len() {
        lo + ADD_CHUNK_SIZE
    } else {
        paths.len() as int
    };
    seq!["add"@, "--"@] + paths.subrange(lo, hi)
}

/// Number of `git add` groups for `n` paths (none for no paths).
pub open spec fn add_group_count(n: nat) -> nat {
    ((n + ADD_CHUNK_SIZE - 1) / (ADD_CHUNK_SIZE as int)) as nat
}

/// The argument groups of each `git add -- <chunk>` call.
pub open spec fn add_groups(paths: Seq<Seq<char>>) -> Seq<Seq<Seq<char>>> {
    Seq::new(add_group_count(paths.len()), |g: int| add_group(paths, g))
}

pub open spec fn groups_view(v: Seq<Vec<&str>>) -> Seq<Seq<Seq<char>>> {
    v.map_values(|g: Vec<&str>| strs_of(g@))
}

/// Split `paths` into `git add -- <chunk>` argv groups of at most
/// `ADD_CHUNK_SIZE` paths, in order. An empty `paths` yields no groups at
/// all, so callers never run a bare `git add --` with no arguments.
pub fn add_arg_chunks(paths: &[String]) -> (r: Vec<Vec<&str>>)
    ensures
        groups_view(r@) == add_groups(strs_view(paths@)),
{
    let ghost ps = strs_view(paths@);
    let n = paths.len();
    let mut out: Vec<Vec<&str>> = Vec::new();
    let mut start: usize = 0;
    let ghost mut g: int = 0;
    while start < n
        invariant
            ps == strs_view(paths@),
            n == paths@.len(),
            start <= n,
            start < n ==> start == g * ADD_CHUNK_SIZE,
            start == n ==> g == add_group_count(n as nat),
            0 <= g,
            out@.len() == g,
            forall|k: int| 0 <= k < g ==> #[trigger] groups_view(out@)[k] == add_group(ps, k),
        decreases n - start,
    {
        let end = if n - start > ADD_CHUNK_SIZE { start + ADD_CHUNK_SIZE } else { n };
        let mut args: Vec<&str> = Vec::new();
        args.push("add");
        args.push("--");
        let mut i = start;
        while i < end
            invariant
                start <= i <= end <= n,
                n == paths@.len(),
                ps == strs_view(paths@),
                strs_of(args@) == seq!["add"@, "--"@] + ps.subrange(start as int, i as int),
            decreases end - i,
        {
            let ghost before = args@;
            args.push(paths[i].as_str());
            proof {
                assert(strs_of(args@) =~= strs_of(before).push(paths@[i as int]@));
                assert(ps.subrange(start as int, i + 1) =~= ps.subrange(start as int, i as int).push(
                    ps[i as int],
                ));
            }
            i += 1;
        }
        let ghost before_out = out@;
        out.push(args);
        proof {
            assert(strs_of(args@) == add_group(ps, g));
            assert forall|k: int| 0 <= k < g + 1 implies #[trigger] groups_view(out@)[k] == add_group(
                ps,
                k,
            ) by {
                if k < g {
                    assert(groups_view(out@)[k] == groups_view(before_out)[k]);
                }
            }
            g = g + 1;
        }
        start = end;
    }
    proof {
        assert(groups_view(out@) =~= add_groups(ps));
    }
    out
}

/// The paths of each `git add` group, without the `add --` prefix.
pub open spec fn group_paths(gs: Seq<Seq<Seq<char>>>) -> Seq<Seq<Seq<char>>> {
    gs.map_values(|g: Seq<Seq<char>>| g.subrange(2, g.len() as int))
}

/// The pieces of `ss` joined end to end.
pub open spec fn flatten(ss: Seq<Seq<Seq<char>>>) -> Seq<Seq<char>>
    decreases ss.len(),
{
    if ss.len() == 0 {
        seq![]
    } else {
        flatten(ss.drop_last()) + ss.last()
    }
}

/// The `git add` batching loses and reorders nothing: every group starts with
/// `add --` and carries between one and `ADD_CHUNK_SIZE` paths, and the
/// groups' paths, joined in order, are exactly `paths` (no group at all for
/// no paths).
pub proof fn lemma_add_groups_cover(paths: Seq<Seq<char>>)
    ensures
        forall|g: int|
            0 <= g < add_groups(paths).len() ==> (#[trigger] add_groups(paths)[g]).subrange(0, 2)
                == seq!["add"@, "--"@] && 1 <= add_groups(paths)[g].len() - 2 <= ADD_CHUNK_SIZE,
        flatten(group_paths(add_groups(paths))) == paths,
        paths.len() == 0 <==> add_groups(paths).len() == 0,
{
    let n = paths.len() as int;
    let gs = add_groups(paths);
    let c = add_group_count(paths.len()) as int;
    assert forall|g: int| 0 <= g < c implies (#[trigger] gs[g]).subrange(0, 2) == seq!["add"@, "--"@]
        && 1 <= gs[g].len() - 2 <= ADD_CHUNK_SIZE by {
        assert(g * 100 < n) by (nonlinear_arith)
            requires
                0 <= g < c,
                c == (n + 99) / 100,
                n >= 0,
        ;
        assert(gs[g].subrange(0, 2) =~= seq!["add"@, "--"@]);
    }
    // Joining the first `k` groups gives the first `min(100 k, n)` paths.
    assert forall|k: int| 0 <= k <= c implies #[trigger] flatten(group_paths(gs.subrange(0, k)))
        == paths.subrange(0, if k * 100 <= n { k * 100 } else { n }) by {
        lemma_flatten_prefix(paths, k);
    }
    assert(gs.subrange(0, c) =~= gs);
    assert(c * 100 >= n) by (nonlinear_arith)
        requires
            c == (n + 99) / 100,
            n >= 0,
    ;
    assert(paths.subrange(0, n) =~= paths);
    if n == 0 {
        assert(c == 0);
    } else {
        assert(c >= 1);
    }
}

proof fn lemma_flatten_prefix(paths: Seq<Seq<char>>, k: int)
    requires
        0 <= k <= add_group_count(paths.len()),
    ensures
        flatten(group_paths(add_groups(paths).subrange(0, k))) == paths.subrange(
            0,
            if k * 100 <= paths.len() { k * 100 } else { paths.len() as int },
        ),
    decreases k,
{
    let n = paths.len() as int;
    let gs = add_groups(paths);
    if k == 0 {
        assert(group_paths(gs.subrange(0, 0)) =~= Seq::<Seq<Seq<char>>>::empty());
        assert(paths.subrange(0, 0) =~= Seq::<Seq<char>>::empty());
    } else {
        lemma_flatten_prefix(paths, k - 1);
        let c = add_group_count(paths.len()) as int;
        assert((k - 1) * 100 < n) by (nonlinear_arith)
            requires
                1 <= k <= c,
                c == (n + 99) / 100,
                n >= 0,
        ;
        let lo = (k - 1) * 100;
        let hi = if lo + 100 <= n { lo + 100 } else { n };
        assert(group_paths(gs.subrange(0, k)).drop_last() =~= group_paths(gs.subrange(0, k - 1)));
        assert(group_paths(gs.subrange(0, k)).last() =~= paths.subrange(lo, hi));
        assert(paths.subrange(0, lo) + paths.subrange(lo, hi) =~= paths.subrange(0, hi));
        assert(k * 100 == lo + 100);
    }
}

/// The error text of a failed command: its trimmed stderr, or its trimmed
/// stdout when stderr is blank (`git rebase --continue` reports some refusals
/// on stdout).
pub open spec fn command_error_spec(stderr: Seq<u8>, stdout: Seq<u8>) -> Seq<char> {
    if trim(lossy_utf8(stderr)).len() > 0 {
        trim(lossy_utf8(stderr))
    } else {
        trim(lossy_utf8(stdout))
    }
}

/// The trimmed lossy text of some output.
fn trimmed_text(b: &[u8]) -> (s: String)
    ensures
        s@ == trim(lossy_utf8(b@)),
        valid_utf8(b@) ==> s@ == trim(decode_utf8(b@)),
{
    let t = utf8_lossy(b);
    let cs = chars_of(t.as_str());
    assert(cs@.subrange(0, cs@.len() as int) =~= cs@);
    let (a, e) = trim_bounds(cs.as_slice(), 0, cs.len());
    string_of(cs.as_slice(), a, e)
}

/// Choose the error text from a failed command's captured output: stderr, or
/// stdout when stderr came back empty.
pub fn command_error_text(stderr: &[u8], stdout: &[u8]) -> (s: String)
    ensures
        s@ == command_error_spec(stderr@, stdout@),
        valid_utf8(stderr@) && valid_utf8(stdout@) ==> s@ == (if trim(decode_utf8(stderr@)).len() > 0 {
            trim(decode_utf8(stderr@))
        } else {
            trim(decode_utf8(stdout@))
        }),
{
    let e = trimmed_text(stderr);
    let cs = chars_of(e.as_str());
    if cs.len() > 0 {
        return e;
    }
    trimmed_text(stdout)
}

/// The in-progress operations that can be aborted or continued.
pub open spec fn known_op(op: Seq<char>) -> bool {
    op == "merge"@ || op == "rebase"@ || op == "cherry-pick"@ || op == "revert"@
}

/// The arguments that abort the operation `op` (`git <op> --abort`).
pub fn op_abort_args(op: &str) -> (r: Result<Vec<&str>, GitError>)
    ensures
        known_op(op@) ==> (r matches Ok(v) && strs_of(v@) == seq![op@, "--abort"@]),
        !known_op(op@) ==> (r matches Err(e) && e@ == GitErrorView::CommandFailed(
            "no operation in progress"@,
        )),
{
    if str_eq(op, "merge") || str_eq(op, "rebase") || str_eq(op, "cherry-pick") || str_eq(op, "revert") {
        let v = vec![op, "--abort"];
        assert(strs_of(v@) =~= seq![op@, "--abort"@]);
        Ok(v)
    } else {
        Err(GitError::CommandFailed(owned("no operation in progress")))
    }
}

/// The command that finishes the operation `op` once its conflicts are
/// resolved: the merge commit for a merge (`--continue` would open an
/// editor), `--continue` for the sequencer operations.
pub open spec fn continue_args_spec(op: Seq<char>) -> Option<Seq<Seq<char>>> {
    if op == "merge"@ {
        Some(seq!["commit"@, "--no-edit"@])
    } else if op == "rebase"@ {
        Some(seq!["rebase"@, "--continue"@])
    } else if op == "cherry-pick"@ {
        Some(seq!["cherry-pick"@, "--continue"@])
    } else if op == "revert"@ {
        Some(seq!["revert"@, "--continue"@])
    } else {
        None
    }
}

/// The arguments that continue the operation `op`.
pub fn op_continue_args(op: &str) -> (r: Result<Vec<&'static str>, GitError>)
    ensures
        match (r, continue_args_spec(op@)) {
            (Ok(v), Some(w)) => strs_of(v@) == w,
            (Err(e), None) => e@ == GitErrorView::CommandFailed("no operation in progress"@),
            _ => false,
        },
{
    let v: Vec<&'static str> = if str_eq(op, "merge") {
        vec!["commit", "--no-edit"]
    } else if str_eq(op, "rebase") {
        vec!["rebase", "--continue"]
    } else if str_eq(op, "cherry-pick") {
        vec!["cherry-pick", "--continue"]
    } else if str_eq(op, "revert") {
        vec!["revert", "--continue"]
    } else {
        return Err(GitError::CommandFailed(owned("no operation in progress")));
    };
    assert(strs_of(v@) =~= continue_args_spec(op@)->Some_0);
    Ok(v)
}

/// The operation a repository is in the middle of, from which of its state
/// files exist: `rebase`, `merge`, `cherry-pick`, `revert` or `none`.
pub open spec fn pending_op_spec(
    rebase_merge: bool,
    rebase_apply: bool,
    merge_head: bool,
    cherry_pick_head: bool,
    revert_head: bool,
) -> Seq<char> {
    if rebase_merge || rebase_apply {
        "rebase"@
    } else if merge_head {
        "merge"@
    } else if cherry_pick_head {
        "cherry-pick"@
    } else if revert_head {
        "revert"@
    } else {
        "none"@
    }
}

/// The operation in progress, given which of `rebase-merge`, `rebase-apply`,
/// `MERGE_HEAD`, `CHERRY_PICK_HEAD` and `REVERT_HEAD` exist in the git dir.
pub fn pending_op_name(
    rebase_merge: bool,
    rebase_apply: bool,
    merge_head: bool,
    cherry_pick_head: bool,
    revert_head: bool,
) -> (s: &'static str)
    ensures
        s@ == pending_op_spec(rebase_merge, rebase_apply, merge_head, cherry_pick_head, revert_head),
{
    if rebase_merge || rebase_apply {
        "rebase"
    } else if merge_head {
        "merge"
    } else if cherry_pick_head {
        "cherry-pick"
    } else if revert_head {
        "revert"
    } else {
        "none"
    }
}

/// The git-dir entries whose presence marks an operation in progress.
pub const PENDING_OP_MARKERS: [&'static str; 5] = [
    "rebase-merge",
    "rebase-apply",
    "MERGE_HEAD",
    "CHERRY_PICK_HEAD",
    "REVERT_HEAD",
];

} // verus!
