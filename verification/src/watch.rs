//! The decisions of the repository watcher: which filesystem events change
//! what git would report, how a burst of events is coalesced into one
//! `repo-changed` notification, and which watches to start and stop when the
//! set of watched repositories changes.

use vstd::prelude::*;

use crate::git::strs_view;
use crate::text::{chars_of, ends_with, owned, push_char, split, split_ranges, str_eq, string_of, ranges_match};

verus! {

/// Emit once no relevant event has arrived for this long (ms).
pub const DEBOUNCE_QUIET_MS: u64 = 300;

/// Under continuous churn, emit at least this often (ms).
pub const DEBOUNCE_MAX_MS: u64 = 1500;

/// Path segments under `.git/` that are pure noise: object store, reflogs,
/// LFS objects, hook scripts.
pub open spec fn noise_segment(s: Seq<char>) -> bool {
    s == "objects"@ || s == "logs"@ || s == "lfs"@ || s == "hooks"@
}

/// Path segments under `.git/` holding refs or in-progress operation state.
pub open spec fn state_segment(s: Seq<char>) -> bool {
    s == "refs"@ || s == "rebase-merge"@ || s == "rebase-apply"@ || s == "sequencer"@
}

/// File names under `.git/` that move the graph, status or conflict banner.
pub open spec fn state_file(b: Seq<char>) -> bool {
    ||| b == "HEAD"@
    ||| b == "ORIG_HEAD"@
    ||| b == "MERGE_HEAD"@
    ||| b == "CHERRY_PICK_HEAD"@
    ||| b == "REVERT_HEAD"@
    ||| b == "packed-refs"@
    ||| b == "index"@
}

/// For a `/`-separated path relative to the watched root: `None` when it is
/// not inside any `.git` directory, otherwise whether it is a state file that
/// changes what git reports (refs, HEAD family, index, operation state) as
/// opposed to noise (locks, objects, logs, LFS, hooks, `COMMIT_EDITMSG`,
/// `FETCH_HEAD`).
pub open spec fn git_internal_spec(rel: Seq<char>) -> Option<bool> {
    let segs = split(rel, '/');
    let base = segs.last();
    if !segs.contains(".git"@) {
        None
    } else if ends_with(rel, ".lock"@) {
        Some(false)
    } else if exists|k: int| 0 <= k < segs.len() && noise_segment(segs[k]) {
        Some(false)
    } else if base == "COMMIT_EDITMSG"@ || base == "FETCH_HEAD"@ {
        Some(false)
    } else {
        Some((exists|k: int| 0 <= k < segs.len() && state_segment(segs[k])) || state_file(base))
    }
}

/// Whether some segment of `rs` (ranges into `cs`) is one of the given names.
fn any_segment(cs: &[char], rs: &Vec<(usize, usize)>, names: &Vec<&str>, Ghost(segs): Ghost<Seq<Seq<char>>>, Ghost(pred): Ghost<spec_fn(Seq<char>) -> bool>) -> (b: bool)
    requires
        ranges_match(cs@, rs@, segs, 0, cs@.len() as int),
        forall|s: Seq<char>| #[trigger] pred(s) <==> exists|j: int| 0 <= j < names@.len() && s == names@[j]@,
    ensures
        b == exists|k: int| 0 <= k < segs.len() && pred(segs[k]),
{
    let mut k: usize = 0;
    while k < rs.len()
        invariant
            ranges_match(cs@, rs@, segs, 0, cs@.len() as int),
            forall|s: Seq<char>| #[trigger] pred(s) <==> exists|j: int| 0 <= j < names@.len() && s == names@[j]@,
            k <= rs@.len(),
            forall|m: int| 0 <= m < k ==> !pred(#[trigger] segs[m]),
        decreases rs@.len() - k,
    {
        let (a, e) = rs[k];
        let seg = string_of(cs, a, e);
        let mut j: usize = 0;
        while j < names.len()
            invariant
                seg@ == segs[k as int],
                k < segs.len(),
                forall|s: Seq<char>| #[trigger] pred(s) <==> exists|j: int| 0 <= j < names@.len() && s == names@[j]@,
                j <= names@.len(),
                forall|m: int| 0 <= m < j ==> seg@ != names@[m]@,
            decreases names@.len() - j,
        {
            if str_eq(seg.as_str(), names[j]) {
                assert(0 <= j < names@.len() && segs[k as int] == names@[j as int]@);
                assert(pred(segs[k as int]));
                return true;
            }
            j += 1;
        }
        assert(!pred(segs[k as int]));
        k += 1;
    }
    false
}

/// For a path inside any `.git/` directory, whether it's a load-bearing state
/// file; `None` when the path isn't git-internal (the caller then applies the
/// repository's ignore rules).
pub fn git_internal_relevant(rel_str: &str) -> (r: Option<bool>)
    ensures
        r == git_internal_spec(rel_str@),
{
    let cs = chars_of(rel_str);
    let rs = split_ranges(cs.as_slice(), 0, cs.len(), '/');
    let ghost segs = split(rel_str@, '/');
    assert(cs@.subrange(0, cs@.len() as int) =~= cs@);
    let git_names = vec![".git"];
    let ghost is_git = |s: Seq<char>| s == ".git"@;
    assert forall|s: Seq<char>| #[trigger] is_git(s) <==> exists|j: int| 0 <= j < git_names@.len() && s == git_names@[j]@ by {
        if s == ".git"@ {
            assert(git_names@[0]@ == s);
        }
    }
    let in_git = any_segment(cs.as_slice(), &rs, &git_names, Ghost(segs), Ghost(is_git));
    proof {
        if in_git {
            let k = choose|k: int| 0 <= k < segs.len() && is_git(segs[k]);
            assert(segs[k] == ".git"@);
        } else {
            assert forall|k: int| 0 <= k < segs.len() implies segs[k] != ".git"@ by {
                assert(!is_git(segs[k]));
            }
        }
    }
    if !in_git {
        return None;
    }
    let lock = chars_of(".lock");
    if crate::text::has_suffix_at(cs.as_slice(), 0, cs.len(), lock.as_slice()) {
        return Some(false);
    }
    let noise = vec!["objects", "logs", "lfs", "hooks"];
    let ghost is_noise = |s: Seq<char>| noise_segment(s);
    assert forall|s: Seq<char>| #[trigger] is_noise(s) <==> exists|j: int| 0 <= j < noise@.len() && s == noise@[j]@ by {
        if s == "objects"@ { assert(noise@[0]@ == s); }
        if s == "logs"@ { assert(noise@[1]@ == s); }
        if s == "lfs"@ { assert(noise@[2]@ == s); }
        if s == "hooks"@ { assert(noise@[3]@ == s); }
    }
    if any_segment(cs.as_slice(), &rs, &noise, Ghost(segs), Ghost(is_noise)) {
        return Some(false);
    }
    let (ba, be) = rs[rs.len() - 1];
    let base = string_of(cs.as_slice(), ba, be);
    assert(base@ == segs.last());
    if str_eq(base.as_str(), "COMMIT_EDITMSG") || str_eq(base.as_str(), "FETCH_HEAD") {
        return Some(false);
    }
    let state = vec!["refs", "rebase-merge", "rebase-apply", "sequencer"];
    let ghost is_state = |s: Seq<char>| state_segment(s);
    assert forall|s: Seq<char>| #[trigger] is_state(s) <==> exists|j: int| 0 <= j < state@.len() && s == state@[j]@ by {
        if s == "refs"@ { assert(state@[0]@ == s); }
        if s == "rebase-merge"@ { assert(state@[1]@ == s); }
        if s == "rebase-apply"@ { assert(state@[2]@ == s); }
        if s == "sequencer"@ { assert(state@[3]@ == s); }
    }
    let in_state = any_segment(cs.as_slice(), &rs, &state, Ghost(segs), Ghost(is_state));
    let b = base.as_str();
    let file = str_eq(b, "HEAD") || str_eq(b, "ORIG_HEAD") || str_eq(b, "MERGE_HEAD") || str_eq(
        b,
        "CHERRY_PICK_HEAD",
    ) || str_eq(b, "REVERT_HEAD") || str_eq(b, "packed-refs") || str_eq(b, "index");
    Some(in_state || file)
}

/// A file of the HEAD family, the packed refs or the index, directly inside a
/// directory path `d` that has a `.git` segment and no object-store, reflog,
/// LFS or hook segment, is relevant.
pub proof fn lemma_state_files_relevant(d: Seq<char>, b: Seq<char>)
    requires
        split(d, '/').contains(".git"@),
        forall|k: int|
            0 <= k < split(d, '/').len() ==> #[trigger] split(d, '/')[k] != "objects"@ && split(d, '/')[k]
                != "logs"@ && split(d, '/')[k] != "lfs"@ && split(d, '/')[k] != "hooks"@,
        b == "HEAD"@ || b == "ORIG_HEAD"@ || b == "MERGE_HEAD"@ || b == "CHERRY_PICK_HEAD"@ || b
            == "REVERT_HEAD"@ || b == "packed-refs"@ || b == "index"@,
    ensures
        git_internal_spec(d + "/"@ + b) == Some(true),
{
    reveal_strlit("HEAD");
    reveal_strlit("ORIG_HEAD");
    reveal_strlit("MERGE_HEAD");
    reveal_strlit("CHERRY_PICK_HEAD");
    reveal_strlit("REVERT_HEAD");
    reveal_strlit("packed-refs");
    reveal_strlit("index");
    reveal_strlit("/");
    reveal_strlit(".lock");
    reveal_strlit("objects");
    reveal_strlit("logs");
    reveal_strlit("lfs");
    reveal_strlit("hooks");
    reveal_strlit("COMMIT_EDITMSG");
    reveal_strlit("FETCH_HEAD");
    let rel = d + "/"@ + b;
    assert(rel == d + seq!['/'] + b);
    crate::text::lemma_split_append(rel, d, b, '/', 0);
    let segs = split(rel, '/');
    assert(segs == split(d, '/').push(b));
    assert(segs.last() == b);
    let gi = choose|k: int| 0 <= k < split(d, '/').len() && split(d, '/')[k] == ".git"@;
    assert(segs[gi] == ".git"@);
    assert(segs.contains(".git"@));
    assert(!ends_with(rel, ".lock"@)) by {
        if ends_with(rel, ".lock"@) {
            let t = rel.subrange(rel.len() - 5, rel.len() as int);
            assert(t[0] == '.');
            assert(t[4] == 'k');
            assert(rel[rel.len() - 1] == b[b.len() - 1]);
            assert(rel[rel.len() - 5] == '.');
            if b.len() >= 5 {
                assert(rel[rel.len() - 5] == b[b.len() - 5]);
            } else {
                assert(rel[rel.len() - 5] == '/');
            }
        }
    }
    assert forall|k: int| 0 <= k < segs.len() implies !noise_segment(#[trigger] segs[k]) by {
        if k < split(d, '/').len() {
            assert(segs[k] == split(d, '/')[k]);
        } else {
            assert(segs[k] == b);
            assert(b[0] == 'H' || b[0] == 'O' || b[0] == 'M' || b[0] == 'C' || b[0] == 'R' || b[0] == 'p' || b[0] == 'i');
            assert("objects"@[0] == 'o' && "logs"@[0] == 'l' && "lfs"@[0] == 'l' && "hooks"@[0] == 'h');
        }
    }
    assert(b != "COMMIT_EDITMSG"@) by {
        if b == "COMMIT_EDITMSG"@ {
            assert(b.len() == 14);
        }
    }
    assert(b != "FETCH_HEAD"@) by {
        if b == "FETCH_HEAD"@ {
            assert(b.len() == 10 && b[0] == 'F');
        }
    }
    assert(state_file(b));
}

/// A path with no `.git` segment is not git-internal; inside `.git`, a lock
/// file, anything under `objects`, `logs`, `lfs` or `hooks`, and the
/// `COMMIT_EDITMSG` / `FETCH_HEAD` files never refresh.
pub proof fn lemma_git_noise_never_relevant(rel: Seq<char>)
    ensures
        !split(rel, '/').contains(".git"@) ==> git_internal_spec(rel) is None,
        split(rel, '/').contains(".git"@) && ends_with(rel, ".lock"@) ==> git_internal_spec(rel) == Some(false),
        split(rel, '/').contains(".git"@) && (split(rel, '/').contains("objects"@) || split(rel, '/').contains(
            "logs"@,
        ) || split(rel, '/').contains("lfs"@) || split(rel, '/').contains("hooks"@)) ==> git_internal_spec(rel)
            == Some(false),
        split(rel, '/').contains(".git"@) && (split(rel, '/').last() == "COMMIT_EDITMSG"@ || split(rel, '/').last()
            == "FETCH_HEAD"@) ==> git_internal_spec(rel) == Some(false),
{
    let segs = split(rel, '/');
    if segs.contains("objects"@) || segs.contains("logs"@) || segs.contains("lfs"@) || segs.contains("hooks"@) {
        let k = choose|k: int| 0 <= k < segs.len() && (segs[k] == "objects"@ || segs[k] == "logs"@ || segs[k]
            == "lfs"@ || segs[k] == "hooks"@);
        assert(noise_segment(segs[k]));
    }
}

/// Any other file name `b` directly inside a directory path `d` that has a
/// `.git` segment and no refs or operation-state segment is not relevant:
/// only the HEAD family, the packed refs, the index and the refs / rebase /
/// sequencer directories are.
pub proof fn lemma_other_git_files_irrelevant(d: Seq<char>, b: Seq<char>)
    requires
        split(d, '/').contains(".git"@),
        forall|k: int|
            0 <= k < split(d, '/').len() ==> #[trigger] split(d, '/')[k] != "refs"@ && split(d, '/')[k]
                != "rebase-merge"@ && split(d, '/')[k] != "rebase-apply"@ && split(d, '/')[k] != "sequencer"@,
        forall|t: int| 0 <= t < b.len() ==> b[t] != '/',
        b != "HEAD"@ && b != "ORIG_HEAD"@ && b != "MERGE_HEAD"@ && b != "CHERRY_PICK_HEAD"@ && b
            != "REVERT_HEAD"@ && b != "packed-refs"@ && b != "index"@,
        b != "refs"@ && b != "rebase-merge"@ && b != "rebase-apply"@ && b != "sequencer"@,
    ensures
        git_internal_spec(d + "/"@ + b) == Some(false),
{
    reveal_strlit("/");
    let rel = d + "/"@ + b;
    assert(rel == d + seq!['/'] + b);
    crate::text::lemma_split_append(rel, d, b, '/', 0);
    let segs = split(rel, '/');
    assert(segs == split(d, '/').push(b));
    assert(segs.last() == b);
    let gi = choose|k: int| 0 <= k < split(d, '/').len() && split(d, '/')[k] == ".git"@;
    assert(segs[gi] == ".git"@);
    assert forall|k: int| 0 <= k < segs.len() implies !state_segment(#[trigger] segs[k]) by {
        if k < split(d, '/').len() {
            assert(segs[k] == split(d, '/')[k]);
        } else {
            assert(segs[k] == b);
        }
    }
}

/// `s` with every `'\\'` turned into `'/'`.
pub open spec fn slashed(s: Seq<char>) -> Seq<char> {
    s.map_values(|c: char| if c == '\\' { '/' } else { c })
}

/// A relative path with Windows separators turned into `/`.
pub fn slash_path(s: &str) -> (r: String)
    ensures
        r@ == slashed(s@),
{
    let cs = chars_of(s);
    let mut out = String::new();
    let mut i: usize = 0;
    while i < cs.len()
        invariant
            i <= cs@.len(),
            out@ == slashed(cs@.subrange(0, i as int)),
        decreases cs@.len() - i,
    {
        let c = cs[i];
        push_char(&mut out, if c == '\\' { '/' } else { c });
        assert(slashed(cs@.subrange(0, i + 1)) =~= slashed(cs@.subrange(0, i as int)).push(
            if c == '\\' { '/' } else { c },
        ));
        i += 1;
    }
    assert(cs@.subrange(0, cs@.len() as int) =~= cs@);
    out
}

/// How an event at some path is judged.
#[derive(Debug, Clone, Copy, PartialEq, Eq, Structural)]
pub enum Relevance {
    /// Refresh.
    Relevant,
    /// Ignore.
    Irrelevant,
    /// Refresh unless the repository's ignore rules match the path.
    UnlessIgnored,
}

/// How an event is judged from its path relative to the watched root (`None`
/// when it lies outside the root): anything outside the root, or the root
/// itself, refreshes; a git-internal path is judged by
/// `git_internal_relevant`; any other path refreshes unless ignored.
pub open spec fn relevance_spec(rel: Option<Seq<char>>) -> Relevance {
    match rel {
        None => Relevance::Relevant,
        Some(r) => if r.len() == 0 {
            Relevance::Relevant
        } else {
            match git_internal_spec(slashed(r)) {
                Some(true) => Relevance::Relevant,
                Some(false) => Relevance::Irrelevant,
                None => Relevance::UnlessIgnored,
            }
        },
    }
}

/// Whether an FS event at a path (given relative to the watched root, `None`
/// when outside it) should trigger a refresh.
pub fn event_relevance(rel: Option<&str>) -> (r: Relevance)
    ensures
        r == relevance_spec(match rel {
            Some(s) => Some(s@),
            None => None,
        }),
{
    match rel {
        None => Relevance::Relevant,
        Some(r) => {
            if chars_of(r).len() == 0 {
                return Relevance::Relevant;
            }
            let s = slash_path(r);
            match git_internal_relevant(s.as_str()) {
                Some(true) => Relevance::Relevant,
                Some(false) => Relevance::Irrelevant,
                None => Relevance::UnlessIgnored,
            }
        },
    }
}

// ---------------------------------------------------------------------------
// Debouncing
// ---------------------------------------------------------------------------

/// Where the debouncer is.
#[derive(Debug, Clone, Copy, PartialEq, Eq, Structural)]
pub enum DebounceState {
    /// Waiting for the first event of a burst.
    Idle,
    /// Inside a burst, waiting for it to settle.
    Burst,
}

/// What the debouncer was told.
#[derive(Debug, Clone, Copy, PartialEq, Eq, Structural)]
pub enum DebounceEvent {
    /// A relevant event arrived.
    Event,
    /// No event for `DEBOUNCE_QUIET_MS`.
    Quiet,
    /// The watcher was removed.
    Disconnected,
}

/// What the debouncer does next.
#[derive(Debug, Clone, Copy, PartialEq, Eq, Structural)]
pub enum DebounceAction {
    /// Block until the next event (the burst timer is not running).
    Wait,
    /// Wait at most `DEBOUNCE_QUIET_MS` for the next event (a burst has
    /// started; the first such action starts its timer).
    WaitQuiet,
    /// Emit one `repo-changed`, then wait for the next burst.
    Emit,
    /// Stop: the watch is gone.
    Stop,
}

/// One debouncer step; `elapsed_ms` is the time since the burst began.
pub open spec fn debounce_spec(st: DebounceState, ev: DebounceEvent, elapsed_ms: u64) -> (DebounceState, DebounceAction) {
    match (st, ev) {
        (_, DebounceEvent::Disconnected) => (DebounceState::Idle, DebounceAction::Stop),
        (DebounceState::Idle, DebounceEvent::Event) => (DebounceState::Burst, DebounceAction::WaitQuiet),
        (DebounceState::Idle, DebounceEvent::Quiet) => (DebounceState::Idle, DebounceAction::Wait),
        (DebounceState::Burst, DebounceEvent::Event) => if elapsed_ms >= DEBOUNCE_MAX_MS {
            (DebounceState::Idle, DebounceAction::Emit)
        } else {
            (DebounceState::Burst, DebounceAction::WaitQuiet)
        },
        (DebounceState::Burst, DebounceEvent::Quiet) => (DebounceState::Idle, DebounceAction::Emit),
    }
}

/// Coalesce a burst of relevant events into a single emit: a burst ends when
/// no event arrives for `DEBOUNCE_QUIET_MS`, or once it has lasted
/// `DEBOUNCE_MAX_MS` under continuous churn; a dropped watcher stops at once.
pub fn debounce_step(st: DebounceState, ev: DebounceEvent, elapsed_ms: u64) -> (r: (DebounceState, DebounceAction))
    ensures
        r == debounce_spec(st, ev, elapsed_ms),
        ev == DebounceEvent::Disconnected ==> r.1 == DebounceAction::Stop,
        r.1 == DebounceAction::Emit ==> st == DebounceState::Burst && r.0 == DebounceState::Idle,
{
    match ev {
        DebounceEvent::Disconnected => (DebounceState::Idle, DebounceAction::Stop),
        DebounceEvent::Event => match st {
            DebounceState::Idle => (DebounceState::Burst, DebounceAction::WaitQuiet),
            DebounceState::Burst => if elapsed_ms >= DEBOUNCE_MAX_MS {
                (DebounceState::Idle, DebounceAction::Emit)
            } else {
                (DebounceState::Burst, DebounceAction::WaitQuiet)
            },
        },
        DebounceEvent::Quiet => match st {
            DebounceState::Idle => (DebounceState::Idle, DebounceAction::Wait),
            DebounceState::Burst => (DebounceState::Idle, DebounceAction::Emit),
        },
    }
}

/// Whether this step starts a burst, so its timer (the `elapsed_ms` of later
/// steps) starts now: the first relevant event while idle.
pub fn burst_starts(st: DebounceState, ev: DebounceEvent) -> (b: bool)
    ensures
        b == (st == DebounceState::Idle && ev == DebounceEvent::Event),
        b == (debounce_spec(st, ev, 0).0 == DebounceState::Burst && st == DebounceState::Idle),
{
    match (st, ev) {
        (DebounceState::Idle, DebounceEvent::Event) => true,
        _ => false,
    }
}

// ---------------------------------------------------------------------------
// The watched set
// ---------------------------------------------------------------------------

/// The watches to stop (those of `current` not in `wanted`) and to start
/// (each root of `wanted` not in `current`, once).
pub struct WatchPlan {
    pub stop: Vec<String>,
    pub start: Vec<String>,
}

/// The distinct entries of `s` not in `excl`, in first-occurrence order.
pub open spec fn new_entries(s: Seq<Seq<char>>, excl: Seq<Seq<char>>) -> Seq<Seq<char>>
    decreases s.len(),
{
    if s.len() == 0 {
        seq![]
    } else {
        let rest = new_entries(s.drop_last(), excl);
        if excl.contains(s.last()) || rest.contains(s.last()) {
            rest
        } else {
            rest.push(s.last())
        }
    }
}

/// The entries of `s` not in `keep`, in order.
pub open spec fn dropped_entries(s: Seq<Seq<char>>, keep: Seq<Seq<char>>) -> Seq<Seq<char>>
    decreases s.len(),
{
    if s.len() == 0 {
        seq![]
    } else {
        let rest = dropped_entries(s.drop_last(), keep);
        if keep.contains(s.last()) {
            rest
        } else {
            rest.push(s.last())
        }
    }
}

proof fn lemma_dropped_entries(s: Seq<Seq<char>>, keep: Seq<Seq<char>>, x: Seq<char>)
    ensures
        dropped_entries(s, keep).contains(x) <==> (s.contains(x) && !keep.contains(x)),
    decreases s.len(),
{
    if s.len() > 0 {
        lemma_dropped_entries(s.drop_last(), keep, x);
        let r = dropped_entries(s.drop_last(), keep);
        if s.contains(x) && !keep.contains(x) {
            let k = choose|k: int| 0 <= k < s.len() && s[k] == x;
            if k < s.len() - 1 {
                assert(s.drop_last()[k] == x);
                let m = choose|m: int| 0 <= m < r.len() && r[m] == x;
                if !keep.contains(s.last()) {
                    assert(dropped_entries(s, keep)[m] == x);
                }
            } else {
                assert(dropped_entries(s, keep)[r.len() as int] == x);
            }
        }
        if dropped_entries(s, keep).contains(x) {
            let m = choose|m: int| 0 <= m < dropped_entries(s, keep).len() && dropped_entries(s, keep)[m] == x;
            if m < r.len() {
                assert(r[m] == x);
                let k = choose|k: int| 0 <= k < s.drop_last().len() && s.drop_last()[k] == x;
                assert(s[k] == x);
            } else {
                assert(s[s.len() - 1] == x);
            }
        }
    }
}

proof fn lemma_new_entries(s: Seq<Seq<char>>, excl: Seq<Seq<char>>, x: Seq<char>)
    ensures
        new_entries(s, excl).contains(x) <==> (s.contains(x) && !excl.contains(x)),
    decreases s.len(),
{
    if s.len() > 0 {
        lemma_new_entries(s.drop_last(), excl, x);
        let r = new_entries(s.drop_last(), excl);
        if s.contains(x) && !excl.contains(x) {
            let k = choose|k: int| 0 <= k < s.len() && s[k] == x;
            if k < s.len() - 1 {
                assert(s.drop_last()[k] == x);
                let m = choose|m: int| 0 <= m < r.len() && r[m] == x;
                if !(excl.contains(s.last()) || r.contains(s.last())) {
                    assert(new_entries(s, excl)[m] == x);
                }
            } else if !r.contains(x) {
                assert(new_entries(s, excl)[r.len() as int] == x);
            }
        }
        if new_entries(s, excl).contains(x) {
            let m = choose|m: int| 0 <= m < new_entries(s, excl).len() && new_entries(s, excl)[m] == x;
            if m < r.len() {
                assert(r[m] == x);
                let k = choose|k: int| 0 <= k < s.drop_last().len() && s.drop_last()[k] == x;
                assert(s[k] == x);
            } else {
                assert(s[s.len() - 1] == x);
            }
        }
    }
}

/// Carrying out a plan leaves exactly the wanted roots watched: a root is
/// watched afterwards (kept, or started) if and only if it is wanted; a root
/// both watched and wanted keeps its running watcher (neither stopped nor
/// started again); a watched root no longer wanted is stopped; and only
/// roots not yet watched are started.
pub proof fn lemma_watch_plan_exact(current: Seq<Seq<char>>, wanted: Seq<Seq<char>>, x: Seq<char>)
    ensures
        ((current.contains(x) && !dropped_entries(current, wanted).contains(x)) || new_entries(
            wanted,
            current,
        ).contains(x)) <==> wanted.contains(x),
        current.contains(x) && wanted.contains(x) ==> !dropped_entries(current, wanted).contains(x)
            && !new_entries(wanted, current).contains(x),
        current.contains(x) && !wanted.contains(x) ==> dropped_entries(current, wanted).contains(x),
        new_entries(wanted, current).contains(x) ==> !current.contains(x),
{
    lemma_dropped_entries(current, wanted, x);
    lemma_new_entries(wanted, current, x);
}

/// The watched set after carrying out a plan is exactly the wanted set: the
/// roots watched before, less those stopped, plus those started.
pub proof fn lemma_watch_plan_set(current: Seq<Seq<char>>, wanted: Seq<Seq<char>>)
    ensures
        current.to_set().difference(dropped_entries(current, wanted).to_set()).union(
            new_entries(wanted, current).to_set(),
        ) == wanted.to_set(),
{
    let after = current.to_set().difference(dropped_entries(current, wanted).to_set()).union(
        new_entries(wanted, current).to_set(),
    );
    assert forall|x: Seq<char>| after.contains(x) <==> wanted.to_set().contains(x) by {
        lemma_watch_plan_exact(current, wanted, x);
    }
    assert(after =~= wanted.to_set());
}

/// Asking again for the roots already watched changes nothing.
pub proof fn lemma_watch_plan_idempotent(current: Seq<Seq<char>>, wanted: Seq<Seq<char>>)
    requires
        forall|x: Seq<char>| current.contains(x) <==> wanted.contains(x),
    ensures
        dropped_entries(current, wanted).len() == 0,
        new_entries(wanted, current).len() == 0,
{
    let d = dropped_entries(current, wanted);
    let n = new_entries(wanted, current);
    if d.len() > 0 {
        lemma_dropped_entries(current, wanted, d[0]);
        assert(d.contains(d[0]));
    }
    if n.len() > 0 {
        lemma_new_entries(wanted, current, n[0]);
        assert(n.contains(n[0]));
    }
}

/// Whether `x` is among `v`.
fn member(v: &[String], x: &str) -> (b: bool)
    ensures
        b == strs_view(v@).contains(x@),
{
    let mut i: usize = 0;
    while i < v.len()
        invariant
            i <= v@.len(),
            forall|k: int| 0 <= k < i ==> (#[trigger] strs_view(v@)[k]) != x@,
        decreases v@.len() - i,
    {
        if str_eq(v[i].as_str(), x) {
            assert(strs_view(v@)[i as int] == x@);
            return true;
        }
        i += 1;
    }
    false
}

/// Whether `x` is among `v`.
fn member_vec(v: &Vec<String>, x: &str) -> (b: bool)
    ensures
        b == strs_view(v@).contains(x@),
{
    member(v.as_slice(), x)
}

/// The watches to stop and start so that the watched roots become exactly
/// `wanted` (idempotent: asking again for the same set changes nothing).
pub fn watch_plan(current: &[String], wanted: &[String]) -> (p: WatchPlan)
    ensures
        strs_view(p.stop@) == dropped_entries(strs_view(current@), strs_view(wanted@)),
        strs_view(p.start@) == new_entries(strs_view(wanted@), strs_view(current@)),
{
    let ghost cur = strs_view(current@);
    let ghost want = strs_view(wanted@);
    let mut stop: Vec<String> = Vec::new();
    let mut i: usize = 0;
    while i < current.len()
        invariant
            cur == strs_view(current@),
            want == strs_view(wanted@),
            i <= current@.len(),
            strs_view(stop@) == dropped_entries(cur.subrange(0, i as int), want),
        decreases current@.len() - i,
    {
        proof {
            assert(cur.subrange(0, i + 1).drop_last() =~= cur.subrange(0, i as int));
            assert(cur.subrange(0, i + 1).last() == current@[i as int]@);
        }
        if !member(wanted, current[i].as_str()) {
            let ghost prev = stop@;
            stop.push(owned(current[i].as_str()));
            proof {
                assert(strs_view(stop@) =~= strs_view(prev).push(current@[i as int]@));
            }
        }
        i += 1;
    }
    let mut start: Vec<String> = Vec::new();
    let mut j: usize = 0;
    while j < wanted.len()
        invariant
            cur == strs_view(current@),
            want == strs_view(wanted@),
            j <= wanted@.len(),
            strs_view(start@) == new_entries(want.subrange(0, j as int), cur),
        decreases wanted@.len() - j,
    {
        proof {
            assert(want.subrange(0, j + 1).drop_last() =~= want.subrange(0, j as int));
            assert(want.subrange(0, j + 1).last() == wanted@[j as int]@);
        }
        if !member(current, wanted[j].as_str()) && !member_vec(&start, wanted[j].as_str()) {
            let ghost prev = start@;
            start.push(owned(wanted[j].as_str()));
            proof {
                assert(strs_view(start@) =~= strs_view(prev).push(wanted@[j as int]@));
            }
        }
        j += 1;
    }
    proof {
        assert(cur.subrange(0, current@.len() as int) =~= cur);
        assert(want.subrange(0, wanted@.len() as int) =~= want);
    }
    WatchPlan { stop, start }
}

} // verus!
