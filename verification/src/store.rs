//! The persisted application state (`state.json`): recent repositories, the
//! user's display preferences, and the extra repositories added to each main
//! repository's workspace. Reading and writing the file happens around this
//! module; here is every change made to the state.

use vstd::prelude::*;

use crate::git::strs_view;
use crate::text::{owned, str_eq};

verus! {

/// Most recent repositories kept.
pub const MAX_RECENT: usize = 10;

/// Smallest font size accepted.
pub const MIN_FONT_SIZE: u8 = 8;

/// Largest font size accepted.
pub const MAX_FONT_SIZE: u8 = 32;

/// Default theme.
pub const DEFAULT_THEME: &'static str = "system";

/// Default font size.
pub const DEFAULT_FONT_SIZE: u8 = 13;

/// Default comparison mode.
pub const DEFAULT_COMPARE_MODE: &'static str = "branch";

/// Default workspace layout ("unified": all repositories in one grouped
/// picker; "tabs": one repository at a time).
pub const DEFAULT_WORKSPACE_LAYOUT: &'static str = "unified";

/// The persisted state. `manual_repos_by_main` maps a main repository to the
/// extra repositories added to its workspace; each main repository appears
/// at most once.
#[derive(Debug, Clone)]
pub struct PersistedState {
    pub recent_repos: Vec<String>,
    pub theme: String,
    pub font_size: u8,
    pub compare_mode: String,
    pub manual_repos_by_main: Vec<(String, Vec<String>)>,
    pub workspace_layout: String,
}

pub struct PersistedStateView {
    pub recent_repos: Seq<Seq<char>>,
    pub theme: Seq<char>,
    pub font_size: u8,
    pub compare_mode: Seq<char>,
    pub manual_repos_by_main: Seq<(Seq<char>, Seq<Seq<char>>)>,
    pub workspace_layout: Seq<char>,
}

pub open spec fn manual_view(v: Seq<(String, Vec<String>)>) -> Seq<(Seq<char>, Seq<Seq<char>>)> {
    v.map_values(|e: (String, Vec<String>)| (e.0@, strs_view(e.1@)))
}

impl View for PersistedState {
    type V = PersistedStateView;

    open spec fn view(&self) -> PersistedStateView {
        PersistedStateView {
            recent_repos: strs_view(self.recent_repos@),
            theme: self.theme@,
            font_size: self.font_size,
            compare_mode: self.compare_mode@,
            manual_repos_by_main: manual_view(self.manual_repos_by_main@),
            workspace_layout: self.workspace_layout@,
        }
    }
}

/// No key occurs twice.
pub open spec fn keys_distinct(m: Seq<(Seq<char>, Seq<Seq<char>>)>) -> bool {
    forall|i: int, j: int| 0 <= i < j < m.len() ==> (#[trigger] m[i]).0 != (#[trigger] m[j]).0
}

impl PersistedState {
    /// Each main repository has one entry.
    pub open spec fn wf(&self) -> bool {
        keys_distinct(self@.manual_repos_by_main)
    }
}

impl Default for PersistedState {
    fn default() -> (s: Self)
        ensures
            s@.recent_repos == Seq::<Seq<char>>::empty(),
            s@.theme == DEFAULT_THEME@,
            s@.font_size == DEFAULT_FONT_SIZE,
            s@.compare_mode == DEFAULT_COMPARE_MODE@,
            s@.manual_repos_by_main == Seq::<(Seq<char>, Seq<Seq<char>>)>::empty(),
            s@.workspace_layout == DEFAULT_WORKSPACE_LAYOUT@,
            s.wf(),
    {
        let s = PersistedState {
            recent_repos: Vec::new(),
            theme: owned(DEFAULT_THEME),
            font_size: DEFAULT_FONT_SIZE,
            compare_mode: owned(DEFAULT_COMPARE_MODE),
            manual_repos_by_main: Vec::new(),
            workspace_layout: owned(DEFAULT_WORKSPACE_LAYOUT),
        };
        assert(s@.recent_repos =~= Seq::<Seq<char>>::empty());
        assert(s@.manual_repos_by_main =~= Seq::<(Seq<char>, Seq<Seq<char>>)>::empty());
        s
    }
}

/// `s` without the entries equal to `x`, in order.
pub open spec fn without(s: Seq<Seq<char>>, x: Seq<char>) -> Seq<Seq<char>>
    decreases s.len(),
{
    if s.len() == 0 {
        seq![]
    } else if s.last() == x {
        without(s.drop_last(), x)
    } else {
        without(s.drop_last(), x).push(s.last())
    }
}

/// `without` leaves no `x` and keeps only entries of `s`.
pub proof fn lemma_without(s: Seq<Seq<char>>, x: Seq<char>)
    ensures
        !without(s, x).contains(x),
        without(s, x).len() <= s.len(),
        forall|y: Seq<char>| without(s, x).contains(y) ==> s.contains(y),
        forall|y: Seq<char>| y != x && s.contains(y) ==> without(s, x).contains(y),
    decreases s.len(),
{
    if s.len() > 0 {
        lemma_without(s.drop_last(), x);
        let r = without(s.drop_last(), x);
        assert forall|y: Seq<char>| without(s, x).contains(y) implies s.contains(y) by {
            if y != s.last() {
                let k = choose|k: int| 0 <= k < without(s, x).len() && without(s, x)[k] == y;
                if s.last() != x {
                    assert(k < r.len());
                    assert(r[k] == y);
                } else {
                    assert(without(s, x) == r);
                    assert(0 <= k < r.len());
                    assert(r[k] == y);
                }
                assert(0 <= k < r.len() && r[k] == y);
                assert(r.contains(y));
                assert(s.drop_last().contains(y));
                let m = choose|m: int| 0 <= m < s.drop_last().len() && s.drop_last()[m] == y;
                assert(s[m] == y);
            } else {
                assert(s[s.len() - 1] == y);
            }
        }
        assert forall|y: Seq<char>| y != x && s.contains(y) implies without(s, x).contains(y) by {
            let k = choose|k: int| 0 <= k < s.len() && s[k] == y;
            if k == s.len() - 1 {
                assert(without(s, x)[without(s, x).len() - 1] == y);
            } else {
                assert(s.drop_last()[k] == y);
                assert(0 <= k < s.drop_last().len());
                assert(s.drop_last().contains(y));
                assert(r.contains(y));
                let m = choose|m: int| 0 <= m < r.len() && r[m] == y;
                if s.last() != x {
                    assert(without(s, x)[m] == y);
                }
            }
        }
        if s.last() != x {
            assert forall|k: int| 0 <= k < without(s, x).len() implies without(s, x)[k] != x by {
                if k < r.len() {
                    assert(without(s, x)[k] == r[k]);
                    assert(!r.contains(x));
                }
            }
        }
    }
}

/// The strings of `v` other than `x`, in order.
fn retain_other(v: &Vec<String>, x: &str) -> (r: Vec<String>)
    ensures
        strs_view(r@) == without(strs_view(v@), x@),
{
    let ghost s = strs_view(v@);
    let mut out: Vec<String> = Vec::new();
    let mut i: usize = 0;
    while i < v.len()
        invariant
            s == strs_view(v@),
            i <= v@.len(),
            strs_view(out@) == without(s.subrange(0, i as int), x@),
        decreases v@.len() - i,
    {
        proof {
            assert(s.subrange(0, i + 1).drop_last() =~= s.subrange(0, i as int));
            assert(s.subrange(0, i + 1).last() == v@[i as int]@);
        }
        if !str_eq(v[i].as_str(), x) {
            let ghost prev = out@;
            out.push(owned(v[i].as_str()));
            proof {
                assert(strs_view(out@) =~= strs_view(prev).push(v@[i as int]@));
            }
        }
        i += 1;
    }
    assert(s.subrange(0, v@.len() as int) =~= s);
    out
}

/// The recent list after opening `repo`: `repo` first, then the previous
/// entries other than it, at most `MAX_RECENT` in all.
pub open spec fn recent_after_open(recent: Seq<Seq<char>>, repo: Seq<char>) -> Seq<Seq<char>> {
    let l = seq![repo] + without(recent, repo);
    if l.len() > MAX_RECENT {
        l.subrange(0, MAX_RECENT as int)
    } else {
        l
    }
}

/// Removing `x` from a list that leads with `x` and holds it nowhere else
/// leaves the rest.
proof fn lemma_without_lead(t: Seq<Seq<char>>, x: Seq<char>)
    requires
        !t.contains(x),
    ensures
        without(seq![x] + t, x) == t,
    decreases t.len(),
{
    let s = seq![x] + t;
    if t.len() == 0 {
        assert(s =~= seq![x]);
        assert(s.drop_last() =~= Seq::<Seq<char>>::empty());
        assert(without(s.drop_last(), x) =~= Seq::<Seq<char>>::empty());
        assert(s.last() == x);
        assert(without(s, x) == without(s.drop_last(), x));
        assert(t =~= Seq::<Seq<char>>::empty());
    } else {
        assert(s.drop_last() =~= seq![x] + t.drop_last());
        assert(s.last() == t.last());
        assert(t.last() == t[t.len() - 1]);
        assert(t.contains(t[t.len() - 1]));
        assert(s.last() != x);
        assert forall|y: Seq<char>| t.drop_last().contains(y) implies t.contains(y) by {
            let k = choose|k: int| 0 <= k < t.drop_last().len() && t.drop_last()[k] == y;
            assert(t[k] == y);
        }
        lemma_without_lead(t.drop_last(), x);
        assert(t.drop_last().push(t.last()) =~= t);
    }
}

/// Opening the repository that was opened last changes nothing: reopening is
/// idempotent.
pub proof fn lemma_reopen_idempotent(recent: Seq<Seq<char>>, repo: Seq<char>)
    ensures
        recent_after_open(recent_after_open(recent, repo), repo) == recent_after_open(recent, repo),
{
    lemma_without(recent, repo);
    let w = without(recent, repo);
    let l = recent_after_open(recent, repo);
    let t = l.drop_first();
    if (seq![repo] + w).len() > MAX_RECENT {
        assert(t =~= w.subrange(0, MAX_RECENT - 1));
    } else {
        assert(t =~= w);
    }
    assert(!t.contains(repo)) by {
        if t.contains(repo) {
            let k = choose|k: int| 0 <= k < t.len() && t[k] == repo;
            assert(w[k] == repo);
            assert(w.contains(repo));
        }
    }
    assert(l =~= seq![repo] + t);
    lemma_without_lead(t, repo);
    assert(seq![repo] + without(l, repo) =~= l);
}

/// Record `repo` as the most recently opened repository; returns the new
/// recent list. The list leads with `repo`, holds it once, and keeps at most
/// `MAX_RECENT` entries.
pub fn add_recent_repo(state: &mut PersistedState, repo: String) -> (r: Vec<String>)
    ensures
        final(state)@.recent_repos == recent_after_open(old(state)@.recent_repos, repo@),
        strs_view(r@) == final(state)@.recent_repos,
        final(state)@.recent_repos[0] == repo@,
        final(state)@.recent_repos.len() <= MAX_RECENT,
        forall|k: int| 1 <= k < final(state)@.recent_repos.len() ==> #[trigger] final(state)@.recent_repos[k] != repo@,
        final(state)@.theme == old(state)@.theme,
        final(state)@.font_size == old(state)@.font_size,
        final(state)@.compare_mode == old(state)@.compare_mode,
        final(state)@.manual_repos_by_main == old(state)@.manual_repos_by_main,
        final(state)@.workspace_layout == old(state)@.workspace_layout,
{
    let rest = retain_other(&state.recent_repos, repo.as_str());
    proof {
        lemma_without(old(state)@.recent_repos, repo@);
    }
    let ghost l = seq![repo@] + strs_view(rest@);
    let mut list: Vec<String> = Vec::new();
    list.push(repo);
    let mut i: usize = 0;
    while i < rest.len() && list.len() < MAX_RECENT
        invariant
            l == seq![list@[0]@] + strs_view(rest@),
            list@.len() == i + 1,
            i <= rest@.len(),
            list@.len() <= MAX_RECENT,
            strs_view(list@) == l.subrange(0, i + 1),
        decreases rest@.len() - i,
    {
        let ghost prev = list@;
        list.push(owned(rest[i].as_str()));
        proof {
            assert(strs_view(list@) =~= strs_view(prev).push(rest@[i as int]@));
            assert(l.subrange(0, i + 2) =~= l.subrange(0, i + 1).push(l[i + 1]));
        }
        i += 1;
    }
    proof {
        let want = recent_after_open(old(state)@.recent_repos, repo@);
        if l.len() > MAX_RECENT {
            assert(strs_view(list@) =~= want);
        } else {
            assert(l.subrange(0, l.len() as int) =~= l);
            assert(strs_view(list@) =~= want);
        }
        assert forall|k: int| 1 <= k < want.len() implies #[trigger] want[k] != repo@ by {
            assert(want[k] == l[k]);
            assert(l[k] == without(old(state)@.recent_repos, repo@)[k - 1]);
        }
    }
    state.recent_repos = list;
    let r = copy_strings(&state.recent_repos);
    r
}

/// A copy of a list of strings.
fn copy_strings(v: &Vec<String>) -> (r: Vec<String>)
    ensures
        strs_view(r@) == strs_view(v@),
{
    let mut out: Vec<String> = Vec::new();
    let mut i: usize = 0;
    while i < v.len()
        invariant
            i <= v@.len(),
            strs_view(out@) == strs_view(v@.subrange(0, i as int)),
        decreases v@.len() - i,
    {
        let ghost prev = out@;
        out.push(owned(v[i].as_str()));
        proof {
            assert(strs_view(out@) =~= strs_view(prev).push(v@[i as int]@));
            assert(strs_view(v@.subrange(0, i + 1)) =~= strs_view(v@.subrange(0, i as int)).push(
                v@[i as int]@,
            ));
        }
        i += 1;
    }
    assert(v@.subrange(0, v@.len() as int) =~= v@);
    out
}

/// Forget `repo` from the recent list; returns the new list.
pub fn remove_recent_repo(state: &mut PersistedState, repo: String) -> (r: Vec<String>)
    ensures
        final(state)@.recent_repos == without(old(state)@.recent_repos, repo@),
        strs_view(r@) == final(state)@.recent_repos,
        !final(state)@.recent_repos.contains(repo@),
        final(state)@.theme == old(state)@.theme,
        final(state)@.font_size == old(state)@.font_size,
        final(state)@.compare_mode == old(state)@.compare_mode,
        final(state)@.manual_repos_by_main == old(state)@.manual_repos_by_main,
        final(state)@.workspace_layout == old(state)@.workspace_layout,
{
    let rest = retain_other(&state.recent_repos, repo.as_str());
    proof {
        lemma_without(old(state)@.recent_repos, repo@);
    }
    state.recent_repos = rest;
    copy_strings(&state.recent_repos)
}

/// Set the theme.
pub fn set_theme(state: &mut PersistedState, theme: String)
    ensures
        final(state)@ == (PersistedStateView { theme: theme@, ..old(state)@ }),
{
    state.theme = theme;
}

/// A font size clamped to `MIN_FONT_SIZE..=MAX_FONT_SIZE`.
pub open spec fn clamp_font(size: u8) -> u8 {
    if size < MIN_FONT_SIZE {
        MIN_FONT_SIZE
    } else if size > MAX_FONT_SIZE {
        MAX_FONT_SIZE
    } else {
        size
    }
}

/// Set the font size, clamped to the supported range.
pub fn set_font_size(state: &mut PersistedState, size: u8)
    ensures
        final(state)@ == (PersistedStateView { font_size: clamp_font(size), ..old(state)@ }),
        MIN_FONT_SIZE <= final(state)@.font_size <= MAX_FONT_SIZE,
{
    state.font_size = if size < MIN_FONT_SIZE {
        MIN_FONT_SIZE
    } else if size > MAX_FONT_SIZE {
        MAX_FONT_SIZE
    } else {
        size
    };
}

/// Set the comparison mode.
pub fn set_compare_mode(state: &mut PersistedState, mode: String)
    ensures
        final(state)@ == (PersistedStateView { compare_mode: mode@, ..old(state)@ }),
{
    state.compare_mode = mode;
}

/// Set the workspace layout.
pub fn set_workspace_layout(state: &mut PersistedState, layout: String)
    ensures
        final(state)@ == (PersistedStateView { workspace_layout: layout@, ..old(state)@ }),
{
    state.workspace_layout = layout;
}

/// Index of the entry keyed `k`, if any.
pub open spec fn key_index(m: Seq<(Seq<char>, Seq<Seq<char>>)>, k: Seq<char>) -> Option<int> {
    if exists|i: int| 0 <= i < m.len() && m[i].0 == k {
        Some(choose|i: int| 0 <= i < m.len() && m[i].0 == k)
    } else {
        None
    }
}

/// The list kept for the main repository `k` (empty when it has none).
pub open spec fn manual_list(m: Seq<(Seq<char>, Seq<Seq<char>>)>, k: Seq<char>) -> Seq<Seq<char>> {
    match key_index(m, k) {
        Some(i) => m[i].1,
        None => seq![],
    }
}

/// The entry of `main` in `v`, if any.
fn find_key(v: &Vec<(String, Vec<String>)>, main: &str) -> (r: Option<usize>)
    ensures
        match r {
            Some(i) => i < v@.len() && v@[i as int].0@ == main@,
            None => forall|i: int| 0 <= i < v@.len() ==> (#[trigger] v@[i]).0@ != main@,
        },
{
    let mut i: usize = 0;
    while i < v.len()
        invariant
            i <= v@.len(),
            forall|k: int| 0 <= k < i ==> (#[trigger] v@[k]).0@ != main@,
        decreases v@.len() - i,
    {
        if str_eq(v[i].0.as_str(), main) {
            return Some(i);
        }
        i += 1;
    }
    None
}

/// The manual list after adding `repo` (unchanged when already there).
pub open spec fn with_repo(list: Seq<Seq<char>>, repo: Seq<char>) -> Seq<Seq<char>> {
    if list.contains(repo) {
        list
    } else {
        list.push(repo)
    }
}

/// Adding a repository that is already listed changes nothing, so adding the
/// same repository twice is adding it once.
pub proof fn lemma_with_repo_idempotent(list: Seq<Seq<char>>, repo: Seq<char>)
    ensures
        with_repo(with_repo(list, repo), repo) == with_repo(list, repo),
        with_repo(list, repo).contains(repo),
{
    if !list.contains(repo) {
        assert(list.push(repo)[list.len() as int] == repo);
    }
}

/// Whether `repo` is among `list`.
fn contains_str(list: &Vec<String>, repo: &str) -> (b: bool)
    ensures
        b == strs_view(list@).contains(repo@),
{
    let mut i: usize = 0;
    while i < list.len()
        invariant
            i <= list@.len(),
            forall|k: int| 0 <= k < i ==> (#[trigger] strs_view(list@)[k]) != repo@,
        decreases list@.len() - i,
    {
        if str_eq(list[i].as_str(), repo) {
            assert(strs_view(list@)[i as int] == repo@);
            return true;
        }
        i += 1;
    }
    false
}

/// With distinct keys, the entry at `i` is the one found for its key.
pub proof fn lemma_key_found(m: Seq<(Seq<char>, Seq<Seq<char>>)>, i: int)
    requires
        keys_distinct(m),
        0 <= i < m.len(),
    ensures
        key_index(m, m[i].0) == Some(i),
        manual_list(m, m[i].0) == m[i].1,
{
    let k = m[i].0;
    assert(exists|j: int| 0 <= j < m.len() && m[j].0 == k);
    let j = choose|j: int| 0 <= j < m.len() && m[j].0 == k;
    if j != i {
        if j < i {
            assert(m[j].0 != m[i].0);
        } else {
            assert(m[i].0 != m[j].0);
        }
    }
}

/// A key no entry has maps to the empty list.
pub proof fn lemma_key_absent(m: Seq<(Seq<char>, Seq<Seq<char>>)>, k: Seq<char>)
    requires
        forall|i: int| 0 <= i < m.len() ==> (#[trigger] m[i]).0 != k,
    ensures
        key_index(m, k) is None,
        manual_list(m, k) == Seq::<Seq<char>>::empty(),
{
}

/// Two maps with distinct keys that list the same entries for one key agree
/// on it.
proof fn lemma_same_list(
    m: Seq<(Seq<char>, Seq<Seq<char>>)>,
    m1: Seq<(Seq<char>, Seq<Seq<char>>)>,
    k: Seq<char>,
)
    requires
        keys_distinct(m),
        keys_distinct(m1),
        (exists|i: int| 0 <= i < m.len() && m[i].0 == k) <==> (exists|i: int|
            0 <= i < m1.len() && m1[i].0 == k),
        forall|i: int, j: int|
            0 <= i < m.len() && 0 <= j < m1.len() && m[i].0 == k && m1[j].0 == k ==> m[i].1
                == m1[j].1,
    ensures
        manual_list(m, k) == manual_list(m1, k),
{
    if exists|i: int| 0 <= i < m.len() && m[i].0 == k {
        let i = choose|i: int| 0 <= i < m.len() && m[i].0 == k;
        let j = choose|j: int| 0 <= j < m1.len() && m1[j].0 == k;
        lemma_key_found(m, i);
        lemma_key_found(m1, j);
    }
}

/// Replacing the list of entry `i` keeps the keys distinct and changes only
/// that key's list.
pub proof fn lemma_update_entry(m: Seq<(Seq<char>, Seq<Seq<char>>)>, i: int, list: Seq<Seq<char>>)
    requires
        keys_distinct(m),
        0 <= i < m.len(),
    ensures
        keys_distinct(m.update(i, (m[i].0, list))),
        manual_list(m.update(i, (m[i].0, list)), m[i].0) == list,
        forall|k: Seq<char>| k != m[i].0 ==> manual_list(m.update(i, (m[i].0, list)), k)
            == manual_list(m, k),
{
    let m1 = m.update(i, (m[i].0, list));
    assert forall|a: int, b: int| 0 <= a < b < m1.len() implies (#[trigger] m1[a]).0 != (
    #[trigger] m1[b]).0 by {
        assert(m1[a].0 == m[a].0);
        assert(m1[b].0 == m[b].0);
    }
    lemma_key_found(m1, i);
    assert forall|k: Seq<char>| k != m[i].0 implies manual_list(m1, k) == manual_list(m, k) by {
        if exists|j: int| 0 <= j < m.len() && m[j].0 == k {
            let j = choose|j: int| 0 <= j < m.len() && m[j].0 == k;
            assert(m1[j].0 == k);
        }
        if exists|j: int| 0 <= j < m1.len() && m1[j].0 == k {
            let j = choose|j: int| 0 <= j < m1.len() && m1[j].0 == k;
            assert(m[j].0 == k);
        }
        assert forall|a: int, b: int|
            0 <= a < m.len() && 0 <= b < m1.len() && m[a].0 == k && m1[b].0 == k implies m[a].1
            == m1[b].1 by {
            assert(m1[b].0 == m[b].0);
            if a != b {
                if a < b {
                    assert(m[a].0 != m[b].0);
                } else {
                    assert(m[b].0 != m[a].0);
                }
            }
        }
        lemma_same_list(m, m1, k);
    }
}

/// Adding an entry for a new key keeps the keys distinct and changes only
/// that key's list.
pub proof fn lemma_push_entry(m: Seq<(Seq<char>, Seq<Seq<char>>)>, k: Seq<char>, list: Seq<Seq<char>>)
    requires
        keys_distinct(m),
        forall|i: int| 0 <= i < m.len() ==> (#[trigger] m[i]).0 != k,
    ensures
        keys_distinct(m.push((k, list))),
        manual_list(m.push((k, list)), k) == list,
        forall|k2: Seq<char>| k2 != k ==> manual_list(m.push((k, list)), k2) == manual_list(m, k2),
{
    let m1 = m.push((k, list));
    assert forall|a: int, b: int| 0 <= a < b < m1.len() implies (#[trigger] m1[a]).0 != (
    #[trigger] m1[b]).0 by {
        if b == m.len() {
            assert(m1[a].0 == m[a].0);
        } else {
            assert(m1[a].0 == m[a].0);
            assert(m1[b].0 == m[b].0);
        }
    }
    lemma_key_found(m1, m.len() as int);
    assert forall|k2: Seq<char>| k2 != k implies manual_list(m1, k2) == manual_list(m, k2) by {
        if exists|j: int| 0 <= j < m.len() && m[j].0 == k2 {
            let j = choose|j: int| 0 <= j < m.len() && m[j].0 == k2;
            assert(m1[j].0 == k2);
        }
        if exists|j: int| 0 <= j < m1.len() && m1[j].0 == k2 {
            let j = choose|j: int| 0 <= j < m1.len() && m1[j].0 == k2;
            assert(j < m.len());
            assert(m[j].0 == k2);
        }
        assert forall|a: int, b: int|
            0 <= a < m.len() && 0 <= b < m1.len() && m[a].0 == k2 && m1[b].0 == k2 implies m[a].1
            == m1[b].1 by {
            assert(b < m.len());
            assert(m1[b] == m[b]);
            if a != b {
                if a < b {
                    assert(m[a].0 != m[b].0);
                } else {
                    assert(m[b].0 != m[a].0);
                }
            }
        }
        lemma_same_list(m, m1, k2);
    }
}

/// Dropping entry `i` keeps the keys distinct, leaves its key without a list
/// and changes no other key's list.
pub proof fn lemma_remove_entry(m: Seq<(Seq<char>, Seq<Seq<char>>)>, i: int)
    requires
        keys_distinct(m),
        0 <= i < m.len(),
    ensures
        keys_distinct(m.remove(i)),
        key_index(m.remove(i), m[i].0) is None,
        forall|k: Seq<char>| k != m[i].0 ==> manual_list(m.remove(i), k) == manual_list(m, k),
{
    let m1 = m.remove(i);
    assert forall|a: int, b: int| 0 <= a < b < m1.len() implies (#[trigger] m1[a]).0 != (
    #[trigger] m1[b]).0 by {
        let a0 = if a < i { a } else { a + 1 };
        let b0 = if b < i { b } else { b + 1 };
        assert(m1[a] == m[a0]);
        assert(m1[b] == m[b0]);
    }
    assert forall|j: int| 0 <= j < m1.len() implies (#[trigger] m1[j]).0 != m[i].0 by {
        let j0 = if j < i { j } else { j + 1 };
        assert(m1[j] == m[j0]);
        if j0 < i {
            assert(m[j0].0 != m[i].0);
        } else {
            assert(m[i].0 != m[j0].0);
        }
    }
    lemma_key_absent(m1, m[i].0);
    assert forall|k: Seq<char>| k != m[i].0 implies manual_list(m1, k) == manual_list(m, k) by {
        if exists|j: int| 0 <= j < m.len() && m[j].0 == k {
            let j = choose|j: int| 0 <= j < m.len() && m[j].0 == k;
            let j1 = if j < i { j } else { j - 1 };
            assert(j != i);
            assert(m1[j1] == m[j]);
        }
        if exists|j: int| 0 <= j < m1.len() && m1[j].0 == k {
            let j = choose|j: int| 0 <= j < m1.len() && m1[j].0 == k;
            let j0 = if j < i { j } else { j + 1 };
            assert(m1[j] == m[j0]);
        }
        assert forall|a: int, b: int|
            0 <= a < m.len() && 0 <= b < m1.len() && m[a].0 == k && m1[b].0 == k implies m[a].1
            == m1[b].1 by {
            let b0 = if b < i { b } else { b + 1 };
            assert(m1[b] == m[b0]);
            if a != b0 {
                if a < b0 {
                    assert(m[a].0 != m[b0].0);
                } else {
                    assert(m[b0].0 != m[a].0);
                }
            }
        }
        lemma_same_list(m, m1, k);
    }
}

/// Append `repo` to the manual-repo list of `main_repo`, skipping duplicates;
/// returns the resulting list. Other main repositories keep their lists.
pub fn add_manual_repo(state: &mut PersistedState, main_repo: String, repo: String) -> (r: Vec<String>)
    requires
        old(state).wf(),
    ensures
        final(state).wf(),
        strs_view(r@) == with_repo(manual_list(old(state)@.manual_repos_by_main, main_repo@), repo@),
        manual_list(final(state)@.manual_repos_by_main, main_repo@) == strs_view(r@),
        forall|k: Seq<char>| k != main_repo@ ==> manual_list(final(state)@.manual_repos_by_main, k)
            == manual_list(old(state)@.manual_repos_by_main, k),
        final(state)@.recent_repos == old(state)@.recent_repos,
        final(state)@.theme == old(state)@.theme,
        final(state)@.font_size == old(state)@.font_size,
        final(state)@.compare_mode == old(state)@.compare_mode,
        final(state)@.workspace_layout == old(state)@.workspace_layout,
{
    let ghost m0 = manual_view(state.manual_repos_by_main@);
    match find_key(&state.manual_repos_by_main, main_repo.as_str()) {
        Some(i) => {
            proof {
                assert(m0[i as int].0 == main_repo@);
                lemma_key_found(m0, i as int);
            }
            let mut list = copy_strings(&state.manual_repos_by_main[i].1);
            if !contains_str(&list, repo.as_str()) {
                let ghost prev = list@;
                list.push(repo);
                proof {
                    assert(strs_view(list@) =~= strs_view(prev).push(list@.last()@));
                }
            }
            let result = copy_strings(&list);
            let ghost lv = strs_view(list@);
            state.manual_repos_by_main.set(i, (main_repo, list));
            proof {
                assert(manual_view(state.manual_repos_by_main@) =~= m0.update(i as int, (m0[i as int].0, lv)));
                lemma_update_entry(m0, i as int, lv);
            }
            result
        },
        None => {
            proof {
                assert forall|j: int| 0 <= j < m0.len() implies (#[trigger] m0[j]).0 != main_repo@ by {
                    assert(m0[j].0 == state.manual_repos_by_main@[j].0@);
                }
                lemma_key_absent(m0, main_repo@);
            }
            let mut list: Vec<String> = Vec::new();
            list.push(repo);
            let result = copy_strings(&list);
            let ghost lv = strs_view(list@);
            proof {
                assert(lv =~= seq![list@[0]@]);
                assert(with_repo(Seq::<Seq<char>>::empty(), list@[0]@) =~= lv);
            }
            let ghost key = main_repo@;
            state.manual_repos_by_main.push((main_repo, list));
            proof {
                assert(manual_view(state.manual_repos_by_main@) =~= m0.push((key, lv)));
                lemma_push_entry(m0, key, lv);
            }
            result
        },
    }
}

/// Remove `repo` from the manual-repo list of `main_repo`; returns the
/// resulting list. A list left empty is dropped with its key.
pub fn remove_manual_repo(state: &mut PersistedState, main_repo: String, repo: String) -> (r: Vec<String>)
    requires
        old(state).wf(),
    ensures
        final(state).wf(),
        strs_view(r@) == without(manual_list(old(state)@.manual_repos_by_main, main_repo@), repo@),
        manual_list(final(state)@.manual_repos_by_main, main_repo@) == strs_view(r@),
        r@.len() == 0 ==> key_index(final(state)@.manual_repos_by_main, main_repo@) is None,
        forall|k: Seq<char>| k != main_repo@ ==> manual_list(final(state)@.manual_repos_by_main, k)
            == manual_list(old(state)@.manual_repos_by_main, k),
        final(state)@.recent_repos == old(state)@.recent_repos,
        final(state)@.theme == old(state)@.theme,
        final(state)@.font_size == old(state)@.font_size,
        final(state)@.compare_mode == old(state)@.compare_mode,
        final(state)@.workspace_layout == old(state)@.workspace_layout,
{
    let ghost m0 = manual_view(state.manual_repos_by_main@);
    match find_key(&state.manual_repos_by_main, main_repo.as_str()) {
        Some(i) => {
            proof {
                assert(m0[i as int].0 == main_repo@);
                lemma_key_found(m0, i as int);
            }
            let list = retain_other(&state.manual_repos_by_main[i].1, repo.as_str());
            let result = copy_strings(&list);
            let ghost lv = strs_view(list@);
            assert(strs_view(result@).len() == result@.len());
            assert(lv.len() == list@.len());
            if list.len() == 0 {
                let _gone = state.manual_repos_by_main.remove(i);
                proof {
                    assert(manual_view(state.manual_repos_by_main@) =~= m0.remove(i as int));
                    lemma_remove_entry(m0, i as int);
                    assert(lv =~= Seq::<Seq<char>>::empty());
                }
            } else {
                state.manual_repos_by_main.set(i, (main_repo, list));
                proof {
                    assert(manual_view(state.manual_repos_by_main@) =~= m0.update(i as int, (m0[i as int].0, lv)));
                    lemma_update_entry(m0, i as int, lv);
                }
            }
            result
        },
        None => {
            proof {
                assert forall|j: int| 0 <= j < m0.len() implies (#[trigger] m0[j]).0 != main_repo@ by {
                    assert(m0[j].0 == state.manual_repos_by_main@[j].0@);
                }
                lemma_key_absent(m0, main_repo@);
                assert(without(Seq::<Seq<char>>::empty(), repo@) =~= Seq::<Seq<char>>::empty());
            }
            let r: Vec<String> = Vec::new();
            assert(strs_view(r@) =~= Seq::<Seq<char>>::empty());
            r
        },
    }
}

} // verus!
