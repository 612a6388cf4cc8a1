//! `git blame --porcelain` parsing.

use vstd::prelude::*;
use vstd::utf8::{decode_utf8, valid_utf8};

use crate::git::error::{GitError, GitErrorView};
use crate::text::{
    chars_of, decode_str, trim, trim_bounds, equals_at, has_prefix_at, is_hex, is_hex_digit, lemma_sub_sub,
    nth_or_empty, owned, parse_i64, parse_i64_spec, parse_usize, parse_usize_spec, push_chars,
    push_str, ranges_match, split, split_ranges, splitn, splitn_ranges, starts_with, string_of,
    strip_prefix,
};

verus! {

/// One commit referenced by the blame result. The SHA is the 8-char short form
/// the frontend displays.
#[derive(Debug, Clone, PartialEq, Eq)]
pub struct BlameCommit {
    pub sha: String,
    pub author: String,
    pub author_time: i64,
    pub summary: String,
}

pub struct BlameCommitView {
    pub sha: Seq<char>,
    pub author: Seq<char>,
    pub author_time: i64,
    pub summary: Seq<char>,
}

impl View for BlameCommit {
    type V = BlameCommitView;

    open spec fn view(&self) -> BlameCommitView {
        BlameCommitView {
            sha: self.sha@,
            author: self.author@,
            author_time: self.author_time,
            summary: self.summary@,
        }
    }
}

/// Result of blaming a file. `commits` is deduplicated; `line_commit[i]` is the
/// index into `commits` for the (1-based) line `i+1` of the blamed file.
#[derive(Debug, Clone, PartialEq, Eq)]
pub struct Blame {
    pub commits: Vec<BlameCommit>,
    pub line_commit: Vec<usize>,
}

/// The zero SHA git emits for working-copy lines that have no commit yet.
pub const UNCOMMITTED_SHA: &'static str = "0000000000000000000000000000000000000000";

/// Short SHA the frontend gets for "Not Committed Yet" lines.
pub const UNCOMMITTED_SHORT: &'static str = "00000000";

/// What has been read of a porcelain stream so far: the pending group header
/// and metadata, the full SHAs already seen (parallel to `commits`), and the
/// line → commit table.
pub struct PorcelainState {
    pub cur_sha: Option<Seq<char>>,
    pub cur_final: Option<usize>,
    pub author: Option<Seq<char>>,
    pub author_time: Option<i64>,
    pub summary: Option<Seq<char>>,
    pub shas: Seq<Seq<char>>,
    pub commits: Seq<BlameCommitView>,
    pub line_commit: Seq<usize>,
}

pub open spec fn initial_porcelain() -> PorcelainState {
    PorcelainState {
        cur_sha: None,
        cur_final: None,
        author: None,
        author_time: None,
        summary: None,
        shas: seq![],
        commits: seq![],
        line_commit: seq![],
    }
}

/// The short form shown for a full SHA: its first 8 characters, or the
/// uncommitted sentinel for the zero SHA.
pub open spec fn short_sha(sha: Seq<char>) -> Seq<char> {
    if sha == UNCOMMITTED_SHA@ {
        UNCOMMITTED_SHORT@
    } else if sha.len() <= 8 {
        sha
    } else {
        sha.subrange(0, 8)
    }
}

/// First position of `sha` in `shas[k..]`, or `shas.len()`.
pub open spec fn index_from(shas: Seq<Seq<char>>, sha: Seq<char>, k: int) -> int
    decreases shas.len() - k,
{
    if k < 0 || k >= shas.len() {
        shas.len() as int
    } else if shas[k] == sha {
        k
    } else {
        index_from(shas, sha, k + 1)
    }
}

/// `lc` grown with zeros to cover position `pos`, then `pos` set to `idx`.
pub open spec fn place_line(lc: Seq<usize>, pos: int, idx: usize) -> Seq<usize> {
    let grown = if lc.len() <= pos {
        lc + Seq::new((pos + 1 - lc.len()) as nat, |k: int| 0usize)
    } else {
        lc
    };
    grown.update(pos, idx)
}

/// True if `line` starts with a 40-char hex SHA followed by a space — the
/// first line of a blame group.
pub open spec fn header_line(line: Seq<char>) -> bool {
    &&& line.len() >= 41
    &&& line[40] == ' '
    &&& forall|k: int| 0 <= k < 40 ==> #[trigger] is_hex_digit(line[k])
}

/// The effect of one non-empty porcelain line; `Err` carries the parse error.
pub open spec fn porcelain_line(st: PorcelainState, line: Seq<char>) -> Result<
    PorcelainState,
    Seq<char>,
> {
    if line.len() > 0 && line[0] == '\t' {
        match (st.cur_sha, st.cur_final) {
            (None, _) => Err("blame: content line with no sha"@),
            (Some(_), None) => Err("blame: content line with no final-line"@),
            (Some(sha), Some(fl)) => {
                let k = index_from(st.shas, sha, 0);
                let fresh = k >= st.shas.len();
                let shas = if fresh {
                    st.shas.push(sha)
                } else {
                    st.shas
                };
                let commits = if fresh {
                    st.commits.push(
                        BlameCommitView {
                            sha: short_sha(sha),
                            author: st.author.unwrap_or(seq![]),
                            author_time: st.author_time.unwrap_or(0),
                            summary: st.summary.unwrap_or(seq![]),
                        },
                    )
                } else {
                    st.commits
                };
                if fl == 0 {
                    Err("blame: final-line is 0"@)
                } else {
                    Ok(
                        PorcelainState {
                            cur_sha: None,
                            cur_final: None,
                            author: None,
                            author_time: None,
                            summary: None,
                            shas,
                            commits,
                            line_commit: place_line(st.line_commit, fl - 1, k as usize),
                        },
                    )
                }
            },
        }
    } else if header_line(line) {
        let parts = splitn(line, 4, ' ');
        match parse_usize_spec(nth_or_empty(parts, 2)) {
            None => Err("blame: bad header: "@ + line),
            Some(fl) => Ok(
                PorcelainState {
                    cur_sha: Some(nth_or_empty(parts, 0)),
                    cur_final: Some(fl),
                    author: None,
                    author_time: None,
                    summary: None,
                    ..st
                },
            ),
        }
    } else {
        match strip_prefix(line, "author "@) {
            Some(rest) => Ok(PorcelainState { author: Some(rest), ..st }),
            None => match strip_prefix(line, "author-time "@) {
                Some(rest) => Ok(PorcelainState { author_time: parse_i64_spec(rest), ..st }),
                None => match strip_prefix(line, "summary "@) {
                    Some(rest) => Ok(PorcelainState { summary: Some(rest), ..st }),
                    None => Ok(st),
                },
            },
        }
    }
}

/// The lines `lines[i..]` read from `st`; empty lines are skipped.
pub open spec fn porcelain_fold(lines: Seq<Seq<char>>, i: int, st: PorcelainState) -> Result<
    PorcelainState,
    Seq<char>,
>
    decreases lines.len() - i,
{
    if i < 0 || i >= lines.len() {
        Ok(st)
    } else if lines[i].len() == 0 {
        porcelain_fold(lines, i + 1, st)
    } else {
        match porcelain_line(st, lines[i]) {
            Ok(next) => porcelain_fold(lines, i + 1, next),
            Err(e) => Err(e),
        }
    }
}

/// The blame that porcelain text describes, or the parse error message.
pub open spec fn parse_porcelain_text(text: Seq<char>) -> Result<PorcelainState, Seq<char>> {
    porcelain_fold(split(text, '\n'), 0, initial_porcelain())
}

/// The state is internally consistent: the seen SHAs and commits correspond
/// one to one, no SHA is recorded twice, and every line points at a commit.
pub open spec fn porcelain_wf(st: PorcelainState) -> bool {
    &&& st.shas.len() == st.commits.len()
    &&& forall|a: int, b: int| 0 <= a < b < st.shas.len() ==> st.shas[a] != st.shas[b]
    &&& forall|k: int| 0 <= k < st.line_commit.len() ==> st.line_commit[k] < st.commits.len()
    &&& forall|k: int| 0 <= k < st.commits.len() ==> st.commits[k].sha == short_sha(st.shas[k])
}

pub proof fn lemma_index_from(shas: Seq<Seq<char>>, sha: Seq<char>, k: int)
    requires
        0 <= k <= shas.len(),
    ensures
        k <= index_from(shas, sha, k) <= shas.len(),
        index_from(shas, sha, k) < shas.len() ==> shas[index_from(shas, sha, k)] == sha,
        forall|m: int| k <= m < index_from(shas, sha, k) ==> shas[m] != sha,
    decreases shas.len() - k,
{
    if k < shas.len() && shas[k] != sha {
        lemma_index_from(shas, sha, k + 1);
    }
}

/// Reading a line keeps the state consistent.
pub proof fn lemma_porcelain_line_wf(st: PorcelainState, line: Seq<char>)
    requires
        porcelain_wf(st),
    ensures
        porcelain_line(st, line) matches Ok(next) ==> porcelain_wf(next),
{
    if line.len() > 0 && line[0] == '\t' {
        if let (Some(sha), Some(fl)) = (st.cur_sha, st.cur_final) {
            lemma_index_from(st.shas, sha, 0);
            let k = index_from(st.shas, sha, 0);
            if fl != 0 {
                let next = porcelain_line(st, line)->Ok_0;
                assert(next.line_commit.len() >= fl);
                assert forall|m: int| 0 <= m < next.line_commit.len() implies next.line_commit[m]
                    < next.commits.len() by {
                    if m != fl - 1 {
                        if m < st.line_commit.len() {
                            assert(next.line_commit[m] == st.line_commit[m]);
                        } else {
                            assert(next.line_commit[m] == 0);
                        }
                    }
                }
            }
        }
    }
}

/// Reading any run of lines keeps the state consistent.
pub proof fn lemma_porcelain_fold_wf(lines: Seq<Seq<char>>, i: int, st: PorcelainState)
    requires
        porcelain_wf(st),
    ensures
        porcelain_fold(lines, i, st) matches Ok(fin) ==> porcelain_wf(fin),
    decreases lines.len() - i,
{
    if 0 <= i < lines.len() && lines[i].len() != 0 {
        lemma_porcelain_line_wf(st, lines[i]);
        if let Ok(next) = porcelain_line(st, lines[i]) {
            lemma_porcelain_fold_wf(lines, i + 1, next);
        }
    } else if 0 <= i < lines.len() {
        lemma_porcelain_fold_wf(lines, i + 1, st);
    }
}

/// True if `line` starts with a 40-char hex SHA followed by a space — i.e.,
/// the first line of a blame group.
pub fn is_header_line(line: &str) -> (b: bool)
    ensures
        b == header_line(line@),
{
    let cs = chars_of(line);
    assert(cs@.subrange(0, cs@.len() as int) =~= cs@);
    header_at(cs.as_slice(), 0, cs.len())
}

/// `header_line(cs[lo..hi])`.
fn header_at(cs: &[char], lo: usize, hi: usize) -> (b: bool)
    requires
        lo <= hi <= cs@.len(),
    ensures
        b == header_line(cs@.subrange(lo as int, hi as int)),
{
    let ghost s = cs@.subrange(lo as int, hi as int);
    if hi - lo < 41 || cs[lo + 40] != ' ' {
        return false;
    }
    let mut k: usize = 0;
    while k < 40
        invariant
            lo + 41 <= hi <= cs@.len(),
            s == cs@.subrange(lo as int, hi as int),
            k <= 40,
            forall|m: int| 0 <= m < k ==> is_hex_digit(s[m]),
        decreases 40 - k,
    {
        if !is_hex(cs[lo + k]) {
            assert(!is_hex_digit(s[k as int]));
            return false;
        }
        k += 1;
    }
    true
}

/// The executable counterpart of `PorcelainState`: pending fields as ranges
/// of the input characters.
struct Reader {
    cur_sha: Option<(usize, usize)>,
    cur_final: Option<usize>,
    author: Option<(usize, usize)>,
    author_time: Option<i64>,
    summary: Option<(usize, usize)>,
    shas: Vec<(usize, usize)>,
    commits: Vec<BlameCommit>,
    line_commit: Vec<usize>,
}

spec fn range_view(cs: Seq<char>, r: (usize, usize)) -> Seq<char> {
    cs.subrange(r.0 as int, r.1 as int)
}

spec fn opt_range_view(cs: Seq<char>, r: Option<(usize, usize)>) -> Option<Seq<char>> {
    match r {
        Some(p) => Some(range_view(cs, p)),
        None => None,
    }
}

spec fn range_ok(cs: Seq<char>, r: (usize, usize)) -> bool {
    r.0 <= r.1 <= cs.len()
}

spec fn opt_range_ok(cs: Seq<char>, r: Option<(usize, usize)>) -> bool {
    match r {
        Some(p) => range_ok(cs, p),
        None => true,
    }
}

impl Reader {
    spec fn ok(&self, cs: Seq<char>) -> bool {
        &&& opt_range_ok(cs, self.cur_sha)
        &&& opt_range_ok(cs, self.author)
        &&& opt_range_ok(cs, self.summary)
        &&& forall|k: int| 0 <= k < self.shas@.len() ==> range_ok(cs, #[trigger] self.shas@[k])
    }

    spec fn state(&self, cs: Seq<char>) -> PorcelainState {
        PorcelainState {
            cur_sha: opt_range_view(cs, self.cur_sha),
            cur_final: self.cur_final,
            author: opt_range_view(cs, self.author),
            author_time: self.author_time,
            summary: opt_range_view(cs, self.summary),
            shas: self.shas@.map_values(|r: (usize, usize)| range_view(cs, r)),
            commits: self.commits@.map_values(|c: BlameCommit| c@),
            line_commit: self.line_commit@,
        }
    }
}

/// The string of an optional range, or the empty string.
fn range_string_or_empty(cs: &[char], r: Option<(usize, usize)>) -> (s: String)
    requires
        opt_range_ok(cs@, r),
    ensures
        s@ == opt_range_view(cs@, r).unwrap_or(seq![]),
{
    match r {
        Some((a, b)) => string_of(cs, a, b),
        None => String::new(),
    }
}

/// Grows `lc` with zeros to cover `pos`, then records `k` there.
fn place(lc: &mut Vec<usize>, pos: usize, k: usize)
    requires
        pos < usize::MAX,
    ensures
        final(lc)@ == place_line(old(lc)@, pos as int, k),
{
    let ghost lc0 = lc@;
    while lc.len() <= pos
        invariant
            pos < usize::MAX,
            lc0.len() <= pos ==> lc@.len() <= pos + 1,
            lc0.len() <= pos ==> lc@ =~= lc0 + Seq::new(
                (lc@.len() - lc0.len()) as nat,
                |m: int| 0usize,
            ),
            lc0.len() > pos ==> lc@ == lc0,
        decreases pos + 1 - lc@.len(),
    {
        lc.push(0);
    }
    lc.set(pos, k);
    assert(lc@ =~= place_line(lc0, pos as int, k));
}

/// Position of `cs[a..b]` among the recorded SHAs, or `shas.len()`.
fn find_sha(cs: &[char], shas: &Vec<(usize, usize)>, a: usize, b: usize) -> (k: usize)
    requires
        a <= b <= cs@.len(),
        forall|m: int| 0 <= m < shas@.len() ==> range_ok(cs@, #[trigger] shas@[m]),
    ensures
        k == index_from(
            shas@.map_values(|r: (usize, usize)| range_view(cs@, r)),
            cs@.subrange(a as int, b as int),
            0,
        ),
{
    let ghost v = shas@.map_values(|r: (usize, usize)| range_view(cs@, r));
    let ghost sha = cs@.subrange(a as int, b as int);
    let target = string_of(cs, a, b);
    let tc = chars_of(target.as_str());
    let mut k: usize = 0;
    while k < shas.len()
        invariant
            k <= shas@.len(),
            v == shas@.map_values(|r: (usize, usize)| range_view(cs@, r)),
            forall|m: int| 0 <= m < shas@.len() ==> range_ok(cs@, #[trigger] shas@[m]),
            tc@ == sha,
            sha == cs@.subrange(a as int, b as int),
            index_from(v, sha, 0) == index_from(v, sha, k as int),
        decreases shas@.len() - k,
    {
        let (p, q) = shas[k];
        assert(range_ok(cs@, shas@[k as int]));
        if equals_at(cs, p, q, tc.as_slice()) {
            assert(v[k as int] == sha);
            assert(index_from(v, sha, k as int) == k);
            return k;
        }
        assert(v[k as int] != sha);
        k += 1;
    }
    k
}

/// `r` is what parsing `input` as `git blame --porcelain` output gives: the
/// blame of the decoded text, each line's commit index within the commits,
/// or the parse error (`blame output not utf-8` for bytes that are not UTF-8).
pub open spec fn porcelain_result(r: Result<Blame, GitError>, input: Seq<u8>) -> bool {
    &&& !valid_utf8(input) ==> (r matches Err(e) && e@ == GitErrorView::Parse(
        "blame output not utf-8"@,
    ))
    &&& valid_utf8(input) ==> match (r, parse_porcelain_text(decode_utf8(input))) {
        (Ok(b), Ok(st)) => b.commits@.map_values(|c: BlameCommit| c@) == st.commits
            && b.line_commit@ == st.line_commit,
        (Err(e), Err(msg)) => e@ == GitErrorView::Parse(msg),
        _ => false,
    }
    &&& r matches Ok(b) ==> forall|k: int|
        0 <= k < b.line_commit@.len() ==> #[trigger] b.line_commit@[k] < b.commits@.len()
    &&& valid_utf8(input) && r is Ok ==> (parse_porcelain_text(decode_utf8(input)) matches Ok(st)
        && porcelain_wf(st))
}

/// `s` with `x` appended unless it is already there.
pub open spec fn add_new(s: Seq<Seq<char>>, x: Seq<char>) -> Seq<Seq<char>> {
    if s.contains(x) {
        s
    } else {
        s.push(x)
    }
}

/// `s` with each entry of `t` appended in turn unless already there: the
/// distinct entries in order of first appearance.
pub open spec fn add_all_new(s: Seq<Seq<char>>, t: Seq<Seq<char>>) -> Seq<Seq<char>>
    decreases t.len(),
{
    if t.len() == 0 {
        s
    } else {
        add_all_new(add_new(s, t[0]), t.drop_first())
    }
}

/// The SHA of each content line read from `lines[i..]` (state `st`), in
/// order: the header SHA the line belongs to.
pub open spec fn content_trace(lines: Seq<Seq<char>>, i: int, st: PorcelainState) -> Seq<Seq<char>>
    decreases lines.len() - i,
{
    if i < 0 || i >= lines.len() {
        seq![]
    } else if lines[i].len() == 0 {
        content_trace(lines, i + 1, st)
    } else {
        match porcelain_line(st, lines[i]) {
            Ok(next) => (if lines[i][0] == '\t' && st.cur_sha is Some {
                seq![st.cur_sha->Some_0]
            } else {
                seq![]
            }) + content_trace(lines, i + 1, next),
            Err(_) => seq![],
        }
    }
}

proof fn lemma_fold_shas(lines: Seq<Seq<char>>, i: int, st: PorcelainState)
    ensures
        porcelain_fold(lines, i, st) matches Ok(fin) ==> fin.shas == add_all_new(
            st.shas,
            content_trace(lines, i, st),
        ),
    decreases lines.len() - i,
{
    if i < 0 || i >= lines.len() {
    } else if lines[i].len() == 0 {
        lemma_fold_shas(lines, i + 1, st);
    } else {
        match porcelain_line(st, lines[i]) {
            Ok(next) => {
                lemma_fold_shas(lines, i + 1, next);
                let rest = content_trace(lines, i + 1, next);
                if lines[i][0] == '\t' && st.cur_sha is Some {
                    let sha = st.cur_sha->Some_0;
                    lemma_index_from(st.shas, sha, 0);
                    if st.shas.contains(sha) {
                        let m = choose|m: int| 0 <= m < st.shas.len() && st.shas[m] == sha;
                        assert(st.shas[m] == sha);
                    }
                    assert(next.shas == add_new(st.shas, sha));
                    let t = seq![sha] + rest;
                    assert(t[0] == sha);
                    assert(t.drop_first() =~= rest);
                } else {
                    assert(next.shas == st.shas);
                    assert(seq![] + rest =~= rest);
                }
            },
            Err(_) => {},
        }
    }
}

/// The commits of a blame, in order: the distinct SHAs that have a content
/// line, each once, in order of its first content line.
pub proof fn lemma_blame_commit_order(text: Seq<char>)
    ensures
        parse_porcelain_text(text) matches Ok(st) ==> st.shas == add_all_new(
            seq![],
            content_trace(split(text, '\n'), 0, initial_porcelain()),
        ) && porcelain_wf(st),
{
    lemma_fold_shas(split(text, '\n'), 0, initial_porcelain());
    lemma_blame_commits_distinct(text);
}

/// One commit per distinct SHA: whatever porcelain text parses, its final
/// state lists each full SHA once, in order of the first content line under
/// it, with the commit for it at the same index, and every line points at
/// one of them.
pub proof fn lemma_blame_commits_distinct(text: Seq<char>)
    ensures
        parse_porcelain_text(text) matches Ok(st) ==> porcelain_wf(st),
{
    lemma_porcelain_fold_wf(split(text, '\n'), 0, initial_porcelain());
}

/// Parse `git blame --porcelain` output.
///
/// Porcelain format (per group): a `<40-sha> <orig-line> <final-line> [<n>]`
/// header, metadata lines (`author`, `author-time`, `summary`, ...) the first
/// time a SHA is seen, then a `\t<content>` line. A commit's metadata appears
/// only the first time its SHA is seen.
pub fn parse_porcelain(input: &[u8]) -> (r: Result<Blame, GitError>)
    ensures
        porcelain_result(r, input@),
{
    let text = match decode_str(input) {
        Some(t) => t,
        None => {
            return Err(GitError::Parse(owned("blame output not utf-8")));
        },
    };
    let cs = chars_of(text.as_str());
    let ghost lines = split(cs@, '\n');
    let rs = split_ranges(cs.as_slice(), 0, cs.len(), '\n');
    assert(cs@.subrange(0, cs@.len() as int) =~= cs@);
    let author_p = chars_of("author ");
    let time_p = chars_of("author-time ");
    let summary_p = chars_of("summary ");
    let zero = chars_of(UNCOMMITTED_SHA);
    let mut rd = Reader {
        cur_sha: None,
        cur_final: None,
        author: None,
        author_time: None,
        summary: None,
        shas: Vec::new(),
        commits: Vec::new(),
        line_commit: Vec::new(),
    };
    proof {
        assert(rd.state(cs@) =~= initial_porcelain()) by {
            assert(rd.shas@.map_values(|r: (usize, usize)| range_view(cs@, r)) =~= Seq::<
                Seq<char>,
            >::empty());
            assert(rd.commits@.map_values(|c: BlameCommit| c@) =~= Seq::<BlameCommitView>::empty());
        }
    }
    let mut i: usize = 0;
    while i < rs.len()
        invariant
            valid_utf8(input@),
            text@ == decode_utf8(input@),
            cs@ == text@,
            lines == split(cs@, '\n'),
            ranges_match(cs@, rs@, lines, 0, cs@.len() as int),
            i <= rs@.len(),
            rd.ok(cs@),
            author_p@ == "author "@,
            time_p@ == "author-time "@,
            summary_p@ == "summary "@,
            zero@ == UNCOMMITTED_SHA@,
            porcelain_fold(lines, 0, initial_porcelain()) == porcelain_fold(
                lines,
                i as int,
                rd.state(cs@),
            ),
        decreases rs@.len() - i,
    {
        let (a, b) = rs[i];
        let ghost line = lines[i as int];
        let ghost st0 = rd.state(cs@);
        assert(cs@.subrange(a as int, b as int) == line);
        if a == b {
            i += 1;
            continue;
        }
        assert(line[0] == cs@[a as int]);
        if cs[a] == '\t' {
            let (sa, sb) = match rd.cur_sha {
                Some(r) => r,
                None => {
                    return Err(GitError::Parse(owned("blame: content line with no sha")));
                },
            };
            let fl = match rd.cur_final {
                Some(f) => f,
                None => {
                    return Err(GitError::Parse(owned("blame: content line with no final-line")));
                },
            };
            let k = find_sha(cs.as_slice(), &rd.shas, sa, sb);
            let ghost sha = cs@.subrange(sa as int, sb as int);
            proof {
                lemma_index_from(st0.shas, sha, 0);
            }
            if k >= rd.shas.len() {
                let short = if equals_at(cs.as_slice(), sa, sb, zero.as_slice()) {
                    owned(UNCOMMITTED_SHORT)
                } else if sb - sa <= 8 {
                    string_of(cs.as_slice(), sa, sb)
                } else {
                    proof {
                        lemma_sub_sub(cs@, sa as int, sb as int, 0, 8);
                    }
                    string_of(cs.as_slice(), sa, sa + 8)
                };
                let commit = BlameCommit {
                    sha: short,
                    author: range_string_or_empty(cs.as_slice(), rd.author),
                    author_time: match rd.author_time {
                        Some(t) => t,
                        None => 0,
                    },
                    summary: range_string_or_empty(cs.as_slice(), rd.summary),
                };
                let ghost old_commits = rd.commits@;
                let ghost old_shas = rd.shas@;
                assert(range_ok(cs@, (sa, sb)));
                rd.commits.push(commit);
                rd.shas.push((sa, sb));
                proof {
                    assert(rd.commits@.map_values(|c: BlameCommit| c@) =~= old_commits.map_values(
                        |c: BlameCommit| c@,
                    ).push(commit@));
                    assert(rd.shas@.map_values(|r: (usize, usize)| range_view(cs@, r))
                        =~= old_shas.map_values(|r: (usize, usize)| range_view(cs@, r)).push(sha));
                    assert forall|m: int| 0 <= m < rd.shas@.len() implies range_ok(
                        cs@,
                        #[trigger] rd.shas@[m],
                    ) by {
                        if m < old_shas.len() {
                            assert(rd.shas@[m] == old_shas[m]);
                        }
                    }
                }
            }
            if fl == 0 {
                return Err(GitError::Parse(owned("blame: final-line is 0")));
            }
            place(&mut rd.line_commit, fl - 1, k);
            rd.cur_sha = None;
            rd.cur_final = None;
            rd.author = None;
            rd.author_time = None;
            rd.summary = None;
            i += 1;
            proof {
                assert(rd.state(cs@) == porcelain_line(st0, line)->Ok_0);
            }
        } else if header_at(cs.as_slice(), a, b) {
            let ps = splitn_ranges(cs.as_slice(), a, b, 4, ' ');
            let ghost parts = splitn(line, 4, ' ');
            let fl = if ps.len() > 2 {
                let (p, q) = ps[2];
                parse_usize(cs.as_slice(), p, q)
            } else {
                proof {
                    reveal_strlit("");
                }
                None
            };
            proof {
                if ps.len() <= 2 {
                    assert(nth_or_empty(parts, 2) =~= Seq::<char>::empty());
                    assert(parse_usize_spec(Seq::<char>::empty()) is None);
                }
            }
            match fl {
                None => {
                    let mut msg = owned("blame: bad header: ");
                    push_chars(&mut msg, cs.as_slice(), a, b);
                    return Err(GitError::Parse(msg));
                },
                Some(f) => {
                    let (p, q) = ps[0];
                    rd.cur_sha = Some((p, q));
                    rd.cur_final = Some(f);
                    rd.author = None;
                    rd.author_time = None;
                    rd.summary = None;
                },
            }
            i += 1;
        } else {
            if has_prefix_at(cs.as_slice(), a, b, author_p.as_slice()) {
                proof {
                    lemma_sub_sub(cs@, a as int, b as int, author_p@.len() as int, b - a);
                }
                rd.author = Some((a + author_p.len(), b));
            } else if has_prefix_at(cs.as_slice(), a, b, time_p.as_slice()) {
                proof {
                    lemma_sub_sub(cs@, a as int, b as int, time_p@.len() as int, b - a);
                }
                rd.author_time = parse_i64(cs.as_slice(), a + time_p.len(), b);
            } else if has_prefix_at(cs.as_slice(), a, b, summary_p.as_slice()) {
                proof {
                    lemma_sub_sub(cs@, a as int, b as int, summary_p@.len() as int, b - a);
                }
                rd.summary = Some((a + summary_p.len(), b));
            }
            i += 1;
        }
    }
    proof {
        lemma_porcelain_fold_wf(lines, 0, initial_porcelain());
    }
    let ghost fin = rd.state(cs@);
    assert(porcelain_fold(lines, rs@.len() as int, fin) == Ok::<PorcelainState, Seq<char>>(fin));
    Ok(Blame { commits: rd.commits, line_commit: rd.line_commit })
}

/// The error text of a failed blame run: its trimmed stderr, or the exit
/// status when stderr said nothing or was not UTF-8 (stderr is read as a
/// string, which leaves nothing when the bytes are not UTF-8).
pub open spec fn blame_failure_text(stderr: Seq<u8>, exit_text: Seq<char>) -> Seq<char> {
    let t = if valid_utf8(stderr) {
        trim(decode_utf8(stderr))
    } else {
        seq![]
    };
    if t.len() == 0 {
        "git blame failed: exit "@ + exit_text
    } else {
        t
    }
}

/// What a finished `git blame` run yields. A run superseded by a newer
/// blame is cancelled; then a failed read of its output is the I/O error; a
/// failed exit (`exit` holds whether it succeeded and how the status reads)
/// is the trimmed stderr, or the status when stderr is blank or not UTF-8; otherwise the
/// output is parsed.
pub fn blame_outcome(
    still_current: bool,
    read: Result<(), std::io::Error>,
    exit: Option<(bool, String)>,
    stderr: &[u8],
    output: &[u8],
) -> (r: Result<Blame, GitError>)
    ensures
        !still_current ==> (r matches Err(e) && e@ == GitErrorView::CommandFailed("blame cancelled"@)),
        still_current && read is Err ==> (r matches Err(e) && e@ is Io),
        still_current && read is Ok ==> (exit matches Some((false, t)) ==> (r matches Err(e) && e@
            == GitErrorView::CommandFailed(blame_failure_text(stderr@, t@)))),
        still_current && read is Ok && !(exit matches Some((false, _))) ==> porcelain_result(r, output@),
{
    if !still_current {
        return Err(GitError::CommandFailed(owned("blame cancelled")));
    }
    if let Err(e) = read {
        return Err(GitError::Io(e));
    }
    if let Some((false, t)) = exit {
        let text = match decode_str(stderr) {
            Some(t) => t,
            None => String::new(),
        };
        let cs = chars_of(text.as_str());
        assert(cs@.subrange(0, cs@.len() as int) =~= cs@);
        let (x, y) = trim_bounds(cs.as_slice(), 0, cs.len());
        if x == y {
            let mut m = owned("git blame failed: exit ");
            push_str(&mut m, t.as_str());
            return Err(GitError::CommandFailed(m));
        }
        return Err(GitError::CommandFailed(string_of(cs.as_slice(), x, y)));
    }
    parse_porcelain(output)
}

} // verus!
