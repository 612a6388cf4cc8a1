//! Parsers for the machine-readable output of the git commands the client
//! runs, and the validation / argument building done before running them.

use std::hash::Hasher;

use vstd::prelude::*;

use crate::git::error::{GitError, GitErrorView};
use crate::git::{
    Branch, BranchKind, BranchView, opt_view, strs_of, strs_view, ChangedFile, ChangedFileView, Commit, CommitView, FileStatus, Hunk, HunkView, RepoStatus, RepoStatusView, Stash, StashView, StatusEntry,
    StatusEntryView,
};
use crate::text::{
    ascii, chars_of, ends_with, equals_at, has_prefix_at, has_suffix_at, is_ascii, lemma_sub_sub,
    concat, find_char, find_from, lemma_concat_piece_len, lemma_concat_split_inclusive, lemma_lines_len, lines_from,
    lines, lines_ranges, lower, nth_or_empty, push_chars, push_char, split_inclusive,
    split_inclusive_ranges, owned, parse_i64, parse_i64_spec, parse_u32, parse_u32_spec,
    push_str, ranges_match, split, split_ranges, split_whitespace, split_ws_ranges, splitn,
    splitn_ranges, starts_with, string_of, strip_prefix, trim, trim_bounds,
};
use crate::git::uasset::{lowered, UASSET_MAX_BYTES};
use crate::git::diff::{compute_changes, diff_of, lemma_normalize_idempotent, lemma_normalized_has_no_cr, lemma_normalized_utf16, no_cr, normalize_eol, normalized, rebuilds};
use crate::git::{binary_with_note, Containment, FileDiff};
use crate::text::{self, lossy_utf8, utf8_lossy};
use crate::text::{bfind_from, bsplit, bsplit_ranges, bytes_are, bytes_eq_text, decode_str, find_byte, lemma_bfind_from};
use vstd::utf8::{decode_utf8, valid_utf8};
use vstd::slice::slice_subrange;

verus! {

// ---------------------------------------------------------------------------
// Argument validation
// ---------------------------------------------------------------------------

/// A ref name that could be mistaken for an option, or is empty.
pub open spec fn bad_arg(s: Seq<char>) -> bool {
    s.len() == 0 || s[0] == '-'
}

/// Reject empty ref names and ones that start with `-` (which git would read
/// as an option).
pub fn validate_ref(s: &str) -> (r: Result<&str, GitError>)
    ensures
        match r {
            Ok(t) => !bad_arg(s@) && t@ == s@,
            Err(e) => bad_arg(s@) && e@ == GitErrorView::InvalidRef(s@),
        },
{
    let cs = chars_of(s);
    if cs.len() == 0 || cs[0] == '-' {
        return Err(GitError::InvalidRef(owned(s)));
    }
    Ok(s)
}

/// Reject obviously-malformed path arguments (empty, or starting with `-`).
/// Real path validity is enforced by git.
pub fn validate_path(s: &str) -> (r: Result<(), GitError>)
    ensures
        match r {
            Ok(()) => !bad_arg(s@),
            Err(e) => bad_arg(s@) && e@ == GitErrorView::InvalidRef("invalid path: "@ + s@),
        },
{
    let cs = chars_of(s);
    if cs.len() == 0 || cs[0] == '-' {
        let mut m = owned("invalid path: ");
        push_str(&mut m, s);
        return Err(GitError::InvalidRef(m));
    }
    Ok(())
}

// ---------------------------------------------------------------------------
// Line-oriented outputs
// ---------------------------------------------------------------------------

/// The trimmed, non-empty lines among `ls`, in order.
pub open spec fn trimmed_nonempty(ls: Seq<Seq<char>>) -> Seq<Seq<char>>
    decreases ls.len(),
{
    if ls.len() == 0 {
        seq![]
    } else {
        let rest = trimmed_nonempty(ls.drop_last());
        if trim(ls.last()).len() > 0 {
            rest.push(trim(ls.last()))
        } else {
            rest
        }
    }
}

/// Parse `git rev-list`/`for-each-ref` newline output into trimmed, non-empty
/// lines.
pub fn nonempty_lines(text: &str) -> (r: Vec<String>)
    ensures
        strs_view(r@) == trimmed_nonempty(lines(text@)),
{
    let cs = chars_of(text);
    let rs = lines_ranges(cs.as_slice(), 0, cs.len());
    let ghost ls = lines(text@);
    assert(cs@.subrange(0, cs@.len() as int) =~= cs@);
    let mut out: Vec<String> = Vec::new();
    let mut i: usize = 0;
    while i < rs.len()
        invariant
            cs@ == text@,
            ls == lines(text@),
            ranges_match(cs@, rs@, ls, 0, cs@.len() as int),
            i <= rs@.len(),
            strs_view(out@) == trimmed_nonempty(ls.subrange(0, i as int)),
        decreases rs@.len() - i,
    {
        let (a, b) = rs[i];
        let (x, y) = trim_bounds(cs.as_slice(), a, b);
        proof {
            assert(ls.subrange(0, i + 1).drop_last() =~= ls.subrange(0, i as int));
            assert(ls.subrange(0, i + 1).last() == ls[i as int]);
        }
        if x < y {
            let t = string_of(cs.as_slice(), x, y);
            let ghost prev = out@;
            out.push(t);
            proof {
                assert(strs_view(out@) =~= strs_view(prev).push(t@));
            }
        }
        i += 1;
    }
    proof {
        assert(ls.subrange(0, rs@.len() as int) =~= ls);
    }
    out
}

/// The SHAs of the `- <sha>` lines among `ls` (trimmed, non-empty).
pub open spec fn cherry_fold(ls: Seq<Seq<char>>) -> Seq<Seq<char>>
    decreases ls.len(),
{
    if ls.len() == 0 {
        seq![]
    } else {
        let rest = cherry_fold(ls.drop_last());
        match strip_prefix(ls.last(), "- "@) {
            Some(x) => if trim(x).len() > 0 {
                rest.push(trim(x))
            } else {
                rest
            },
            None => rest,
        }
    }
}

/// Parse `git cherry <upstream> <head>` output into the SHAs whose patch is
/// already present upstream — lines starting with `- ` (a `+ ` line means no
/// equivalent upstream).
pub fn parse_cherry_equivalent(text: &str) -> (r: Vec<String>)
    ensures
        strs_view(r@) == cherry_fold(lines(text@)),
{
    let cs = chars_of(text);
    let rs = lines_ranges(cs.as_slice(), 0, cs.len());
    let ghost ls = lines(text@);
    let dash = chars_of("- ");
    assert(cs@.subrange(0, cs@.len() as int) =~= cs@);
    let mut out: Vec<String> = Vec::new();
    let mut i: usize = 0;
    while i < rs.len()
        invariant
            cs@ == text@,
            dash@ == "- "@,
            ls == lines(text@),
            ranges_match(cs@, rs@, ls, 0, cs@.len() as int),
            i <= rs@.len(),
            strs_view(out@) == cherry_fold(ls.subrange(0, i as int)),
        decreases rs@.len() - i,
    {
        let (a, b) = rs[i];
        proof {
            assert(ls.subrange(0, i + 1).drop_last() =~= ls.subrange(0, i as int));
            assert(ls.subrange(0, i + 1).last() == ls[i as int]);
        }
        if has_prefix_at(cs.as_slice(), a, b, dash.as_slice()) {
            let start = a + dash.len();
            proof {
                lemma_sub_sub(cs@, a as int, b as int, dash@.len() as int, b - a);
            }
            let (x, y) = trim_bounds(cs.as_slice(), start, b);
            if x < y {
                let t = string_of(cs.as_slice(), x, y);
                let ghost prev = out@;
                out.push(t);
                proof {
                    assert(strs_view(out@) =~= strs_view(prev).push(t@));
                }
            }
        }
        i += 1;
    }
    proof {
        assert(ls.subrange(0, rs@.len() as int) =~= ls);
    }
    out
}

/// The number a whitespace-separated word reads as, or 0.
pub open spec fn word_i64(ws: Seq<Seq<char>>, k: int) -> i64 {
    if 0 <= k < ws.len() {
        match parse_i64_spec(ws[k]) {
            Some(v) => v,
            None => 0,
        }
    } else {
        0
    }
}

/// Parse `git rev-list --left-right --count A...B` ("<left>\t<right>") into
/// `(left, right)`; a missing or malformed count reads as 0.
pub fn parse_ahead_behind(text: &str) -> (r: (i64, i64))
    ensures
        r == (word_i64(split_whitespace(text@), 0), word_i64(split_whitespace(text@), 1)),
{
    let cs = chars_of(text);
    let rs = split_ws_ranges(cs.as_slice(), 0, cs.len());
    let ghost ws = split_whitespace(text@);
    assert(cs@.subrange(0, cs@.len() as int) =~= cs@);
    let left = if rs.len() > 0 {
        let (a, b) = rs[0];
        match parse_i64(cs.as_slice(), a, b) {
            Some(v) => v,
            None => 0,
        }
    } else {
        0
    };
    let right = if rs.len() > 1 {
        let (a, b) = rs[1];
        match parse_i64(cs.as_slice(), a, b) {
            Some(v) => v,
            None => 0,
        }
    } else {
        0
    };
    (left, right)
}

/// The stash a `git stash list --format=%gd%x1f%s` line describes: the
/// `stash@{N}` selector and the subject separated by `\x1f`.
pub open spec fn stash_line(line: Seq<char>) -> Option<StashView> {
    let parts = splitn(line, 2, '\x1f');
    let gd = parts[0];
    let message = if parts.len() > 1 {
        parts[1]
    } else {
        Seq::empty()
    };
    match strip_prefix(gd, "stash@{"@) {
        Some(rest) => if rest.len() > 0 && rest.last() == '}' {
            match parse_u32_spec(rest.drop_last()) {
                Some(index) => Some(StashView { index, message }),
                None => None,
            }
        } else {
            None
        },
        None => None,
    }
}

/// The stashes of the lines `ls`, malformed lines skipped.
pub open spec fn stash_fold(ls: Seq<Seq<char>>) -> Seq<StashView>
    decreases ls.len(),
{
    if ls.len() == 0 {
        seq![]
    } else {
        let rest = stash_fold(ls.drop_last());
        match stash_line(ls.last()) {
            Some(st) => rest.push(st),
            None => rest,
        }
    }
}

pub open spec fn stashes_view(v: Seq<Stash>) -> Seq<StashView> {
    v.map_values(|s: Stash| s@)
}

/// Parse `git stash list --format=%gd%x1f%s` output: one stash per line, the
/// `stash@{N}` selector and the subject separated by `\x1f`.
pub fn parse_stash_list(text: &str) -> (r: Vec<Stash>)
    ensures
        stashes_view(r@) == stash_fold(lines(text@)),
{
    let cs = chars_of(text);
    let rs = lines_ranges(cs.as_slice(), 0, cs.len());
    let ghost ls = lines(text@);
    let open = chars_of("stash@{");
    assert(cs@.subrange(0, cs@.len() as int) =~= cs@);
    let mut out: Vec<Stash> = Vec::new();
    let mut i: usize = 0;
    while i < rs.len()
        invariant
            cs@ == text@,
            open@ == "stash@{"@,
            ls == lines(text@),
            ranges_match(cs@, rs@, ls, 0, cs@.len() as int),
            i <= rs@.len(),
            stashes_view(out@) == stash_fold(ls.subrange(0, i as int)),
        decreases rs@.len() - i,
    {
        let (a, b) = rs[i];
        let ghost line = ls[i as int];
        proof {
            assert(ls.subrange(0, i + 1).drop_last() =~= ls.subrange(0, i as int));
            assert(ls.subrange(0, i + 1).last() == line);
        }
        let ps = splitn_ranges(cs.as_slice(), a, b, 2, '\x1f');
        let (ga, gb) = ps[0];
        let message = if ps.len() > 1 {
            let (ma, mb) = ps[1];
            string_of(cs.as_slice(), ma, mb)
        } else {
            String::new()
        };
        let ghost parts = splitn(line, 2, '\x1f');
        assert(cs@.subrange(ga as int, gb as int) == parts[0]);
        assert(message@ == (if parts.len() > 1 { parts[1] } else { Seq::<char>::empty() }));
        if has_prefix_at(cs.as_slice(), ga, gb, open.as_slice()) && gb - ga > open.len()
            && cs[gb - 1] == '}' {
            proof {
                let gd = parts[0];
                let rest = gd.subrange(open@.len() as int, gd.len() as int);
                assert(rest.drop_last() =~= cs@.subrange(ga + open@.len(), gb - 1));
                assert(rest.last() == cs@[gb - 1]);
            }
            match parse_u32(cs.as_slice(), ga + open.len(), gb - 1) {
                Some(index) => {
                    let ghost prev = out@;
                    out.push(Stash { index, message });
                    proof {
                        assert(stashes_view(out@) =~= stashes_view(prev).push(out@.last()@));
                    }
                },
                None => {},
            }
        } else {
            proof {
                let gd = parts[0];
                if starts_with(gd, "stash@{"@) {
                    let rest = gd.subrange(open@.len() as int, gd.len() as int);
                    if rest.len() > 0 {
                        assert(rest.last() == cs@[gb - 1]);
                    }
                }
            }
        }
        i += 1;
    }
    proof {
        assert(ls.subrange(0, rs@.len() as int) =~= ls);
    }
    out
}

// ---------------------------------------------------------------------------
// `git cat-file --batch` sessions
// ---------------------------------------------------------------------------

/// A `git cat-file --batch[-check]` response header.
#[derive(Debug, Clone, Copy, PartialEq, Eq, Structural)]
pub enum BatchHeader {
    Found { size: u64 },
    Missing,
}

/// `s` without trailing `'\r'` / `'\n'` characters.
pub open spec fn trim_newlines(s: Seq<char>) -> Seq<char>
    decreases s.len(),
{
    if s.len() > 0 && (s.last() == '\r' || s.last() == '\n') {
        trim_newlines(s.drop_last())
    } else {
        s
    }
}

/// What a batch header line says: `<spec> missing`, or `<oid> <type> <size>`.
pub open spec fn batch_header_spec(line: Seq<char>) -> Result<BatchHeader, GitErrorView> {
    let t = trim_newlines(line);
    if ends_with(t, " missing"@) {
        Ok(BatchHeader::Missing)
    } else {
        match crate::text::parse_u64_spec(nth_or_empty(splitn(t, 3, ' '), 2)) {
            Some(size) => Ok(BatchHeader::Found { size }),
            None => Err(GitErrorView::Parse("bad batch header: "@ + t)),
        }
    }
}

/// Parse one `git cat-file --batch[-check]` header line.
pub fn parse_batch_header(line: &str) -> (r: Result<BatchHeader, GitError>)
    ensures
        match (r, batch_header_spec(line@)) {
            (Ok(h), Ok(k)) => h == k,
            (Err(e), Err(x)) => e@ == x,
            _ => false,
        },
{
    let cs = chars_of(line);
    let mut end = cs.len();
    assert(cs@.subrange(0, end as int) =~= cs@);
    while end > 0 && (cs[end - 1] == '\r' || cs[end - 1] == '\n')
        invariant
            end <= cs@.len(),
            cs@ == line@,
            trim_newlines(line@) == trim_newlines(cs@.subrange(0, end as int)),
        decreases end,
    {
        assert(cs@.subrange(0, end as int).drop_last() =~= cs@.subrange(0, end - 1));
        end -= 1;
    }
    let ghost t = cs@.subrange(0, end as int);
    assert(trim_newlines(t) == t);
    let missing = chars_of(" missing");
    if has_suffix_at(cs.as_slice(), 0, end, missing.as_slice()) {
        return Ok(BatchHeader::Missing);
    }
    let parts = splitn_ranges(cs.as_slice(), 0, end, 3, ' ');
    let size = if parts.len() > 2 {
        let (a, b) = parts[2];
        crate::text::parse_u64(cs.as_slice(), a, b)
    } else {
        proof {
            assert(crate::text::parse_u64_spec(Seq::<char>::empty()) is None);
        }
        None
    };
    match size {
        Some(size) => Ok(BatchHeader::Found { size }),
        None => {
            let mut m = owned("bad batch header: ");
            crate::text::push_chars(&mut m, cs.as_slice(), 0, end);
            Err(GitError::Parse(m))
        },
    }
}

/// The merge base a `git merge-base a b` run gave: its trimmed output, or the
/// error when the command failed or printed nothing.
pub open spec fn merge_base_spec(success: bool, stdout: Seq<u8>, a: Seq<char>, b: Seq<char>) -> Result<Seq<char>, GitErrorView> {
    let t = trim(lossy_utf8(stdout));
    if !success || t.len() == 0 {
        Err(GitErrorView::CommandFailed("no merge-base between "@ + a + " and "@ + b))
    } else {
        Ok(t)
    }
}

/// The merge base of `a` and `b` from the outcome of `git merge-base a b`.
pub fn merge_base_result(success: bool, stdout: &[u8], a: &str, b: &str) -> (r: Result<String, GitError>)
    ensures
        match (r, merge_base_spec(success, stdout@, a@, b@)) {
            (Ok(s), Ok(t)) => s@ == t,
            (Err(e), Err(x)) => e@ == x,
            _ => false,
        },
        valid_utf8(stdout@) ==> (r matches Ok(s) ==> s@ == trim(decode_utf8(stdout@))),
{
    let text = utf8_lossy(stdout);
    let cs = chars_of(text.as_str());
    assert(cs@.subrange(0, cs@.len() as int) =~= cs@);
    let (x, y) = trim_bounds(cs.as_slice(), 0, cs.len());
    if !success || x == y {
        let mut m = owned("no merge-base between ");
        push_str(&mut m, a);
        push_str(&mut m, " and ");
        push_str(&mut m, b);
        return Err(GitError::CommandFailed(m));
    }
    Ok(string_of(cs.as_slice(), x, y))
}

/// The error of a failed git command: its trimmed stderr.
pub fn command_failure(stderr: &[u8]) -> (e: GitError)
    ensures
        e@ == GitErrorView::CommandFailed(trim(lossy_utf8(stderr@))),
        valid_utf8(stderr@) ==> e@ == GitErrorView::CommandFailed(trim(decode_utf8(stderr@))),
{
    let text = utf8_lossy(stderr);
    let cs = chars_of(text.as_str());
    assert(cs@.subrange(0, cs@.len() as int) =~= cs@);
    let (x, y) = trim_bounds(cs.as_slice(), 0, cs.len());
    GitError::CommandFailed(string_of(cs.as_slice(), x, y))
}

// ---------------------------------------------------------------------------
// Per-file diff views
// ---------------------------------------------------------------------------

/// Soft cap on a single side of a diff; above it the caller must opt in.
pub const LARGE_FILE_BYTES: u64 = 1_000_000;

/// `d` is the plain text view of `old` / `new`: both normalized, with their
/// diff, the given sizes and no derived label.
pub open spec fn plain_text(d: FileDiff, old: Seq<char>, new: Seq<char>, old_size: u64, new_size: u64) -> bool {
    &&& d is Text
    &&& d->Text_old_content@ == normalized(old)
    &&& d->Text_new_content@ == normalized(new)
    &&& d->Text_old_size == old_size
    &&& d->Text_new_size == new_size
    &&& d->Text_changes@ == diff_of(old, new)
    &&& normalized(old) == normalized(new) ==> d->Text_changes@.len() == 0
    &&& rebuilds(normalized(old), normalized(new), d->Text_changes@)
    &&& d->Text_derived_label is None
    &&& d->Text_ue_version is None
}

/// `d` is the too-large placeholder of the given sizes.
pub open spec fn too_large(d: FileDiff, old_size: u64, new_size: u64) -> bool {
    d matches FileDiff::TooLarge { old_size: a, new_size: b } && a == old_size && b == new_size
}

/// `d` is the binary view of the given sizes, without a note.
pub open spec fn binary_plain(d: FileDiff, old_size: u64, new_size: u64) -> bool {
    d matches FileDiff::Binary { old_size: a, new_size: b, note: None } && a == old_size && b
        == new_size
}

/// A text view is self-consistent: its sides hold no carriage return, its
/// changes are exactly `compute_changes` of the two texts it carries, so every
/// offset is a UTF-16 offset into those texts, and applying the changes to
/// the old text gives the new one. Any other view is trivially so.
pub open spec fn text_consistent(d: FileDiff) -> bool {
    d matches FileDiff::Text { old_content, new_content, changes, .. } ==> no_cr(old_content@)
        && no_cr(new_content@) && changes@ == diff_of(old_content@, new_content@) && rebuilds(
        old_content@,
        new_content@,
        changes@,
    )
}

/// The changes of two texts are those of their normalized forms.
pub proof fn lemma_diff_of_normalized(old: Seq<char>, new: Seq<char>)
    ensures
        diff_of(normalized(old), normalized(new)) == diff_of(old, new),
        no_cr(normalized(old)),
        no_cr(normalized(new)),
{
    lemma_normalize_idempotent(old);
    lemma_normalize_idempotent(new);
    lemma_normalized_has_no_cr(old);
    lemma_normalized_has_no_cr(new);
}

/// A plain text view is self-consistent.
pub proof fn lemma_plain_text_consistent(d: FileDiff, old: Seq<char>, new: Seq<char>, old_size: u64, new_size: u64)
    requires
        plain_text(d, old, new, old_size, new_size),
    ensures
        text_consistent(d),
{
    lemma_diff_of_normalized(old, new);
}

/// A content view (binary or text) is self-consistent.
pub proof fn lemma_content_view_consistent(d: FileDiff, old: Seq<u8>, new: Seq<u8>, old_size: u64, new_size: u64)
    requires
        content_view(d, old, new, old_size, new_size),
    ensures
        text_consistent(d),
{
    if !(looks_binary(old) || looks_binary(new)) {
        lemma_plain_text_consistent(d, lossy_utf8(old), lossy_utf8(new), old_size, new_size);
    }
}

/// The text view of two texts: normalized, diffed, no derived label.
pub fn text_view(old: &str, new: &str, old_size: u64, new_size: u64) -> (d: FileDiff)
    requires
        text::utf16_len(normalized(old@)) <= u32::MAX,
        text::utf16_len(normalized(new@)) <= u32::MAX,
    ensures
        plain_text(d, old@, new@, old_size, new_size),
{
    let old_content = normalize_eol(old);
    let new_content = normalize_eol(new);
    proof {
        lemma_normalize_idempotent(old@);
        lemma_normalize_idempotent(new@);
    }
    let changes = compute_changes(old_content.as_str(), new_content.as_str());
    FileDiff::Text {
        old_content,
        new_content,
        old_size,
        new_size,
        derived_label: None,
        ue_version: None,
        changes,
    }
}

/// The text standing for a submodule pointer: `Subproject commit <sha>\n`, or
/// nothing when the side has no gitlink.
pub open spec fn gitlink_text_spec(sha: Option<Seq<char>>) -> Seq<char> {
    match sha {
        Some(s) => "Subproject commit "@ + s + "\n"@,
        None => Seq::empty(),
    }
}

/// The text standing for a submodule pointer, as `git show` prints it.
pub fn gitlink_text(sha: &Option<String>) -> (t: String)
    ensures
        t@ == gitlink_text_spec(opt_view(*sha)),
{
    match sha {
        Some(s) => {
            let mut t = owned("Subproject commit ");
            push_str(&mut t, s.as_str());
            push_str(&mut t, "\n");
            t
        },
        None => String::new(),
    }
}

/// The diff of a submodule pointer move, shown like `git show`: the
/// `Subproject commit <old>` → `<new>` texts, both sizes 0.
pub fn gitlink_diff(old_sha: &Option<String>, new_sha: &Option<String>) -> (d: FileDiff)
    requires
        text::utf16_len(normalized(gitlink_text_spec(opt_view(*old_sha)))) <= u32::MAX,
        text::utf16_len(normalized(gitlink_text_spec(opt_view(*new_sha)))) <= u32::MAX,
    ensures
        plain_text(
            d,
            gitlink_text_spec(opt_view(*old_sha)),
            gitlink_text_spec(opt_view(*new_sha)),
            0,
            0,
        ),
{
    let old_text = gitlink_text(old_sha);
    let new_text = gitlink_text(new_sha);
    text_view(old_text.as_str(), new_text.as_str(), 0, 0)
}

/// The larger of two sizes.
pub open spec fn max_u64(a: u64, b: u64) -> u64 {
    if a >= b {
        a
    } else {
        b
    }
}

/// A missing side counts as size 0.
pub open spec fn size_or_zero(s: Option<u64>) -> u64 {
    match s {
        Some(n) => n,
        None => 0,
    }
}

/// The note for an Unreal asset header over `UASSET_MAX_BYTES` (branch diff).
pub const ASSET_HEADER_TOO_LARGE: &'static str = "Unreal asset header too large to preview.";

/// The note for an Unreal asset over `UASSET_MAX_BYTES` (working-copy diff).
pub const ASSET_TOO_LARGE: &'static str = "Unreal asset too large to preview.";

/// The note for an image over `IMAGE_MAX_BYTES`.
pub const IMAGE_TOO_LARGE: &'static str = "Image too large to preview.";

/// The size gate of a branch diff, before any content is read: a too-large
/// placeholder for an ordinary file over `LARGE_FILE_BYTES`, a note for an
/// Unreal asset over `UASSET_MAX_BYTES` (asset and image previews keep their
/// own caps), unless `force`.
pub open spec fn branch_gate_spec(
    old_size: Option<u64>,
    new_size: Option<u64>,
    force: bool,
    derive_uasset: bool,
    is_image: bool,
) -> Option<(bool, u64, u64)> {
    let a = size_or_zero(old_size);
    let b = size_or_zero(new_size);
    let m = max_u64(a, b);
    if !force && !derive_uasset && !is_image && m > LARGE_FILE_BYTES {
        Some((true, a, b))
    } else if derive_uasset && !force && m > UASSET_MAX_BYTES {
        Some((false, a, b))
    } else {
        None
    }
}

/// The size gate of a branch diff (see `branch_gate_spec`; `true` marks the
/// too-large placeholder, `false` the asset-header note).
pub fn branch_size_gate(
    old_size: Option<u64>,
    new_size: Option<u64>,
    force: bool,
    derive_uasset: bool,
    is_image: bool,
) -> (d: Option<FileDiff>)
    ensures
        match branch_gate_spec(old_size, new_size, force, derive_uasset, is_image) {
            None => d is None,
            Some((true, a, b)) => d matches Some(x) && too_large(x, a, b),
            Some((false, a, b)) => d matches Some(x) && binary_with_note(x, a, b, ASSET_HEADER_TOO_LARGE@),
        },
{
    let a = match old_size {
        Some(n) => n,
        None => 0,
    };
    let b = match new_size {
        Some(n) => n,
        None => 0,
    };
    let m = if a >= b { a } else { b };
    if !force && !derive_uasset && !is_image && m > LARGE_FILE_BYTES {
        return Some(FileDiff::TooLarge { old_size: a, new_size: b });
    }
    if derive_uasset && !force && m > UASSET_MAX_BYTES {
        return Some(FileDiff::Binary { old_size: a, new_size: b, note: Some(owned(ASSET_HEADER_TOO_LARGE)) });
    }
    None
}

/// The working-copy asset gate: a note when either side is over
/// `UASSET_MAX_BYTES`, unless `force`.
pub fn asset_size_gate(old_size: u64, new_size: u64, force: bool) -> (d: Option<FileDiff>)
    ensures
        (!force && max_u64(old_size, new_size) > UASSET_MAX_BYTES) ==> (d matches Some(x)
            && binary_with_note(x, old_size, new_size, ASSET_TOO_LARGE@)),
        !(!force && max_u64(old_size, new_size) > UASSET_MAX_BYTES) ==> d is None,
{
    let m = if old_size >= new_size { old_size } else { new_size };
    if !force && m > UASSET_MAX_BYTES {
        Some(FileDiff::Binary { old_size, new_size, note: Some(owned(ASSET_TOO_LARGE)) })
    } else {
        None
    }
}

/// Whether either side is over `LARGE_FILE_BYTES` without `force`.
pub fn over_large_cap(force: bool, old_size: u64, new_size: u64) -> (b: bool)
    ensures
        b == (!force && max_u64(old_size, new_size) > LARGE_FILE_BYTES),
{
    let m = if old_size >= new_size { old_size } else { new_size };
    !force && m > LARGE_FILE_BYTES
}

/// `d` is the image preview of both sides, inlined as base64, or the note
/// for an image over `IMAGE_MAX_BYTES` (unless `force`).
pub open spec fn image_view(d: FileDiff, file_path: Seq<char>, old_img: Seq<u8>, new_img: Seq<u8>, force: bool) -> bool {
    let os = old_img.len() as u64;
    let ns = new_img.len() as u64;
    if !force && max_u64(os, ns) > IMAGE_MAX_BYTES {
        binary_with_note(d, os, ns, IMAGE_TOO_LARGE@)
    } else {
        d matches FileDiff::Image { old_b64, new_b64, mime, old_size, new_size } && old_b64@
            == base64(old_img) && new_b64@ == base64(new_img) && mime@ == mime_of(file_path)
            && old_size == os && new_size == ns
    }
}

/// The image preview of both sides, inlined as base64, or a note when either
/// is over `IMAGE_MAX_BYTES` (unless `force`).
pub fn image_diff(file_path: &str, old_img: &[u8], new_img: &[u8], force: bool) -> (d: FileDiff)
    ensures
        image_view(d, file_path@, old_img@, new_img@, force),
{
    let os = old_img.len() as u64;
    let ns = new_img.len() as u64;
    let m = if os >= ns { os } else { ns };
    if !force && m > IMAGE_MAX_BYTES {
        return FileDiff::Binary { old_size: os, new_size: ns, note: Some(owned(IMAGE_TOO_LARGE)) };
    }
    FileDiff::Image {
        old_b64: base64_encode(old_img),
        new_b64: base64_encode(new_img),
        mime: owned(image_mime(file_path)),
        old_size: os,
        new_size: ns,
    }
}

/// `d` is the content view of two read sides: binary (no note) when either
/// looks binary, otherwise the text view of their lossy UTF-8 decoding (for a
/// side that is valid UTF-8, its decoding).
pub open spec fn content_view(d: FileDiff, old_bytes: Seq<u8>, new_bytes: Seq<u8>, old_size: u64, new_size: u64) -> bool {
    if looks_binary(old_bytes) || looks_binary(new_bytes) {
        binary_plain(d, old_size, new_size)
    } else {
        &&& plain_text(d, lossy_utf8(old_bytes), lossy_utf8(new_bytes), old_size, new_size)
        &&& valid_utf8(old_bytes) ==> d->Text_old_content@ == normalized(decode_utf8(old_bytes))
        &&& valid_utf8(new_bytes) ==> d->Text_new_content@ == normalized(decode_utf8(new_bytes))
    }
}

/// The content view of two read sides: binary (no note) when either looks
/// binary, otherwise the text view of their lossy UTF-8 decoding.
pub fn content_diff(old_bytes: &[u8], new_bytes: &[u8], old_size: u64, new_size: u64) -> (d: FileDiff)
    requires
        old_bytes@.len() <= u32::MAX,
        new_bytes@.len() <= u32::MAX,
    ensures
        content_view(d, old_bytes@, new_bytes@, old_size, new_size),
{
    if is_binary(old_bytes) || is_binary(new_bytes) {
        return FileDiff::Binary { old_size, new_size, note: None };
    }
    let old_text = utf8_lossy(old_bytes);
    let new_text = utf8_lossy(new_bytes);
    proof {
        lemma_normalized_utf16(old_text@);
        lemma_normalized_utf16(new_text@);
    }
    text_view(old_text.as_str(), new_text.as_str(), old_size, new_size)
}

/// One frame of a file's timelapse: the change from the previous revision's
/// content to this one's (sizes are the byte counts; no opt-in for large files).
pub fn timelapse_diff(old_bytes: &[u8], new_bytes: &[u8]) -> (d: FileDiff)
    ensures
        (new_bytes@.len() > LARGE_FILE_BYTES || old_bytes@.len() > LARGE_FILE_BYTES) ==> too_large(
            d,
            old_bytes@.len() as u64,
            new_bytes@.len() as u64,
        ),
        !(new_bytes@.len() > LARGE_FILE_BYTES || old_bytes@.len() > LARGE_FILE_BYTES) ==> content_view(
            d,
            old_bytes@,
            new_bytes@,
            old_bytes@.len() as u64,
            new_bytes@.len() as u64,
        ),
{
    let old_size = old_bytes.len() as u64;
    let new_size = new_bytes.len() as u64;
    if new_size > LARGE_FILE_BYTES || old_size > LARGE_FILE_BYTES {
        return FileDiff::TooLarge { old_size, new_size };
    }
    content_diff(old_bytes, new_bytes, old_size, new_size)
}

/// Which sides of a working-copy change exist: no old side for an added file,
/// no new side for a deleted one.
pub fn sides_needed(status: FileStatus) -> (r: (bool, bool))
    ensures
        r == (status != FileStatus::Added, status != FileStatus::Deleted),
{
    let needs_old = match status {
        FileStatus::Added => false,
        _ => true,
    };
    let needs_new = match status {
        FileStatus::Deleted => false,
        _ => true,
    };
    (needs_old, needs_new)
}

/// `<rev>:<path>`, the object spec of a path at a revision (an empty `rev`
/// gives `:<path>`, the index).
pub fn blob_spec(rev: &str, path: &str) -> (s: String)
    ensures
        s@ == rev@ + ":"@ + path@,
{
    let mut s = owned(rev);
    push_str(&mut s, ":");
    push_str(&mut s, path);
    s
}

/// The old side of a working-copy change: HEAD for the staged gap, the index
/// for the unstaged one.
pub fn changes_old_spec(staged: bool, old_target: &str) -> (s: String)
    ensures
        s@ == (if staged { "HEAD"@ } else { ""@ }) + ":"@ + old_target@,
{
    if staged {
        blob_spec("HEAD", old_target)
    } else {
        blob_spec("", old_target)
    }
}

// ---------------------------------------------------------------------------
// Content sniffing
// ---------------------------------------------------------------------------

/// Bytes scanned for NUL when sniffing for binary content.
pub const BINARY_SNIFF_BYTES: usize = 8192;

/// A NUL byte within the first `BINARY_SNIFF_BYTES` bytes.
pub open spec fn looks_binary(b: Seq<u8>) -> bool {
    exists|i: int| 0 <= i < b.len() && i < BINARY_SNIFF_BYTES && b[i] == 0
}

/// Whether `bytes` looks binary: a NUL within the first 8 KiB.
pub fn is_binary(bytes: &[u8]) -> (r: bool)
    ensures
        r == looks_binary(bytes@),
{
    let n = if bytes.len() < BINARY_SNIFF_BYTES { bytes.len() } else { BINARY_SNIFF_BYTES };
    let mut i: usize = 0;
    while i < n
        invariant
            n <= bytes@.len(),
            n <= BINARY_SNIFF_BYTES,
            n == bytes@.len() || n == BINARY_SNIFF_BYTES,
            i <= n,
            forall|k: int| 0 <= k < i ==> bytes@[k] != 0,
        decreases n - i,
    {
        if bytes[i] == 0 {
            return true;
        }
        i += 1;
    }
    false
}

/// Max bytes (per side) inlined as base64 for an image preview.
pub const IMAGE_MAX_BYTES: u64 = 20_000_000;

/// Browser-renderable raster images, by extension (case-insensitive).
pub open spec fn image_path(p: Seq<char>) -> bool {
    let l = lowered(p);
    ||| ends_with(l, ".png"@)
    ||| ends_with(l, ".jpg"@)
    ||| ends_with(l, ".jpeg"@)
    ||| ends_with(l, ".gif"@)
    ||| ends_with(l, ".webp"@)
    ||| ends_with(l, ".bmp"@)
    ||| ends_with(l, ".ico"@)
    ||| ends_with(l, ".avif"@)
}

/// Whether `cs` (all of it) ends with `suffix`.
fn ends_in(cs: &Vec<char>, suffix: &str) -> (b: bool)
    ensures
        b == ends_with(cs@, suffix@),
{
    let p = chars_of(suffix);
    assert(cs@.subrange(0, cs@.len() as int) =~= cs@);
    has_suffix_at(cs.as_slice(), 0, cs.len(), p.as_slice())
}

/// Browser-renderable raster image, by extension. SVG is text (diffed
/// normally); formats an `<img>` can't show (tga, dds, psd) stay binary.
pub fn is_image_path(p: &str) -> (b: bool)
    ensures
        b == image_path(p@),
{
    let l = lower(p);
    ends_in(&l, ".png") || ends_in(&l, ".jpg") || ends_in(&l, ".jpeg") || ends_in(&l, ".gif")
        || ends_in(&l, ".webp") || ends_in(&l, ".bmp") || ends_in(&l, ".ico") || ends_in(
        &l,
        ".avif",
    )
}

/// The MIME type of an image path, by extension.
pub open spec fn mime_of(p: Seq<char>) -> Seq<char> {
    let l = lowered(p);
    if ends_with(l, ".png"@) {
        "image/png"@
    } else if ends_with(l, ".jpg"@) || ends_with(l, ".jpeg"@) {
        "image/jpeg"@
    } else if ends_with(l, ".gif"@) {
        "image/gif"@
    } else if ends_with(l, ".webp"@) {
        "image/webp"@
    } else if ends_with(l, ".bmp"@) {
        "image/bmp"@
    } else if ends_with(l, ".ico"@) {
        "image/x-icon"@
    } else if ends_with(l, ".avif"@) {
        "image/avif"@
    } else {
        "application/octet-stream"@
    }
}

/// The MIME type of an image path, by extension.
pub fn image_mime(p: &str) -> (m: &'static str)
    ensures
        m@ == mime_of(p@),
{
    let l = lower(p);
    if ends_in(&l, ".png") {
        "image/png"
    } else if ends_in(&l, ".jpg") || ends_in(&l, ".jpeg") {
        "image/jpeg"
    } else if ends_in(&l, ".gif") {
        "image/gif"
    } else if ends_in(&l, ".webp") {
        "image/webp"
    } else if ends_in(&l, ".bmp") {
        "image/bmp"
    } else if ends_in(&l, ".ico") {
        "image/x-icon"
    } else if ends_in(&l, ".avif") {
        "image/avif"
    } else {
        "application/octet-stream"
    }
}

/// The standard base64 alphabet (RFC 4648).
pub const BASE64_ALPHABET: &'static str = "ABCDEFGHIJKLMNOPQRSTUVWXYZabcdefghijklmnopqrstuvwxyz0123456789+/";

/// Byte `k` of a chunk, 0 past its end.
pub open spec fn byte_or_zero(b: Seq<u8>, k: int) -> int {
    if 0 <= k < b.len() {
        b[k] as int
    } else {
        0
    }
}

/// The four characters encoding a chunk of one to three bytes, padded with
/// `'='` for a short chunk.
pub open spec fn b64_quad(b: Seq<u8>) -> Seq<char> {
    let n = byte_or_zero(b, 0) * 65536 + byte_or_zero(b, 1) * 256 + byte_or_zero(b, 2);
    let al = BASE64_ALPHABET@;
    seq![
        al[n / 262144 % 64],
        al[n / 4096 % 64],
        if b.len() > 1 { al[n / 64 % 64] } else { '=' },
        if b.len() > 2 { al[n % 64] } else { '=' },
    ]
}

/// Chunk `j` of three bytes (the last may be shorter).
pub open spec fn b64_chunk(b: Seq<u8>, j: int) -> Seq<u8> {
    b.subrange(3 * j, if 3 * j + 3 <= b.len() { 3 * j + 3 } else { b.len() as int })
}

/// The encoding of the first `k` chunks.
pub open spec fn b64_prefix(b: Seq<u8>, k: nat) -> Seq<char>
    decreases k,
{
    if k == 0 {
        seq![]
    } else {
        b64_prefix(b, (k - 1) as nat) + b64_quad(b64_chunk(b, k - 1))
    }
}

/// Standard base64 (RFC 4648) with padding.
pub open spec fn base64(b: Seq<u8>) -> Seq<char> {
    b64_prefix(b, ((b.len() + 2) / 3) as nat)
}

proof fn lemma_b64_prefix_len(b: Seq<u8>, k: nat)
    ensures
        b64_prefix(b, k).len() == 4 * k,
    decreases k,
{
    if k > 0 {
        lemma_b64_prefix_len(b, (k - 1) as nat);
    }
}

/// The four characters encoding the chunk of `bytes` starting at `i == 3 * j`.
fn b64_encode_chunk(al: &Vec<char>, bytes: &[u8], i: usize, Ghost(j): Ghost<int>) -> (r: (char, char, char, char))
    requires
        al@ == BASE64_ALPHABET@,
        al@.len() == 64,
        i < bytes@.len(),
        i == 3 * j,
    ensures
        seq![r.0, r.1, r.2, r.3] == b64_quad(b64_chunk(bytes@, j)),
{
    let len = bytes.len();
    let b0 = bytes[i] as u32;
    let b1: u32 = if i + 1 < len { bytes[i + 1] as u32 } else { 0 };
    let b2: u32 = if i + 2 < len { bytes[i + 2] as u32 } else { 0 };
    let n: u32 = (b0 << 16) | (b1 << 8) | b2;
    assert(n == b0 * 65536 + b1 * 256 + b2) by (bit_vector)
        requires
            b0 < 256,
            b1 < 256,
            b2 < 256,
            n == (b0 << 16) | (b1 << 8) | b2,
    ;
    assert((n >> 18) & 63 == n / 262144 % 64) by (bit_vector);
    assert((n >> 12) & 63 == n / 4096 % 64) by (bit_vector);
    assert((n >> 6) & 63 == n / 64 % 64) by (bit_vector);
    assert(n & 63 == n % 64) by (bit_vector);
    let ghost chunk = b64_chunk(bytes@, j);
    proof {
        assert(chunk.len() >= 1);
        assert(byte_or_zero(chunk, 0) == b0);
        assert(byte_or_zero(chunk, 1) == b1);
        assert(byte_or_zero(chunk, 2) == b2);
        assert((chunk.len() > 1) == (i + 1 < len));
        assert((chunk.len() > 2) == (i + 2 < len));
    }
    let c0 = al[((n >> 18) & 63) as usize];
    let c1 = al[((n >> 12) & 63) as usize];
    let c2 = if i + 1 < len { al[((n >> 6) & 63) as usize] } else { '=' };
    let c3 = if i + 2 < len { al[(n & 63) as usize] } else { '=' };
    assert(b64_quad(chunk) =~= seq![c0, c1, c2, c3]);
    (c0, c1, c2, c3)
}

/// Standard base64 (RFC 4648) encode, used to inline image bytes for the
/// data-URL preview. The output has four characters per started three-byte
/// chunk.
pub fn base64_encode(bytes: &[u8]) -> (s: String)
    ensures
        s@ == base64(bytes@),
        s@.len() == 4 * ((bytes@.len() + 2) / 3),
{
    let al = chars_of(BASE64_ALPHABET);
    proof {
        reveal_strlit("ABCDEFGHIJKLMNOPQRSTUVWXYZabcdefghijklmnopqrstuvwxyz0123456789+/");
    }
    assert(al@.len() == 64);
    let len = bytes.len();
    let mut out = String::new();
    let mut i: usize = 0;
    let ghost mut k: nat = 0;
    while i < len
        invariant
            al@ == BASE64_ALPHABET@,
            al@.len() == 64,
            len == bytes@.len(),
            i <= len,
            i < len ==> i == 3 * k,
            i == len ==> k == (len + 2) / 3,
            out@ == b64_prefix(bytes@, k),
        decreases len - i,
    {
        let (c0, c1, c2, c3) = b64_encode_chunk(&al, bytes, i, Ghost(k as int));
        let ghost chunk = b64_chunk(bytes@, k as int);
        let ghost before = out@;
        push_char(&mut out, c0);
        push_char(&mut out, c1);
        push_char(&mut out, c2);
        push_char(&mut out, c3);
        proof {
            assert(out@ =~= before + b64_quad(chunk));
            k = k + 1;
        }
        if len - i > 3 {
            i = i + 3;
        } else {
            i = len;
        }
    }
    proof {
        lemma_b64_prefix_len(bytes@, k);
    }
    out
}

/// The `git diff` arguments for one file's textual patch: `--cached`
/// (HEAD↔index) when `staged`, otherwise the worktree↔index diff.
pub fn diff_args<'a>(staged: bool, file_path: &'a str) -> (r: Vec<&'a str>)
    ensures
        strs_of(r@) == (if staged {
            seq!["diff"@, "--cached"@, "--"@, file_path@]
        } else {
            seq!["diff"@, "--"@, file_path@]
        }),
{
    let mut args: Vec<&'a str> = Vec::new();
    args.push("diff");
    if staged {
        args.push("--cached");
    }
    args.push("--");
    args.push(file_path);
    proof {
        if staged {
            assert(strs_of(args@) =~= seq!["diff"@, "--cached"@, "--"@, file_path@]);
        } else {
            assert(strs_of(args@) =~= seq!["diff"@, "--"@, file_path@]);
        }
    }
    args
}

// ---------------------------------------------------------------------------
// `git for-each-ref`
// ---------------------------------------------------------------------------

/// The ref one `%(refname:short)\t%(refname)` line lists: local branches,
/// remote branches (but not a remote's `HEAD` alias) and tags.
pub open spec fn ref_line(line: Seq<char>) -> Option<BranchView> {
    let parts = splitn(line, 2, '\t');
    let short = nth_or_empty(parts, 0);
    let full = nth_or_empty(parts, 1);
    if short.len() == 0 || full.len() == 0 {
        None
    } else if starts_with(full, "refs/heads/"@) {
        Some(BranchView { name: short, kind: BranchKind::Local })
    } else if starts_with(full, "refs/remotes/"@) {
        if ends_with(short, "/HEAD"@) {
            None
        } else {
            Some(BranchView { name: short, kind: BranchKind::Remote })
        }
    } else if starts_with(full, "refs/tags/"@) {
        Some(BranchView { name: short, kind: BranchKind::Tag })
    } else {
        None
    }
}

/// The refs of the lines `ls`, in order.
pub open spec fn refs_fold(ls: Seq<Seq<char>>) -> Seq<BranchView>
    decreases ls.len(),
{
    if ls.len() == 0 {
        seq![]
    } else {
        let rest = refs_fold(ls.drop_last());
        match ref_line(ls.last()) {
            Some(b) => rest.push(b),
            None => rest,
        }
    }
}

pub open spec fn branches_view(v: Seq<Branch>) -> Seq<BranchView> {
    v.map_values(|b: Branch| b@)
}

/// The `git for-each-ref` arguments that list every branch, remote branch and
/// tag as `<short>\t<full>` lines.
pub fn list_refs_args() -> (r: Vec<&'static str>)
    ensures
        strs_of(r@) == seq![
            "for-each-ref"@,
            "--format=%(refname:short)\t%(refname)"@,
            "refs/heads"@,
            "refs/remotes"@,
            "refs/tags"@,
        ],
{
    let v = vec!["for-each-ref", "--format=%(refname:short)\t%(refname)", "refs/heads", "refs/remotes", "refs/tags"];
    assert(strs_of(v@) =~= seq![
        "for-each-ref"@,
        "--format=%(refname:short)\t%(refname)"@,
        "refs/heads"@,
        "refs/remotes"@,
        "refs/tags"@,
    ]);
    v
}

/// Parse `git for-each-ref --format=%(refname:short)\t%(refname)` output into
/// branches, remote branches and tags.
pub fn parse_refs(text: &str) -> (r: Vec<Branch>)
    ensures
        branches_view(r@) == refs_fold(lines(text@)),
{
    let cs = chars_of(text);
    let rs = lines_ranges(cs.as_slice(), 0, cs.len());
    let ghost ls = lines(text@);
    let heads = chars_of("refs/heads/");
    let remotes = chars_of("refs/remotes/");
    let tags = chars_of("refs/tags/");
    let head_alias = chars_of("/HEAD");
    assert(cs@.subrange(0, cs@.len() as int) =~= cs@);
    let mut out: Vec<Branch> = Vec::new();
    let mut i: usize = 0;
    while i < rs.len()
        invariant
            cs@ == text@,
            heads@ == "refs/heads/"@,
            remotes@ == "refs/remotes/"@,
            tags@ == "refs/tags/"@,
            head_alias@ == "/HEAD"@,
            ls == lines(text@),
            ranges_match(cs@, rs@, ls, 0, cs@.len() as int),
            i <= rs@.len(),
            branches_view(out@) == refs_fold(ls.subrange(0, i as int)),
        decreases rs@.len() - i,
    {
        let (a, b) = rs[i];
        let ghost line = ls[i as int];
        proof {
            assert(ls.subrange(0, i + 1).drop_last() =~= ls.subrange(0, i as int));
            assert(ls.subrange(0, i + 1).last() == line);
        }
        let ps = splitn_ranges(cs.as_slice(), a, b, 2, '\t');
        let (sa, sb) = ps[0];
        if ps.len() > 1 && sb > sa {
            let (fa, fb) = ps[1];
            if fb > fa {
                let kind = if has_prefix_at(cs.as_slice(), fa, fb, heads.as_slice()) {
                    Some(BranchKind::Local)
                } else if has_prefix_at(cs.as_slice(), fa, fb, remotes.as_slice()) {
                    if has_suffix_at(cs.as_slice(), sa, sb, head_alias.as_slice()) {
                        None
                    } else {
                        Some(BranchKind::Remote)
                    }
                } else if has_prefix_at(cs.as_slice(), fa, fb, tags.as_slice()) {
                    Some(BranchKind::Tag)
                } else {
                    None
                };
                match kind {
                    Some(k) => {
                        let name = string_of(cs.as_slice(), sa, sb);
                        let ghost prev = out@;
                        out.push(Branch { name, kind: k });
                        proof {
                            assert(branches_view(out@) =~= branches_view(prev).push(out@.last()@));
                        }
                    },
                    None => {},
                }
            }
        }
        i += 1;
    }
    proof {
        assert(ls.subrange(0, rs@.len() as int) =~= ls);
    }
    out
}

// ---------------------------------------------------------------------------
// `git log -z`
// ---------------------------------------------------------------------------

/// `git log` pretty format for the history browser. Fields are separated by
/// the Unit Separator (`\x1f`) and records by NUL (`-z`): sha, short sha,
/// parents, author name, author unix time, subject, refs.
pub const COMMIT_LOG_FORMAT: &'static str = "--format=%H%x1f%h%x1f%P%x1f%an%x1f%at%x1f%s%x1f%D";

/// The commit one `git log -z COMMIT_LOG_FORMAT` record describes; none for a
/// record without a sha.
pub open spec fn commit_record(rec: Seq<char>) -> Option<CommitView> {
    let f = splitn(rec, 7, '\x1f');
    let sha = nth_or_empty(f, 0);
    if sha.len() == 0 {
        None
    } else {
        Some(
            CommitView {
                sha,
                short_sha: nth_or_empty(f, 1),
                parents: split_whitespace(nth_or_empty(f, 2)),
                author: nth_or_empty(f, 3),
                time: match parse_i64_spec(trim(nth_or_empty(f, 4))) {
                    Some(t) => t,
                    None => 0,
                },
                summary: nth_or_empty(f, 5),
                refs: trimmed_nonempty(split(nth_or_empty(f, 6), ',')),
            },
        )
    }
}

/// The commits of the records `recs`, in order.
pub open spec fn commit_log_fold(recs: Seq<Seq<char>>) -> Seq<CommitView>
    decreases recs.len(),
{
    if recs.len() == 0 {
        seq![]
    } else {
        let rest = commit_log_fold(recs.drop_last());
        match commit_record(recs.last()) {
            Some(c) => rest.push(c),
            None => rest,
        }
    }
}

pub open spec fn commits_view(v: Seq<Commit>) -> Seq<CommitView> {
    v.map_values(|c: Commit| c@)
}

/// The strings of the pieces `rs` of `cs`.
fn pieces_of(cs: &[char], rs: &Vec<(usize, usize)>, Ghost(pieces): Ghost<Seq<Seq<char>>>, Ghost(lo): Ghost<int>, Ghost(hi): Ghost<int>) -> (r: Vec<String>)
    requires
        0 <= lo <= hi <= cs@.len(),
        ranges_match(cs@, rs@, pieces, lo, hi),
    ensures
        strs_view(r@) == pieces,
{
    let mut out: Vec<String> = Vec::new();
    let mut i: usize = 0;
    while i < rs.len()
        invariant
            0 <= lo <= hi <= cs@.len(),
            ranges_match(cs@, rs@, pieces, lo, hi),
            i <= rs@.len(),
            strs_view(out@) == pieces.subrange(0, i as int),
        decreases rs@.len() - i,
    {
        let (a, b) = rs[i];
        let t = string_of(cs, a, b);
        let ghost prev = out@;
        out.push(t);
        proof {
            assert(strs_view(out@) =~= strs_view(prev).push(t@));
            assert(pieces.subrange(0, i + 1) =~= pieces.subrange(0, i as int).push(pieces[i as int]));
        }
        i += 1;
    }
    proof {
        assert(pieces.subrange(0, rs@.len() as int) =~= pieces);
    }
    out
}

/// The trimmed, non-empty strings among the pieces `rs` of `cs`.
fn trimmed_pieces_of(cs: &[char], rs: &Vec<(usize, usize)>, Ghost(pieces): Ghost<Seq<Seq<char>>>, Ghost(lo): Ghost<int>, Ghost(hi): Ghost<int>) -> (r: Vec<String>)
    requires
        0 <= lo <= hi <= cs@.len(),
        ranges_match(cs@, rs@, pieces, lo, hi),
    ensures
        strs_view(r@) == trimmed_nonempty(pieces),
{
    let mut out: Vec<String> = Vec::new();
    let mut i: usize = 0;
    while i < rs.len()
        invariant
            0 <= lo <= hi <= cs@.len(),
            ranges_match(cs@, rs@, pieces, lo, hi),
            i <= rs@.len(),
            strs_view(out@) == trimmed_nonempty(pieces.subrange(0, i as int)),
        decreases rs@.len() - i,
    {
        let (a, b) = rs[i];
        proof {
            assert(pieces.subrange(0, i + 1).drop_last() =~= pieces.subrange(0, i as int));
            assert(pieces.subrange(0, i + 1).last() == pieces[i as int]);
        }
        let (x, y) = trim_bounds(cs, a, b);
        if x < y {
            let t = string_of(cs, x, y);
            let ghost prev = out@;
            out.push(t);
            proof {
                assert(strs_view(out@) =~= strs_view(prev).push(t@));
            }
        }
        i += 1;
    }
    proof {
        assert(pieces.subrange(0, rs@.len() as int) =~= pieces);
    }
    out
}

/// Parse `git log -z COMMIT_LOG_FORMAT` output into commits. Records are
/// NUL-separated; fields within a record are `\x1f`-separated in the order
/// declared by `COMMIT_LOG_FORMAT`. Records without a sha are skipped; a
/// malformed time reads as 0.
pub fn parse_commit_log(text: &str) -> (r: Vec<Commit>)
    ensures
        commits_view(r@) == commit_log_fold(split(text@, '\0')),
{
    let cs = chars_of(text);
    let rs = split_ranges(cs.as_slice(), 0, cs.len(), '\0');
    let ghost recs = split(text@, '\0');
    assert(cs@.subrange(0, cs@.len() as int) =~= cs@);
    let mut out: Vec<Commit> = Vec::new();
    let mut i: usize = 0;
    while i < rs.len()
        invariant
            cs@ == text@,
            recs == split(text@, '\0'),
            ranges_match(cs@, rs@, recs, 0, cs@.len() as int),
            i <= rs@.len(),
            commits_view(out@) == commit_log_fold(recs.subrange(0, i as int)),
        decreases rs@.len() - i,
    {
        let (a, b) = rs[i];
        let ghost rec = recs[i as int];
        proof {
            assert(recs.subrange(0, i + 1).drop_last() =~= recs.subrange(0, i as int));
            assert(recs.subrange(0, i + 1).last() == rec);
        }
        let fs = splitn_ranges(cs.as_slice(), a, b, 7, '\x1f');
        let ghost f = splitn(rec, 7, '\x1f');
        let (sa, sb) = fs[0];
        if sb > sa {
            let sha = string_of(cs.as_slice(), sa, sb);
            let short_sha = if fs.len() > 1 { let (x, y) = fs[1]; string_of(cs.as_slice(), x, y) } else { String::new() };
            let parents = if fs.len() > 2 {
                let (x, y) = fs[2];
                let ws = split_ws_ranges(cs.as_slice(), x, y);
                pieces_of(cs.as_slice(), &ws, Ghost(split_whitespace(cs@.subrange(x as int, y as int))), Ghost(x as int), Ghost(y as int))
            } else {
                proof {
                    assert(split_whitespace(Seq::<char>::empty()) == Seq::<Seq<char>>::empty());
                }
                Vec::new()
            };
            let author = if fs.len() > 3 { let (x, y) = fs[3]; string_of(cs.as_slice(), x, y) } else { String::new() };
            let time: i64 = if fs.len() > 4 {
                let (x, y) = fs[4];
                let (p, q) = trim_bounds(cs.as_slice(), x, y);
                match parse_i64(cs.as_slice(), p, q) {
                    Some(t) => t,
                    None => 0,
                }
            } else {
                proof {
                    assert(trim(Seq::<char>::empty()) =~= Seq::<char>::empty());
                }
                0
            };
            let summary = if fs.len() > 5 { let (x, y) = fs[5]; string_of(cs.as_slice(), x, y) } else { String::new() };
            let refs = if fs.len() > 6 {
                let (x, y) = fs[6];
                let ps = split_ranges(cs.as_slice(), x, y, ',');
                trimmed_pieces_of(cs.as_slice(), &ps, Ghost(split(cs@.subrange(x as int, y as int), ',')), Ghost(x as int), Ghost(y as int))
            } else {
                proof {
                    assert(find_from(Seq::<char>::empty(), ',', 0) == 0);
                    assert(Seq::<char>::empty().subrange(0, 0) =~= Seq::<char>::empty());
                    assert(split(Seq::<char>::empty(), ',') == seq![Seq::<char>::empty()]);
                    let e = seq![Seq::<char>::empty()];
                    assert(e.drop_last() =~= Seq::<Seq<char>>::empty());
                    assert(trim(Seq::<char>::empty()) =~= Seq::<char>::empty());
                    assert(trimmed_nonempty(e) == trimmed_nonempty(e.drop_last()));
                    assert(trimmed_nonempty(e) == Seq::<Seq<char>>::empty());
                }
                let v: Vec<String> = Vec::new();
                assert(strs_view(v@) =~= Seq::<Seq<char>>::empty());
                v
            };
            let c = Commit { sha, short_sha, parents, author, time, summary, refs };
            let ghost prev = out@;
            out.push(c);
            proof {
                assert(commits_view(out@) =~= commits_view(prev).push(out@.last()@));
                let v = out@.last()@;
                assert(cs@.subrange(sa as int, sb as int) == f[0]);
                assert(v.sha == nth_or_empty(f, 0));
                assert(v.short_sha == nth_or_empty(f, 1));
                assert(v.parents == split_whitespace(nth_or_empty(f, 2)));
                assert(v.author == nth_or_empty(f, 3));
                assert(v.summary == nth_or_empty(f, 5));
                assert(v.refs == trimmed_nonempty(split(nth_or_empty(f, 6), ',')));
                assert(v.time == (match parse_i64_spec(trim(nth_or_empty(f, 4))) {
                    Some(t) => t,
                    None => 0,
                }));
                assert(commit_record(rec) == Some(v));
            }
        } else {
            assert(commit_record(rec) is None);
        }
        i += 1;
    }
    proof {
        assert(recs.subrange(0, rs@.len() as int) =~= recs);
    }
    out
}

// ---------------------------------------------------------------------------
// NUL-separated byte outputs
// ---------------------------------------------------------------------------

/// A path read from git's output: its UTF-8 text, or a parse error.
pub open spec fn path_result(b: Seq<u8>) -> Result<Seq<char>, GitErrorView> {
    if valid_utf8(b) {
        Ok(decode_utf8(b))
    } else {
        Err(GitErrorView::Parse("path not utf-8"@))
    }
}

/// A path from git's output, which must be UTF-8.
pub fn bytes_to_string(b: &[u8]) -> (r: Result<String, GitError>)
    ensures
        match (r, path_result(b@)) {
            (Ok(s), Ok(t)) => s@ == t,
            (Err(e), Err(x)) => e@ == x,
            _ => false,
        },
{
    match decode_str(b) {
        Some(s) => Ok(s),
        None => Err(GitError::Parse(owned("path not utf-8"))),
    }
}

/// The paths that per-record readings `f` give for the records `recs`, or the
/// first error among them.
pub open spec fn records_fold(
    recs: Seq<Seq<u8>>,
    f: spec_fn(Seq<u8>) -> Result<Option<Seq<char>>, GitErrorView>,
) -> Result<Seq<Seq<char>>, GitErrorView>
    decreases recs.len(),
{
    if recs.len() == 0 {
        Ok(seq![])
    } else {
        match records_fold(recs.drop_last(), f) {
            Err(e) => Err(e),
            Ok(acc) => match f(recs.last()) {
                Err(e) => Err(e),
                Ok(None) => Ok(acc),
                Ok(Some(p)) => Ok(acc.push(p)),
            },
        }
    }
}

/// Once a prefix of the records fails, the whole fails with the same error.
proof fn lemma_records_fold_err(
    recs: Seq<Seq<u8>>,
    f: spec_fn(Seq<u8>) -> Result<Option<Seq<char>>, GitErrorView>,
    i: int,
)
    requires
        0 <= i <= recs.len(),
        records_fold(recs.subrange(0, i), f) is Err,
    ensures
        records_fold(recs, f) == records_fold(recs.subrange(0, i), f),
    decreases recs.len() - i,
{
    if i < recs.len() {
        assert(recs.subrange(0, i + 1).drop_last() =~= recs.subrange(0, i));
        lemma_records_fold_err(recs, f, i + 1);
    } else {
        assert(recs.subrange(0, i) =~= recs);
    }
}

/// `r` is the list of strings (or the error) that `s` describes.
pub open spec fn strs_result(r: Result<Vec<String>, GitError>, s: Result<Seq<Seq<char>>, GitErrorView>) -> bool {
    match (r, s) {
        (Ok(v), Ok(w)) => strs_view(v@) == w,
        (Err(e), Err(x)) => e@ == x,
        _ => false,
    }
}

/// One `git ls-files -s -z` record, `<mode> SP <oid> SP <stage>\t<path>`: its
/// path, none for an empty record or a gitlink (mode 160000).
pub open spec fn ls_stage_entry(e: Seq<u8>) -> Result<Option<Seq<char>>, GitErrorView> {
    if e.len() == 0 {
        Ok(None)
    } else {
        let tab = bfind_from(e, 9, 0);
        if tab >= e.len() {
            Err(GitErrorView::Parse("ls-files -s: missing tab"@))
        } else {
            let meta = e.subrange(0, tab);
            if bytes_eq_text(meta.subrange(0, bfind_from(meta, 32, 0)), "160000"@) {
                Ok(None)
            } else {
                match path_result(e.subrange(tab + 1, e.len() as int)) {
                    Ok(p) => Ok(Some(p)),
                    Err(x) => Err(x),
                }
            }
        }
    }
}

/// One `git config -z --get-regexp` record, `<key>\n<value>`: its value,
/// none when empty.
pub open spec fn gitmodules_entry(e: Seq<u8>) -> Result<Option<Seq<char>>, GitErrorView> {
    if e.len() == 0 {
        Ok(None)
    } else {
        let nl = bfind_from(e, 10, 0);
        if nl >= e.len() {
            Err(GitErrorView::Parse("gitmodules entry missing newline"@))
        } else if nl + 1 == e.len() {
            Ok(None)
        } else {
            match path_result(e.subrange(nl + 1, e.len() as int)) {
                Ok(p) => Ok(Some(p)),
                Err(x) => Err(x),
            }
        }
    }
}

/// Reading of one `ls-files -s` record.
fn ls_stage_record(e: &[u8]) -> (r: Result<Option<String>, GitError>)
    ensures
        match (r, ls_stage_entry(e@)) {
            (Ok(Some(s)), Ok(Some(t))) => s@ == t,
            (Ok(None), Ok(None)) => true,
            (Err(x), Err(y)) => x@ == y,
            _ => false,
        },
{
    if e.len() == 0 {
        return Ok(None);
    }
    let tab = find_byte(e, 0, 9);
    if tab >= e.len() {
        return Err(GitError::Parse(owned("ls-files -s: missing tab")));
    }
    let meta = slice_subrange(e, 0, tab);
    let mode_end = find_byte(meta, 0, 32);
    let mode = slice_subrange(meta, 0, mode_end);
    if bytes_are(mode, "160000") {
        return Ok(None);
    }
    let path = slice_subrange(e, tab + 1, e.len());
    match bytes_to_string(path) {
        Ok(p) => Ok(Some(p)),
        Err(x) => Err(x),
    }
}

/// Reading of one `.gitmodules` `path` record.
fn gitmodules_record(e: &[u8]) -> (r: Result<Option<String>, GitError>)
    ensures
        match (r, gitmodules_entry(e@)) {
            (Ok(Some(s)), Ok(Some(t))) => s@ == t,
            (Ok(None), Ok(None)) => true,
            (Err(x), Err(y)) => x@ == y,
            _ => false,
        },
{
    if e.len() == 0 {
        return Ok(None);
    }
    let nl = find_byte(e, 0, 10);
    if nl >= e.len() {
        return Err(GitError::Parse(owned("gitmodules entry missing newline")));
    }
    if nl + 1 == e.len() {
        return Ok(None);
    }
    let value = slice_subrange(e, nl + 1, e.len());
    match bytes_to_string(value) {
        Ok(p) => Ok(Some(p)),
        Err(x) => Err(x),
    }
}

/// Parse `git ls-files -s -z` output. Each NUL-terminated record is
/// `<mode> SP <oid> SP <stage>\t<path>`. Gitlink entries (mode 160000) are
/// dropped — submodules can't be blamed.
pub fn parse_ls_files_stage(bytes: &[u8]) -> (r: Result<Vec<String>, GitError>)
    ensures
        strs_result(r, records_fold(bsplit(bytes@, 0), |e: Seq<u8>| ls_stage_entry(e))),
{
    let rs = bsplit_ranges(bytes, 0);
    let ghost recs = bsplit(bytes@, 0);
    let ghost f = |e: Seq<u8>| ls_stage_entry(e);
    let mut out: Vec<String> = Vec::new();
    let mut i: usize = 0;
    assert(recs.subrange(0, 0) =~= Seq::<Seq<u8>>::empty());
    assert(strs_view(out@) =~= Seq::<Seq<char>>::empty());
    while i < rs.len()
        invariant
            recs == bsplit(bytes@, 0),
            f == (|e: Seq<u8>| ls_stage_entry(e)),
            rs@.len() == recs.len(),
            forall|k: int|
                0 <= k < rs@.len() ==> (#[trigger] rs@[k]).0 <= rs@[k].1 <= bytes@.len()
                    && bytes@.subrange(rs@[k].0 as int, rs@[k].1 as int) == recs[k],
            i <= rs@.len(),
            records_fold(recs.subrange(0, i as int), f) == Ok::<Seq<Seq<char>>, GitErrorView>(strs_view(out@)),
        decreases rs@.len() - i,
    {
        let (a, b) = rs[i];
        let e = slice_subrange(bytes, a, b);
        proof {
            assert(recs.subrange(0, i + 1).drop_last() =~= recs.subrange(0, i as int));
            assert(recs.subrange(0, i + 1).last() == recs[i as int]);
        }
        match ls_stage_record(e) {
            Ok(Some(p)) => {
                let ghost prev = out@;
                out.push(p);
                proof {
                    assert(strs_view(out@) =~= strs_view(prev).push(out@.last()@));
                }
            },
            Ok(None) => {},
            Err(x) => {
                proof {
                    lemma_records_fold_err(recs, f, i + 1);
                }
                return Err(x);
            },
        }
        i += 1;
    }
    proof {
        assert(recs.subrange(0, rs@.len() as int) =~= recs);
    }
    Ok(out)
}

/// Parse `git config -z --get-regexp ^submodule\..*\.path$` output. Each
/// NUL-terminated record is `<key>\n<value>`; the values are the paths.
pub fn parse_gitmodules_paths(bytes: &[u8]) -> (r: Result<Vec<String>, GitError>)
    ensures
        strs_result(r, records_fold(bsplit(bytes@, 0), |e: Seq<u8>| gitmodules_entry(e))),
{
    let rs = bsplit_ranges(bytes, 0);
    let ghost recs = bsplit(bytes@, 0);
    let ghost f = |e: Seq<u8>| gitmodules_entry(e);
    let mut out: Vec<String> = Vec::new();
    let mut i: usize = 0;
    assert(recs.subrange(0, 0) =~= Seq::<Seq<u8>>::empty());
    assert(strs_view(out@) =~= Seq::<Seq<char>>::empty());
    while i < rs.len()
        invariant
            recs == bsplit(bytes@, 0),
            f == (|e: Seq<u8>| gitmodules_entry(e)),
            rs@.len() == recs.len(),
            forall|k: int|
                0 <= k < rs@.len() ==> (#[trigger] rs@[k]).0 <= rs@[k].1 <= bytes@.len()
                    && bytes@.subrange(rs@[k].0 as int, rs@[k].1 as int) == recs[k],
            i <= rs@.len(),
            records_fold(recs.subrange(0, i as int), f) == Ok::<Seq<Seq<char>>, GitErrorView>(strs_view(out@)),
        decreases rs@.len() - i,
    {
        let (a, b) = rs[i];
        let e = slice_subrange(bytes, a, b);
        proof {
            assert(recs.subrange(0, i + 1).drop_last() =~= recs.subrange(0, i as int));
            assert(recs.subrange(0, i + 1).last() == recs[i as int]);
        }
        match gitmodules_record(e) {
            Ok(Some(p)) => {
                let ghost prev = out@;
                out.push(p);
                proof {
                    assert(strs_view(out@) =~= strs_view(prev).push(out@.last()@));
                }
            },
            Ok(None) => {},
            Err(x) => {
                proof {
                    lemma_records_fold_err(recs, f, i + 1);
                }
                return Err(x);
            },
        }
        i += 1;
    }
    proof {
        assert(recs.subrange(0, rs@.len() as int) =~= recs);
    }
    Ok(out)
}

/// The submodule paths of a `git config --file .gitmodules -z --get-regexp`
/// run: none when it exits 1 with nothing on stderr (no matching keys), its
/// trimmed stderr when it fails otherwise, else the paths it printed.
pub fn gitmodules_outcome(success: bool, code: Option<i32>, stderr: &[u8], stdout: &[u8]) -> (r: Result<Vec<String>, GitError>)
    ensures
        !success && code == Some(1i32) && stderr@.len() == 0 ==> (r matches Ok(v) && v@.len() == 0),
        !success && !(code == Some(1i32) && stderr@.len() == 0) ==> (r matches Err(e) && e@
            == GitErrorView::CommandFailed(trim(lossy_utf8(stderr@)))),
        success ==> strs_result(r, records_fold(bsplit(stdout@, 0), |e: Seq<u8>| gitmodules_entry(e))),
{
    if !success {
        let no_keys = match code {
            Some(c) => c == 1 && stderr.len() == 0,
            None => false,
        };
        if no_keys {
            return Ok(Vec::new());
        }
        return Err(command_failure(stderr));
    }
    parse_gitmodules_paths(stdout)
}

/// What `git ls-tree <tree> -- <path>` output says of a gitlink: the commit
/// SHA when the first line is `160000 commit <sha>\t<path>`, none for empty
/// output or another object type.
pub open spec fn gitlink_sha_spec(bytes: Seq<u8>) -> Result<Option<Seq<char>>, GitErrorView> {
    if !valid_utf8(bytes) {
        Err(GitErrorView::Parse("ls-tree output not utf-8"@))
    } else {
        let line = nth_or_empty(lines(decode_utf8(bytes)), 0);
        if line.len() == 0 {
            Ok(None)
        } else {
            let parts = splitn(line, 3, ' ');
            if nth_or_empty(parts, 0) != "160000"@ || nth_or_empty(parts, 1) != "commit"@ {
                Ok(None)
            } else {
                let rest = nth_or_empty(parts, 2);
                let tab = find_from(rest, '\t', 0);
                if tab >= rest.len() {
                    Err(GitErrorView::Parse("ls-tree gitlink: missing tab"@))
                } else {
                    Ok(Some(rest.subrange(0, tab)))
                }
            }
        }
    }
}

/// Parse `git ls-tree <tree> -- <path>` output for a gitlink entry. Returns
/// the commit SHA, or `None` when the path is not a gitlink at that tree
/// (empty output, or some other object type).
pub fn parse_gitlink_sha(bytes: &[u8]) -> (r: Result<Option<String>, GitError>)
    ensures
        match (r, gitlink_sha_spec(bytes@)) {
            (Ok(Some(s)), Ok(Some(t))) => s@ == t,
            (Ok(None), Ok(None)) => true,
            (Err(x), Err(y)) => x@ == y,
            _ => false,
        },
{
    let text = match decode_str(bytes) {
        Some(t) => t,
        None => {
            return Err(GitError::Parse(owned("ls-tree output not utf-8")));
        },
    };
    let cs = chars_of(text.as_str());
    assert(cs@.subrange(0, cs@.len() as int) =~= cs@);
    let ls = lines_ranges(cs.as_slice(), 0, cs.len());
    if ls.len() == 0 {
        return Ok(None);
    }
    let (la, lb) = ls[0];
    if la == lb {
        return Ok(None);
    }
    let ghost line = cs@.subrange(la as int, lb as int);
    let parts = splitn_ranges(cs.as_slice(), la, lb, 3, ' ');
    let ghost ps = splitn(line, 3, ' ');
    let m = chars_of("160000");
    let t = chars_of("commit");
    let (ma, mb) = parts[0];
    let mode_ok = equals_at(cs.as_slice(), ma, mb, m.as_slice());
    let ty_ok = if parts.len() > 1 {
        let (ta, tb) = parts[1];
        equals_at(cs.as_slice(), ta, tb, t.as_slice())
    } else {
        proof {
            reveal_strlit("commit");
        }
        false
    };
    if !mode_ok || !ty_ok {
        return Ok(None);
    }
    if parts.len() < 3 {
        proof {
            assert(find_from(Seq::<char>::empty(), '\t', 0) == 0);
        }
        return Err(GitError::Parse(owned("ls-tree gitlink: missing tab")));
    }
    let (ra, rb) = parts[2];
    let tab = find_char(cs.as_slice(), ra, rb, ra, '\t');
    proof {
        lemma_sub_sub(cs@, ra as int, rb as int, 0, tab - ra);
    }
    if tab >= rb {
        return Err(GitError::Parse(owned("ls-tree gitlink: missing tab")));
    }
    Ok(Some(string_of(cs.as_slice(), ra, tab)))
}

// ---------------------------------------------------------------------------
// `git diff --name-status -z`
// ---------------------------------------------------------------------------

/// The fields of NUL-terminated output: the pieces between NULs, without the
/// empty piece after a final NUL (what repeated `read_until(0)` yields).
pub open spec fn nul_fields(b: Seq<u8>) -> Seq<Seq<u8>> {
    let p = bsplit(b, 0);
    if p.len() > 0 && p.last().len() == 0 {
        p.drop_last()
    } else {
        p
    }
}

/// What the name-status reader expects next.
pub enum NameStatusState {
    /// A status field (`M`, `A`, `R100`, …).
    Status,
    /// The path of a one-path entry.
    Path(FileStatus),
    /// The old path of a rename / copy.
    OldPath(FileStatus),
    /// The new path of a rename / copy, whose old path was read.
    NewPath(FileStatus, Vec<u8>),
}

pub enum NameStatusStateView {
    Status,
    Path(FileStatus),
    OldPath(FileStatus),
    NewPath(FileStatus, Seq<u8>),
}

impl View for NameStatusState {
    type V = NameStatusStateView;

    open spec fn view(&self) -> NameStatusStateView {
        match self {
            NameStatusState::Status => NameStatusStateView::Status,
            NameStatusState::Path(s) => NameStatusStateView::Path(*s),
            NameStatusState::OldPath(s) => NameStatusStateView::OldPath(*s),
            NameStatusState::NewPath(s, b) => NameStatusStateView::NewPath(*s, b@),
        }
    }
}

/// The status a name-status letter stands for, and whether an old path
/// precedes the new one.
pub open spec fn status_letter(c: char) -> Option<(FileStatus, bool)> {
    if c == 'A' {
        Some((FileStatus::Added, false))
    } else if c == 'M' {
        Some((FileStatus::Modified, false))
    } else if c == 'D' {
        Some((FileStatus::Deleted, false))
    } else if c == 'T' {
        Some((FileStatus::TypeChanged, false))
    } else if c == 'R' {
        Some((FileStatus::Renamed, true))
    } else if c == 'C' {
        Some((FileStatus::Copied, true))
    } else {
        None
    }
}

/// One field read in state `st`: the next state, and the entry completed (or
/// the error met). A status field that is empty or of an unknown kind is
/// skipped.
pub open spec fn name_status_step(st: NameStatusStateView, field: Seq<u8>) -> (
    NameStatusStateView,
    Result<Option<ChangedFileView>, GitErrorView>,
) {
    match st {
        NameStatusStateView::Status => if field.len() == 0 {
            (st, Ok(None))
        } else if !valid_utf8(field) {
            (st, Err(GitErrorView::Parse("status not utf-8"@)))
        } else {
            match status_letter(decode_utf8(field)[0]) {
                Some((s, false)) => (NameStatusStateView::Path(s), Ok(None)),
                Some((s, true)) => (NameStatusStateView::OldPath(s), Ok(None)),
                None => (st, Ok(None)),
            }
        },
        NameStatusStateView::Path(s) => match path_result(field) {
            Ok(p) => (
                NameStatusStateView::Status,
                Ok(Some(ChangedFileView { path: p, old_path: None, status: s })),
            ),
            Err(e) => (NameStatusStateView::Status, Err(e)),
        },
        NameStatusStateView::OldPath(s) => (NameStatusStateView::NewPath(s, field), Ok(None)),
        NameStatusStateView::NewPath(s, old) => match path_result(field) {
            Err(e) => (NameStatusStateView::Status, Err(e)),
            Ok(p) => match path_result(old) {
                Err(e) => (NameStatusStateView::Status, Err(e)),
                Ok(o) => (
                    NameStatusStateView::Status,
                    Ok(Some(ChangedFileView { path: p, old_path: Some(o), status: s })),
                ),
            },
        },
    }
}

/// The end of the output in state `st`: fine between entries, an error inside
/// one.
pub open spec fn name_status_finish(st: NameStatusStateView) -> Result<(), GitErrorView> {
    match st {
        NameStatusStateView::Status => Ok(()),
        NameStatusStateView::Path(_) => Err(GitErrorView::Parse("missing path"@)),
        NameStatusStateView::OldPath(_) => Err(GitErrorView::Parse("missing old path"@)),
        NameStatusStateView::NewPath(_, _) => Err(GitErrorView::Parse("missing new path"@)),
    }
}

/// The state after the fields `fs`, and the entries read (or the first error).
pub open spec fn name_status_run(fs: Seq<Seq<u8>>) -> (
    NameStatusStateView,
    Result<Seq<ChangedFileView>, GitErrorView>,
)
    decreases fs.len(),
{
    if fs.len() == 0 {
        (NameStatusStateView::Status, Ok(seq![]))
    } else {
        let (st, acc) = name_status_run(fs.drop_last());
        match acc {
            Err(e) => (st, Err(e)),
            Ok(v) => {
                let (st2, r) = name_status_step(st, fs.last());
                match r {
                    Err(e) => (st2, Err(e)),
                    Ok(None) => (st2, Ok(v)),
                    Ok(Some(c)) => (st2, Ok(v.push(c))),
                }
            },
        }
    }
}

/// The entries of a complete `git diff --name-status -z` field sequence.
pub open spec fn name_status_spec(fs: Seq<Seq<u8>>) -> Result<Seq<ChangedFileView>, GitErrorView> {
    let (st, r) = name_status_run(fs);
    match r {
        Err(e) => Err(e),
        Ok(v) => match name_status_finish(st) {
            Ok(()) => Ok(v),
            Err(e) => Err(e),
        },
    }
}

pub open spec fn files_view(v: Seq<ChangedFile>) -> Seq<ChangedFileView> {
    v.map_values(|f: ChangedFile| f@)
}

/// The view of one step's result.
pub open spec fn entry_result_view(r: Result<Option<ChangedFile>, GitError>) -> Result<
    Option<ChangedFileView>,
    GitErrorView,
> {
    match r {
        Ok(Some(f)) => Ok(Some(f@)),
        Ok(None) => Ok(None),
        Err(e) => Err(e@),
    }
}

/// Streaming reader of `git diff --name-status -z` output, one NUL-terminated
/// field at a time: each status field is followed by one path, or by the old
/// and new paths of a rename / copy.
pub struct NameStatusParser {
    pub state: NameStatusState,
}

impl NameStatusParser {
    pub fn new() -> (p: Self)
        ensures
            p.state@ == NameStatusStateView::Status,
    {
        NameStatusParser { state: NameStatusState::Status }
    }

    /// Read one field; returns the entry it completes, if any.
    pub fn feed(&mut self, field: &[u8]) -> (r: Result<Option<ChangedFile>, GitError>)
        ensures
            (final(self).state@, entry_result_view(r)) == name_status_step(old(self).state@, field@),
    {
        let mut st = NameStatusState::Status;
        std::mem::swap(&mut st, &mut self.state);
        match st {
            NameStatusState::Status => {
                if field.len() == 0 {
                    return Ok(None);
                }
                let text = match decode_str(field) {
                    Some(t) => t,
                    None => {
                        return Err(GitError::Parse(owned("status not utf-8")));
                    },
                };
                let cs = chars_of(text.as_str());
                proof {
                    vstd::utf8::encode_utf8_decode_utf8(text@);
                    if cs@.len() == 0 {
                        assert(vstd::utf8::encode_utf8(cs@) =~= Seq::<u8>::empty());
                    }
                }
                let c = cs[0];
                if c == 'A' {
                    self.state = NameStatusState::Path(FileStatus::Added);
                } else if c == 'M' {
                    self.state = NameStatusState::Path(FileStatus::Modified);
                } else if c == 'D' {
                    self.state = NameStatusState::Path(FileStatus::Deleted);
                } else if c == 'T' {
                    self.state = NameStatusState::Path(FileStatus::TypeChanged);
                } else if c == 'R' {
                    self.state = NameStatusState::OldPath(FileStatus::Renamed);
                } else if c == 'C' {
                    self.state = NameStatusState::OldPath(FileStatus::Copied);
                }
                Ok(None)
            },
            NameStatusState::Path(s) => {
                let p = bytes_to_string(field)?;
                Ok(Some(ChangedFile { path: p, old_path: None, status: s }))
            },
            NameStatusState::OldPath(s) => {
                let mut v: Vec<u8> = Vec::new();
                let mut k: usize = 0;
                while k < field.len()
                    invariant
                        k <= field@.len(),
                        v@ == field@.subrange(0, k as int),
                    decreases field@.len() - k,
                {
                    v.push(field[k]);
                    k += 1;
                }
                assert(field@.subrange(0, field@.len() as int) =~= field@);
                self.state = NameStatusState::NewPath(s, v);
                Ok(None)
            },
            NameStatusState::NewPath(s, old) => {
                let p = bytes_to_string(field)?;
                let o = bytes_to_string(old.as_slice())?;
                Ok(Some(ChangedFile { path: p, old_path: Some(o), status: s }))
            },
        }
    }

    /// The end of the output: an error when it cuts an entry short.
    pub fn finish(&self) -> (r: Result<(), GitError>)
        ensures
            match (r, name_status_finish(self.state@)) {
                (Ok(()), Ok(())) => true,
                (Err(e), Err(x)) => e@ == x,
                _ => false,
            },
    {
        match &self.state {
            NameStatusState::Status => Ok(()),
            NameStatusState::Path(_) => Err(GitError::Parse(owned("missing path"))),
            NameStatusState::OldPath(_) => Err(GitError::Parse(owned("missing old path"))),
            NameStatusState::NewPath(_, _) => Err(GitError::Parse(owned("missing new path"))),
        }
    }
}

/// Parse complete `git diff --name-status -z` output into its entries.
pub fn parse_name_status(bytes: &[u8]) -> (r: Result<Vec<ChangedFile>, GitError>)
    ensures
        match (r, name_status_spec(nul_fields(bytes@))) {
            (Ok(v), Ok(w)) => files_view(v@) == w,
            (Err(e), Err(x)) => e@ == x,
            _ => false,
        },
{
    let rs0 = bsplit_ranges(bytes, 0);
    let ghost fs = nul_fields(bytes@);
    let n = if rs0.len() > 0 && rs0[rs0.len() - 1].0 == rs0[rs0.len() - 1].1 {
        rs0.len() - 1
    } else {
        rs0.len()
    };
    proof {
        let p = bsplit(bytes@, 0);
        if rs0@.len() > 0 {
            let l = rs0@[rs0@.len() - 1];
            assert(bytes@.subrange(l.0 as int, l.1 as int) == p.last());
        }
        assert(fs.len() == n);
    }
    let mut parser = NameStatusParser::new();
    let mut out: Vec<ChangedFile> = Vec::new();
    let mut i: usize = 0;
    assert(fs.subrange(0, 0) =~= Seq::<Seq<u8>>::empty());
    assert(files_view(out@) =~= Seq::<ChangedFileView>::empty());
    while i < n
        invariant
            fs == nul_fields(bytes@),
            n == fs.len(),
            n <= rs0@.len(),
            rs0@.len() == bsplit(bytes@, 0).len(),
            forall|k: int|
                0 <= k < rs0@.len() ==> (#[trigger] rs0@[k]).0 <= rs0@[k].1 <= bytes@.len()
                    && bytes@.subrange(rs0@[k].0 as int, rs0@[k].1 as int) == bsplit(bytes@, 0)[k],
            forall|k: int| 0 <= k < n ==> #[trigger] fs[k] == bsplit(bytes@, 0)[k],
            i <= n,
            name_status_run(fs.subrange(0, i as int)) == (
                parser.state@,
                Ok::<Seq<ChangedFileView>, GitErrorView>(files_view(out@)),
            ),
        decreases n - i,
    {
        let (a, b) = rs0[i];
        let field = slice_subrange(bytes, a, b);
        proof {
            assert(fs.subrange(0, i + 1).drop_last() =~= fs.subrange(0, i as int));
            assert(fs.subrange(0, i + 1).last() == fs[i as int]);
        }
        match parser.feed(field) {
            Ok(Some(f)) => {
                let ghost prev = out@;
                out.push(f);
                proof {
                    assert(files_view(out@) =~= files_view(prev).push(out@.last()@));
                }
            },
            Ok(None) => {},
            Err(e) => {
                proof {
                    lemma_name_status_err(fs, i as int + 1);
                }
                return Err(e);
            },
        }
        i += 1;
    }
    proof {
        assert(fs.subrange(0, n as int) =~= fs);
    }
    match parser.finish() {
        Ok(()) => Ok(out),
        Err(e) => Err(e),
    }
}

/// Once the fields read so far hold an error, the whole output fails with it.
proof fn lemma_name_status_err(fs: Seq<Seq<u8>>, i: int)
    requires
        0 <= i <= fs.len(),
        name_status_run(fs.subrange(0, i)).1 is Err,
    ensures
        name_status_spec(fs) == Err::<Seq<ChangedFileView>, GitErrorView>(
            name_status_run(fs.subrange(0, i)).1->Err_0,
        ),
    decreases fs.len() - i,
{
    if i < fs.len() {
        assert(fs.subrange(0, i + 1).drop_last() =~= fs.subrange(0, i));
        lemma_name_status_err(fs, i + 1);
    } else {
        assert(fs.subrange(0, i) =~= fs);
    }
}

// ---------------------------------------------------------------------------
// Unified diffs and hunks
// ---------------------------------------------------------------------------

/// The header and hunks of the lines `ls` of a single-file unified diff: every
/// line up to the first `@@` line is header; each hunk is an `@@` line plus
/// the lines up to the next one.
pub open spec fn split_diff_fold(ls: Seq<Seq<char>>) -> (Seq<char>, Seq<Seq<char>>)
    decreases ls.len(),
{
    if ls.len() == 0 {
        (seq![], seq![])
    } else {
        let (h, hs) = split_diff_fold(ls.drop_last());
        let l = ls.last();
        if starts_with(l, "@@"@) {
            (h, hs.push(l))
        } else if hs.len() > 0 {
            (h, hs.update(hs.len() - 1, hs.last() + l))
        } else {
            (h + l, hs)
        }
    }
}

/// `split_diff` of a text: header and hunks of its newline-terminated lines.
pub open spec fn split_diff_spec(text: Seq<char>) -> (Seq<char>, Seq<Seq<char>>) {
    split_diff_fold(split_inclusive(text, '\n'))
}

/// Header and hunks join back to the lines they came from.
pub proof fn lemma_split_diff_fold_concat(ls: Seq<Seq<char>>)
    ensures
        split_diff_fold(ls).0 + concat(split_diff_fold(ls).1) == concat(ls),
    decreases ls.len(),
{
    if ls.len() > 0 {
        lemma_split_diff_fold_concat(ls.drop_last());
        let (h, hs) = split_diff_fold(ls.drop_last());
        let l = ls.last();
        if starts_with(l, "@@"@) {
            assert(hs.push(l).drop_last() =~= hs);
            assert(h + (concat(hs) + l) =~= (h + concat(hs)) + l);
        } else if hs.len() > 0 {
            let hs2 = hs.update(hs.len() - 1, hs.last() + l);
            assert(hs2.drop_last() =~= hs.drop_last());
            assert(h + (concat(hs.drop_last()) + (hs.last() + l)) =~= (h + (concat(hs.drop_last())
                + hs.last())) + l);
        } else {
            assert(concat(hs) == Seq::<char>::empty());
            assert((h + l) + Seq::<char>::empty() =~= (h + Seq::<char>::empty()) + l);
        }
    }
}

/// The indices of the lines that open a hunk (start with `@@`), in order.
pub open spec fn hunk_starts(ls: Seq<Seq<char>>) -> Seq<int>
    decreases ls.len(),
{
    if ls.len() == 0 {
        seq![]
    } else if starts_with(ls.last(), "@@"@) {
        hunk_starts(ls.drop_last()).push(ls.len() - 1)
    } else {
        hunk_starts(ls.drop_last())
    }
}

/// Where hunk `k` ends: where the next one starts, or after the last line.
pub open spec fn hunk_end(st: Seq<int>, k: int, n: int) -> int {
    if k + 1 < st.len() {
        st[k + 1]
    } else {
        n
    }
}

/// Where the header ends: at the first hunk, or after the last line.
pub open spec fn header_end(st: Seq<int>, n: int) -> int {
    if st.len() > 0 {
        st[0]
    } else {
        n
    }
}

/// The shape of `(h, hs)` over the lines `ls`: `h` joins the lines before the
/// first `@@` line, none of which starts with `@@`; hunk `k` joins its `@@`
/// line and the following lines up to the next `@@` line, none of which
/// starts with `@@`.
pub open spec fn diff_shape(ls: Seq<Seq<char>>, h: Seq<char>, hs: Seq<Seq<char>>) -> bool {
    let st = hunk_starts(ls);
    let n = ls.len() as int;
    &&& hs.len() == st.len()
    &&& forall|k: int| 0 <= k < st.len() ==> 0 <= #[trigger] st[k] < n && starts_with(ls[st[k]], "@@"@)
    &&& forall|k: int| 0 <= k < st.len() ==> st[k] < #[trigger] hunk_end(st, k, n)
    &&& h == concat(ls.subrange(0, header_end(st, n)))
    &&& forall|i: int| 0 <= i < header_end(st, n) ==> !starts_with(#[trigger] ls[i], "@@"@)
    &&& forall|k: int| 0 <= k < st.len() ==> #[trigger] hs[k] == concat(ls.subrange(st[k], hunk_end(st, k, n)))
    &&& forall|k: int, i: int|
        #![trigger hunk_end(st, k, n), ls[i]]
        0 <= k < st.len() && st[k] < i < hunk_end(st, k, n) ==> !starts_with(ls[i], "@@"@)
}

proof fn lemma_concat_push(ss: Seq<Seq<char>>, x: Seq<char>)
    ensures
        concat(ss.push(x)) == concat(ss) + x,
{
    assert(ss.push(x).drop_last() =~= ss);
}

proof fn lemma_concat_single(x: Seq<char>)
    ensures
        concat(seq![x]) == x,
{
    assert(seq![x].drop_last() =~= Seq::<Seq<char>>::empty());
    assert(concat(Seq::<Seq<char>>::empty()) + x =~= x);
}

/// `split_diff_fold` has the shape `diff_shape` over its lines.
pub proof fn lemma_split_diff_fold_shape(ls: Seq<Seq<char>>)
    ensures
        diff_shape(ls, split_diff_fold(ls).0, split_diff_fold(ls).1),
    decreases ls.len(),
{
    let n = ls.len() as int;
    if n == 0 {
        assert(ls.subrange(0, 0) =~= Seq::<Seq<char>>::empty());
        return;
    }
    let p = ls.drop_last();
    lemma_split_diff_fold_shape(p);
    let (h0, hs0) = split_diff_fold(p);
    let st0 = hunk_starts(p);
    let st = hunk_starts(ls);
    let l = ls.last();
    let (h, hs) = split_diff_fold(ls);
    assert forall|a: int, b: int| 0 <= a <= b <= n - 1 implies ls.subrange(a, b) =~= p.subrange(a, b) by {}
    assert forall|i: int| 0 <= i < n - 1 implies ls[i] == p[i] by {}
    if starts_with(l, "@@"@) {
        assert(st == st0.push(n - 1));
        assert(hs == hs0.push(l));
        assert(ls.subrange(n - 1, n) =~= seq![l]);
        lemma_concat_single(l);
        assert forall|k: int| 0 <= k < st.len() implies 0 <= #[trigger] st[k] < n && starts_with(ls[st[k]], "@@"@) by {
            if k < st0.len() {
                assert(st[k] == st0[k]);
            }
        }
        assert forall|k: int| 0 <= k < st.len() implies st[k] < #[trigger] hunk_end(st, k, n) by {
            if k + 1 < st0.len() {
                assert(hunk_end(st, k, n) == hunk_end(st0, k, n - 1));
            }
        }
        if st0.len() == 0 {
            assert(header_end(st, n) == n - 1);
        } else {
            assert(header_end(st, n) == header_end(st0, n - 1));
        }
        assert forall|k: int| 0 <= k < st.len() implies #[trigger] hs[k] == concat(ls.subrange(st[k], hunk_end(st, k, n))) by {
            if k < st0.len() {
                assert(hunk_end(st, k, n) == hunk_end(st0, k, n - 1));
                assert(hs[k] == hs0[k]);
            }
        }
        assert forall|k: int, i: int|
            #![trigger hunk_end(st, k, n), ls[i]]
            0 <= k < st.len() && st[k] < i < hunk_end(st, k, n) implies !starts_with(ls[i], "@@"@) by {
            if k < st0.len() {
                assert(hunk_end(st, k, n) == hunk_end(st0, k, n - 1));
                assert(st[k] == st0[k]);
                assert(ls[i] == p[i]);
            }
        }
    } else {
        assert(st == st0);
        assert forall|k: int| 0 <= k < st.len() implies st[k] < #[trigger] hunk_end(st, k, n) by {
            if k + 1 < st0.len() {
                assert(hunk_end(st, k, n) == hunk_end(st0, k, n - 1));
            }
        }
        if hs0.len() > 0 {
            let last = st.len() - 1;
            assert(hs == hs0.update(hs0.len() - 1, hs0.last() + l));
            assert(ls.subrange(st[last], n) =~= p.subrange(st[last], n - 1).push(l));
            lemma_concat_push(p.subrange(st[last], n - 1), l);
            assert(header_end(st, n) == header_end(st0, n - 1));
            assert forall|k: int| 0 <= k < st.len() implies #[trigger] hs[k] == concat(ls.subrange(st[k], hunk_end(st, k, n))) by {
                if k < last {
                    assert(hunk_end(st, k, n) == hunk_end(st0, k, n - 1));
                    assert(hs[k] == hs0[k]);
                } else {
                    assert(hs0.last() == hs0[last]);
                }
            }
            assert forall|k: int, i: int|
                #![trigger hunk_end(st, k, n), ls[i]]
                0 <= k < st.len() && st[k] < i < hunk_end(st, k, n) implies !starts_with(ls[i], "@@"@) by {
                if i < n - 1 {
                    if k < last {
                        assert(hunk_end(st, k, n) == hunk_end(st0, k, n - 1));
                    } else {
                        assert(hunk_end(st0, k, n - 1) == n - 1);
                    }
                    assert(ls[i] == p[i]);
                }
            }
        } else {
            assert(h == h0 + l);
            assert(header_end(st, n) == n);
            assert(ls.subrange(0, n) =~= p.subrange(0, n - 1).push(l));
            lemma_concat_push(p.subrange(0, n - 1), l);
            assert forall|i: int| 0 <= i < header_end(st, n) implies !starts_with(#[trigger] ls[i], "@@"@) by {
                if i < n - 1 {
                    assert(ls[i] == p[i]);
                }
            }
        }
    }
}

/// The structure of a split diff: over the text's lines, the header joins
/// the lines before the first `@@` line (none of which starts with `@@`),
/// and hunk `k` joins its `@@` line with the lines after it up to the next
/// `@@` line (none of which starts with `@@`).
pub proof fn lemma_split_diff_shape(text: Seq<char>)
    ensures
        diff_shape(split_inclusive(text, '\n'), split_diff_spec(text).0, split_diff_spec(text).1),
{
    lemma_split_diff_fold_shape(split_inclusive(text, '\n'));
}

/// Split a single-file unified diff into `(header, hunks)`. The header is every
/// line up to the first `@@` (the `diff --git` / `---` / `+++` preamble); each
/// hunk is a `@@` line plus its body up to the next `@@` (or EOF). Lines keep
/// their trailing newline, so header and hunks reassemble the text exactly.
pub fn split_diff(text: &str) -> (r: (String, Vec<String>))
    ensures
        (r.0@, strs_view(r.1@)) == split_diff_spec(text@),
        r.0@ + concat(strs_view(r.1@)) == text@,
        diff_shape(split_inclusive(text@, '\n'), r.0@, strs_view(r.1@)),
{
    proof {
        lemma_split_diff_shape(text@);
    }
    let cs = chars_of(text);
    let rs = split_inclusive_ranges(cs.as_slice(), 0, cs.len(), '\n');
    let ghost ls = split_inclusive(text@, '\n');
    let at = chars_of("@@");
    assert(cs@.subrange(0, cs@.len() as int) =~= cs@);
    let mut header = String::new();
    let mut hunks: Vec<String> = Vec::new();
    let mut cur = String::new();
    let mut has_cur = false;
    let mut i: usize = 0;
    while i < rs.len()
        invariant
            cs@ == text@,
            at@ == "@@"@,
            ls == split_inclusive(text@, '\n'),
            ranges_match(cs@, rs@, ls, 0, cs@.len() as int),
            i <= rs@.len(),
            split_diff_fold(ls.subrange(0, i as int)) == (
                header@,
                if has_cur {
                    strs_view(hunks@).push(cur@)
                } else {
                    strs_view(hunks@)
                },
            ),
            !has_cur ==> hunks@.len() == 0,
        decreases rs@.len() - i,
    {
        let (a, b) = rs[i];
        let ghost l = ls[i as int];
        let ghost prev_hunks = hunks@;
        proof {
            assert(ls.subrange(0, i + 1).drop_last() =~= ls.subrange(0, i as int));
            assert(ls.subrange(0, i + 1).last() == l);
        }
        if has_prefix_at(cs.as_slice(), a, b, at.as_slice()) {
            if has_cur {
                hunks.push(cur);
            }
            cur = string_of(cs.as_slice(), a, b);
            has_cur = true;
        } else if has_cur {
            push_chars(&mut cur, cs.as_slice(), a, b);
        } else {
            push_chars(&mut header, cs.as_slice(), a, b);
        }
        proof {
            let (h, hs) = split_diff_fold(ls.subrange(0, i as int));
            if starts_with(l, "@@"@) {
                assert(strs_view(hunks@).push(cur@) =~= hs.push(l));
            } else if has_cur {
                assert(strs_view(hunks@).push(cur@) =~= hs.update(hs.len() - 1, hs.last() + l));
            }
        }
        i += 1;
    }
    if has_cur {
        hunks.push(cur);
    }
    proof {
        assert(ls.subrange(0, rs@.len() as int) =~= ls);
        lemma_split_diff_fold_concat(ls);
        lemma_concat_split_inclusive(text@, '\n');
        assert(split_diff_fold(ls).0 == header@);
        assert(split_diff_fold(ls).1 == strs_view(hunks@));
    }
    (header, hunks)
}

/// A lowercase hexadecimal digit.
pub open spec fn hex_char(d: nat) -> char {
    if d < 10 {
        (('0' as u32) + d) as char
    } else {
        (('a' as u32) + d - 10) as char
    }
}

/// The `k` lowest hexadecimal digits of `n`, least significant first.
pub open spec fn hex_rev(n: nat, k: nat) -> Seq<char>
    decreases k,
{
    if k == 0 {
        seq![]
    } else {
        seq![hex_char(n % 16)] + hex_rev(n / 16, (k - 1) as nat)
    }
}

proof fn lemma_hex_rev_len(n: nat, k: nat)
    ensures
        hex_rev(n, k).len() == k,
    decreases k,
{
    if k > 0 {
        lemma_hex_rev_len(n / 16, (k - 1) as nat);
    }
}

/// `format!("{:016x}", n)`: sixteen lowercase hex digits, zero-padded.
pub open spec fn hex16(n: u64) -> Seq<char> {
    hex_rev(n as nat, 16).reverse()
}

/// `n` as sixteen lowercase hexadecimal digits.
pub fn hex16_string(n: u64) -> (s: String)
    ensures
        s@ == hex16(n),
{
    let mut rev: Vec<char> = Vec::new();
    let mut m: u64 = n;
    let mut j: usize = 0;
    while j < 16
        invariant
            j <= 16,
            rev@ + hex_rev(m as nat, (16 - j) as nat) == hex_rev(n as nat, 16),
        decreases 16 - j,
    {
        let d = m % 16;
        let c = if d < 10 {
            char_of_ascii(48 + d as u8)
        } else {
            char_of_ascii(87 + d as u8)
        };
        proof {
            assert(c == hex_char((m % 16) as nat));
            assert(hex_rev(m as nat, (16 - j) as nat) == seq![c] + hex_rev((m / 16) as nat, (16 - j - 1) as nat));
            assert(rev@.push(c) + hex_rev((m / 16) as nat, (16 - j - 1) as nat) =~= rev@ + (seq![c]
                + hex_rev((m / 16) as nat, (16 - j - 1) as nat)));
        }
        rev.push(c);
        m = m / 16;
        j += 1;
    }
    proof {
        assert(rev@ + hex_rev(m as nat, 0) =~= rev@);
        lemma_hex_rev_len(n as nat, 16);
    }
    let mut s = String::new();
    assert(rev@.subrange(16, 16).reverse() =~= s@);
    let mut k: usize = 16;
    while k > 0
        invariant
            k <= 16,
            rev@.len() == 16,
            s@ == rev@.subrange(k as int, 16).reverse(),
        decreases k,
    {
        push_char(&mut s, rev[k - 1]);
        k -= 1;
        assert(rev@.subrange(k as int, 16).reverse() =~= rev@.subrange(k + 1, 16).reverse().push(
            rev@[k as int],
        ));
    }
    assert(rev@.subrange(0, 16) =~= rev@);
    s
}

/// The character of an ASCII code.
fn char_of_ascii(b: u8) -> (c: char)
    requires
        b < 128,
    ensures
        c as u32 == b as u32,
{
    b as char
}

/// The 64-bit hash std's `DefaultHasher` (as created by `new`) gives after
/// writing `bytes`.
pub uninterp spec fn default_hash(bytes: Seq<u8>) -> u64;

/// Hash of `bytes` with `std::collections::hash_map::DefaultHasher::new()`,
/// `write`, `finish`. Trusted: the result is named `default_hash`; every
/// hasher made by `new` starts from the same fixed state, so the result is a
/// function of the bytes for a given build of std. Nothing is promised of its
/// value.
#[verifier::external_body]
fn hash_bytes(bytes: &[u8]) -> (h: u64)
    ensures
        h == default_hash(bytes@),
{
    let mut h = std::collections::hash_map::DefaultHasher::new();
    h.write(bytes);
    h.finish()
}

/// Content signature of a hunk body: its hash as sixteen hex digits.
pub open spec fn hunk_id_spec(body: Seq<char>) -> Seq<char> {
    hex16(default_hash(vstd::utf8::encode_utf8(body)))
}

/// Content signature of a hunk body — a hash of its +/-/context lines. Stable
/// for the same content within a process, enough to track a hunk's
/// changelist assignment across re-diffs.
pub fn hunk_id(body: &str) -> (s: String)
    ensures
        s@ == hunk_id_spec(body@),
{
    hex16_string(hash_bytes(body.as_bytes()))
}

/// How many of the lines `ls` start with `c`.
pub open spec fn count_marked(ls: Seq<Seq<char>>, c: char) -> nat
    decreases ls.len(),
{
    if ls.len() == 0 {
        0
    } else {
        count_marked(ls.drop_last(), c) + if ls.last().len() > 0 && ls.last()[0] == c {
            1nat
        } else {
            0nat
        }
    }
}

proof fn lemma_count_marked_le(ls: Seq<Seq<char>>, c: char)
    ensures
        count_marked(ls, c) <= ls.len(),
    decreases ls.len(),
{
    if ls.len() > 0 {
        lemma_count_marked_le(ls.drop_last(), c);
    }
}

/// The hunk a block (its `@@` line plus body) describes.
pub open spec fn block_hunk(b: Seq<char>) -> HunkView {
    let body = nth_or_empty(splitn(b, 2, '\n'), 1);
    HunkView {
        id: hunk_id_spec(body),
        header: nth_or_empty(lines(b), 0),
        added: count_marked(lines(body), '+'),
        removed: count_marked(lines(body), '-'),
    }
}

/// `str::lines` of a text that ends at a line break, followed by one more
/// line `l` and its `'\n'`: the lines of the text, then that line.
proof fn lemma_lines_push(p: Seq<char>, l: Seq<char>, i: int)
    requires
        p.len() == 0 || p.last() == '\n',
        forall|t: int| 0 <= t < l.len() ==> l[t] != '\n',
        0 <= i <= p.len(),
    ensures
        lines_from(p + l + seq!['\n'], i) == lines_from(p, i).push(
            text::line_body(p + l + seq!['\n'], p.len() as int, (p.len() + l.len()) as int),
        ),
    decreases p.len() - i,
{
    let s = p + l + seq!['\n'];
    let e = (p.len() + l.len()) as int;
    if i == p.len() {
        assert forall|k: int| i <= k < e implies s[k] != '\n' by {
            assert(s[k] == l[k - p.len()]);
        }
        text::lemma_find_exact(s, '\n', i, e);
        assert(lines_from(s, e + 1) == Seq::<Seq<char>>::empty());
        assert(lines_from(p, i) == Seq::<Seq<char>>::empty());
        assert(lines_from(s, i) =~= seq![text::line_body(s, i, e)]);
    } else {
        text::lemma_find_from(p, '\n', i);
        let j = find_from(p, '\n', i);
        if j >= p.len() {
            assert(p[p.len() - 1] != '\n');
        }
        assert forall|k: int| i <= k < j implies s[k] != '\n' by {
            assert(s[k] == p[k]);
        }
        assert(s[j] == p[j]);
        text::lemma_find_exact(s, '\n', i, j);
        assert(text::line_body(s, i, j) =~= text::line_body(p, i, j)) by {
            if i < j {
                assert(s[j - 1] == p[j - 1]);
            }
            assert(s.subrange(i, j) =~= p.subrange(i, j));
            if i < j {
                assert(s.subrange(i, j - 1) =~= p.subrange(i, j - 1));
            }
        }
        lemma_lines_push(p, l, j + 1);
        assert(lines_from(s, i) == seq![text::line_body(s, i, j)] + lines_from(s, j + 1));
        assert(lines_from(p, i) == seq![text::line_body(p, i, j)] + lines_from(p, j + 1));
        assert(seq![text::line_body(p, i, j)] + lines_from(p, j + 1).push(text::line_body(s, p.len() as int, e))
            =~= (seq![text::line_body(p, i, j)] + lines_from(p, j + 1)).push(text::line_body(s, p.len() as int, e)));
    }
}

/// A hunk's counts go line by line: a hunk with an empty body adds and
/// removes nothing, and one more body line raises `added` by exactly one when
/// it starts with `+`, `removed` by exactly one when it starts with `-`, and
/// neither otherwise, whatever the line's length; the header stays.
pub proof fn lemma_hunk_counts_per_line(h: Seq<char>, body: Seq<char>, l: Seq<char>)
    requires
        forall|t: int| 0 <= t < h.len() ==> h[t] != '\n',
        body.len() == 0 || body.last() == '\n',
        forall|t: int| 0 <= t < l.len() ==> l[t] != '\n',
    ensures
        block_hunk(h + seq!['\n']).added == 0,
        block_hunk(h + seq!['\n']).removed == 0,
        block_hunk(h + seq!['\n'] + body + l + seq!['\n']).added == block_hunk(h + seq!['\n'] + body).added
            + if l.len() > 0 && l[0] == '+' { 1int } else { 0int },
        block_hunk(h + seq!['\n'] + body + l + seq!['\n']).removed == block_hunk(h + seq!['\n'] + body).removed
            + if l.len() > 0 && l[0] == '-' { 1int } else { 0int },
        block_hunk(h + seq!['\n'] + body + l + seq!['\n']).header == block_hunk(h + seq!['\n'] + body).header,
{
    let b1 = h + seq!['\n'] + body;
    let body2 = body + l + seq!['\n'];
    let b2 = h + seq!['\n'] + body2;
    assert(h + seq!['\n'] + body + l + seq!['\n'] =~= b2);
    let fs = seq![h];
    assert forall|k: int, t: int| 0 <= k < fs.len() && 0 <= t < fs[k].len() implies #[trigger] fs[k][t] != '\n' by {
        assert(fs[k] == h);
    }
    assert(fs.drop_first() =~= Seq::<Seq<char>>::empty());
    // body of the bigger block
    assert(fs[0] == h);
    assert(text::fields_line(fs.drop_first(), body2, '\n') == body2);
    assert(text::fields_line(fs, body2, '\n') =~= h + seq!['\n'] + body2);
    assert(b2.subrange(0, b2.len() as int) =~= b2);
    text::lemma_splitn_fields(b2, '\n', 0, fs, body2);
    assert(fs.push(body2) =~= seq![h, body2]);
    assert(nth_or_empty(splitn(b2, 2, '\n'), 1) == body2);
    // body of the smaller block
    assert(text::fields_line(fs.drop_first(), body, '\n') == body);
    assert(text::fields_line(fs, body, '\n') =~= h + seq!['\n'] + body);
    assert(b1.subrange(0, b1.len() as int) =~= b1);
    text::lemma_splitn_fields(b1, '\n', 0, fs, body);
    assert(fs.push(body) =~= seq![h, body]);
    assert(nth_or_empty(splitn(b1, 2, '\n'), 1) == body);
    // the empty body
    let b0 = h + seq!['\n'];
    assert(text::fields_line(fs.drop_first(), Seq::<char>::empty(), '\n') == Seq::<char>::empty());
    assert(text::fields_line(fs, Seq::<char>::empty(), '\n') =~= b0);
    assert(b0.subrange(0, b0.len() as int) =~= b0);
    text::lemma_splitn_fields(b0, '\n', 0, fs, Seq::<char>::empty());
    assert(fs.push(Seq::<char>::empty()) =~= seq![h, Seq::<char>::empty()]);
    assert(nth_or_empty(splitn(b0, 2, '\n'), 1) == Seq::<char>::empty());
    assert(lines(Seq::<char>::empty()) == Seq::<Seq<char>>::empty());
    // one more line
    lemma_lines_push(body, l, 0);
    let x = text::line_body(body2, body.len() as int, (body.len() + l.len()) as int);
    let ls = lines(body);
    assert(lines(body2) == ls.push(x));
    assert(ls.push(x).drop_last() =~= ls);
    assert(x.len() > 0 && x[0] == '+' <==> l.len() > 0 && l[0] == '+') by {
        if l.len() > 0 {
            assert(body2[body.len() as int] == l[0]);
            if l.len() == 1 && l[0] == '\r' {
            } else {
                assert(x[0] == l[0]);
            }
        }
    }
    assert(x.len() > 0 && x[0] == '-' <==> l.len() > 0 && l[0] == '-') by {
        if l.len() > 0 {
            assert(body2[body.len() as int] == l[0]);
            if l.len() == 1 && l[0] == '\r' {
            } else {
                assert(x[0] == l[0]);
            }
        }
    }
    // the header is the first line, the same in both blocks
    lemma_lines_push(h + seq!['\n'] + body, l, 0);
    assert(b1.len() > 0);
    assert(lines(b2) == lines(b1).push(text::line_body(b2, b1.len() as int, (b1.len() + l.len()) as int)));
    assert(b1 =~= h + seq!['\n'] + body);
    lemma_lines_first(b1);
    assert(lines(b2)[0] == lines(b1)[0]);
}

/// A non-empty text has at least one line.
proof fn lemma_lines_first(s: Seq<char>)
    requires
        s.len() > 0,
    ensures
        lines(s).len() > 0,
{
    text::lemma_find_from(s, '\n', 0);
}

pub open spec fn hunks_view(v: Seq<Hunk>) -> Seq<HunkView> {
    v.map_values(|h: Hunk| h@)
}

/// The display hunk of one block.
fn block_to_hunk(b: &str) -> (h: Hunk)
    requires
        b@.len() <= u32::MAX,
    ensures
        h@ == block_hunk(b@),
{
    let cs = chars_of(b);
    assert(cs@.subrange(0, cs@.len() as int) =~= cs@);
    let ls = lines_ranges(cs.as_slice(), 0, cs.len());
    let header = if ls.len() > 0 {
        let (a, e) = ls[0];
        string_of(cs.as_slice(), a, e)
    } else {
        String::new()
    };
    let parts = splitn_ranges(cs.as_slice(), 0, cs.len(), 2, '\n');
    let (lo, hi) = if parts.len() > 1 { parts[1] } else { (0, 0) };
    let body = if parts.len() > 1 { string_of(cs.as_slice(), lo, hi) } else { String::new() };
    let ghost bs = if parts.len() > 1 { cs@.subrange(lo as int, hi as int) } else { Seq::<char>::empty() };
    assert(body@ == bs);
    let bc = chars_of(body.as_str());
    assert(bc@.subrange(0, bc@.len() as int) =~= bc@);
    let brs = lines_ranges(bc.as_slice(), 0, bc.len());
    let ghost bls = lines(bs);
    proof {
        lemma_lines_len(bs, 0);
        if parts.len() > 1 {
            assert(bs.len() <= cs@.len());
        }
    }
    let mut added: u32 = 0;
    let mut removed: u32 = 0;
    let mut i: usize = 0;
    while i < brs.len()
        invariant
            bc@ == bs,
            bls == lines(bs),
            bls.len() <= bs.len() <= u32::MAX,
            ranges_match(bc@, brs@, bls, 0, bc@.len() as int),
            i <= brs@.len(),
            added == count_marked(bls.subrange(0, i as int), '+'),
            removed == count_marked(bls.subrange(0, i as int), '-'),
        decreases brs@.len() - i,
    {
        let (a, e) = brs[i];
        proof {
            assert(bls.subrange(0, i + 1).drop_last() =~= bls.subrange(0, i as int));
            assert(bls.subrange(0, i + 1).last() == bls[i as int]);
            lemma_count_marked_le(bls.subrange(0, i as int), '+');
            lemma_count_marked_le(bls.subrange(0, i as int), '-');
            if e > a {
                assert(bls[i as int][0] == bc@[a as int]);
            }
        }
        if e > a && bc[a] == '+' {
            added = added + 1;
        } else if e > a && bc[a] == '-' {
            removed = removed + 1;
        }
        i += 1;
    }
    proof {
        assert(bls.subrange(0, brs@.len() as int) =~= bls);
    }
    let id = hunk_id(body.as_str());
    Hunk { id, header, added, removed }
}

/// Parse a single-file unified diff into display hunks (header line + added /
/// removed line counts + content id).
pub fn parse_hunks(text: &str) -> (r: Vec<Hunk>)
    requires
        text@.len() <= u32::MAX,
    ensures
        hunks_view(r@) == split_diff_spec(text@).1.map_values(|b: Seq<char>| block_hunk(b)),
{
    let (_h, blocks) = split_diff(text);
    let ghost bv = strs_view(blocks@);
    let mut out: Vec<Hunk> = Vec::new();
    let mut i: usize = 0;
    while i < blocks.len()
        invariant
            bv == strs_view(blocks@),
            bv == split_diff_spec(text@).1,
            _h@ + concat(bv) == text@,
            text@.len() <= u32::MAX,
            i <= blocks@.len(),
            hunks_view(out@) == bv.subrange(0, i as int).map_values(|b: Seq<char>| block_hunk(b)),
        decreases blocks@.len() - i,
    {
        proof {
            lemma_concat_piece_len(bv, i as int);
        }
        let h = block_to_hunk(blocks[i].as_str());
        let ghost prev = out@;
        out.push(h);
        proof {
            assert(hunks_view(out@) =~= hunks_view(prev).push(h@));
            assert(bv.subrange(0, i + 1).map_values(|b: Seq<char>| block_hunk(b)) =~= bv.subrange(
                0,
                i as int,
            ).map_values(|b: Seq<char>| block_hunk(b)).push(block_hunk(bv[i as int])));
        }
        i += 1;
    }
    proof {
        assert(bv.subrange(0, blocks@.len() as int) =~= bv);
    }
    out
}

// ---------------------------------------------------------------------------
// `git status --porcelain=v2 --branch -z`
// ---------------------------------------------------------------------------

/// The porcelain-v2 XY pair of an entry token such as `"1 MM ..."`: the
/// characters at byte offsets 2 and 3 (`tok.get(2..3)`, `tok.get(3..4)`), which
/// exist only when the first four characters are single-byte.
pub open spec fn status_xy_spec(tok: Seq<char>) -> Option<(Seq<char>, Seq<char>)> {
    if tok.len() >= 4 && is_ascii(tok[0]) && is_ascii(tok[1]) && is_ascii(tok[2]) && is_ascii(tok[3]) {
        Some((seq![tok[2]], seq![tok[3]]))
    } else {
        None
    }
}

/// The path field of a porcelain-v2 entry: everything after the first `n`
/// spaces (`tok.splitn(n + 1, ' ').nth(n)`).
pub open spec fn status_path_spec(tok: Seq<char>, n: nat) -> Option<Seq<char>> {
    let ps = splitn(tok, n + 1, ' ');
    if ps.len() > n {
        Some(ps[n as int])
    } else {
        None
    }
}

/// The `+<ahead> -<behind>` words of a `# branch.ab` header, applied in order.
pub open spec fn ab_fold(parts: Seq<Seq<char>>, k: int, ahead: i64, behind: i64) -> (i64, i64)
    decreases parts.len() - k,
{
    if k < 0 || k >= parts.len() {
        (ahead, behind)
    } else {
        match strip_prefix(parts[k], seq!['+']) {
            Some(n) => ab_fold(parts, k + 1, parse_i64_spec(n).unwrap_or(0), behind),
            None => match strip_prefix(parts[k], seq!['-']) {
                Some(n) => ab_fold(parts, k + 1, ahead, parse_i64_spec(n).unwrap_or(0)),
                None => ab_fold(parts, k + 1, ahead, behind),
            },
        }
    }
}

/// A `# branch.*` header applied to the status gathered so far.
pub open spec fn status_header(st: RepoStatusView, tok: Seq<char>) -> RepoStatusView {
    match strip_prefix(tok, "# branch."@) {
        Some(rest) => match strip_prefix(rest, "head "@) {
            Some(v) => RepoStatusView {
                branch: if v != "(detached)"@ {
                    Some(v)
                } else {
                    None
                },
                ..st
            },
            None => match strip_prefix(rest, "upstream "@) {
                Some(v) => RepoStatusView { upstream: Some(v), ..st },
                None => match strip_prefix(rest, "ab "@) {
                    Some(v) => {
                        let ab = ab_fold(split_whitespace(v), 0, st.ahead, st.behind);
                        RepoStatusView { ahead: ab.0, behind: ab.1, ..st }
                    },
                    None => st,
                },
            },
        },
        None => st,
    }
}

/// An ordinary / renamed / unmerged entry whose path is field `n`.
pub open spec fn status_entry(
    st: RepoStatusView,
    tok: Seq<char>,
    n: nat,
    orig: Option<Seq<char>>,
) -> RepoStatusView {
    match (status_xy_spec(tok), status_path_spec(tok, n)) {
        (Some(xy), Some(path)) => RepoStatusView {
            entries: st.entries.push(
                StatusEntryView { path, orig_path: orig, index_status: xy.0, worktree_status: xy.1 },
            ),
            ..st
        },
        _ => st,
    }
}

/// The status read from tokens `toks[i..]`, starting from `st`.
pub open spec fn status_fold(toks: Seq<Seq<char>>, i: int, st: RepoStatusView) -> RepoStatusView
    decreases toks.len() - i,
{
    if i < 0 || i >= toks.len() {
        st
    } else {
        let tok = toks[i];
        if tok.len() == 0 {
            status_fold(toks, i + 1, st)
        } else if tok[0] == '#' {
            status_fold(toks, i + 1, status_header(st, tok))
        } else if tok[0] == '1' {
            status_fold(toks, i + 1, status_entry(st, tok, 8, None))
        } else if tok[0] == '2' {
            let orig = if i + 1 < toks.len() {
                Some(toks[i + 1])
            } else {
                None
            };
            status_fold(toks, if i + 2 <= toks.len() { i + 2 } else { toks.len() as int }, status_entry(st, tok, 9, orig))
        } else if tok[0] == 'u' {
            status_fold(toks, i + 1, status_entry(st, tok, 10, None))
        } else if tok[0] == '?' {
            let e = StatusEntryView {
                path: tok.subrange(2, tok.len() as int),
                orig_path: None,
                index_status: seq!['?'],
                worktree_status: seq!['?'],
            };
            status_fold(toks, i + 1, RepoStatusView { entries: st.entries.push(e), ..st })
        } else {
            status_fold(toks, i + 1, st)
        }
    }
}

/// Whether the untracked tokens that `status_fold` reads from `toks[i..]` can
/// be sliced at byte 2 (`tok[2..]`): a second character that is single-byte.
pub open spec fn status_ok_from(toks: Seq<Seq<char>>, i: int) -> bool
    decreases toks.len() - i,
{
    if i < 0 || i >= toks.len() {
        true
    } else {
        let tok = toks[i];
        if tok.len() > 0 && tok[0] == '2' {
            status_ok_from(toks, if i + 2 <= toks.len() { i + 2 } else { toks.len() as int })
        } else if tok.len() > 0 && tok[0] == '?' {
            tok.len() >= 2 && is_ascii(tok[1]) && status_ok_from(toks, i + 1)
        } else {
            status_ok_from(toks, i + 1)
        }
    }
}

pub open spec fn empty_status() -> RepoStatusView {
    RepoStatusView { entries: seq![], branch: None, upstream: None, ahead: 0, behind: 0 }
}

/// The status described by `git status --porcelain=v2 --branch -z` output.
pub open spec fn parse_status_spec(text: Seq<char>) -> RepoStatusView {
    status_fold(split(text, '\0'), 0, empty_status())
}

/// Whether `parse_status` accepts `text` (its untracked entries have a
/// single-byte separator after `?`).
pub open spec fn status_input_ok(text: Seq<char>) -> bool {
    status_ok_from(split(text, '\0'), 0)
}

/// A porcelain-v2 entry record: the type letter, the two-letter `XY` field
/// and the metadata fields, each followed by one space, then the path.
pub open spec fn status_record(kind: char, x: char, y: char, meta: Seq<Seq<char>>, path: Seq<char>) -> Seq<char> {
    text::fields_line(seq![seq![kind], seq![x, y]] + meta, path, ' ')
}

/// The entry a single porcelain-v2 record describes: for an ordinary record
/// (`1`, six metadata fields: sub, three modes, two hashes), a rename/copy
/// (`2`, seven: those and the score, then a NUL and the original path) and an
/// unmerged record (`u`, eight: sub, four modes, three hashes), the path is
/// everything after those fields — whatever spaces it holds — and the
/// statuses are the two `XY` letters.
pub proof fn lemma_status_record_entry(
    kind: char,
    x: char,
    y: char,
    meta: Seq<Seq<char>>,
    path: Seq<char>,
    orig: Seq<char>,
)
    requires
        (kind == '1' && meta.len() == 6) || (kind == '2' && meta.len() == 7) || (kind == 'u' && meta.len() == 8),
        is_ascii(x) && x != ' ' && x != '\0',
        is_ascii(y) && y != ' ' && y != '\0',
        forall|k: int, t: int| 0 <= k < meta.len() && 0 <= t < meta[k].len() ==> #[trigger] meta[k][t] != ' ' && meta[k][t] != '\0',
        forall|t: int| 0 <= t < path.len() ==> path[t] != '\0',
        forall|t: int| 0 <= t < orig.len() ==> orig[t] != '\0',
    ensures
        parse_status_spec(
            if kind == '2' {
                status_record(kind, x, y, meta, path) + seq!['\0'] + orig
            } else {
                status_record(kind, x, y, meta, path)
            },
        ).entries == seq![
            StatusEntryView {
                path,
                orig_path: if kind == '2' { Some(orig) } else { None },
                index_status: seq![x],
                worktree_status: seq![y],
            },
        ],
{
    let fs = seq![seq![kind], seq![x, y]] + meta;
    let tok = status_record(kind, x, y, meta, path);
    let n = meta.len() + 2;
    assert(fs.len() == n);
    // the record's layout: kind, space, X, Y, space, ...
    let tail = text::fields_line(fs.drop_first().drop_first(), path, ' ');
    assert(fs.drop_first()[0] == seq![x, y]);
    assert(fs.drop_first().drop_first() =~= meta);
    assert(text::fields_line(fs.drop_first(), path, ' ') == seq![x, y] + seq![' '] + tail);
    assert(tok == seq![kind] + seq![' '] + (seq![x, y] + seq![' '] + tail));
    assert(tok.len() >= 4 && tok[0] == kind && tok[1] == ' ' && tok[2] == x && tok[3] == y);
    assert(is_ascii(kind));
    assert(status_xy_spec(tok) == Some((seq![x], seq![y])));
    // the path field
    assert forall|k: int, t: int| 0 <= k < fs.len() && 0 <= t < fs[k].len() implies #[trigger] fs[k][t] != ' ' by {
        if k >= 2 {
            assert(fs[k] == meta[k - 2]);
        }
    }
    assert(tok.subrange(0, tok.len() as int) =~= tok);
    text::lemma_splitn_fields(tok, ' ', 0, fs, path);
    assert(status_path_spec(tok, n as nat) == Some(path));
    // no NUL inside the record
    assert forall|t: int| 0 <= t < tok.len() implies tok[t] != '\0' by {
        lemma_fields_line_no(fs, path, '\0', ' ', t);
    }
    let e = StatusEntryView {
        path,
        orig_path: if kind == '2' { Some(orig) } else { None },
        index_status: seq![x],
        worktree_status: seq![y],
    };
    if kind == '2' {
        let text = tok + seq!['\0'] + orig;
        text::lemma_split_append(text, tok, orig, '\0', 0);
        text::lemma_find_exact(tok, '\0', 0, tok.len() as int);
        assert(split(tok, '\0') == seq![tok.subrange(0, tok.len() as int)]);
        let toks = split(text, '\0');
        assert(toks =~= seq![tok, orig]);
        assert(status_fold(toks, 2, status_entry(empty_status(), tok, 9, Some(orig))) == status_entry(
            empty_status(),
            tok,
            9,
            Some(orig),
        ));
        assert(status_entry(empty_status(), tok, 9, Some(orig)).entries =~= seq![e]);
    } else {
        text::lemma_find_exact(tok, '\0', 0, tok.len() as int);
        let toks = split(tok, '\0');
        assert(toks =~= seq![tok]);
        let m: nat = if kind == '1' { 8 } else { 10 };
        assert(status_fold(toks, 1, status_entry(empty_status(), tok, m, None)) == status_entry(
            empty_status(),
            tok,
            m,
            None,
        ));
        assert(status_entry(empty_status(), tok, m, None).entries =~= seq![e]);
    }
}

/// An untracked record `? <path>` gives one entry for that path, with `?` as
/// both statuses and no original path.
pub proof fn lemma_status_untracked_entry(path: Seq<char>)
    requires
        forall|t: int| 0 <= t < path.len() ==> path[t] != '\0',
    ensures
        parse_status_spec(seq!['?', ' '] + path).entries == seq![
            StatusEntryView { path, orig_path: None, index_status: seq!['?'], worktree_status: seq!['?'] },
        ],
{
    let tok = seq!['?', ' '] + path;
    assert forall|t: int| 0 <= t < tok.len() implies tok[t] != '\0' by {
        if t >= 2 {
            assert(tok[t] == path[t - 2]);
        }
    }
    text::lemma_find_exact(tok, '\0', 0, tok.len() as int);
    assert(tok.subrange(0, tok.len() as int) =~= tok);
    let toks = split(tok, '\0');
    assert(toks =~= seq![tok]);
    assert(tok.subrange(2, tok.len() as int) =~= path);
    let st = RepoStatusView { entries: empty_status().entries.push(
        StatusEntryView { path, orig_path: None, index_status: seq!['?'], worktree_status: seq!['?'] }), ..empty_status() };
    assert(status_fold(toks, 1, st) == st);
}

/// A `# branch.head <name>` header names the current branch, or none when
/// HEAD is detached; `# branch.upstream <name>` names the upstream. Neither
/// adds an entry.
pub proof fn lemma_status_branch_headers(name: Seq<char>)
    requires
        forall|t: int| 0 <= t < name.len() ==> name[t] != '\0',
    ensures
        parse_status_spec("# branch.head "@ + name).branch == (if name == "(detached)"@ {
            None
        } else {
            Some(name)
        }),
        parse_status_spec("# branch.head "@ + name).entries.len() == 0,
        parse_status_spec("# branch.upstream "@ + name).upstream == Some(name),
        parse_status_spec("# branch.upstream "@ + name).entries.len() == 0,
{
    reveal_strlit("# branch.head ");
    reveal_strlit("# branch.upstream ");
    reveal_strlit("# branch.");
    reveal_strlit("head ");
    reveal_strlit("upstream ");
    let a = "# branch.head "@ + name;
    let b = "# branch.upstream "@ + name;
    assert forall|t: int| 0 <= t < a.len() implies a[t] != '\0' by {
        if t >= 14 {
            assert(a[t] == name[t - 14]);
        }
    }
    assert forall|t: int| 0 <= t < b.len() implies b[t] != '\0' by {
        if t >= 18 {
            assert(b[t] == name[t - 18]);
        }
    }
    text::lemma_find_exact(a, '\0', 0, a.len() as int);
    text::lemma_find_exact(b, '\0', 0, b.len() as int);
    assert(a.subrange(0, a.len() as int) =~= a);
    assert(b.subrange(0, b.len() as int) =~= b);
    assert(split(a, '\0') =~= seq![a]);
    assert(split(b, '\0') =~= seq![b]);
    assert(status_fold(split(a, '\0'), 1, status_header(empty_status(), a)) == status_header(empty_status(), a));
    assert(status_fold(split(b, '\0'), 1, status_header(empty_status(), b)) == status_header(empty_status(), b));
    assert(a.subrange(0, 9) =~= "# branch."@);
    assert(a.subrange(9, a.len() as int).subrange(0, 5) =~= "head "@);
    assert(a.subrange(9, a.len() as int).subrange(5, a.len() - 9) =~= name);
    assert(b.subrange(0, 9) =~= "# branch."@);
    assert(b.subrange(9, b.len() as int).subrange(0, 5) != "head "@) by {
        assert(b.subrange(9, b.len() as int).subrange(0, 5)[0] == 'u');
    }
    assert(b.subrange(9, b.len() as int).subrange(0, 9) =~= "upstream "@);
    assert(b.subrange(9, b.len() as int).subrange(9, b.len() - 9) =~= name);
}

/// A character that neither the fields nor the rest hold, nor the separator,
/// is nowhere in the record.
proof fn lemma_fields_line_no(fs: Seq<Seq<char>>, rest: Seq<char>, z: char, c: char, t: int)
    requires
        z != c,
        forall|k: int, u: int| 0 <= k < fs.len() && 0 <= u < fs[k].len() ==> #[trigger] fs[k][u] != z,
        forall|u: int| 0 <= u < rest.len() ==> rest[u] != z,
        0 <= t < text::fields_line(fs, rest, c).len(),
    ensures
        text::fields_line(fs, rest, c)[t] != z,
    decreases fs.len(),
{
    if fs.len() > 0 {
        let f = fs[0];
        let tail = text::fields_line(fs.drop_first(), rest, c);
        if t < f.len() {
            assert(fs[0][t] != z);
        } else if t > f.len() {
            assert forall|k: int, u: int| 0 <= k < fs.drop_first().len() && 0 <= u < fs.drop_first()[k].len() implies #[trigger] fs.drop_first()[k][u] != z by {
                assert(fs.drop_first()[k] == fs[k + 1]);
            }
            lemma_fields_line_no(fs.drop_first(), rest, z, c, t - f.len() - 1);
        }
    }
}

/// `status_xy` on `cs[a..b]`.
fn status_xy(cs: &[char], a: usize, b: usize) -> (r: Option<(String, String)>)
    requires
        a <= b <= cs@.len(),
    ensures
        match (r, status_xy_spec(cs@.subrange(a as int, b as int))) {
            (Some(p), Some(q)) => p.0@ == q.0 && p.1@ == q.1,
            (None, None) => true,
            _ => false,
        },
{
    let ghost tok = cs@.subrange(a as int, b as int);
    if b - a >= 4 && ascii(cs[a]) && ascii(cs[a + 1]) && ascii(cs[a + 2]) && ascii(cs[a + 3]) {
        let x = string_of(cs, a + 2, a + 3);
        let y = string_of(cs, a + 3, a + 4);
        proof {
            assert(x@ =~= seq![tok[2]]);
            assert(y@ =~= seq![tok[3]]);
        }
        Some((x, y))
    } else {
        proof {
            if tok.len() >= 4 {
                assert(tok[0] == cs@[a as int] && tok[1] == cs@[a + 1] && tok[2] == cs@[a + 2]
                    && tok[3] == cs@[a + 3]);
            }
        }
        None
    }
}

/// `status_path` on `cs[a..b]`.
fn status_path(cs: &[char], a: usize, b: usize, n: usize) -> (r: Option<String>)
    requires
        a <= b <= cs@.len(),
        n < usize::MAX,
    ensures
        opt_view(r) == status_path_spec(cs@.subrange(a as int, b as int), n as nat),
{
    let rs = splitn_ranges(cs, a, b, n + 1, ' ');
    if rs.len() > n {
        let (p, q) = rs[n];
        Some(string_of(cs, p, q))
    } else {
        None
    }
}

/// Applies the `ab` header words in `cs[lo..hi]` to `(ahead, behind)`.
fn apply_ab(cs: &[char], lo: usize, hi: usize, ahead: i64, behind: i64) -> (r: (i64, i64))
    requires
        lo <= hi <= cs@.len(),
    ensures
        r == ab_fold(split_whitespace(cs@.subrange(lo as int, hi as int)), 0, ahead, behind),
{
    let ghost parts = split_whitespace(cs@.subrange(lo as int, hi as int));
    let rs = split_ws_ranges(cs, lo, hi);
    let mut a = ahead;
    let mut b = behind;
    let mut k: usize = 0;
    while k < rs.len()
        invariant
            lo <= hi <= cs@.len(),
            k <= rs@.len(),
            ranges_match(cs@, rs@, parts, lo as int, hi as int),
            ab_fold(parts, 0, ahead, behind) == ab_fold(parts, k as int, a, b),
        decreases rs@.len() - k,
    {
        let (p, q) = rs[k];
        assert(cs@.subrange(p as int, q as int) == parts[k as int]);
        if q > p && cs[p] == '+' {
            proof {
                assert(strip_prefix(parts[k as int], seq!['+']) == Some(cs@.subrange(p + 1, q as int)))
                    by {
                    assert(parts[k as int].subrange(0, 1) =~= seq!['+']);
                    assert(parts[k as int].subrange(1, parts[k as int].len() as int) =~= cs@.subrange(p + 1, q as int));
                }
            }
            a = match parse_i64(cs, p + 1, q) {
                Some(v) => v,
                None => 0,
            };
        } else if q > p && cs[p] == '-' {
            proof {
                let w = parts[k as int];
                assert(w[0] == '-');
                assert(w.subrange(0, 1)[0] == '-');
                assert(seq!['+'][0] == '+');
                assert(w.subrange(0, 1) != seq!['+']);
                assert(strip_prefix(parts[k as int], seq!['+']) is None);
                assert(strip_prefix(parts[k as int], seq!['-']) == Some(cs@.subrange(p + 1, q as int)))
                    by {
                    assert(parts[k as int].subrange(0, 1) =~= seq!['-']);
                    assert(parts[k as int].subrange(1, parts[k as int].len() as int) =~= cs@.subrange(p + 1, q as int));
                }
            }
            b = match parse_i64(cs, p + 1, q) {
                Some(v) => v,
                None => 0,
            };
        } else {
            proof {
                let w = parts[k as int];
                if q > p {
                    assert(w[0] == cs@[p as int]);
                    assert(w.subrange(0, 1)[0] == cs@[p as int]);
                    assert(seq!['+'][0] == '+');
                    assert(seq!['-'][0] == '-');
                    assert(w.subrange(0, 1) != seq!['+']);
                    assert(w.subrange(0, 1) != seq!['-']);
                }
                assert(strip_prefix(w, seq!['+']) is None);
                assert(strip_prefix(w, seq!['-']) is None);
            }
        }
        k += 1;
    }
    (a, b)
}

/// Applies the header token `cs[lo..hi]` to `st`.
fn apply_status_header(st: &mut RepoStatus, cs: &[char], lo: usize, hi: usize)
    requires
        lo <= hi <= cs@.len(),
    ensures
        final(st)@ == status_header(old(st)@, cs@.subrange(lo as int, hi as int)),
{
    let ghost tok = cs@.subrange(lo as int, hi as int);
    let pfx = chars_of("# branch.");
    if !has_prefix_at(cs, lo, hi, pfx.as_slice()) {
        return;
    }
    let r = lo + pfx.len();
    proof {
        lemma_sub_sub(cs@, lo as int, hi as int, pfx@.len() as int, hi - lo);
    }
    let ghost rest = cs@.subrange(r as int, hi as int);
    let head = chars_of("head ");
    let upstream = chars_of("upstream ");
    let ab = chars_of("ab ");
    if has_prefix_at(cs, r, hi, head.as_slice()) {
        let v0 = r + head.len();
        proof {
            lemma_sub_sub(cs@, r as int, hi as int, head@.len() as int, hi - r);
        }
        let detached = chars_of("(detached)");
        if equals_at(cs, v0, hi, detached.as_slice()) {
            st.branch = None;
        } else {
            st.branch = Some(string_of(cs, v0, hi));
        }
    } else if has_prefix_at(cs, r, hi, upstream.as_slice()) {
        let v0 = r + upstream.len();
        proof {
            lemma_sub_sub(cs@, r as int, hi as int, upstream@.len() as int, hi - r);
        }
        st.upstream = Some(string_of(cs, v0, hi));
    } else if has_prefix_at(cs, r, hi, ab.as_slice()) {
        let v0 = r + ab.len();
        proof {
            lemma_sub_sub(cs@, r as int, hi as int, ab@.len() as int, hi - r);
        }
        let (a, b) = apply_ab(cs, v0, hi, st.ahead, st.behind);
        st.ahead = a;
        st.behind = b;
    }
}

/// Pushes the entry of token `cs[a..b]` whose path is field `n`.
fn push_status_entry(st: &mut RepoStatus, cs: &[char], a: usize, b: usize, n: usize, orig: Option<String>)
    requires
        a <= b <= cs@.len(),
        n < usize::MAX,
    ensures
        final(st)@ == status_entry(old(st)@, cs@.subrange(a as int, b as int), n as nat, opt_view(orig)),
{
    let xy = status_xy(cs, a, b);
    let path = status_path(cs, a, b, n);
    match (xy, path) {
        (Some((x, y)), Some(path)) => {
            let ghost old_entries = st.entries@;
            st.entries.push(StatusEntry { path, orig_path: orig, index_status: x, worktree_status: y });
            proof {
                assert(st.entries@.map_values(|e: StatusEntry| e@) =~= old_entries.map_values(
                    |e: StatusEntry| e@,
                ).push(st.entries@.last()@));
            }
        },
        _ => {},
    }
}

/// Whether `parse_status` accepts `text`.
pub fn status_text_ok(text: &str) -> (b: bool)
    ensures
        b == status_input_ok(text@),
{
    let cs = chars_of(text);
    let rs = split_ranges(cs.as_slice(), 0, cs.len(), '\0');
    let ghost toks = split(text@, '\0');
    assert(cs@.subrange(0, cs@.len() as int) =~= cs@);
    let mut i: usize = 0;
    while i < rs.len()
        invariant
            cs@ == text@,
            toks == split(text@, '\0'),
            ranges_match(cs@, rs@, toks, 0, cs@.len() as int),
            status_ok_from(toks, 0) == status_ok_from(toks, i as int),
        decreases rs@.len() - i,
    {
        let (a, b) = rs[i];
        assert(cs@.subrange(a as int, b as int) == toks[i as int]);
        proof {
            if b > a {
                assert(toks[i as int][0] == cs@[a as int]);
            }
        }
        if b > a && cs[a] == '2' {
            i = if i + 1 < rs.len() { i + 2 } else { rs.len() };
        } else if b > a && cs[a] == '?' {
            if !(b - a >= 2 && ascii(cs[a + 1])) {
                proof {
                    if b - a >= 2 {
                        assert(toks[i as int][1] == cs@[a + 1]);
                    }
                    assert(!status_ok_from(toks, i as int));
                    assert(status_input_ok(text@) == status_ok_from(toks, 0));
                }
                return false;
            }
            i += 1;
        } else {
            i += 1;
        }
    }
    true
}

/// The containment of a source against a target from what git printed: the
/// commits `rev-list <source|--all> --not <target>` listed; and, for a single
/// source ref, the patch-equivalent commits `git cherry` marked and the
/// ahead/behind counts of `rev-list --left-right --count target...source`
/// (its left number is how far the source is behind, its right how far
/// ahead). Without a single source ref there are no equivalents and both
/// counts are 0.
pub fn containment_of(source_is_branch: bool, rev_list: &str, cherry: &str, counts: &str) -> (c: Containment)
    ensures
        strs_view(c.not_in_target@) == trimmed_nonempty(lines(rev_list@)),
        c.source_is_branch == source_is_branch,
        source_is_branch ==> strs_view(c.equivalent@) == cherry_fold(lines(cherry@)),
        source_is_branch ==> c.behind == word_i64(split_whitespace(counts@), 0),
        source_is_branch ==> c.ahead == word_i64(split_whitespace(counts@), 1),
        !source_is_branch ==> c.equivalent@.len() == 0 && c.ahead == 0 && c.behind == 0,
{
    let not_in_target = nonempty_lines(rev_list);
    if !source_is_branch {
        return Containment { not_in_target, equivalent: Vec::new(), ahead: 0, behind: 0, source_is_branch };
    }
    let equivalent = parse_cherry_equivalent(cherry);
    let (behind, ahead) = parse_ahead_behind(counts);
    Containment { not_in_target, equivalent, ahead, behind, source_is_branch }
}

/// The merge that brought a commit into the target: the last (oldest) of the
/// merges `rev-list --ancestry-path --merges sha..target` listed, if any.
pub fn introducing_merge(merges: &str) -> (r: Option<String>)
    ensures
        trimmed_nonempty(lines(merges@)).len() == 0 ==> r is None,
        trimmed_nonempty(lines(merges@)).len() > 0 ==> (r matches Some(s) && s@ == trimmed_nonempty(
            lines(merges@),
        ).last()),
{
    let mut shas = nonempty_lines(merges);
    let ghost before = shas@;
    let r = shas.pop();
    proof {
        if before.len() > 0 {
            assert(strs_view(before).last() == before.last()@);
        }
    }
    r
}

/// Checks the path of a per-file diff and, for a rename, its old path, in
/// that order.
pub fn validate_diff_paths(file_path: &str, old_path: Option<&str>) -> (r: Result<(), GitError>)
    ensures
        bad_arg(file_path@) ==> (r matches Err(e) && e@ == GitErrorView::InvalidRef("invalid path: "@ + file_path@)),
        !bad_arg(file_path@) ==> match old_path {
            Some(p) => match r {
                Ok(()) => !bad_arg(p@),
                Err(e) => bad_arg(p@) && e@ == GitErrorView::InvalidRef("invalid path: "@ + p@),
            },
            None => r is Ok,
        },
{
    validate_path(file_path)?;
    match old_path {
        Some(p) => validate_path(p),
        None => Ok(()),
    }
}

/// Parse `git status --porcelain=v2 --branch -z` output. Records are
/// NUL-separated; a rename/copy (type `2`) entry is followed by a second NUL
/// field holding the original path. Header lines (`# branch.*`) carry the
/// current branch, upstream, and ahead/behind.
pub fn parse_status(text: &str) -> (st: RepoStatus)
    requires
        status_input_ok(text@),
    ensures
        st@ == parse_status_spec(text@),
{
    let cs = chars_of(text);
    let rs = split_ranges(cs.as_slice(), 0, cs.len(), '\0');
    let ghost toks = split(text@, '\0');
    assert(cs@.subrange(0, cs@.len() as int) =~= cs@);
    let mut st = RepoStatus { entries: Vec::new(), branch: None, upstream: None, ahead: 0, behind: 0 };
    assert(st@ == empty_status()) by {
        assert(st.entries@.map_values(|e: StatusEntry| e@) =~= Seq::<StatusEntryView>::empty());
    }
    let mut i: usize = 0;
    while i < rs.len()
        invariant
            cs@ == text@,
            toks == split(text@, '\0'),
            ranges_match(cs@, rs@, toks, 0, cs@.len() as int),
            status_fold(toks, 0, empty_status()) == status_fold(toks, i as int, st@),
            status_ok_from(toks, i as int),
        decreases rs@.len() - i,
    {
        let (a, b) = rs[i];
        assert(cs@.subrange(a as int, b as int) == toks[i as int]);
        let ghost st0 = st@;
        let ghost i0 = i as int;
        proof {
            if b > a {
                assert(toks[i as int][0] == cs@[a as int]);
            }
        }
        if b == a {
            i += 1;
        } else if cs[a] == '#' {
            apply_status_header(&mut st, cs.as_slice(), a, b);
            i += 1;
            assert(status_fold(toks, i0, st0) == status_fold(toks, i as int, st@));
        } else if cs[a] == '1' {
            push_status_entry(&mut st, cs.as_slice(), a, b, 8, None);
            i += 1;
            assert(status_fold(toks, i0, st0) == status_fold(toks, i as int, st@));
        } else if cs[a] == '2' {
            let orig = if i + 1 < rs.len() {
                let (p, q) = rs[i + 1];
                assert(cs@.subrange(p as int, q as int) == toks[i + 1]);
                Some(string_of(cs.as_slice(), p, q))
            } else {
                None
            };
            push_status_entry(&mut st, cs.as_slice(), a, b, 9, orig);
            i = if i + 1 < rs.len() { i + 2 } else { rs.len() };
            proof {
                let o = if i0 + 1 < toks.len() { Some(toks[i0 + 1]) } else { None };
                assert(st@ == status_entry(st0, toks[i0], 9, o));
                assert(status_fold(toks, i0, st0) == status_fold(toks, i as int, st@));
            }
        } else if cs[a] == 'u' {
            push_status_entry(&mut st, cs.as_slice(), a, b, 10, None);
            i += 1;
            assert(status_fold(toks, i0, st0) == status_fold(toks, i as int, st@));
        } else if cs[a] == '?' {
            let path = string_of(cs.as_slice(), a + 2, b);
            let q = chars_of("?");
            proof {
                reveal_strlit("?");
            }
            assert(q@ =~= seq!['?']);
            let x = string_of(q.as_slice(), 0, 1);
            let y = string_of(q.as_slice(), 0, 1);
            assert(x@ =~= seq!['?']);
            assert(y@ =~= seq!['?']);
            let ghost old_entries = st.entries@;
            st.entries.push(
                StatusEntry {
                    path,
                    orig_path: None,
                    index_status: x,
                    worktree_status: y,
                },
            );
            proof {
                assert(st.entries@.map_values(|e: StatusEntry| e@) =~= old_entries.map_values(
                    |e: StatusEntry| e@,
                ).push(st.entries@.last()@));
                assert(path@ =~= toks[i as int].subrange(2, toks[i as int].len() as int));
            }
            i += 1;
            assert(status_fold(toks, i0, st0) == status_fold(toks, i as int, st@));
        } else {
            i += 1;
            assert(status_fold(toks, i0, st0) == status_fold(toks, i as int, st@));
        }
    }
    st
}

} // verus!
