//! Server-side line/word diff for the text viewer.
//!
//! Offsets are measured in UTF-16 code units, matching the editor's document
//! coordinates, and line endings are normalized to `\n` first, so `\r\n` vs
//! `\n` never registers as a change.

use vstd::prelude::*;

use similar::{DiffTag, TextDiff};

use crate::text::{
    self, chars_of, incl_start_indices, incl_starts, lemma_incl_starts_from, lemma_utf16_mono,
    lemma_utf16_split, lemma_utf16_units_range, push_char, split_inclusive, string_of, utf16_prefix,
};

verus! {

/// A changed range in UTF-16 offsets (`from_a`/`to_a` in the old document,
/// `from_b`/`to_b` in the new).
#[derive(Debug, Clone, Copy, PartialEq, Eq, Structural)]
pub struct Change {
    pub from_a: u32,
    pub to_a: u32,
    pub from_b: u32,
    pub to_b: u32,
}

/// `s` with every `"\r\n"` and every remaining lone `'\r'` turned into `'\n'`.
pub open spec fn normalized(s: Seq<char>) -> Seq<char>
    decreases s.len(),
{
    if s.len() == 0 {
        seq![]
    } else if s[0] == '\r' {
        if s.len() > 1 && s[1] == '\n' {
            seq!['\n'] + normalized(s.subrange(2, s.len() as int))
        } else {
            seq!['\n'] + normalized(s.drop_first())
        }
    } else {
        seq![s[0]] + normalized(s.drop_first())
    }
}

/// Normalizing leaves no carriage return behind.
pub proof fn lemma_normalized_has_no_cr(s: Seq<char>)
    ensures
        forall|k: int| 0 <= k < normalized(s).len() ==> normalized(s)[k] != '\r',
        normalized(s).len() <= s.len(),
    decreases s.len(),
{
    if s.len() > 0 {
        if s[0] == '\r' && s.len() > 1 && s[1] == '\n' {
            lemma_normalized_has_no_cr(s.subrange(2, s.len() as int));
        } else {
            lemma_normalized_has_no_cr(s.drop_first());
        }
    }
}

/// Text without a carriage return is left as it is.
pub proof fn lemma_normalized_no_cr_unchanged(s: Seq<char>)
    requires
        forall|k: int| 0 <= k < s.len() ==> s[k] != '\r',
    ensures
        normalized(s) == s,
    decreases s.len(),
{
    if s.len() > 0 {
        lemma_normalized_no_cr_unchanged(s.drop_first());
        assert(seq![s[0]] + s.drop_first() =~= s);
    }
}

/// Normalizing never lengthens a text in UTF-16 units.
pub proof fn lemma_normalized_utf16(s: Seq<char>)
    ensures
        text::utf16_len(normalized(s)) <= text::utf16_len(s),
    decreases s.len(),
{
    if s.len() > 0 {
        let rest = if s[0] == '\r' && s.len() > 1 && s[1] == '\n' {
            s.subrange(2, s.len() as int)
        } else {
            s.drop_first()
        };
        lemma_normalized_utf16(rest);
        let head = if s[0] == '\r' { '\n' } else { s[0] };
        text::lemma_utf16_concat(seq![head], normalized(rest));
        let pre = s.subrange(0, s.len() - rest.len());
        assert(pre + rest =~= s);
        text::lemma_utf16_concat(pre, rest);
        text::lemma_utf16_single(head);
        text::lemma_utf16_split(pre, 0, 1);
        assert(pre.subrange(0, 1) =~= seq![s[0]]);
        text::lemma_utf16_single(s[0]);
        assert(pre.subrange(0, pre.len() as int) =~= pre);
    }
}

/// Normalizing twice is normalizing once.
pub proof fn lemma_normalize_idempotent(s: Seq<char>)
    ensures
        normalized(normalized(s)) == normalized(s),
{
    lemma_normalized_has_no_cr(s);
    lemma_normalized_no_cr_unchanged(normalized(s));
}

/// Normalize CRLF and lone-CR line endings to LF. Callers must return the
/// normalized string as the editor document so offsets stay consistent.
pub fn normalize_eol(s: &str) -> (r: String)
    ensures
        r@ == normalized(s@),
        forall|k: int| 0 <= k < r@.len() ==> r@[k] != '\r',
{
    let cs = chars_of(s);
    let n = cs.len();
    let mut out = String::new();
    let mut i: usize = 0;
    proof {
        assert(cs@.subrange(0, n as int) =~= cs@);
    }
    while i < n
        invariant
            n == cs@.len(),
            i <= n,
            out@ + normalized(cs@.subrange(i as int, n as int)) == normalized(cs@),
        decreases n - i,
    {
        let ghost rest = cs@.subrange(i as int, n as int);
        if cs[i] == '\r' {
            push_char(&mut out, '\n');
            if i + 1 < n && cs[i + 1] == '\n' {
                proof {
                    assert(rest.subrange(2, rest.len() as int) =~= cs@.subrange(i + 2, n as int));
                }
                i += 2;
            } else {
                proof {
                    assert(rest.drop_first() =~= cs@.subrange(i + 1, n as int));
                }
                i += 1;
            }
        } else {
            push_char(&mut out, cs[i]);
            proof {
                assert(rest.drop_first() =~= cs@.subrange(i + 1, n as int));
            }
            i += 1;
        }
        proof {
            assert(out@ + normalized(cs@.subrange(i as int, n as int)) =~= normalized(cs@));
        }
    }
    proof {
        assert(cs@.subrange(n as int, n as int) =~= Seq::<char>::empty());
        assert(out@ + Seq::<char>::empty() =~= out@);
        lemma_normalized_has_no_cr(s@);
    }
    out
}

// ---------------------------------------------------------------------------
// Line and character diffs
// ---------------------------------------------------------------------------

/// Replace blocks larger than this (UTF-16 units, on either side) are emitted
/// as one line-level change instead of being refined into word-level ranges.
pub const REFINE_MAX_UTF16: u32 = 2000;

/// The four kinds of diff operation.
#[derive(Debug, Clone, Copy, PartialEq, Eq, Structural)]
pub enum DiffKind {
    Equal,
    Delete,
    Insert,
    Replace,
}

/// One diff operation over token indices: the old tokens `old_lo..old_hi`
/// against the new tokens `new_lo..new_hi`.
#[derive(Debug, Clone, Copy, PartialEq, Eq, Structural)]
pub struct DiffSpan {
    pub kind: DiffKind,
    pub old_lo: usize,
    pub old_hi: usize,
    pub new_lo: usize,
    pub new_hi: usize,
}

/// No carriage return anywhere in `s`.
pub open spec fn no_cr(s: Seq<char>) -> bool {
    forall|k: int| 0 <= k < s.len() ==> s[k] != '\r'
}

/// Every operation's ranges are ordered and lie within `n_old` / `n_new` tokens.
pub open spec fn spans_within(ops: Seq<DiffSpan>, n_old: int, n_new: int) -> bool {
    forall|k: int|
        0 <= k < ops.len() ==> {
            &&& (#[trigger] ops[k]).old_lo <= ops[k].old_hi <= n_old
            &&& ops[k].new_lo <= ops[k].new_hi <= n_new
        }
}

/// The operations come in order: each ends, on both sides, no later than
/// any following one starts.
pub open spec fn spans_ordered(ops: Seq<DiffSpan>) -> bool {
    forall|k: int, j: int|
        0 <= k < j < ops.len() ==> (#[trigger] ops[k]).old_hi <= (#[trigger] ops[j]).old_lo
            && ops[k].new_hi <= ops[j].new_lo
}

/// Every operation is an `Equal`.
pub open spec fn all_equal(ops: Seq<DiffSpan>) -> bool {
    forall|k: int| 0 <= k < ops.len() ==> (#[trigger] ops[k]).kind == DiffKind::Equal
}

/// Each operation starts, on both sides, where the one before it ended, and
/// the first starts at token 0.
pub open spec fn spans_chained(ops: Seq<DiffSpan>) -> bool {
    &&& ops.len() > 0 ==> ops[0].old_lo == 0 && ops[0].new_lo == 0
    &&& forall|k: int|
        0 < k < ops.len() ==> (#[trigger] ops[k]).old_lo == ops[k - 1].old_hi && ops[k].new_lo
            == ops[k - 1].new_hi
}

/// Old-side token where the operations end (0 when there are none).
pub open spec fn spans_end_old(ops: Seq<DiffSpan>) -> int {
    if ops.len() == 0 {
        0
    } else {
        ops.last().old_hi as int
    }
}

/// New-side token where the operations end (0 when there are none).
pub open spec fn spans_end_new(ops: Seq<DiffSpan>) -> int {
    if ops.len() == 0 {
        0
    } else {
        ops.last().new_hi as int
    }
}

/// The operations cover the `n_old` old and `n_new` new tokens end to end.
#[verifier::opaque]
pub open spec fn spans_tile(ops: Seq<DiffSpan>, n_old: int, n_new: int) -> bool {
    spans_chained(ops) && spans_end_old(ops) == n_old && spans_end_new(ops) == n_new
}

/// Every `Equal` operation pairs equal tokens of `ta` and `tb`, a `Delete`
/// takes no new token and an `Insert` no old one.
#[verifier::opaque]
pub open spec fn spans_match<T>(ops: Seq<DiffSpan>, ta: Seq<T>, tb: Seq<T>) -> bool {
    forall|k: int|
        0 <= k < ops.len() ==> {
            &&& (#[trigger] ops[k]).kind == DiffKind::Equal ==> {
                &&& ops[k].old_hi - ops[k].old_lo == ops[k].new_hi - ops[k].new_lo
                &&& forall|t: int|
                    ops[k].old_lo <= t < ops[k].old_hi ==> #[trigger] ta[t] == tb[t - ops[k].old_lo
                        + ops[k].new_lo]
            }
            &&& ops[k].kind == DiffKind::Delete ==> ops[k].new_lo == ops[k].new_hi
            &&& ops[k].kind == DiffKind::Insert ==> ops[k].old_lo == ops[k].old_hi
        }
}

/// The operations of `similar`'s line diff of two texts (default
/// configuration: Myers, no deadline), token `i` being line `i`.
pub uninterp spec fn line_diff_ops(old: Seq<char>, new: Seq<char>) -> Seq<DiffSpan>;

/// The operations of `similar`'s character diff of two texts (default
/// configuration), token `i` being character `i`.
pub uninterp spec fn char_diff_ops(old: Seq<char>, new: Seq<char>) -> Seq<DiffSpan>;

/// `similar::TextDiff::from_lines(old, new).ops()`, each op as a `DiffSpan`.
/// Trusted: the result is named `line_diff_ops`; without carriage returns the
/// crate's line tokens are the `split_inclusive('\n')` pieces, its ops keep
/// within the token ranges, come in order and cover both token sequences end
/// to end (the diff hooks report the ranges front to back, each op starting
/// where the previous ended), an `Equal` op pairs equal lines, a `Delete` has
/// an empty new range and an `Insert` an empty old one, and equal inputs give
/// only `Equal` ops (the whole input is a common prefix). Which ops come out
/// otherwise is left unsaid.
#[verifier::external_body]
fn line_diff(old: &str, new: &str) -> (ops: Vec<DiffSpan>)
    requires
        no_cr(old@),
        no_cr(new@),
    ensures
        ops@ == line_diff_ops(old@, new@),
        spans_within(
            ops@,
            split_inclusive(old@, '\n').len() as int,
            split_inclusive(new@, '\n').len() as int,
        ),
        spans_ordered(ops@),
        spans_tile(
            ops@,
            split_inclusive(old@, '\n').len() as int,
            split_inclusive(new@, '\n').len() as int,
        ),
        spans_match(ops@, split_inclusive(old@, '\n'), split_inclusive(new@, '\n')),
        old@ == new@ ==> all_equal(ops@),
{
    let diff = TextDiff::from_lines(old, new);
    let mut out = Vec::new();
    for op in diff.ops() {
        let (tag, a, b) = op.as_tag_tuple();
        let kind = match tag {
            DiffTag::Equal => DiffKind::Equal,
            DiffTag::Delete => DiffKind::Delete,
            DiffTag::Insert => DiffKind::Insert,
            DiffTag::Replace => DiffKind::Replace,
        };
        out.push(DiffSpan { kind, old_lo: a.start, old_hi: a.end, new_lo: b.start, new_hi: b.end });
    }
    out
}

/// `similar::TextDiff::from_chars(old, new).ops()`, each op as a `DiffSpan`.
/// Trusted: the result is named `char_diff_ops`; one token per character, ops
/// within the token ranges, in order and covering both texts end to end,
/// `Equal` ops pairing equal characters, `Delete` / `Insert` with an empty
/// new / old range, only `Equal` ops for equal inputs. Which ops come out
/// otherwise is left unsaid.
#[verifier::external_body]
fn char_diff(old: &str, new: &str) -> (ops: Vec<DiffSpan>)
    ensures
        ops@ == char_diff_ops(old@, new@),
        spans_within(ops@, old@.len() as int, new@.len() as int),
        spans_ordered(ops@),
        spans_tile(ops@, old@.len() as int, new@.len() as int),
        spans_match(ops@, old@, new@),
        old@ == new@ ==> all_equal(ops@),
{
    let diff = TextDiff::from_chars(old, new);
    let mut out = Vec::new();
    for op in diff.ops() {
        let (tag, a, b) = op.as_tag_tuple();
        let kind = match tag {
            DiffTag::Equal => DiffKind::Equal,
            DiffTag::Delete => DiffKind::Delete,
            DiffTag::Insert => DiffKind::Insert,
            DiffTag::Replace => DiffKind::Replace,
        };
        out.push(DiffSpan { kind, old_lo: a.start, old_hi: a.end, new_lo: b.start, new_hi: b.end });
    }
    out
}

/// Number of `split_inclusive('\n')` lines of `s`.
pub open spec fn line_count(s: Seq<char>) -> int {
    split_inclusive(s, '\n').len() as int
}

/// Character index where line `i` starts; `s.len()` for the end sentinel.
pub open spec fn line_start(s: Seq<char>, i: int) -> int {
    if 0 <= i < incl_starts(s, '\n').len() {
        incl_starts(s, '\n')[i]
    } else {
        s.len() as int
    }
}

/// UTF-16 offset where line `i` starts; the total length for the sentinel.
pub open spec fn line_offset(s: Seq<char>, i: int) -> int {
    text::utf16_len(s.subrange(0, line_start(s, i))) as int
}

/// Line starts grow with the line index and stay inside the text.
pub proof fn lemma_line_start(s: Seq<char>)
    ensures
        incl_starts(s, '\n').len() == line_count(s),
        forall|i: int, j: int|
            #![trigger line_start(s, i), line_start(s, j)]
            0 <= i <= j <= line_count(s) ==> 0 <= line_start(s, i) <= line_start(s, j) <= s.len(),
{
    lemma_incl_starts_from(s, '\n', 0);
    let st = incl_starts(s, '\n');
    assert forall|i: int, j: int|
        #![trigger line_start(s, i), line_start(s, j)]
        0 <= i <= j <= line_count(s) implies 0 <= line_start(s, i) <= line_start(s, j)
        <= s.len() by {
        if i < j && j < st.len() {
            assert(st[i] < st[j]);
        }
        if i < st.len() {
            assert(0 <= st[i] < s.len());
        }
        if j < st.len() {
            assert(0 <= st[j] < s.len());
        }
    }
}

/// Line offsets grow with the line index and stay within the UTF-16 length.
pub proof fn lemma_line_offset(s: Seq<char>, i: int, j: int)
    requires
        0 <= i <= j <= line_count(s),
    ensures
        0 <= line_offset(s, i) <= line_offset(s, j) <= text::utf16_len(s),
{
    lemma_line_start(s);
    assert(line_start(s, i) <= line_start(s, j));
    lemma_utf16_mono(s, line_start(s, i), line_start(s, j));
    lemma_utf16_mono(s, line_start(s, j), s.len() as int);
    assert(s.subrange(0, s.len() as int) =~= s);
}

/// Lines `lo..hi` of `s`, joined, are the text between their line starts.
pub proof fn lemma_line_text(s: Seq<char>, lo: int, hi: int)
    requires
        0 <= lo <= hi <= line_count(s),
    ensures
        s.subrange(line_start(s, lo), line_start(s, hi)) == text::concat(
            split_inclusive(s, '\n').subrange(lo, hi),
        ),
    decreases hi - lo,
{
    lemma_line_start(s);
    let ps = split_inclusive(s, '\n');
    if hi == lo {
        assert(ps.subrange(lo, hi) =~= Seq::<Seq<char>>::empty());
        assert(s.subrange(line_start(s, lo), line_start(s, hi)) =~= Seq::<char>::empty());
    } else {
        lemma_line_text(s, lo, hi - 1);
        text::lemma_incl_pieces_from(s, '\n', 0);
        assert(line_start(s, lo) <= line_start(s, hi - 1) <= line_start(s, hi));
        assert(ps[hi - 1] == s.subrange(line_start(s, hi - 1), line_start(s, hi)));
        assert(ps.subrange(lo, hi).drop_last() =~= ps.subrange(lo, hi - 1));
        assert(ps.subrange(lo, hi).last() == ps[hi - 1]);
        assert(s.subrange(line_start(s, lo), line_start(s, hi)) =~= s.subrange(
            line_start(s, lo),
            line_start(s, hi - 1),
        ) + s.subrange(line_start(s, hi - 1), line_start(s, hi)));
    }
}

/// The UTF-16 units between two line offsets encode the text between the
/// line starts.
pub proof fn lemma_line_units(s: Seq<char>, lo: int, hi: int)
    requires
        0 <= lo <= hi <= line_count(s),
    ensures
        text::utf16_units(s).len() == text::utf16_len(s),
        text::utf16_units(s).subrange(line_offset(s, lo), line_offset(s, hi)) == text::utf16_units(
            s.subrange(line_start(s, lo), line_start(s, hi)),
        ),
        0 <= line_offset(s, lo) <= line_offset(s, hi) <= text::utf16_len(s),
{
    lemma_line_start(s);
    lemma_line_offset(s, lo, hi);
    assert(line_start(s, lo) <= line_start(s, hi));
    lemma_utf16_units_range(s, line_start(s, lo), line_start(s, hi));
}

/// UTF-16 length of `s`.
pub fn utf16_len(s: &str) -> (n: u32)
    requires
        text::utf16_len(s@) <= u32::MAX,
    ensures
        n == text::utf16_len(s@),
{
    let cs = chars_of(s);
    let pre = utf16_prefix(cs.as_slice());
    proof {
        assert(cs@.subrange(0, cs@.len() as int) =~= cs@);
    }
    pre[cs.len()]
}

/// Character index of the start of each line, plus the text length.
fn line_starts(cs: &[char]) -> (v: Vec<usize>)
    ensures
        v@.len() == line_count(cs@) + 1,
        forall|i: int| 0 <= i <= line_count(cs@) ==> v@[i] == line_start(cs@, i),
{
    let starts = incl_start_indices(cs, '\n');
    proof {
        lemma_line_start(cs@);
    }
    let mut v: Vec<usize> = Vec::new();
    let mut i: usize = 0;
    while i < starts.len()
        invariant
            starts@.len() == incl_starts(cs@, '\n').len() == line_count(cs@),
            forall|k: int| 0 <= k < starts@.len() ==> starts@[k] == incl_starts(cs@, '\n')[k],
            i <= starts@.len(),
            v@.len() == i,
            forall|k: int| 0 <= k < i ==> v@[k] == line_start(cs@, k),
        decreases starts@.len() - i,
    {
        v.push(starts[i]);
        i += 1;
    }
    v.push(cs.len());
    v
}

/// UTF-16 offset of the start of each line, plus the total UTF-16 length.
fn line_offsets(cs: &[char]) -> (v: Vec<u32>)
    requires
        text::utf16_len(cs@) <= u32::MAX,
    ensures
        v@.len() == line_count(cs@) + 1,
        forall|i: int| 0 <= i <= line_count(cs@) ==> v@[i] == line_offset(cs@, i),
{
    let starts = line_starts(cs);
    let pre = utf16_prefix(cs);
    proof {
        lemma_line_start(cs@);
    }
    let mut v: Vec<u32> = Vec::new();
    let mut i: usize = 0;
    while i < starts.len()
        invariant
            starts@.len() == line_count(cs@) + 1,
            forall|k: int| 0 <= k < starts@.len() ==> starts@[k] == line_start(cs@, k),
            forall|k: int, j: int|
                #![trigger line_start(cs@, k), line_start(cs@, j)]
                0 <= k <= j <= line_count(cs@) ==> 0 <= line_start(cs@, k) <= line_start(cs@, j)
                    <= cs@.len(),
            pre@.len() == cs@.len() + 1,
            forall|k: int| 0 <= k <= cs@.len() ==> pre@[k] == text::utf16_len(#[trigger] cs@.subrange(0, k)),
            i <= starts@.len(),
            v@.len() == i,
            forall|k: int| 0 <= k < i ==> v@[k] == line_offset(cs@, k),
        decreases starts@.len() - i,
    {
        let p = starts[i];
        assert(line_start(cs@, i as int) <= line_start(cs@, i as int) <= cs@.len());
        v.push(pre[p]);
        i += 1;
    }
    v
}

/// A change from four offsets.
pub open spec fn mk_change(fa: int, ta: int, fb: int, tb: int) -> Change {
    Change { from_a: fa as u32, to_a: ta as u32, from_b: fb as u32, to_b: tb as u32 }
}

/// Every change is ordered on both sides and lies within `[lo_a, hi_a]` on
/// the old side and `[lo_b, hi_b]` on the new side.
pub open spec fn changes_within(cs: Seq<Change>, lo_a: int, hi_a: int, lo_b: int, hi_b: int) -> bool {
    forall|k: int|
        0 <= k < cs.len() ==> {
            &&& lo_a <= (#[trigger] cs[k]).from_a <= cs[k].to_a <= hi_a
            &&& lo_b <= cs[k].from_b <= cs[k].to_b <= hi_b
        }
}

/// The changes are sorted and disjoint on both sides: each ends, on either
/// side, no later than any following one starts.
pub open spec fn sorted_changes(cs: Seq<Change>) -> bool {
    forall|i: int, j: int|
        0 <= i < j < cs.len() ==> (#[trigger] cs[i]).to_a <= (#[trigger] cs[j]).from_a && cs[i].to_b
            <= cs[j].from_b
}

/// Every change ends no later than `fa` / `fb`.
pub open spec fn changes_end_by(cs: Seq<Change>, fa: int, fb: int) -> bool {
    forall|k: int| 0 <= k < cs.len() ==> (#[trigger] cs[k]).to_a <= fa && cs[k].to_b <= fb
}

/// Sorted changes that all end by `fa` / `fb`, followed by sorted changes that
/// all start from there, are sorted.
pub proof fn lemma_sorted_append(x: Seq<Change>, y: Seq<Change>, fa: int, fb: int)
    requires
        sorted_changes(x),
        sorted_changes(y),
        changes_end_by(x, fa, fb),
        changes_within(y, fa, u32::MAX as int, fb, u32::MAX as int),
    ensures
        sorted_changes(x + y),
{
    let z = x + y;
    assert forall|i: int, j: int| 0 <= i < j < z.len() implies (#[trigger] z[i]).to_a <= (#[trigger] z[j]).from_a
        && z[i].to_b <= z[j].from_b by {
        if j < x.len() {
            assert(z[i] == x[i] && z[j] == x[j]);
        } else if i < x.len() {
            assert(z[i] == x[i] && z[j] == y[j - x.len()]);
        } else {
            assert(z[i] == y[i - x.len()] && z[j] == y[j - x.len()]);
        }
    }
}

/// The changes `cs`, with the stretches between them, turn the old units from
/// offset `pa` to `qa` into the new units from `pb` to `qb`: every stretch
/// before, between and after the changes reads the same on both sides.
/// `a` / `b` hold the units from offset `ba` / `bb` on.
pub open spec fn covers(
    a: Seq<u16>,
    b: Seq<u16>,
    ba: int,
    bb: int,
    cs: Seq<Change>,
    pa: int,
    pb: int,
    qa: int,
    qb: int,
) -> bool
    decreases cs.len(),
{
    if cs.len() == 0 {
        &&& ba <= pa <= qa <= ba + a.len()
        &&& bb <= pb <= qb <= bb + b.len()
        &&& a.subrange(pa - ba, qa - ba) == b.subrange(pb - bb, qb - bb)
    } else {
        let c = cs[0];
        &&& ba <= pa <= c.from_a <= c.to_a
        &&& bb <= pb <= c.from_b <= c.to_b
        &&& a.subrange(pa - ba, c.from_a - ba) == b.subrange(pb - bb, c.from_b - bb)
        &&& covers(a, b, ba, bb, cs.drop_first(), c.to_a as int, c.to_b as int, qa, qb)
    }
}

/// The old units `a` from offset `pa` on, each change's old range replaced by
/// its new range of `b`.
pub open spec fn apply_changes(a: Seq<u16>, b: Seq<u16>, cs: Seq<Change>, pa: int) -> Seq<u16>
    decreases cs.len(),
{
    if cs.len() == 0 {
        a.subrange(pa, a.len() as int)
    } else {
        let c = cs[0];
        a.subrange(pa, c.from_a as int) + b.subrange(c.from_b as int, c.to_b as int)
            + apply_changes(a, b, cs.drop_first(), c.to_a as int)
    }
}

/// Replacing, in the UTF-16 units of `old`, each change's old range by its
/// range of `new`'s units gives exactly the units of `new`.
pub open spec fn rebuilds(old: Seq<char>, new: Seq<char>, cs: Seq<Change>) -> bool {
    apply_changes(text::utf16_units(old), text::utf16_units(new), cs, 0) == text::utf16_units(new)
}

/// A covering keeps its ends in order and inside the units.
pub proof fn lemma_covers_bounds(
    a: Seq<u16>,
    b: Seq<u16>,
    ba: int,
    bb: int,
    cs: Seq<Change>,
    pa: int,
    pb: int,
    qa: int,
    qb: int,
)
    requires
        covers(a, b, ba, bb, cs, pa, pb, qa, qb),
    ensures
        ba <= pa <= qa <= ba + a.len(),
        bb <= pb <= qb <= bb + b.len(),
        cs.len() > 0 ==> cs[0].to_a <= qa && cs[0].to_b <= qb,
    decreases cs.len(),
{
    if cs.len() > 0 {
        let c = cs[0];
        lemma_covers_bounds(a, b, ba, bb, cs.drop_first(), c.to_a as int, c.to_b as int, qa, qb);
    }
}

/// Two coverings end to end make one.
pub proof fn lemma_covers_append(
    a: Seq<u16>,
    b: Seq<u16>,
    ba: int,
    bb: int,
    x: Seq<Change>,
    y: Seq<Change>,
    pa: int,
    pb: int,
    ma: int,
    mb: int,
    qa: int,
    qb: int,
)
    requires
        covers(a, b, ba, bb, x, pa, pb, ma, mb),
        covers(a, b, ba, bb, y, ma, mb, qa, qb),
    ensures
        covers(a, b, ba, bb, x + y, pa, pb, qa, qb),
    decreases x.len(),
{
    lemma_covers_bounds(a, b, ba, bb, x, pa, pb, ma, mb);
    lemma_covers_bounds(a, b, ba, bb, y, ma, mb, qa, qb);
    if x.len() == 0 {
        assert(x + y =~= y);
        let ea = if y.len() == 0 { qa } else { y[0].from_a as int };
        let eb = if y.len() == 0 { qb } else { y[0].from_b as int };
        assert(a.subrange(pa - ba, ea - ba) =~= a.subrange(pa - ba, ma - ba) + a.subrange(ma - ba, ea - ba));
        assert(b.subrange(pb - bb, eb - bb) =~= b.subrange(pb - bb, mb - bb) + b.subrange(mb - bb, eb - bb));
    } else {
        let c = x[0];
        assert((x + y)[0] == c);
        assert((x + y).drop_first() =~= x.drop_first() + y);
        lemma_covers_append(a, b, ba, bb, x.drop_first(), y, c.to_a as int, c.to_b as int, ma, mb, qa, qb);
    }
}

/// Applying a covering of the whole old units from `pa` gives the new units
/// from `pb`.
pub proof fn lemma_covers_apply(a: Seq<u16>, b: Seq<u16>, cs: Seq<Change>, pa: int, pb: int)
    requires
        covers(a, b, 0, 0, cs, pa, pb, a.len() as int, b.len() as int),
    ensures
        apply_changes(a, b, cs, pa) == b.subrange(pb, b.len() as int),
    decreases cs.len(),
{
    lemma_covers_bounds(a, b, 0, 0, cs, pa, pb, a.len() as int, b.len() as int);
    if cs.len() > 0 {
        let c = cs[0];
        lemma_covers_bounds(a, b, 0, 0, cs.drop_first(), c.to_a as int, c.to_b as int, a.len() as int, b.len() as int);
        lemma_covers_apply(a, b, cs.drop_first(), c.to_a as int, c.to_b as int);
        assert(b.subrange(pb, b.len() as int) =~= b.subrange(pb, c.from_b as int) + b.subrange(
            c.from_b as int,
            c.to_b as int,
        ) + b.subrange(c.to_b as int, b.len() as int));
    }
}

/// A covering of a block carries over to the whole units holding the block.
pub proof fn lemma_covers_widen(
    a: Seq<u16>,
    b: Seq<u16>,
    fa: int,
    fb: int,
    wa: Seq<u16>,
    wb: Seq<u16>,
    cs: Seq<Change>,
    pa: int,
    pb: int,
    qa: int,
    qb: int,
)
    requires
        covers(a, b, fa, fb, cs, pa, pb, qa, qb),
        0 <= fa,
        0 <= fb,
        fa + a.len() <= wa.len(),
        fb + b.len() <= wb.len(),
        wa.subrange(fa, fa + a.len()) == a,
        wb.subrange(fb, fb + b.len()) == b,
    ensures
        covers(wa, wb, 0, 0, cs, pa, pb, qa, qb),
    decreases cs.len(),
{
    lemma_covers_bounds(a, b, fa, fb, cs, pa, pb, qa, qb);
    let ea = if cs.len() == 0 { qa } else { cs[0].from_a as int };
    let eb = if cs.len() == 0 { qb } else { cs[0].from_b as int };
    if cs.len() > 0 {
        let c = cs[0];
        lemma_covers_bounds(a, b, fa, fb, cs.drop_first(), c.to_a as int, c.to_b as int, qa, qb);
        lemma_covers_widen(a, b, fa, fb, wa, wb, cs.drop_first(), c.to_a as int, c.to_b as int, qa, qb);
    }
    assert(a.subrange(pa - fa, ea - fa) =~= wa.subrange(pa, ea));
    assert(b.subrange(pb - fb, eb - fb) =~= wb.subrange(pb, eb));
}

/// One change covers exactly its own two ranges.
pub proof fn lemma_covers_one(a: Seq<u16>, b: Seq<u16>, ba: int, bb: int, fa: int, ta: int, fb: int, tb: int)
    requires
        ba <= fa <= ta <= ba + a.len(),
        bb <= fb <= tb <= bb + b.len(),
        0 <= fa,
        0 <= fb,
        ta <= u32::MAX,
        tb <= u32::MAX,
    ensures
        covers(a, b, ba, bb, seq![mk_change(fa, ta, fb, tb)], fa, fb, ta, tb),
{
    let cs = seq![mk_change(fa, ta, fb, tb)];
    assert(cs[0] == mk_change(fa, ta, fb, tb));
    assert(cs.drop_first() =~= Seq::<Change>::empty());
    assert(a.subrange(fa - ba, fa - ba) =~= b.subrange(fb - bb, fb - bb));
    assert(a.subrange(ta - ba, ta - ba) =~= b.subrange(tb - bb, tb - bb));
    assert(covers(a, b, ba, bb, cs.drop_first(), ta, tb, ta, tb));
}

/// The changes a character diff `ops` of the block `a` / `b` gives, the block
/// starting at UTF-16 offsets `base_a` / `base_b`: one per non-`Equal` op.
pub open spec fn refined(a: Seq<char>, b: Seq<char>, base_a: int, base_b: int, ops: Seq<DiffSpan>) -> Seq<
    Change,
>
    decreases ops.len(),
{
    if ops.len() == 0 {
        seq![]
    } else {
        let rest = refined(a, b, base_a, base_b, ops.drop_last());
        let op = ops.last();
        if op.kind == DiffKind::Equal {
            rest
        } else {
            rest.push(
                mk_change(
                    base_a + text::utf16_len(a.subrange(0, op.old_lo as int)),
                    base_a + text::utf16_len(a.subrange(0, op.old_hi as int)),
                    base_b + text::utf16_len(b.subrange(0, op.new_lo as int)),
                    base_b + text::utf16_len(b.subrange(0, op.new_hi as int)),
                ),
            )
        }
    }
}

/// The changes of a character diff that covers the block end to end, pairing
/// equal characters, cover the block's units from `base_a` / `base_b` to where
/// the operations end.
#[verifier::spinoff_prover]
#[verifier::rlimit(50)]
pub proof fn lemma_refined_covers(a: Seq<char>, b: Seq<char>, base_a: int, base_b: int, ops: Seq<DiffSpan>)
    requires
        0 <= base_a,
        0 <= base_b,
        base_a + text::utf16_len(a) <= u32::MAX,
        base_b + text::utf16_len(b) <= u32::MAX,
        spans_within(ops, a.len() as int, b.len() as int),
        spans_chained(ops),
        spans_match(ops, a, b),
    ensures
        covers(
            text::utf16_units(a),
            text::utf16_units(b),
            base_a,
            base_b,
            refined(a, b, base_a, base_b, ops),
            base_a,
            base_b,
            base_a + text::utf16_len(a.subrange(0, spans_end_old(ops))),
            base_b + text::utf16_len(b.subrange(0, spans_end_new(ops))),
        ),
    decreases ops.len(),
{
    let ua = text::utf16_units(a);
    let ub = text::utf16_units(b);
    lemma_utf16_units_range(a, 0, a.len() as int);
    lemma_utf16_units_range(b, 0, b.len() as int);
    assert(a.subrange(0, a.len() as int) =~= a);
    assert(b.subrange(0, b.len() as int) =~= b);
    if ops.len() == 0 {
        assert(a.subrange(0, 0) =~= Seq::<char>::empty());
        assert(b.subrange(0, 0) =~= Seq::<char>::empty());
        assert(ua.subrange(0, 0) =~= ub.subrange(0, 0));
    } else {
        let pre = ops.drop_last();
        let op = ops.last();
        assert(op == ops[ops.len() - 1]);
        assert forall|k: int| 0 <= k < pre.len() implies #[trigger] pre[k] == ops[k] by {}
        assert(spans_match(pre, a, b)) by {
            reveal(spans_match);
        }
        lemma_refined_covers(a, b, base_a, base_b, pre);
        assert(spans_end_old(pre) == op.old_lo && spans_end_new(pre) == op.new_lo) by {
            if pre.len() > 0 {
                assert(pre.last() == ops[ops.len() - 2]);
            }
        }
        let lo = op.old_lo as int;
        let hi = op.old_hi as int;
        let nlo = op.new_lo as int;
        let nhi = op.new_hi as int;
        let x0 = base_a + text::utf16_len(a.subrange(0, lo));
        let x1 = base_a + text::utf16_len(a.subrange(0, hi));
        let y0 = base_b + text::utf16_len(b.subrange(0, nlo));
        let y1 = base_b + text::utf16_len(b.subrange(0, nhi));
        lemma_utf16_mono(a, lo, hi);
        lemma_utf16_mono(a, hi, a.len() as int);
        lemma_utf16_mono(b, nlo, nhi);
        lemma_utf16_mono(b, nhi, b.len() as int);
        let rp = refined(a, b, base_a, base_b, pre);
        if op.kind == DiffKind::Equal {
            assert(a.subrange(lo, hi) =~= b.subrange(nlo, nhi)) by {
                reveal(spans_match);
                assert(ops[ops.len() - 1] == op);
            }
            lemma_utf16_units_range(a, lo, hi);
            lemma_utf16_units_range(b, nlo, nhi);
            assert(covers(ua, ub, base_a, base_b, Seq::<Change>::empty(), x0, y0, x1, y1));
            lemma_covers_append(ua, ub, base_a, base_b, rp, Seq::<Change>::empty(), base_a, base_b, x0, y0, x1, y1);
            assert(rp + Seq::<Change>::empty() =~= rp);
        } else {
            lemma_covers_one(ua, ub, base_a, base_b, x0, x1, y0, y1);
            lemma_covers_append(ua, ub, base_a, base_b, rp, seq![mk_change(x0, x1, y0, y1)], base_a, base_b, x0, y0, x1, y1);
            assert(rp.push(mk_change(x0, x1, y0, y1)) =~= rp + seq![mk_change(x0, x1, y0, y1)]);
        }
    }
}

/// A character diff covering the whole block gives changes that cover the
/// whole block.
pub proof fn lemma_refined_tile_covers(a: Seq<char>, b: Seq<char>, base_a: int, base_b: int, ops: Seq<DiffSpan>)
    requires
        0 <= base_a,
        0 <= base_b,
        base_a + text::utf16_len(a) <= u32::MAX,
        base_b + text::utf16_len(b) <= u32::MAX,
        spans_within(ops, a.len() as int, b.len() as int),
    ensures
        spans_tile(ops, a.len() as int, b.len() as int) && spans_match(ops, a, b) ==> covers(
            text::utf16_units(a),
            text::utf16_units(b),
            base_a,
            base_b,
            refined(a, b, base_a, base_b, ops),
            base_a,
            base_b,
            base_a + text::utf16_len(a),
            base_b + text::utf16_len(b),
        ),
{
    if spans_tile(ops, a.len() as int, b.len() as int) && spans_match(ops, a, b) {
        reveal(spans_tile);
        lemma_refined_covers(a, b, base_a, base_b, ops);
        assert(a.subrange(0, a.len() as int) =~= a);
        assert(b.subrange(0, b.len() as int) =~= b);
    }
}

/// The word-level changes of a modified block `a` / `b` starting at UTF-16
/// offsets `base_a` / `base_b`, given the character diff `ops` of the block.
#[verifier::spinoff_prover]
#[verifier::rlimit(50)]
pub fn refine_block(a: &str, b: &str, base_a: u32, base_b: u32, ops: &[DiffSpan]) -> (r: Vec<Change>)
    requires
        base_a + text::utf16_len(a@) <= u32::MAX,
        base_b + text::utf16_len(b@) <= u32::MAX,
        spans_within(ops@, a@.len() as int, b@.len() as int),
        spans_ordered(ops@),
    ensures
        r@ == refined(a@, b@, base_a as int, base_b as int, ops@),
        sorted_changes(r@),
        changes_within(
            r@,
            base_a as int,
            base_a + text::utf16_len(a@),
            base_b as int,
            base_b + text::utf16_len(b@),
        ),
        spans_tile(ops@, a@.len() as int, b@.len() as int) && spans_match(ops@, a@, b@) ==> covers(
            text::utf16_units(a@),
            text::utf16_units(b@),
            base_a as int,
            base_b as int,
            r@,
            base_a as int,
            base_b as int,
            base_a + text::utf16_len(a@),
            base_b + text::utf16_len(b@),
        ),
{
    let ca = chars_of(a);
    let cb = chars_of(b);
    let pa = utf16_prefix(ca.as_slice());
    let pb = utf16_prefix(cb.as_slice());
    proof {
        assert(ca@.subrange(0, ca@.len() as int) =~= ca@);
        assert(cb@.subrange(0, cb@.len() as int) =~= cb@);
    }
    let mut out: Vec<Change> = Vec::new();
    let mut i: usize = 0;
    let ghost mut la: int = base_a as int;
    let ghost mut lb: int = base_b as int;
    while i < ops.len()
        invariant
            ca@ == a@,
            cb@ == b@,
            spans_ordered(ops@),
            sorted_changes(out@),
            changes_end_by(out@, la, lb),
            forall|j: int| i <= j < ops@.len() ==> la <= base_a + text::utf16_len(
                #[trigger] a@.subrange(0, ops@[j].old_lo as int),
            ) && lb <= base_b + text::utf16_len(b@.subrange(0, ops@[j].new_lo as int)),
            ca@.subrange(0, ca@.len() as int) == ca@,
            cb@.subrange(0, cb@.len() as int) == cb@,
            base_a + text::utf16_len(a@) <= u32::MAX,
            base_b + text::utf16_len(b@) <= u32::MAX,
            spans_within(ops@, a@.len() as int, b@.len() as int),
            pa@.len() == ca@.len() + 1,
            forall|k: int| 0 <= k <= ca@.len() ==> pa@[k] == text::utf16_len(#[trigger] ca@.subrange(0, k)),
            pb@.len() == cb@.len() + 1,
            forall|k: int| 0 <= k <= cb@.len() ==> pb@[k] == text::utf16_len(#[trigger] cb@.subrange(0, k)),
            i <= ops@.len(),
            out@ == refined(a@, b@, base_a as int, base_b as int, ops@.subrange(0, i as int)),
            changes_within(
                out@,
                base_a as int,
                base_a + text::utf16_len(a@),
                base_b as int,
                base_b + text::utf16_len(b@),
            ),
        decreases ops@.len() - i,
    {
        let op = ops[i];
        proof {
            assert(ops@.subrange(0, i + 1).drop_last() =~= ops@.subrange(0, i as int));
            assert(ops@.subrange(0, i + 1).last() == op);
        }
        match op.kind {
            DiffKind::Equal => {},
            _ => {
                proof {
                    lemma_utf16_mono(ca@, op.old_lo as int, op.old_hi as int);
                    lemma_utf16_mono(ca@, op.old_hi as int, ca@.len() as int);
                    lemma_utf16_mono(cb@, op.new_lo as int, op.new_hi as int);
                    lemma_utf16_mono(cb@, op.new_hi as int, cb@.len() as int);
                }
                let ghost before = out@;
                out.push(
                    Change {
                        from_a: base_a + pa[op.old_lo],
                        to_a: base_a + pa[op.old_hi],
                        from_b: base_b + pb[op.new_lo],
                        to_b: base_b + pb[op.new_hi],
                    },
                );
                proof {
                    assert(out@ == before.push(out@.last()));
                    assert forall|x: int, y: int| 0 <= x < y < out@.len() implies (#[trigger] out@[x]).to_a
                        <= (#[trigger] out@[y]).from_a && out@[x].to_b <= out@[y].from_b by {
                        if y == out@.len() - 1 {
                            assert(out@[x] == before[x]);
                        } else {
                            assert(out@[x] == before[x] && out@[y] == before[y]);
                        }
                    }
                    la = base_a + text::utf16_len(a@.subrange(0, op.old_hi as int));
                    lb = base_b + text::utf16_len(b@.subrange(0, op.new_hi as int));
                }
            },
        }
        proof {
            assert forall|j: int| i + 1 <= j < ops@.len() implies la <= base_a + text::utf16_len(
                #[trigger] a@.subrange(0, ops@[j].old_lo as int),
            ) && lb <= base_b + text::utf16_len(b@.subrange(0, ops@[j].new_lo as int)) by {
                assert(ops@[i as int].old_hi <= ops@[j].old_lo && ops@[i as int].new_hi <= ops@[j].new_lo);
                lemma_utf16_mono(a@, op.old_lo as int, op.old_hi as int);
                lemma_utf16_mono(b@, op.new_lo as int, op.new_hi as int);
                lemma_utf16_mono(a@, op.old_hi as int, ops@[j].old_lo as int);
                lemma_utf16_mono(b@, op.new_hi as int, ops@[j].new_lo as int);
            }
        }
        i += 1;
    }
    proof {
        assert(ops@.subrange(0, ops@.len() as int) =~= ops@);
        lemma_refined_tile_covers(a@, b@, base_a as int, base_b as int, ops@);
    }
    out
}

/// Char-level diff of a small modified block, appending its word-level
/// sub-ranges to `out`.
fn refine_into(a: &str, b: &str, base_a: u32, base_b: u32, out: &mut Vec<Change>)
    requires
        base_a + text::utf16_len(a@) <= u32::MAX,
        base_b + text::utf16_len(b@) <= u32::MAX,
    ensures
        final(out)@ == old(out)@ + refined(a@, b@, base_a as int, base_b as int, char_diff_ops(a@, b@)),
        sorted_changes(refined(a@, b@, base_a as int, base_b as int, char_diff_ops(a@, b@))),
        changes_within(
            refined(a@, b@, base_a as int, base_b as int, char_diff_ops(a@, b@)),
            base_a as int,
            base_a + text::utf16_len(a@),
            base_b as int,
            base_b + text::utf16_len(b@),
        ),
        covers(
            text::utf16_units(a@),
            text::utf16_units(b@),
            base_a as int,
            base_b as int,
            refined(a@, b@, base_a as int, base_b as int, char_diff_ops(a@, b@)),
            base_a as int,
            base_b as int,
            base_a + text::utf16_len(a@),
            base_b + text::utf16_len(b@),
        ),
{
    let ops = char_diff(a, b);
    let mut r = refine_block(a, b, base_a, base_b, ops.as_slice());
    out.append(&mut r);
}

/// The changes one line-level operation contributes.
pub open spec fn block_changes(old: Seq<char>, new: Seq<char>, op: DiffSpan) -> Seq<Change> {
    let fa = line_offset(old, op.old_lo as int);
    let ta = line_offset(old, op.old_hi as int);
    let fb = line_offset(new, op.new_lo as int);
    let tb = line_offset(new, op.new_hi as int);
    match op.kind {
        DiffKind::Equal => seq![],
        DiffKind::Delete => seq![mk_change(fa, ta, fb, fb)],
        DiffKind::Insert => seq![mk_change(fa, fa, fb, tb)],
        DiffKind::Replace => if ta - fa > REFINE_MAX_UTF16 || tb - fb > REFINE_MAX_UTF16 {
            seq![mk_change(fa, ta, fb, tb)]
        } else {
            let a = old.subrange(line_start(old, op.old_lo as int), line_start(old, op.old_hi as int));
            let b = new.subrange(line_start(new, op.new_lo as int), line_start(new, op.new_hi as int));
            refined(a, b, fa, fb, char_diff_ops(a, b))
        },
    }
}

/// A replaced block small enough to be refined to character level.
pub open spec fn refines_block(old: Seq<char>, new: Seq<char>, op: DiffSpan) -> bool {
    let fa = line_offset(old, op.old_lo as int);
    let ta = line_offset(old, op.old_hi as int);
    let fb = line_offset(new, op.new_lo as int);
    let tb = line_offset(new, op.new_hi as int);
    op.kind == DiffKind::Replace && !(ta - fa > REFINE_MAX_UTF16 || tb - fb > REFINE_MAX_UTF16)
}

/// The character-level changes of a refined block cover the block.
pub open spec fn refined_block_covers(old: Seq<char>, new: Seq<char>, op: DiffSpan) -> bool {
    let fa = line_offset(old, op.old_lo as int);
    let fb = line_offset(new, op.new_lo as int);
    let a = old.subrange(line_start(old, op.old_lo as int), line_start(old, op.old_hi as int));
    let b = new.subrange(line_start(new, op.new_lo as int), line_start(new, op.new_hi as int));
    covers(
        text::utf16_units(a),
        text::utf16_units(b),
        fa,
        fb,
        refined(a, b, fa, fb, char_diff_ops(a, b)),
        fa,
        fb,
        fa + text::utf16_len(a),
        fb + text::utf16_len(b),
    )
}

/// The line operations cover both texts' lines end to end and pair equal
/// lines.
pub open spec fn line_ops_fit(old: Seq<char>, new: Seq<char>, ops: Seq<DiffSpan>) -> bool {
    spans_tile(ops, line_count(old), line_count(new)) && spans_match(
        ops,
        split_inclusive(old, '\n'),
        split_inclusive(new, '\n'),
    )
}

/// The changes of one line operation cover its two line ranges.
#[verifier::spinoff_prover]
pub proof fn lemma_block_covers(old: Seq<char>, new: Seq<char>, ops: Seq<DiffSpan>, k: int)
    requires
        0 <= k < ops.len(),
        spans_within(ops, line_count(old), line_count(new)),
        spans_match(ops, split_inclusive(old, '\n'), split_inclusive(new, '\n')),
        text::utf16_len(old) <= u32::MAX,
        text::utf16_len(new) <= u32::MAX,
        refines_block(old, new, ops[k]) ==> refined_block_covers(old, new, ops[k]),
    ensures
        covers(
            text::utf16_units(old),
            text::utf16_units(new),
            0,
            0,
            block_changes(old, new, ops[k]),
            line_offset(old, ops[k].old_lo as int),
            line_offset(new, ops[k].new_lo as int),
            line_offset(old, ops[k].old_hi as int),
            line_offset(new, ops[k].new_hi as int),
        ),
{
    let op = ops[k];
    let lo = op.old_lo as int;
    let hi = op.old_hi as int;
    let nlo = op.new_lo as int;
    let nhi = op.new_hi as int;
    let uo = text::utf16_units(old);
    let un = text::utf16_units(new);
    let fa = line_offset(old, lo);
    let ta = line_offset(old, hi);
    let fb = line_offset(new, nlo);
    let tb = line_offset(new, nhi);
    lemma_line_units(old, lo, hi);
    lemma_line_units(new, nlo, nhi);
    assert(op.kind == DiffKind::Equal ==> op.old_hi - op.old_lo == op.new_hi - op.new_lo && forall|t: int|
        lo <= t < hi ==> #[trigger] split_inclusive(old, '\n')[t] == split_inclusive(new, '\n')[t - lo + nlo]) by {
        reveal(spans_match);
    }
    assert(op.kind == DiffKind::Delete ==> nlo == nhi) by {
        reveal(spans_match);
    }
    assert(op.kind == DiffKind::Insert ==> lo == hi) by {
        reveal(spans_match);
    }
    match op.kind {
        DiffKind::Equal => {
            lemma_line_text(old, lo, hi);
            lemma_line_text(new, nlo, nhi);
            assert(split_inclusive(old, '\n').subrange(lo, hi) =~= split_inclusive(new, '\n').subrange(nlo, nhi));
            assert(covers(uo, un, 0, 0, Seq::<Change>::empty(), fa, fb, ta, tb));
        },
        DiffKind::Delete => {
            lemma_covers_one(uo, un, 0, 0, fa, ta, fb, fb);
        },
        DiffKind::Insert => {
            lemma_covers_one(uo, un, 0, 0, fa, fa, fb, tb);
        },
        DiffKind::Replace => {
            if ta - fa > REFINE_MAX_UTF16 || tb - fb > REFINE_MAX_UTF16 {
                lemma_covers_one(uo, un, 0, 0, fa, ta, fb, tb);
            } else {
                let a = old.subrange(line_start(old, lo), line_start(old, hi));
                let b = new.subrange(line_start(new, nlo), line_start(new, nhi));
                lemma_utf16_units_range(a, 0, a.len() as int);
                lemma_utf16_units_range(b, 0, b.len() as int);
                lemma_covers_widen(
                    text::utf16_units(a),
                    text::utf16_units(b),
                    fa,
                    fb,
                    uo,
                    un,
                    refined(a, b, fa, fb, char_diff_ops(a, b)),
                    fa,
                    fb,
                    fa + text::utf16_len(a),
                    fb + text::utf16_len(b),
                );
            }
        },
    }
}

/// Line 0 starts at UTF-16 offset 0, and the end sentinel sits at the text's
/// full UTF-16 length.
pub proof fn lemma_line_offset_ends(s: Seq<char>)
    ensures
        line_offset(s, 0) == 0,
        line_offset(s, line_count(s)) == text::utf16_len(s),
        text::utf16_units(s).len() == text::utf16_len(s),
{
    lemma_line_start(s);
    lemma_incl_starts_from(s, '\n', 0);
    lemma_utf16_units_range(s, 0, s.len() as int);
    if s.len() > 0 {
        assert(incl_starts(s, '\n').len() > 0);
    }
    assert(line_start(s, 0) == 0);
    assert(s.subrange(0, 0) =~= Seq::<char>::empty());
    assert(s.subrange(0, s.len() as int) =~= s);
}

/// One more line operation extends the covering of the changes so far by the
/// operation's own changes.
pub proof fn lemma_line_step(
    old: Seq<char>,
    new: Seq<char>,
    ops: Seq<DiffSpan>,
    i: int,
    before: Seq<Change>,
    after: Seq<Change>,
)
    requires
        0 <= i < ops.len(),
        spans_within(ops, line_count(old), line_count(new)),
        text::utf16_len(old) <= u32::MAX,
        text::utf16_len(new) <= u32::MAX,
        line_ops_fit(old, new, ops) ==> covers(
            text::utf16_units(old),
            text::utf16_units(new),
            0,
            0,
            before,
            0,
            0,
            line_offset(old, spans_end_old(ops.subrange(0, i))),
            line_offset(new, spans_end_new(ops.subrange(0, i))),
        ),
        after == before + block_changes(old, new, ops[i]),
        refines_block(old, new, ops[i]) ==> refined_block_covers(old, new, ops[i]),
    ensures
        line_ops_fit(old, new, ops) ==> covers(
            text::utf16_units(old),
            text::utf16_units(new),
            0,
            0,
            after,
            0,
            0,
            line_offset(old, spans_end_old(ops.subrange(0, i + 1))),
            line_offset(new, spans_end_new(ops.subrange(0, i + 1))),
        ),
{
    if line_ops_fit(old, new, ops) {
        reveal(spans_tile);
        let op = ops[i];
        assert(spans_end_old(ops.subrange(0, i)) == op.old_lo && spans_end_new(ops.subrange(0, i)) == op.new_lo) by {
            if i > 0 {
                assert(ops.subrange(0, i).last() == ops[i - 1]);
            }
        }
        assert(ops.subrange(0, i + 1).last() == op);
        lemma_block_covers(old, new, ops, i);
        lemma_covers_append(
            text::utf16_units(old),
            text::utf16_units(new),
            0,
            0,
            before,
            block_changes(old, new, op),
            0,
            0,
            line_offset(old, op.old_lo as int),
            line_offset(new, op.new_lo as int),
            line_offset(old, op.old_hi as int),
            line_offset(new, op.new_hi as int),
        );
    }
}

/// Changes covering both texts' lines end to end rebuild the new text from
/// the old.
pub proof fn lemma_line_final(old: Seq<char>, new: Seq<char>, ops: Seq<DiffSpan>, r: Seq<Change>)
    requires
        line_ops_fit(old, new, ops) ==> covers(
            text::utf16_units(old),
            text::utf16_units(new),
            0,
            0,
            r,
            0,
            0,
            line_offset(old, spans_end_old(ops.subrange(0, ops.len() as int))),
            line_offset(new, spans_end_new(ops.subrange(0, ops.len() as int))),
        ),
    ensures
        line_ops_fit(old, new, ops) ==> apply_changes(text::utf16_units(old), text::utf16_units(new), r, 0)
            == text::utf16_units(new),
{
    if line_ops_fit(old, new, ops) {
        reveal(spans_tile);
        assert(ops.subrange(0, ops.len() as int) =~= ops);
        lemma_line_offset_ends(old);
        lemma_line_offset_ends(new);
        let un = text::utf16_units(new);
        lemma_covers_apply(text::utf16_units(old), un, r, 0, 0);
        assert(un.subrange(0, un.len() as int) =~= un);
    }
}

/// The changes a line diff `ops` of `old` / `new` gives, in order.
pub open spec fn line_changes(old: Seq<char>, new: Seq<char>, ops: Seq<DiffSpan>) -> Seq<Change>
    decreases ops.len(),
{
    if ops.len() == 0 {
        seq![]
    } else {
        line_changes(old, new, ops.drop_last()) + block_changes(old, new, ops.last())
    }
}

/// A line diff made only of `Equal` operations gives no change.
pub proof fn lemma_equal_ops_no_changes(old: Seq<char>, new: Seq<char>, ops: Seq<DiffSpan>)
    requires
        all_equal(ops),
    ensures
        line_changes(old, new, ops).len() == 0,
    decreases ops.len(),
{
    if ops.len() > 0 {
        assert(ops.last() == ops[ops.len() - 1]);
        lemma_equal_ops_no_changes(old, new, ops.drop_last());
    }
}

/// The CodeMirror-ready changes of a line diff `ops` of the (normalized)
/// texts `old` / `new`: deletions and insertions as whole-line ranges, small
/// replaced blocks refined to character level, large ones as one range.
#[verifier::spinoff_prover]
#[verifier::rlimit(50)]
pub fn changes_from_line_ops(old: &str, new: &str, ops: &[DiffSpan]) -> (r: Vec<Change>)
    requires
        text::utf16_len(old@) <= u32::MAX,
        text::utf16_len(new@) <= u32::MAX,
        spans_within(ops@, line_count(old@), line_count(new@)),
        spans_ordered(ops@),
    ensures
        r@ == line_changes(old@, new@, ops@),
        changes_within(r@, 0, text::utf16_len(old@) as int, 0, text::utf16_len(new@) as int),
        sorted_changes(r@),
        line_ops_fit(old@, new@, ops@) ==> apply_changes(
            text::utf16_units(old@),
            text::utf16_units(new@),
            r@,
            0,
        ) == text::utf16_units(new@),
{
    let ca = chars_of(old);
    let cb = chars_of(new);
    let sa = line_starts(ca.as_slice());
    let sb = line_starts(cb.as_slice());
    let off_a = line_offsets(ca.as_slice());
    let off_b = line_offsets(cb.as_slice());
    proof {
        lemma_line_start(ca@);
        lemma_line_start(cb@);
    }
    let mut out: Vec<Change> = Vec::new();
    let mut i: usize = 0;
    let ghost mut la: int = 0;
    let ghost mut lb: int = 0;
    proof {
        lemma_line_offset_ends(old@);
        lemma_line_offset_ends(new@);
        let uo = text::utf16_units(old@);
        let un = text::utf16_units(new@);
        assert(uo.subrange(0, 0) =~= un.subrange(0, 0));
        assert(covers(uo, un, 0, 0, out@, 0, 0, 0, 0));
    }
    while i < ops.len()
        invariant
            ca@ == old@,
            cb@ == new@,
            spans_ordered(ops@),
            sorted_changes(out@),
            changes_end_by(out@, la, lb),
            forall|j: int| i <= j < ops@.len() ==> la <= #[trigger] line_offset(old@, ops@[j].old_lo as int)
                && lb <= line_offset(new@, ops@[j].new_lo as int),
            text::utf16_len(old@) <= u32::MAX,
            text::utf16_len(new@) <= u32::MAX,
            spans_within(ops@, line_count(old@), line_count(new@)),
            sa@.len() == line_count(old@) + 1,
            forall|k: int| 0 <= k <= line_count(old@) ==> sa@[k] == line_start(old@, k),
            sb@.len() == line_count(new@) + 1,
            forall|k: int| 0 <= k <= line_count(new@) ==> sb@[k] == line_start(new@, k),
            off_a@.len() == line_count(old@) + 1,
            forall|k: int| 0 <= k <= line_count(old@) ==> off_a@[k] == line_offset(old@, k),
            off_b@.len() == line_count(new@) + 1,
            forall|k: int| 0 <= k <= line_count(new@) ==> off_b@[k] == line_offset(new@, k),
            i <= ops@.len(),
            out@ == line_changes(old@, new@, ops@.subrange(0, i as int)),
            changes_within(out@, 0, text::utf16_len(old@) as int, 0, text::utf16_len(new@) as int),
            line_ops_fit(old@, new@, ops@) ==> covers(
                text::utf16_units(old@),
                text::utf16_units(new@),
                0,
                0,
                out@,
                0,
                0,
                line_offset(old@, spans_end_old(ops@.subrange(0, i as int))),
                line_offset(new@, spans_end_new(ops@.subrange(0, i as int))),
            ),
        decreases ops@.len() - i,
    {
        let op = ops[i];
        proof {
            assert(ops@.subrange(0, i + 1).drop_last() =~= ops@.subrange(0, i as int));
            assert(ops@.subrange(0, i + 1).last() == op);
            lemma_line_offset(old@, op.old_lo as int, op.old_hi as int);
            lemma_line_offset(new@, op.new_lo as int, op.new_hi as int);
            lemma_line_start(old@);
            lemma_line_start(new@);
            assert(line_start(old@, op.old_lo as int) <= line_start(old@, op.old_hi as int));
            assert(line_start(new@, op.new_lo as int) <= line_start(new@, op.new_hi as int));
        }
        let ghost before = out@;
        match op.kind {
            DiffKind::Equal => {},
            DiffKind::Delete => {
                out.push(
                    Change {
                        from_a: off_a[op.old_lo],
                        to_a: off_a[op.old_hi],
                        from_b: off_b[op.new_lo],
                        to_b: off_b[op.new_lo],
                    },
                );
            },
            DiffKind::Insert => {
                out.push(
                    Change {
                        from_a: off_a[op.old_lo],
                        to_a: off_a[op.old_lo],
                        from_b: off_b[op.new_lo],
                        to_b: off_b[op.new_hi],
                    },
                );
            },
            DiffKind::Replace => {
                let base_a = off_a[op.old_lo];
                let base_b = off_b[op.new_lo];
                let a_len = off_a[op.old_hi] - base_a;
                let b_len = off_b[op.new_hi] - base_b;
                if a_len > REFINE_MAX_UTF16 || b_len > REFINE_MAX_UTF16 {
                    out.push(
                        Change {
                            from_a: base_a,
                            to_a: off_a[op.old_hi],
                            from_b: base_b,
                            to_b: off_b[op.new_hi],
                        },
                    );
                } else {
                    let a_text = string_of(ca.as_slice(), sa[op.old_lo], sa[op.old_hi]);
                    let b_text = string_of(cb.as_slice(), sb[op.new_lo], sb[op.new_hi]);
                    proof {
                        lemma_utf16_split(ca@, sa@[op.old_lo as int] as int, sa@[op.old_hi as int] as int);
                        lemma_utf16_split(cb@, sb@[op.new_lo as int] as int, sb@[op.new_hi as int] as int);
                    }
                    refine_into(a_text.as_str(), b_text.as_str(), base_a, base_b, &mut out);
                    proof {
                        assert(refined_block_covers(old@, new@, op));
                    }
                }
            },
        }
        proof {
            assert(out@ =~= before + block_changes(old@, new@, op));
            lemma_line_step(old@, new@, ops@, i as int, before, out@);
            let fa = line_offset(old@, op.old_lo as int);
            let ta = line_offset(old@, op.old_hi as int);
            let fb = line_offset(new@, op.new_lo as int);
            let tb = line_offset(new@, op.new_hi as int);
            let blk = block_changes(old@, new@, op);
            assert(la <= fa && lb <= fb);
            assert(sorted_changes(blk) && changes_within(blk, fa, ta, fb, tb)) by {
                if op.kind == DiffKind::Replace && !(ta - fa > REFINE_MAX_UTF16 || tb - fb > REFINE_MAX_UTF16) {
                    let sa0 = line_start(old@, op.old_lo as int);
                    let sa1 = line_start(old@, op.old_hi as int);
                    let sb0 = line_start(new@, op.new_lo as int);
                    let sb1 = line_start(new@, op.new_hi as int);
                    lemma_utf16_split(old@, sa0, sa1);
                    lemma_utf16_split(new@, sb0, sb1);
                }
            }
            assert(changes_within(blk, la, u32::MAX as int, lb, u32::MAX as int)) by {
                assert forall|k: int| 0 <= k < blk.len() implies {
                    &&& la <= (#[trigger] blk[k]).from_a <= blk[k].to_a <= u32::MAX as int
                    &&& lb <= blk[k].from_b <= blk[k].to_b <= u32::MAX as int
                } by {
                    assert(fa <= blk[k].from_a <= blk[k].to_a <= ta);
                }
            }
            lemma_sorted_append(before, blk, la, lb);
            assert forall|k: int| 0 <= k < out@.len() implies (#[trigger] out@[k]).to_a <= ta && out@[k].to_b <= tb by {
                if k < before.len() {
                    assert(out@[k] == before[k]);
                } else {
                    assert(out@[k] == blk[k - before.len()]);
                }
            }
            la = ta;
            lb = tb;
            assert forall|j: int| i + 1 <= j < ops@.len() implies la <= #[trigger] line_offset(old@, ops@[j].old_lo as int)
                && lb <= line_offset(new@, ops@[j].new_lo as int) by {
                assert(ops@[i as int].old_hi <= ops@[j].old_lo && ops@[i as int].new_hi <= ops@[j].new_lo);
                assert(ops@[j].old_lo <= ops@[j].old_hi <= line_count(old@));
                assert(ops@[j].new_lo <= ops@[j].new_hi <= line_count(new@));
                lemma_line_offset(old@, op.old_hi as int, ops@[j].old_lo as int);
                lemma_line_offset(new@, op.new_hi as int, ops@[j].new_lo as int);
            }
        }
        i += 1;
    }
    proof {
        lemma_line_final(old@, new@, ops@, out@);
        assert(ops@.subrange(0, ops@.len() as int) =~= ops@);
    }
    out
}

/// The changes between two texts, both normalized first.
pub open spec fn diff_of(old: Seq<char>, new: Seq<char>) -> Seq<Change> {
    line_changes(normalized(old), normalized(new), line_diff_ops(normalized(old), normalized(new)))
}

/// The diff between two texts as CodeMirror-ready changes. Both texts are
/// normalized first (`normalize_eol`), and offsets refer to the normalized
/// texts, in UTF-16 code units.
pub fn compute_changes(old: &str, new: &str) -> (r: Vec<Change>)
    requires
        text::utf16_len(normalized(old@)) <= u32::MAX,
        text::utf16_len(normalized(new@)) <= u32::MAX,
    ensures
        r@ == diff_of(old@, new@),
        changes_within(
            r@,
            0,
            text::utf16_len(normalized(old@)) as int,
            0,
            text::utf16_len(normalized(new@)) as int,
        ),
        normalized(old@) == normalized(new@) ==> r@.len() == 0,
        sorted_changes(r@),
        rebuilds(normalized(old@), normalized(new@), r@),
{
    let old = normalize_eol(old);
    let new = normalize_eol(new);
    let ops = line_diff(old.as_str(), new.as_str());
    proof {
        if old@ == new@ {
            lemma_equal_ops_no_changes(old@, new@, ops@);
        }
    }
    changes_from_line_ops(old.as_str(), new.as_str(), ops.as_slice())
}

} // verus!
