//! Character-level string helpers shared by the parsers: the mathematical
//! meaning of std's splitting / trimming / integer parsing over `Seq<char>`,
//! and executable helpers proved against it.

use vstd::prelude::*;
use vstd::string::StringSliceAdditionalSpecFns;
use vstd::utf8::{decode_utf8, encode_utf8, encode_utf8_decode_utf8, valid_utf8};

verus! {

// ---------------------------------------------------------------------------
// Trusted std calls
// ---------------------------------------------------------------------------

/// Appends one character to a `String` (`String::push`).
/// Trusted: std documents `push` as appending the given char to the end.
#[verifier::external_body]
pub fn push_char(s: &mut String, c: char)
    ensures
        final(s)@ == old(s)@.push(c),
{
    s.push(c);
}

/// `std::str::from_utf8`: the string whose UTF-8 bytes are `b`, when `b` is
/// well-formed UTF-8. Trusted: std documents `from_utf8` as failing exactly
/// when the slice is not valid UTF-8 and otherwise returning it as a `str`.
#[verifier::external_body]
pub fn utf8_str(b: &[u8]) -> (r: Option<&str>)
    ensures
        r is Some <==> valid_utf8(b@),
        r matches Some(s) ==> s.spec_bytes() == b@,
{
    std::str::from_utf8(b).ok()
}

/// The characters a well-formed UTF-8 byte string decodes to.
pub fn decode_str(b: &[u8]) -> (r: Option<String>)
    ensures
        r is Some <==> valid_utf8(b@),
        r matches Some(s) ==> s@ == decode_utf8(b@) && encode_utf8(s@) == b@,
{
    match utf8_str(b) {
        Some(s) => {
            proof {
                encode_utf8_decode_utf8(s@);
            }
            Some(s.to_owned())
        },
        None => None,
    }
}

/// The text `String::from_utf8_lossy` makes of `b`: `b` decoded, each
/// invalid sequence replaced by U+FFFD.
pub uninterp spec fn lossy_utf8(b: Seq<u8>) -> Seq<char>;

/// `String::from_utf8_lossy(b)`, owned. Trusted: the result is named
/// `lossy_utf8`; std documents that valid UTF-8 comes back unchanged, and an
/// invalid sequence of one or more bytes becomes the one-unit U+FFFD, so the
/// UTF-16 length never exceeds the byte count. Which sequences count as one
/// invalid sequence is left unsaid.
#[verifier::external_body]
pub(crate) fn utf8_lossy(b: &[u8]) -> (s: String)
    ensures
        s@ == lossy_utf8(b@),
        valid_utf8(b@) ==> s@ == decode_utf8(b@),
        utf16_len(s@) <= b@.len(),
{
    String::from_utf8_lossy(b).into_owned()
}

// ---------------------------------------------------------------------------
// Specification vocabulary
// ---------------------------------------------------------------------------

/// Unicode `White_Space`, the property `char::is_whitespace` tests.
pub open spec fn is_ws(c: char) -> bool {
    ||| ('\u{9}' <= c && c <= '\u{d}')
    ||| c == ' '
    ||| c == '\u{85}'
    ||| c == '\u{a0}'
    ||| c == '\u{1680}'
    ||| ('\u{2000}' <= c && c <= '\u{200a}')
    ||| c == '\u{2028}'
    ||| c == '\u{2029}'
    ||| c == '\u{202f}'
    ||| c == '\u{205f}'
    ||| c == '\u{3000}'
}

/// A character encoded in one UTF-8 byte.
pub open spec fn is_ascii(c: char) -> bool {
    (c as u32) < 128
}

/// `char::to_ascii_lowercase`.
pub open spec fn ascii_lower(c: char) -> char {
    if 'A' <= c && c <= 'Z' {
        ((c as u32) + 32) as char
    } else {
        c
    }
}

pub open spec fn is_digit(c: char) -> bool {
    '0' <= c && c <= '9'
}

pub open spec fn is_hex_digit(c: char) -> bool {
    ||| ('0' <= c && c <= '9')
    ||| ('a' <= c && c <= 'f')
    ||| ('A' <= c && c <= 'F')
}

pub open spec fn starts_with(s: Seq<char>, p: Seq<char>) -> bool {
    p.len() <= s.len() && s.subrange(0, p.len() as int) == p
}

pub open spec fn ends_with(s: Seq<char>, p: Seq<char>) -> bool {
    p.len() <= s.len() && s.subrange(s.len() - p.len(), s.len() as int) == p
}

/// `s` with the prefix `p` removed, when `s` starts with `p` (`str::strip_prefix`).
pub open spec fn strip_prefix(s: Seq<char>, p: Seq<char>) -> Option<Seq<char>> {
    if starts_with(s, p) {
        Some(s.subrange(p.len() as int, s.len() as int))
    } else {
        None
    }
}

/// Smallest index `j >= i` with `s[j] == c`, or `s.len()` when there is none.
pub open spec fn find_from(s: Seq<char>, c: char, i: int) -> int
    decreases s.len() - i,
{
    if i >= s.len() {
        s.len() as int
    } else if s[i] == c {
        i
    } else {
        find_from(s, c, i + 1)
    }
}

pub proof fn lemma_find_from(s: Seq<char>, c: char, i: int)
    requires
        0 <= i <= s.len(),
    ensures
        i <= find_from(s, c, i) <= s.len(),
        forall|k: int| i <= k < find_from(s, c, i) ==> s[k] != c,
        find_from(s, c, i) < s.len() ==> s[find_from(s, c, i)] == c,
    decreases s.len() - i,
{
    if i < s.len() && s[i] != c {
        lemma_find_from(s, c, i + 1);
    }
}

/// The first `c` at or after `i` is at `j` when none lies in `s[i..j]` and
/// `s[j]` is one (or `j` is the end).
pub proof fn lemma_find_exact(s: Seq<char>, c: char, i: int, j: int)
    requires
        0 <= i <= j <= s.len(),
        forall|k: int| i <= k < j ==> s[k] != c,
        j < s.len() ==> s[j] == c,
    ensures
        find_from(s, c, i) == j,
{
    lemma_find_from(s, c, i);
    let f = find_from(s, c, i);
    if f < j {
        assert(s[f] != c);
    }
    if f > j {
        assert(s[j] != c);
    }
}

/// The fields `fs`, each followed by one `c`, then `rest`.
pub open spec fn fields_line(fs: Seq<Seq<char>>, rest: Seq<char>, c: char) -> Seq<char>
    decreases fs.len(),
{
    if fs.len() == 0 {
        rest
    } else {
        fs[0] + seq![c] + fields_line(fs.drop_first(), rest, c)
    }
}

/// Splitting `fields_line(fs, rest, c)` into `fs.len() + 1` pieces at `c`
/// gives back the fields and `rest`, whatever `rest` holds, when no field
/// holds `c`.
pub proof fn lemma_splitn_fields(s: Seq<char>, c: char, i: int, fs: Seq<Seq<char>>, rest: Seq<char>)
    requires
        0 <= i <= s.len(),
        s.subrange(i, s.len() as int) == fields_line(fs, rest, c),
        forall|k: int, t: int| 0 <= k < fs.len() && 0 <= t < fs[k].len() ==> #[trigger] fs[k][t] != c,
    ensures
        splitn_from(s, c, i, (fs.len() + 1) as nat) == fs.push(rest),
    decreases fs.len(),
{
    if fs.len() == 0 {
        assert(seq![s.subrange(i, s.len() as int)] =~= fs.push(rest));
    } else {
        let f = fs[0];
        let tail = fields_line(fs.drop_first(), rest, c);
        let j = i + f.len();
        let t = s.subrange(i, s.len() as int);
        assert(t == f + seq![c] + tail);
        assert forall|k: int| i <= k < j implies s[k] != c by {
            assert(s[k] == t[k - i]);
            assert(t[k - i] == f[k - i]);
            assert(fs[0][k - i] != c);
        }
        assert(s[j] == t[j - i]);
        lemma_find_exact(s, c, i, j);
        assert(s.subrange(i, j) =~= f);
        assert(t.subrange(f.len() + 1int, t.len() as int) =~= tail);
        assert(s.subrange(j + 1, s.len() as int) =~= t.subrange(f.len() + 1int, t.len() as int));
        assert forall|k: int, u: int| 0 <= k < fs.drop_first().len() && 0 <= u < fs.drop_first()[k].len() implies #[trigger] fs.drop_first()[k][u] != c by {
            assert(fs.drop_first()[k] == fs[k + 1]);
        }
        lemma_splitn_fields(s, c, j + 1, fs.drop_first(), rest);
        assert(seq![f] + fs.drop_first().push(rest) =~= fs.push(rest));
    }
}

/// `split` of `d`, a `c`, then `b` without `c`: the pieces of `d`, then `b`.
pub proof fn lemma_split_append(s: Seq<char>, d: Seq<char>, b: Seq<char>, c: char, i: int)
    requires
        s == d + seq![c] + b,
        0 <= i <= d.len(),
        forall|k: int| 0 <= k < b.len() ==> b[k] != c,
    ensures
        split_from(s, c, i) == split_from(d, c, i).push(b),
    decreases d.len() - i,
{
    lemma_find_from(d, c, i);
    let jd = find_from(d, c, i);
    assert forall|k: int| i <= k < jd implies s[k] != c by {
        assert(s[k] == d[k]);
    }
    if jd < d.len() {
        assert(s[jd] == d[jd]);
        lemma_find_exact(s, c, i, jd);
        assert(s.subrange(i, jd) =~= d.subrange(i, jd));
        lemma_split_append(s, d, b, c, jd + 1);
        assert(seq![d.subrange(i, jd)] + split_from(d, c, jd + 1).push(b) =~= (seq![d.subrange(i, jd)]
            + split_from(d, c, jd + 1)).push(b));
    } else {
        assert(s[jd] == c);
        lemma_find_exact(s, c, i, jd);
        assert forall|k: int| jd + 1 <= k < s.len() implies s[k] != c by {
            assert(s[k] == b[k - jd - 1]);
        }
        lemma_find_exact(s, c, jd + 1, s.len() as int);
        assert(s.subrange(i, jd) =~= d.subrange(i, d.len() as int));
        assert(s.subrange(jd + 1, s.len() as int) =~= b);
        assert(split_from(s, c, jd + 1) == seq![s.subrange(jd + 1, s.len() as int)]);
        assert(split_from(s, c, i) == seq![s.subrange(i, jd)] + split_from(s, c, jd + 1));
        assert(split_from(d, c, i) == seq![d.subrange(i, d.len() as int)]);
        assert(seq![d.subrange(i, d.len() as int)].push(b) =~= seq![s.subrange(i, jd)] + seq![b]);
    }
}

/// The pieces of `s[i..]` separated by `c` (`str::split`): one more piece than
/// there are separators, empty pieces kept.
pub open spec fn split_from(s: Seq<char>, c: char, i: int) -> Seq<Seq<char>>
    decreases s.len() - i,
{
    if i < 0 || i > s.len() {
        seq![]
    } else {
        let j = find_from(s, c, i);
        if j < i || j >= s.len() {
            seq![s.subrange(i, s.len() as int)]
        } else {
            seq![s.subrange(i, j)] + split_from(s, c, j + 1)
        }
    }
}

/// `str::split(c)`.
pub open spec fn split(s: Seq<char>, c: char) -> Seq<Seq<char>> {
    split_from(s, c, 0)
}

/// At most `n` pieces of `s[i..]` separated by `c`, the last holding the
/// remainder (`str::splitn`, for `n >= 1`).
pub open spec fn splitn_from(s: Seq<char>, c: char, i: int, n: nat) -> Seq<Seq<char>>
    decreases s.len() - i,
{
    if i < 0 || i > s.len() || n == 0 {
        seq![]
    } else if n == 1 {
        seq![s.subrange(i, s.len() as int)]
    } else {
        let j = find_from(s, c, i);
        if j < i || j >= s.len() {
            seq![s.subrange(i, s.len() as int)]
        } else {
            seq![s.subrange(i, j)] + splitn_from(s, c, j + 1, (n - 1) as nat)
        }
    }
}

/// `str::splitn(n, c)`.
pub open spec fn splitn(s: Seq<char>, n: nat, c: char) -> Seq<Seq<char>> {
    splitn_from(s, c, 0, n)
}

/// The `k`-th element of `pieces`, or the empty string when there are fewer
/// (`iter.next().unwrap_or("")` applied `k + 1` times).
pub open spec fn nth_or_empty(pieces: Seq<Seq<char>>, k: int) -> Seq<char> {
    if 0 <= k < pieces.len() {
        pieces[k]
    } else {
        Seq::empty()
    }
}

/// The pieces of `s[i..]` each ending in `c` except possibly the last, with no
/// trailing empty piece (`str::split_inclusive`).
pub open spec fn split_inclusive_from(s: Seq<char>, c: char, i: int) -> Seq<Seq<char>>
    decreases s.len() - i,
{
    if i < 0 || i >= s.len() {
        seq![]
    } else {
        let j = find_from(s, c, i);
        if j < i || j >= s.len() {
            seq![s.subrange(i, s.len() as int)]
        } else {
            seq![s.subrange(i, j + 1)] + split_inclusive_from(s, c, j + 1)
        }
    }
}

pub open spec fn split_inclusive(s: Seq<char>, c: char) -> Seq<Seq<char>> {
    split_inclusive_from(s, c, 0)
}

/// A line of `str::lines` built from the piece `s[i..j]` that ended in `'\n'`:
/// one trailing `'\r'` is dropped too.
pub open spec fn line_body(s: Seq<char>, i: int, j: int) -> Seq<char> {
    if i < j && s[j - 1] == '\r' {
        s.subrange(i, j - 1)
    } else {
        s.subrange(i, j)
    }
}

/// `str::lines` of `s[i..]`: split after each `'\n'`, terminators (`"\n"` or
/// `"\r\n"`) removed; a final line without `'\n'` is kept as is.
pub open spec fn lines_from(s: Seq<char>, i: int) -> Seq<Seq<char>>
    decreases s.len() - i,
{
    if i < 0 || i >= s.len() {
        seq![]
    } else {
        let j = find_from(s, '\n', i);
        if j < i || j >= s.len() {
            seq![s.subrange(i, s.len() as int)]
        } else {
            seq![line_body(s, i, j)] + lines_from(s, j + 1)
        }
    }
}

pub open spec fn lines(s: Seq<char>) -> Seq<Seq<char>> {
    lines_from(s, 0)
}

/// Smallest index `j >= i` with `is_ws(s[j]) == ws`, or `s.len()`.
pub open spec fn find_ws_from(s: Seq<char>, ws: bool, i: int) -> int
    decreases s.len() - i,
{
    if i >= s.len() {
        s.len() as int
    } else if is_ws(s[i]) == ws {
        i
    } else {
        find_ws_from(s, ws, i + 1)
    }
}

pub proof fn lemma_find_ws_from(s: Seq<char>, ws: bool, i: int)
    requires
        0 <= i <= s.len(),
    ensures
        i <= find_ws_from(s, ws, i) <= s.len(),
        forall|k: int| i <= k < find_ws_from(s, ws, i) ==> is_ws(s[k]) != ws,
        find_ws_from(s, ws, i) < s.len() ==> is_ws(s[find_ws_from(s, ws, i)]) == ws,
    decreases s.len() - i,
{
    if i < s.len() && is_ws(s[i]) != ws {
        lemma_find_ws_from(s, ws, i + 1);
    }
}

/// `str::split_whitespace` of `s[i..]`: maximal non-empty runs of
/// non-whitespace characters.
pub open spec fn split_ws_from(s: Seq<char>, i: int) -> Seq<Seq<char>>
    decreases s.len() - i,
{
    if i < 0 || i >= s.len() {
        seq![]
    } else {
        let a = find_ws_from(s, false, i);
        if a < i || a >= s.len() {
            seq![]
        } else {
            let b = find_ws_from(s, true, a);
            if b <= a || b > s.len() {
                seq![]
            } else {
                seq![s.subrange(a, b)] + split_ws_from(s, b)
            }
        }
    }
}

pub open spec fn split_whitespace(s: Seq<char>) -> Seq<Seq<char>> {
    split_ws_from(s, 0)
}

/// Number of leading whitespace characters of `s`.
pub open spec fn lead_ws(s: Seq<char>) -> int {
    find_ws_from(s, false, 0)
}

/// Index one past the last non-whitespace character of `s[..hi]` (0 if none).
pub open spec fn trail_end(s: Seq<char>, hi: int) -> int
    decreases hi,
{
    if hi <= 0 {
        0
    } else if !is_ws(s[hi - 1]) {
        hi
    } else {
        trail_end(s, hi - 1)
    }
}

/// `str::trim`.
pub open spec fn trim(s: Seq<char>) -> Seq<char> {
    let a = lead_ws(s);
    let b = trail_end(s, s.len() as int);
    if a < b {
        s.subrange(a, b)
    } else {
        Seq::empty()
    }
}

/// `str::trim_end`.
pub open spec fn trim_end(s: Seq<char>) -> Seq<char> {
    s.subrange(0, trail_end(s, s.len() as int))
}

pub proof fn lemma_trail_end(s: Seq<char>, hi: int)
    requires
        0 <= hi <= s.len(),
    ensures
        0 <= trail_end(s, hi) <= hi,
        forall|k: int| trail_end(s, hi) <= k < hi ==> is_ws(s[k]),
        trail_end(s, hi) > 0 ==> !is_ws(s[trail_end(s, hi) - 1]),
    decreases hi,
{
    if hi > 0 && is_ws(s[hi - 1]) {
        lemma_trail_end(s, hi - 1);
    }
}

/// UTF-16 code units of one character (`char::len_utf16`): two for a
/// character outside the Basic Multilingual Plane, one otherwise.
pub open spec fn u16_units(c: char) -> nat {
    if (c as u32) >= 0x10000 {
        2
    } else {
        1
    }
}

/// UTF-16 length of a character sequence.
pub open spec fn utf16_len(s: Seq<char>) -> nat
    decreases s.len(),
{
    if s.len() == 0 {
        0
    } else {
        utf16_len(s.drop_last()) + u16_units(s.last())
    }
}

/// UTF-16 length adds up over a split point.
pub proof fn lemma_utf16_split(s: Seq<char>, i: int, j: int)
    requires
        0 <= i <= j <= s.len(),
    ensures
        utf16_len(s.subrange(0, j)) == utf16_len(s.subrange(0, i)) + utf16_len(s.subrange(i, j)),
    decreases j - i,
{
    if j > i {
        lemma_utf16_split(s, i, j - 1);
        assert(s.subrange(0, j).drop_last() =~= s.subrange(0, j - 1));
        assert(s.subrange(i, j).drop_last() =~= s.subrange(i, j - 1));
    } else {
        assert(s.subrange(i, j) =~= Seq::<char>::empty());
    }
}

/// One character's UTF-16 length.
pub proof fn lemma_utf16_single(c: char)
    ensures
        utf16_len(seq![c]) == u16_units(c),
{
    assert(seq![c].drop_last() =~= Seq::<char>::empty());
    assert(seq![c].last() == c);
    assert(utf16_len(Seq::<char>::empty()) == 0);
}

/// UTF-16 length adds up over a concatenation.
pub proof fn lemma_utf16_concat(a: Seq<char>, b: Seq<char>)
    ensures
        utf16_len(a + b) == utf16_len(a) + utf16_len(b),
{
    let s = a + b;
    lemma_utf16_split(s, a.len() as int, s.len() as int);
    assert(s.subrange(0, a.len() as int) =~= a);
    assert(s.subrange(a.len() as int, s.len() as int) =~= b);
    assert(s.subrange(0, s.len() as int) =~= s);
}

/// UTF-16 length grows with the prefix.
pub proof fn lemma_utf16_mono(s: Seq<char>, i: int, j: int)
    requires
        0 <= i <= j <= s.len(),
    ensures
        utf16_len(s.subrange(0, i)) <= utf16_len(s.subrange(0, j)),
{
    lemma_utf16_split(s, i, j);
}

/// The UTF-16 code units of one character: itself below U+10000, else its
/// surrogate pair.
pub open spec fn char_utf16(c: char) -> Seq<u16> {
    if (c as u32) >= 0x10000 {
        let v = (c as u32) - 0x10000;
        seq![(0xD800 + v / 0x400) as u16, (0xDC00 + v % 0x400) as u16]
    } else {
        seq![c as u16]
    }
}

/// The UTF-16 encoding of a character sequence.
pub open spec fn utf16_units(s: Seq<char>) -> Seq<u16>
    decreases s.len(),
{
    if s.len() == 0 {
        seq![]
    } else {
        utf16_units(s.drop_last()) + char_utf16(s.last())
    }
}

/// The encoding has `utf16_len` units and encodes a concatenation piecewise.
pub proof fn lemma_utf16_units_concat(a: Seq<char>, b: Seq<char>)
    ensures
        utf16_units(a + b) == utf16_units(a) + utf16_units(b),
        utf16_units(a).len() == utf16_len(a),
    decreases b.len() + a.len(),
{
    if b.len() == 0 {
        assert(a + b =~= a);
        assert(utf16_units(a) + utf16_units(b) =~= utf16_units(a));
        if a.len() > 0 {
            lemma_utf16_units_concat(a.drop_last(), b);
            assert(a.drop_last() + b =~= a.drop_last());
        }
    } else {
        lemma_utf16_units_concat(a, b.drop_last());
        assert((a + b).drop_last() =~= a + b.drop_last());
        assert((a + b).last() == b.last());
        assert(utf16_units(a + b) == utf16_units(a + b.drop_last()) + char_utf16(b.last()));
        assert(utf16_units(a) + utf16_units(b.drop_last()) + char_utf16(b.last()) =~= utf16_units(a)
            + (utf16_units(b.drop_last()) + char_utf16(b.last())));
    }
}

/// The units of `s[i..j]` sit in the encoding of `s` between the UTF-16
/// lengths of the prefixes `s[..i]` and `s[..j]`.
pub proof fn lemma_utf16_units_range(s: Seq<char>, i: int, j: int)
    requires
        0 <= i <= j <= s.len(),
    ensures
        utf16_units(s).len() == utf16_len(s),
        utf16_units(s).subrange(
            utf16_len(s.subrange(0, i)) as int,
            utf16_len(s.subrange(0, j)) as int,
        ) == utf16_units(s.subrange(i, j)),
{
    let p = s.subrange(0, i);
    let m = s.subrange(i, j);
    let q = s.subrange(j, s.len() as int);
    assert(s =~= p + m + q);
    lemma_utf16_units_concat(p + m, q);
    lemma_utf16_units_concat(p, m);
    lemma_utf16_units_concat(m, q);
    lemma_utf16_units_concat(s, seq![]);
    assert(s.subrange(0, j) =~= p + m);
    let u = utf16_units(s);
    assert(u == utf16_units(p) + utf16_units(m) + utf16_units(q));
    assert(u.subrange(utf16_units(p).len() as int, (utf16_units(p).len() + utf16_units(m).len()) as int)
        =~= utf16_units(m));
}

/// Start index of each piece of `split_inclusive(s[i..], c)`.
pub open spec fn incl_starts_from(s: Seq<char>, c: char, i: int) -> Seq<int>
    decreases s.len() - i,
{
    if i < 0 || i >= s.len() {
        seq![]
    } else {
        let j = find_from(s, c, i);
        if j < i || j >= s.len() {
            seq![i]
        } else {
            seq![i] + incl_starts_from(s, c, j + 1)
        }
    }
}

/// Start index of each piece of `split_inclusive(s, c)`.
pub open spec fn incl_starts(s: Seq<char>, c: char) -> Seq<int> {
    incl_starts_from(s, c, 0)
}

pub proof fn lemma_incl_starts_from(s: Seq<char>, c: char, i: int)
    requires
        0 <= i <= s.len(),
    ensures
        incl_starts_from(s, c, i).len() == split_inclusive_from(s, c, i).len(),
        forall|k: int|
            0 <= k < incl_starts_from(s, c, i).len() ==> i <= #[trigger] incl_starts_from(s, c, i)[k]
                < s.len(),
        forall|a: int, b: int|
            0 <= a < b < incl_starts_from(s, c, i).len() ==> incl_starts_from(s, c, i)[a]
                < incl_starts_from(s, c, i)[b],
        i < s.len() ==> incl_starts_from(s, c, i)[0] == i,
    decreases s.len() - i,
{
    lemma_find_from(s, c, i);
    if i < s.len() {
        let j = find_from(s, c, i);
        if j < s.len() {
            lemma_incl_starts_from(s, c, j + 1);
            let rest = incl_starts_from(s, c, j + 1);
            assert forall|k: int| 0 <= k < incl_starts_from(s, c, i).len() implies i
                <= #[trigger] incl_starts_from(s, c, i)[k] < s.len() by {
                if k > 0 {
                    assert(incl_starts_from(s, c, i)[k] == rest[k - 1]);
                }
            }
            assert forall|a: int, b: int|
                0 <= a < b < incl_starts_from(s, c, i).len() implies incl_starts_from(s, c, i)[a]
                < incl_starts_from(s, c, i)[b] by {
                assert(incl_starts_from(s, c, i)[b] == rest[b - 1]);
                if a > 0 {
                    assert(incl_starts_from(s, c, i)[a] == rest[a - 1]);
                }
            }
        }
    }
}

/// The start index of each piece of `split_inclusive(cs, c)`.
pub fn incl_start_indices(cs: &[char], c: char) -> (v: Vec<usize>)
    ensures
        v@.len() == incl_starts(cs@, c).len(),
        forall|k: int| 0 <= k < v@.len() ==> v@[k] == incl_starts(cs@, c)[k],
{
    let n = cs.len();
    let mut v: Vec<usize> = Vec::new();
    let ghost mut done: Seq<int> = seq![];
    let mut p: usize = 0;
    assert(cs@.subrange(0, n as int) =~= cs@);
    while p < n
        invariant
            n == cs@.len(),
            cs@.subrange(0, n as int) == cs@,
            p <= n,
            incl_starts_from(cs@, c, 0) == done + incl_starts_from(cs@, c, p as int),
            v@.len() == done.len(),
            forall|k: int| 0 <= k < v@.len() ==> v@[k] == done[k],
        decreases n - p,
    {
        let j = find_char(cs, 0, n, p, c);
        proof {
            lemma_find_from(cs@, c, p as int);
            assert(incl_starts_from(cs@, c, p as int) == seq![p as int] + (if j < n {
                incl_starts_from(cs@, c, j + 1)
            } else {
                seq![]
            }));
            assert(done + incl_starts_from(cs@, c, p as int) =~= done.push(p as int) + (if j < n {
                incl_starts_from(cs@, c, j + 1)
            } else {
                seq![]
            }));
            done = done.push(p as int);
        }
        v.push(p);
        p = if j < n { j + 1 } else { n };
        proof {
            if j >= n {
                assert(incl_starts_from(cs@, c, p as int) == Seq::<int>::empty());
            }
        }
    }
    proof {
        assert(incl_starts_from(cs@, c, 0) =~= done);
    }
    v
}

/// `prefix[i]` is the UTF-16 length of `cs[..i]`, for every `i <= cs.len()`.
pub fn utf16_prefix(cs: &[char]) -> (v: Vec<u32>)
    requires
        utf16_len(cs@) <= u32::MAX,
    ensures
        v@.len() == cs@.len() + 1,
        forall|i: int| 0 <= i <= cs@.len() ==> v@[i] == utf16_len(#[trigger] cs@.subrange(0, i)),
{
    let mut v: Vec<u32> = Vec::new();
    let mut acc: u32 = 0;
    v.push(0);
    assert(cs@.subrange(0, 0) =~= Seq::<char>::empty());
    let mut i: usize = 0;
    while i < cs.len()
        invariant
            i <= cs@.len(),
            utf16_len(cs@) <= u32::MAX,
            v@.len() == i + 1,
            acc == utf16_len(cs@.subrange(0, i as int)),
            forall|k: int| 0 <= k <= i ==> v@[k] == utf16_len(#[trigger] cs@.subrange(0, k)),
        decreases cs@.len() - i,
    {
        proof {
            assert(cs@.subrange(0, i + 1).drop_last() =~= cs@.subrange(0, i as int));
            lemma_utf16_mono(cs@, i + 1, cs@.len() as int);
            assert(cs@.subrange(0, cs@.len() as int) =~= cs@);
        }
        let w: u32 = if (cs[i] as u32) >= 0x10000 { 2 } else { 1 };
        acc = acc + w;
        v.push(acc);
        i += 1;
    }
    v
}

/// Decimal value of a run of ASCII digits.
pub open spec fn digits_value(s: Seq<char>) -> nat
    decreases s.len(),
{
    if s.len() == 0 {
        0
    } else {
        digits_value(s.drop_last()) * 10 + ((s.last() as int - '0' as int) as nat)
    }
}

pub open spec fn all_digits(s: Seq<char>) -> bool {
    forall|k: int| 0 <= k < s.len() ==> #[trigger] is_digit(s[k])
}

/// The integer that Rust's `FromStr` for an integer type reads from `s`,
/// before the range check: an optional `'+'` (or `'-'` when `signed`) and at
/// least one ASCII digit.
pub open spec fn int_literal(s: Seq<char>, signed: bool) -> Option<int> {
    if s.len() > 1 && s[0] == '+' && all_digits(s.drop_first()) {
        Some(digits_value(s.drop_first()) as int)
    } else if signed && s.len() > 1 && s[0] == '-' && all_digits(s.drop_first()) {
        Some(-(digits_value(s.drop_first()) as int))
    } else if s.len() > 0 && all_digits(s) {
        Some(digits_value(s) as int)
    } else {
        None
    }
}

/// `s.parse::<i64>().ok()`.
pub open spec fn parse_i64_spec(s: Seq<char>) -> Option<i64> {
    match int_literal(s, true) {
        Some(v) => if i64::MIN <= v <= i64::MAX {
            Some(v as i64)
        } else {
            None
        },
        None => None,
    }
}

/// `s.parse::<u64>().ok()`.
pub open spec fn parse_u64_spec(s: Seq<char>) -> Option<u64> {
    match int_literal(s, false) {
        Some(v) => if 0 <= v <= u64::MAX {
            Some(v as u64)
        } else {
            None
        },
        None => None,
    }
}

/// `s.parse::<u32>().ok()`.
pub open spec fn parse_u32_spec(s: Seq<char>) -> Option<u32> {
    match int_literal(s, false) {
        Some(v) => if 0 <= v <= u32::MAX {
            Some(v as u32)
        } else {
            None
        },
        None => None,
    }
}

/// `s.parse::<usize>().ok()`.
pub open spec fn parse_usize_spec(s: Seq<char>) -> Option<usize> {
    match int_literal(s, false) {
        Some(v) => if 0 <= v <= usize::MAX {
            Some(v as usize)
        } else {
            None
        },
        None => None,
    }
}

pub proof fn lemma_digits_value_grows(s: Seq<char>, k: int)
    requires
        0 <= k <= s.len(),
        all_digits(s),
    ensures
        digits_value(s.subrange(0, k)) <= digits_value(s),
    decreases s.len() - k,
{
    if k < s.len() {
        lemma_digits_value_grows(s, k + 1);
        let t = s.subrange(0, k + 1);
        assert(t.drop_last() =~= s.subrange(0, k));
        assert(is_digit(s[k]));
        let x = digits_value(s.subrange(0, k));
        assert(digits_value(t) == x * 10 + ((t.last() as int - '0' as int) as nat));
        assert(x * 10 >= x) by (nonlinear_arith);
    } else {
        assert(s.subrange(0, k) =~= s);
    }
}

/// Piece `k` of `split_inclusive(s[i..], c)` runs from its start to the next
/// piece's start, the last one to the end of `s`.
pub proof fn lemma_incl_pieces_from(s: Seq<char>, c: char, i: int)
    requires
        0 <= i <= s.len(),
    ensures
        forall|k: int|
            0 <= k < split_inclusive_from(s, c, i).len() ==> #[trigger] split_inclusive_from(s, c, i)[k]
                == s.subrange(
                incl_starts_from(s, c, i)[k],
                if k + 1 < incl_starts_from(s, c, i).len() {
                    incl_starts_from(s, c, i)[k + 1]
                } else {
                    s.len() as int
                },
            ),
    decreases s.len() - i,
{
    lemma_find_from(s, c, i);
    lemma_incl_starts_from(s, c, i);
    if i < s.len() {
        let j = find_from(s, c, i);
        if j < s.len() {
            lemma_incl_pieces_from(s, c, j + 1);
            lemma_incl_starts_from(s, c, j + 1);
            let sp = split_inclusive_from(s, c, i);
            let st = incl_starts_from(s, c, i);
            let rsp = split_inclusive_from(s, c, j + 1);
            let rst = incl_starts_from(s, c, j + 1);
            assert(sp == seq![s.subrange(i, j + 1)] + rsp);
            assert(st == seq![i] + rst);
            assert forall|k: int| 0 <= k < sp.len() implies #[trigger] sp[k] == s.subrange(
                st[k],
                if k + 1 < st.len() {
                    st[k + 1]
                } else {
                    s.len() as int
                },
            ) by {
                if k == 0 {
                    if rst.len() > 0 {
                        assert(rst[0] == j + 1);
                    } else {
                        assert(j + 1 >= s.len());
                    }
                } else {
                    assert(sp[k] == rsp[k - 1]);
                    assert(st[k] == rst[k - 1]);
                }
            }
        }
    }
}

/// The pieces of `ss` joined end to end.
pub open spec fn concat(ss: Seq<Seq<char>>) -> Seq<char>
    decreases ss.len(),
{
    if ss.len() == 0 {
        seq![]
    } else {
        concat(ss.drop_last()) + ss.last()
    }
}

/// Joining `a` followed by `rest` is `a` followed by the join of `rest`.
pub proof fn lemma_concat_front(a: Seq<char>, rest: Seq<Seq<char>>)
    ensures
        concat(seq![a] + rest) == a + concat(rest),
    decreases rest.len(),
{
    if rest.len() == 0 {
        assert(seq![a] + rest =~= seq![a]);
        assert(seq![a].drop_last() =~= Seq::<Seq<char>>::empty());
        assert(concat(Seq::<Seq<char>>::empty()) == Seq::<char>::empty());
        assert(Seq::<char>::empty() + a =~= a);
        assert(a + Seq::<char>::empty() =~= a);
        assert(concat(seq![a]) == concat(seq![a].drop_last()) + a);
    } else {
        lemma_concat_front(a, rest.drop_last());
        assert((seq![a] + rest).drop_last() =~= seq![a] + rest.drop_last());
        assert((seq![a] + rest).last() == rest.last());
        assert(a + concat(rest.drop_last()) + rest.last() =~= a + (concat(rest.drop_last())
            + rest.last()));
    }
}

/// The `split_inclusive` pieces of `s[i..]` join back to `s[i..]`.
pub proof fn lemma_concat_split_inclusive_from(s: Seq<char>, c: char, i: int)
    requires
        0 <= i <= s.len(),
    ensures
        concat(split_inclusive_from(s, c, i)) == s.subrange(i, s.len() as int),
    decreases s.len() - i,
{
    lemma_find_from(s, c, i);
    if i >= s.len() {
        assert(s.subrange(i, s.len() as int) =~= Seq::<char>::empty());
    } else {
        let j = find_from(s, c, i);
        if j >= s.len() {
            let piece = s.subrange(i, s.len() as int);
            assert(split_inclusive_from(s, c, i) == seq![piece]);
            assert(seq![piece].drop_last() =~= Seq::<Seq<char>>::empty());
            assert(concat(Seq::<Seq<char>>::empty()) == Seq::<char>::empty());
            assert(Seq::<char>::empty() + piece =~= piece);
            assert(concat(seq![piece]) == concat(seq![piece].drop_last()) + piece);
        } else {
            assert(split_inclusive_from(s, c, i) == seq![s.subrange(i, j + 1)]
                + split_inclusive_from(s, c, j + 1));
            lemma_concat_split_inclusive_from(s, c, j + 1);
            lemma_concat_front(s.subrange(i, j + 1), split_inclusive_from(s, c, j + 1));
            assert(s.subrange(i, j + 1) + s.subrange(j + 1, s.len() as int) =~= s.subrange(
                i,
                s.len() as int,
            ));
        }
    }
}

/// `str::split_inclusive` loses nothing: its pieces join back to the text.
pub proof fn lemma_concat_split_inclusive(s: Seq<char>, c: char)
    ensures
        concat(split_inclusive(s, c)) == s,
{
    lemma_concat_split_inclusive_from(s, c, 0);
    assert(s.subrange(0, s.len() as int) =~= s);
}

/// Each piece is no longer than the join of all pieces.
pub proof fn lemma_concat_piece_len(ss: Seq<Seq<char>>, k: int)
    requires
        0 <= k < ss.len(),
    ensures
        ss[k].len() <= concat(ss).len(),
    decreases ss.len(),
{
    if k < ss.len() - 1 {
        lemma_concat_piece_len(ss.drop_last(), k);
    }
}

/// `str::lines` yields at most one line per character.
pub proof fn lemma_lines_len(s: Seq<char>, i: int)
    requires
        0 <= i <= s.len(),
    ensures
        lines_from(s, i).len() <= s.len() - i,
    decreases s.len() - i,
{
    lemma_find_from(s, '\n', i);
    if i < s.len() {
        let j = find_from(s, '\n', i);
        if j < s.len() {
            lemma_lines_len(s, j + 1);
        }
    }
}

/// Smallest index `j >= i` with `s[j] == c`, or `s.len()` (bytes).
pub open spec fn bfind_from(s: Seq<u8>, c: u8, i: int) -> int
    decreases s.len() - i,
{
    if i >= s.len() {
        s.len() as int
    } else if s[i] == c {
        i
    } else {
        bfind_from(s, c, i + 1)
    }
}

pub proof fn lemma_bfind_from(s: Seq<u8>, c: u8, i: int)
    requires
        0 <= i <= s.len(),
    ensures
        i <= bfind_from(s, c, i) <= s.len(),
        forall|k: int| i <= k < bfind_from(s, c, i) ==> s[k] != c,
        bfind_from(s, c, i) < s.len() ==> s[bfind_from(s, c, i)] == c,
    decreases s.len() - i,
{
    if i < s.len() && s[i] != c {
        lemma_bfind_from(s, c, i + 1);
    }
}

/// The pieces of `s[i..]` separated by the byte `c` (`<[u8]>::split`).
pub open spec fn bsplit_from(s: Seq<u8>, c: u8, i: int) -> Seq<Seq<u8>>
    decreases s.len() - i,
{
    if i < 0 || i > s.len() {
        seq![]
    } else {
        let j = bfind_from(s, c, i);
        if j < i || j >= s.len() {
            seq![s.subrange(i, s.len() as int)]
        } else {
            seq![s.subrange(i, j)] + bsplit_from(s, c, j + 1)
        }
    }
}

/// `bytes.split(|&b| b == c)`.
pub open spec fn bsplit(s: Seq<u8>, c: u8) -> Seq<Seq<u8>> {
    bsplit_from(s, c, 0)
}

/// The bytes `b` are the (ASCII) characters `t`, one byte per character.
pub open spec fn bytes_eq_text(b: Seq<u8>, t: Seq<char>) -> bool {
    b.len() == t.len() && forall|k: int| 0 <= k < t.len() ==> (b[k] as u32) == (t[k] as u32)
}

/// A decimal digit.
pub open spec fn digit_char(d: nat) -> char {
    (('0' as u32) + d) as char
}

/// The decimal representation of `n` (`n.to_string()`), most significant
/// digit first, no leading zeros.
pub open spec fn decimal(n: nat) -> Seq<char>
    decreases n,
{
    if n < 10 {
        seq![digit_char(n)]
    } else {
        decimal(n / 10).push(digit_char(n % 10))
    }
}

// ---------------------------------------------------------------------------
// Executable helpers
// ---------------------------------------------------------------------------

/// The characters of `s`, in order.
pub fn chars_of(s: &str) -> (v: Vec<char>)
    ensures
        v@ == s@,
{
    let mut v: Vec<char> = Vec::new();
    for c in it: s.chars()
        invariant
            v@ == it.seq().take(it.index() as int),
    {
        v.push(c);
    }
    v
}

/// The string made of `cs[lo..hi]`.
pub fn string_of(cs: &[char], lo: usize, hi: usize) -> (s: String)
    requires
        lo <= hi <= cs@.len(),
    ensures
        s@ == cs@.subrange(lo as int, hi as int),
{
    let mut s = String::new();
    let mut i = lo;
    while i < hi
        invariant
            lo <= i <= hi <= cs@.len(),
            s@ == cs@.subrange(lo as int, i as int),
        decreases hi - i,
    {
        push_char(&mut s, cs[i]);
        i += 1;
    }
    s
}

/// Appends `cs[lo..hi]` to `s`.
pub fn push_chars(s: &mut String, cs: &[char], lo: usize, hi: usize)
    requires
        lo <= hi <= cs@.len(),
    ensures
        final(s)@ == old(s)@ + cs@.subrange(lo as int, hi as int),
{
    let mut i = lo;
    while i < hi
        invariant
            lo <= i <= hi <= cs@.len(),
            s@ == old(s)@ + cs@.subrange(lo as int, i as int),
        decreases hi - i,
    {
        push_char(s, cs[i]);
        i += 1;
        assert(cs@.subrange(lo as int, i as int) =~= cs@.subrange(lo as int, i - 1).push(
            cs@[i - 1],
        ));
    }
}

/// Appends the characters of `t` to `s`.
pub fn push_str(s: &mut String, t: &str)
    ensures
        final(s)@ == old(s)@ + t@,
{
    let cs = chars_of(t);
    push_chars(s, cs.as_slice(), 0, cs.len());
    assert(cs@.subrange(0, cs@.len() as int) =~= cs@);
}

/// The `String` holding `s`.
pub fn owned(s: &str) -> (r: String)
    ensures
        r@ == s@,
{
    s.to_owned()
}

/// First index `j >= from` with `cs[j] == c` inside `cs[lo..hi]`, or `hi`.
pub fn find_char(cs: &[char], lo: usize, hi: usize, from: usize, c: char) -> (j: usize)
    requires
        lo <= from <= hi <= cs@.len(),
    ensures
        j - lo == find_from(cs@.subrange(lo as int, hi as int), c, from - lo),
        from <= j <= hi,
        j < hi ==> cs@[j as int] == c,
{
    let ghost s = cs@.subrange(lo as int, hi as int);
    proof {
        lemma_find_from(s, c, from - lo);
    }
    let mut j = from;
    while j < hi && cs[j] != c
        invariant
            lo <= from <= j <= hi <= cs@.len(),
            s == cs@.subrange(lo as int, hi as int),
            find_from(s, c, j - lo) == find_from(s, c, from - lo),
        decreases hi - j,
    {
        assert(s[j - lo] == cs@[j as int]);
        j += 1;
    }
    proof {
        if j < hi {
            assert(s[j - lo] == cs@[j as int]);
        }
    }
    j
}

/// `n.to_string()`.
pub fn decimal_string(n: u64) -> (s: String)
    ensures
        s@ == decimal(n as nat),
    decreases n,
{
    if n < 10 {
        let mut s = String::new();
        push_char(&mut s, digit(n));
        s
    } else {
        let mut s = decimal_string(n / 10);
        push_char(&mut s, digit(n % 10));
        s
    }
}

/// The character of a decimal digit.
fn digit(d: u64) -> (c: char)
    requires
        d < 10,
    ensures
        c == digit_char(d as nat),
{
    let b: u8 = 48 + d as u8;
    let c = b as char;
    assert(c as u32 == 48 + d);
    c
}

/// First index `j >= from` with `bs[j] == c`, or `bs.len()`.
pub fn find_byte(bs: &[u8], from: usize, c: u8) -> (j: usize)
    requires
        from <= bs@.len(),
    ensures
        j == bfind_from(bs@, c, from as int),
        from <= j <= bs@.len(),
{
    proof {
        lemma_bfind_from(bs@, c, from as int);
    }
    let mut j = from;
    while j < bs.len() && bs[j] != c
        invariant
            from <= j <= bs@.len(),
            bfind_from(bs@, c, j as int) == bfind_from(bs@, c, from as int),
        decreases bs@.len() - j,
    {
        j += 1;
    }
    j
}

/// The ranges of `bsplit(bs, c)`.
pub fn bsplit_ranges(bs: &[u8], c: u8) -> (rs: Vec<(usize, usize)>)
    ensures
        rs@.len() == bsplit(bs@, c).len(),
        forall|k: int|
            0 <= k < rs@.len() ==> (#[trigger] rs@[k]).0 <= rs@[k].1 <= bs@.len() && bs@.subrange(
                rs@[k].0 as int,
                rs@[k].1 as int,
            ) == bsplit(bs@, c)[k],
{
    let ghost s = bs@;
    let mut rs: Vec<(usize, usize)> = Vec::new();
    let ghost mut done: Seq<Seq<u8>> = seq![];
    let mut p: usize = 0;
    loop
        invariant
            p <= bs@.len(),
            s == bs@,
            bsplit_from(s, c, 0) == done + bsplit_from(s, c, p as int),
            rs@.len() == done.len(),
            forall|k: int|
                0 <= k < rs@.len() ==> (#[trigger] rs@[k]).0 <= rs@[k].1 <= bs@.len() && bs@.subrange(
                    rs@[k].0 as int,
                    rs@[k].1 as int,
                ) == done[k],
        decreases bs@.len() - p,
    {
        let j = find_byte(bs, p, c);
        proof {
            lemma_bfind_from(s, c, p as int);
        }
        rs.push((p, j));
        if j >= bs.len() {
            proof {
                done = done.push(s.subrange(p as int, j as int));
                assert(bsplit_from(s, c, p as int) == seq![s.subrange(p as int, s.len() as int)]);
                assert(bsplit_from(s, c, 0) =~= done);
            }
            return rs;
        }
        proof {
            let piece = s.subrange(p as int, j as int);
            assert(bsplit_from(s, c, p as int) == seq![piece] + bsplit_from(s, c, j + 1));
            assert(done + bsplit_from(s, c, p as int) =~= done.push(piece) + bsplit_from(s, c, j + 1));
            done = done.push(piece);
        }
        p = j + 1;
    }
}

/// Whether `bs` holds exactly the text `t`, one byte per character.
pub fn bytes_are(bs: &[u8], t: &str) -> (b: bool)
    ensures
        b == bytes_eq_text(bs@, t@),
{
    let tc = chars_of(t);
    if bs.len() != tc.len() {
        return false;
    }
    let mut k: usize = 0;
    while k < tc.len()
        invariant
            tc@ == t@,
            bs@.len() == tc@.len(),
            k <= tc@.len(),
            forall|m: int| 0 <= m < k ==> (bs@[m] as u32) == (t@[m] as u32),
        decreases tc@.len() - k,
    {
        if (bs[k] as u32) != (tc[k] as u32) {
            return false;
        }
        k += 1;
    }
    true
}

/// First index `j >= from` inside `cs[lo..hi]` with `is_ws(cs[j]) == ws`, or `hi`.
pub fn find_ws(cs: &[char], lo: usize, hi: usize, from: usize, ws: bool) -> (j: usize)
    requires
        lo <= from <= hi <= cs@.len(),
    ensures
        j - lo == find_ws_from(cs@.subrange(lo as int, hi as int), ws, from - lo),
        from <= j <= hi,
{
    let ghost s = cs@.subrange(lo as int, hi as int);
    proof {
        lemma_find_ws_from(s, ws, from - lo);
    }
    let mut j = from;
    while j < hi && is_whitespace(cs[j]) != ws
        invariant
            lo <= from <= j <= hi <= cs@.len(),
            s == cs@.subrange(lo as int, hi as int),
            find_ws_from(s, ws, j - lo) == find_ws_from(s, ws, from - lo),
        decreases hi - j,
    {
        assert(s[j - lo] == cs@[j as int]);
        j += 1;
    }
    proof {
        if j < hi {
            assert(s[j - lo] == cs@[j as int]);
        }
    }
    j
}

/// `rs` lists, inside `cs[lo..hi]`, the ranges whose characters are `pieces`.
pub open spec fn ranges_match(
    cs: Seq<char>,
    rs: Seq<(usize, usize)>,
    pieces: Seq<Seq<char>>,
    lo: int,
    hi: int,
) -> bool {
    &&& rs.len() == pieces.len()
    &&& forall|k: int|
        0 <= k < rs.len() ==> lo <= (#[trigger] rs[k]).0 <= rs[k].1 <= hi && cs.subrange(
            rs[k].0 as int,
            rs[k].1 as int,
        ) == pieces[k]
}

pub proof fn lemma_sub_sub(cs: Seq<char>, lo: int, hi: int, a: int, b: int)
    requires
        0 <= lo <= hi <= cs.len(),
        0 <= a <= b <= hi - lo,
    ensures
        cs.subrange(lo, hi).subrange(a, b) == cs.subrange(lo + a, lo + b),
{
    assert(cs.subrange(lo, hi).subrange(a, b) =~= cs.subrange(lo + a, lo + b));
}

/// The ranges of `split(cs[lo..hi], c)`.
pub fn split_ranges(cs: &[char], lo: usize, hi: usize, c: char) -> (rs: Vec<(usize, usize)>)
    requires
        lo <= hi <= cs@.len(),
    ensures
        ranges_match(cs@, rs@, split(cs@.subrange(lo as int, hi as int), c), lo as int, hi as int),
{
    let ghost s = cs@.subrange(lo as int, hi as int);
    let mut rs: Vec<(usize, usize)> = Vec::new();
    let ghost mut done: Seq<Seq<char>> = seq![];
    let mut p = lo;
    loop
        invariant
            lo <= p <= hi <= cs@.len(),
            s == cs@.subrange(lo as int, hi as int),
            split_from(s, c, 0) == done + split_from(s, c, p - lo),
            ranges_match(cs@, rs@, done, lo as int, hi as int),
        decreases hi - p,
    {
        let j = find_char(cs, lo, hi, p, c);
        proof {
            lemma_sub_sub(cs@, lo as int, hi as int, p - lo, j - lo);
        }
        rs.push((p, j));
        if j >= hi {
            proof {
                done = done.push(s.subrange(p - lo, j - lo));
                assert(split_from(s, c, p - lo) == seq![s.subrange(p - lo, s.len() as int)]);
                assert(split_from(s, c, 0) =~= done);
            }
            return rs;
        }
        proof {
            let piece = s.subrange(p - lo, j - lo);
            assert(split_from(s, c, p - lo) == seq![piece] + split_from(s, c, j + 1 - lo));
            assert(done + split_from(s, c, p - lo) =~= done.push(piece) + split_from(s, c, j + 1 - lo));
            done = done.push(piece);
        }
        p = j + 1;
    }
}

/// The ranges of `splitn(cs[lo..hi], n, c)`.
pub fn splitn_ranges(cs: &[char], lo: usize, hi: usize, n: usize, c: char) -> (rs: Vec<(usize, usize)>)
    requires
        lo <= hi <= cs@.len(),
        n >= 1,
    ensures
        ranges_match(cs@, rs@, splitn(cs@.subrange(lo as int, hi as int), n as nat, c), lo as int, hi as int),
{
    let ghost s = cs@.subrange(lo as int, hi as int);
    let mut rs: Vec<(usize, usize)> = Vec::new();
    let ghost mut done: Seq<Seq<char>> = seq![];
    let mut p = lo;
    let mut left = n;
    loop
        invariant
            lo <= p <= hi <= cs@.len(),
            left >= 1,
            s == cs@.subrange(lo as int, hi as int),
            splitn_from(s, c, 0, n as nat) == done + splitn_from(s, c, p - lo, left as nat),
            ranges_match(cs@, rs@, done, lo as int, hi as int),
        decreases hi - p,
    {
        let j = if left == 1 { hi } else { find_char(cs, lo, hi, p, c) };
        proof {
            lemma_sub_sub(cs@, lo as int, hi as int, p - lo, j - lo);
        }
        rs.push((p, j));
        if j >= hi {
            proof {
                assert(splitn_from(s, c, p - lo, left as nat) == seq![s.subrange(p - lo, s.len() as int)]);
                done = done.push(s.subrange(p - lo, j - lo));
                assert(splitn_from(s, c, 0, n as nat) =~= done);
            }
            return rs;
        }
        proof {
            let piece = s.subrange(p - lo, j - lo);
            assert(splitn_from(s, c, p - lo, left as nat) == seq![piece] + splitn_from(s, c, j + 1 - lo, (left - 1) as nat));
            assert(done + splitn_from(s, c, p - lo, left as nat) =~= done.push(piece) + splitn_from(s, c, j + 1 - lo, (left - 1) as nat));
            done = done.push(piece);
        }
        p = j + 1;
        left = left - 1;
    }
}

/// The ranges of `split_inclusive(cs[lo..hi], c)`.
pub fn split_inclusive_ranges(cs: &[char], lo: usize, hi: usize, c: char) -> (rs: Vec<(usize, usize)>)
    requires
        lo <= hi <= cs@.len(),
    ensures
        ranges_match(cs@, rs@, split_inclusive(cs@.subrange(lo as int, hi as int), c), lo as int, hi as int),
{
    let ghost s = cs@.subrange(lo as int, hi as int);
    let mut rs: Vec<(usize, usize)> = Vec::new();
    let ghost mut done: Seq<Seq<char>> = seq![];
    let mut p = lo;
    while p < hi
        invariant
            lo <= p <= hi <= cs@.len(),
            s == cs@.subrange(lo as int, hi as int),
            split_inclusive_from(s, c, 0) == done + split_inclusive_from(s, c, p - lo),
            ranges_match(cs@, rs@, done, lo as int, hi as int),
        decreases hi - p,
    {
        let j = find_char(cs, lo, hi, p, c);
        let e = if j >= hi { hi } else { j + 1 };
        proof {
            lemma_sub_sub(cs@, lo as int, hi as int, p - lo, e - lo);
            let piece = s.subrange(p - lo, e - lo);
            assert(split_inclusive_from(s, c, p - lo) == seq![piece] + split_inclusive_from(s, c, e - lo));
            assert(done + split_inclusive_from(s, c, p - lo) =~= done.push(piece) + split_inclusive_from(s, c, e - lo));
            done = done.push(piece);
        }
        rs.push((p, e));
        p = e;
    }
    proof {
        assert(split_inclusive_from(s, c, 0) =~= done);
    }
    rs
}

/// The ranges of `lines(cs[lo..hi])`.
pub fn lines_ranges(cs: &[char], lo: usize, hi: usize) -> (rs: Vec<(usize, usize)>)
    requires
        lo <= hi <= cs@.len(),
    ensures
        ranges_match(cs@, rs@, lines(cs@.subrange(lo as int, hi as int)), lo as int, hi as int),
{
    let ghost s = cs@.subrange(lo as int, hi as int);
    let mut rs: Vec<(usize, usize)> = Vec::new();
    let ghost mut done: Seq<Seq<char>> = seq![];
    let mut p = lo;
    while p < hi
        invariant
            lo <= p <= hi <= cs@.len(),
            s == cs@.subrange(lo as int, hi as int),
            lines_from(s, 0) == done + lines_from(s, p - lo),
            ranges_match(cs@, rs@, done, lo as int, hi as int),
        decreases hi - p,
    {
        let j = find_char(cs, lo, hi, p, '\n');
        let e = if j < hi && j > p && cs[j - 1] == '\r' { j - 1 } else { j };
        proof {
            lemma_sub_sub(cs@, lo as int, hi as int, p - lo, e - lo);
            let piece = s.subrange(p - lo, e - lo);
            if j < hi {
                if j > p {
                    assert(s[j - 1 - lo] == cs@[j - 1]);
                }
                assert(line_body(s, p - lo, j - lo) == piece);
                assert(lines_from(s, p - lo) == seq![piece] + lines_from(s, j + 1 - lo));
                assert(done + lines_from(s, p - lo) =~= done.push(piece) + lines_from(s, j + 1 - lo));
            } else {
                assert(lines_from(s, p - lo) == seq![piece]);
                assert(lines_from(s, j + 1 - lo) == Seq::<Seq<char>>::empty());
                assert(done + lines_from(s, p - lo) =~= done.push(piece) + lines_from(s, j + 1 - lo));
            }
            done = done.push(piece);
        }
        rs.push((p, e));
        p = if j < hi { j + 1 } else { hi };
    }
    proof {
        assert(lines_from(s, 0) =~= done);
    }
    rs
}

/// The ranges of `split_whitespace(cs[lo..hi])`.
pub fn split_ws_ranges(cs: &[char], lo: usize, hi: usize) -> (rs: Vec<(usize, usize)>)
    requires
        lo <= hi <= cs@.len(),
    ensures
        ranges_match(cs@, rs@, split_whitespace(cs@.subrange(lo as int, hi as int)), lo as int, hi as int),
{
    let ghost s = cs@.subrange(lo as int, hi as int);
    let mut rs: Vec<(usize, usize)> = Vec::new();
    let ghost mut done: Seq<Seq<char>> = seq![];
    let mut p = lo;
    while p < hi
        invariant
            lo <= p <= hi <= cs@.len(),
            s == cs@.subrange(lo as int, hi as int),
            split_ws_from(s, 0) == done + split_ws_from(s, p - lo),
            ranges_match(cs@, rs@, done, lo as int, hi as int),
        decreases hi - p,
    {
        let a = find_ws(cs, lo, hi, p, false);
        if a >= hi {
            proof {
                assert(split_ws_from(s, p - lo) == Seq::<Seq<char>>::empty());
                assert(split_ws_from(s, 0) =~= done);
            }
            return rs;
        }
        let b = find_ws(cs, lo, hi, a, true);
        proof {
            lemma_find_ws_from(s, true, a - lo);
            lemma_find_ws_from(s, false, p - lo);
            assert(!is_ws(s[a - lo]));
            assert(b > a);
            lemma_sub_sub(cs@, lo as int, hi as int, a - lo, b - lo);
            let piece = s.subrange(a - lo, b - lo);
            assert(split_ws_from(s, p - lo) == seq![piece] + split_ws_from(s, b - lo));
            assert(done + split_ws_from(s, p - lo) =~= done.push(piece) + split_ws_from(s, b - lo));
            done = done.push(piece);
        }
        rs.push((a, b));
        p = b;
    }
    proof {
        assert(split_ws_from(s, 0) =~= done);
    }
    rs
}

/// `char::is_whitespace`.
pub fn is_whitespace(c: char) -> (b: bool)
    ensures
        b == is_ws(c),
{
    ('\u{9}' <= c && c <= '\u{d}') || c == ' ' || c == '\u{85}' || c == '\u{a0}' || c
        == '\u{1680}' || ('\u{2000}' <= c && c <= '\u{200a}') || c == '\u{2028}' || c
        == '\u{2029}' || c == '\u{202f}' || c == '\u{205f}' || c == '\u{3000}'
}

/// `char::to_ascii_lowercase`.
pub fn to_lower(c: char) -> (r: char)
    ensures
        r == ascii_lower(c),
{
    if 'A' <= c && c <= 'Z' {
        ((c as u8) + 32) as char
    } else {
        c
    }
}

/// The characters of `s.to_ascii_lowercase()`.
pub fn lower(s: &str) -> (v: Vec<char>)
    ensures
        v@ == s@.map_values(|c: char| ascii_lower(c)),
{
    let cs = chars_of(s);
    let mut v: Vec<char> = Vec::new();
    let mut i: usize = 0;
    while i < cs.len()
        invariant
            i <= cs@.len(),
            v@ == cs@.subrange(0, i as int).map_values(|c: char| ascii_lower(c)),
        decreases cs@.len() - i,
    {
        v.push(to_lower(cs[i]));
        i += 1;
        assert(v@ =~= cs@.subrange(0, i as int).map_values(|c: char| ascii_lower(c)));
    }
    assert(cs@.subrange(0, cs@.len() as int) =~= cs@);
    v
}

/// `char::is_ascii`.
pub fn ascii(c: char) -> (b: bool)
    ensures
        b == is_ascii(c),
{
    (c as u32) < 128
}

/// `char::is_ascii_hexdigit`.
pub fn is_hex(c: char) -> (b: bool)
    ensures
        b == is_hex_digit(c),
{
    ('0' <= c && c <= '9') || ('a' <= c && c <= 'f') || ('A' <= c && c <= 'F')
}

/// Whether `cs[lo..hi]` starts with `p`.
pub fn has_prefix_at(cs: &[char], lo: usize, hi: usize, p: &[char]) -> (b: bool)
    requires
        lo <= hi <= cs@.len(),
    ensures
        b == starts_with(cs@.subrange(lo as int, hi as int), p@),
{
    let ghost s = cs@.subrange(lo as int, hi as int);
    if p.len() > hi - lo {
        return false;
    }
    let mut k: usize = 0;
    while k < p.len()
        invariant
            lo <= hi <= cs@.len(),
            p@.len() <= hi - lo,
            k <= p@.len(),
            s == cs@.subrange(lo as int, hi as int),
            forall|m: int| 0 <= m < k ==> cs@[lo + m] == p@[m],
        decreases p@.len() - k,
    {
        if cs[lo + k] != p[k] {
            assert(s.subrange(0, p@.len() as int)[k as int] != p@[k as int]);
            return false;
        }
        k += 1;
    }
    assert(s.subrange(0, p@.len() as int) =~= p@);
    true
}

/// Whether `cs[lo..hi]` ends with `p`.
pub fn has_suffix_at(cs: &[char], lo: usize, hi: usize, p: &[char]) -> (b: bool)
    requires
        lo <= hi <= cs@.len(),
    ensures
        b == ends_with(cs@.subrange(lo as int, hi as int), p@),
{
    let ghost s = cs@.subrange(lo as int, hi as int);
    if p.len() > hi - lo {
        return false;
    }
    let start = hi - p.len();
    let mut k: usize = 0;
    while k < p.len()
        invariant
            lo <= start <= hi <= cs@.len(),
            start + p@.len() == hi,
            k <= p@.len(),
            s == cs@.subrange(lo as int, hi as int),
            forall|m: int| 0 <= m < k ==> cs@[start + m] == p@[m],
        decreases p@.len() - k,
    {
        if cs[start + k] != p[k] {
            assert(s.subrange(s.len() - p@.len(), s.len() as int)[k as int] != p@[k as int]);
            return false;
        }
        k += 1;
    }
    assert(s.subrange(s.len() - p@.len(), s.len() as int) =~= p@);
    true
}

/// Whether `cs[lo..hi] == p`.
pub fn equals_at(cs: &[char], lo: usize, hi: usize, p: &[char]) -> (b: bool)
    requires
        lo <= hi <= cs@.len(),
    ensures
        b == (cs@.subrange(lo as int, hi as int) == p@),
{
    if hi - lo != p.len() {
        return false;
    }
    let r = has_prefix_at(cs, lo, hi, p);
    proof {
        let s = cs@.subrange(lo as int, hi as int);
        assert(s.subrange(0, p@.len() as int) =~= s);
    }
    r
}

/// Whether two strings hold the same characters.
pub fn str_eq(a: &str, b: &str) -> (r: bool)
    ensures
        r == (a@ == b@),
{
    let ca = chars_of(a);
    let cb = chars_of(b);
    let r = equals_at(ca.as_slice(), 0, ca.len(), cb.as_slice());
    assert(ca@.subrange(0, ca@.len() as int) =~= ca@);
    r
}

/// The bounds of `trim(cs[lo..hi])` inside `cs`.
pub fn trim_bounds(cs: &[char], lo: usize, hi: usize) -> (r: (usize, usize))
    requires
        lo <= hi <= cs@.len(),
    ensures
        lo <= r.0 <= r.1 <= hi,
        cs@.subrange(r.0 as int, r.1 as int) == trim(cs@.subrange(lo as int, hi as int)),
{
    let ghost s = cs@.subrange(lo as int, hi as int);
    let mut a = lo;
    while a < hi && is_whitespace(cs[a])
        invariant
            lo <= a <= hi <= cs@.len(),
            s == cs@.subrange(lo as int, hi as int),
            forall|k: int| lo <= k < a ==> is_ws(cs@[k]),
        decreases hi - a,
    {
        a += 1;
    }
    let mut b = hi;
    while b > a && is_whitespace(cs[b - 1])
        invariant
            lo <= a <= b <= hi <= cs@.len(),
            s == cs@.subrange(lo as int, hi as int),
            forall|k: int| b <= k < hi ==> is_ws(cs@[k]),
        decreases b - a,
    {
        b -= 1;
    }
    proof {
        lemma_find_ws_from(s, false, 0);
        lemma_trail_end(s, s.len() as int);
        let la = lead_ws(s);
        let te = trail_end(s, s.len() as int);
        // position of the first non-whitespace character
        if a < hi {
            assert(!is_ws(s[a - lo]));
            assert(la == a - lo) by {
                if la < a - lo {
                    assert(is_ws(s[la]));
                }
            }
        } else {
            assert(la == s.len()) by {
                if la < s.len() {
                    assert(is_ws(s[la]));
                }
            }
        }
        if b > a {
            assert(!is_ws(s[b - 1 - lo]));
            assert(te == b - lo) by {
                if te < b - lo {
                    assert(is_ws(s[b - 1 - lo]));
                }
                if te > b - lo {
                    assert(is_ws(s[te - 1]));
                }
            }
            assert(cs@.subrange(a as int, b as int) =~= s.subrange(a - lo, b - lo));
        } else {
            assert(te <= a - lo) by {
                if te > a - lo {
                    assert(!is_ws(s[te - 1]));
                    if te - 1 >= b - lo {
                        assert(is_ws(s[te - 1]));
                    } else {
                        assert(te - 1 < a - lo);
                    }
                }
            }
            assert(cs@.subrange(a as int, a as int) =~= Seq::<char>::empty());
        }
    }
    if b > a {
        (a, b)
    } else {
        (a, a)
    }
}

/// `cs[lo..hi].parse::<u64>()` as an unbounded magnitude check: the value of
/// the digit run `cs[lo..hi]` when it fits in a `u64`.
fn digits_u64(cs: &[char], lo: usize, hi: usize) -> (r: Option<u64>)
    requires
        lo <= hi <= cs@.len(),
        all_digits(cs@.subrange(lo as int, hi as int)),
    ensures
        r is Some <==> digits_value(cs@.subrange(lo as int, hi as int)) <= u64::MAX,
        r matches Some(v) ==> v == digits_value(cs@.subrange(lo as int, hi as int)),
{
    let ghost s = cs@.subrange(lo as int, hi as int);
    let mut acc: u64 = 0;
    let mut i = lo;
    while i < hi
        invariant
            lo <= i <= hi <= cs@.len(),
            s == cs@.subrange(lo as int, hi as int),
            all_digits(s),
            acc == digits_value(cs@.subrange(lo as int, i as int)),
        decreases hi - i,
    {
        proof {
            assert(is_digit(s[i - lo]));
            assert(cs@.subrange(lo as int, i + 1).drop_last() =~= cs@.subrange(lo as int, i as int));
        }
        let d = (cs[i] as u32 - '0' as u32) as u64;
        if acc > (u64::MAX - d) / 10 {
            proof {
                assert(acc * 10 + d > u64::MAX) by (nonlinear_arith)
                    requires
                        acc > (u64::MAX - d) / 10,
                        d <= 9,
                ;
                assert(cs@.subrange(lo as int, i + 1) =~= s.subrange(0, i + 1 - lo));
                lemma_digits_value_grows(s, i + 1 - lo);
                assert(s.subrange(0, s.len() as int) =~= s);
            }
            return None;
        }
        proof {
            assert(acc * 10 + d <= u64::MAX) by (nonlinear_arith)
                requires
                    acc <= (u64::MAX - d) / 10,
                    d <= 9,
            ;
        }
        acc = acc * 10 + d;
        i += 1;
    }
    Some(acc)
}

/// Whether every character of `cs[lo..hi]` is an ASCII digit.
fn all_digits_at(cs: &[char], lo: usize, hi: usize) -> (b: bool)
    requires
        lo <= hi <= cs@.len(),
    ensures
        b == all_digits(cs@.subrange(lo as int, hi as int)),
{
    let mut i = lo;
    while i < hi
        invariant
            lo <= i <= hi <= cs@.len(),
            forall|k: int| lo <= k < i ==> is_digit(cs@[k]),
        decreases hi - i,
    {
        if !('0' <= cs[i] && cs[i] <= '9') {
            assert(!is_digit(cs@.subrange(lo as int, hi as int)[i - lo]));
            return false;
        }
        i += 1;
    }
    assert(forall|k: int|
        0 <= k < hi - lo ==> #[trigger] cs@.subrange(lo as int, hi as int)[k] == cs@[lo + k]);
    true
}

/// `cs[lo..hi].parse::<i64>().ok()`.
pub fn parse_i64(cs: &[char], lo: usize, hi: usize) -> (r: Option<i64>)
    requires
        lo <= hi <= cs@.len(),
    ensures
        r == parse_i64_spec(cs@.subrange(lo as int, hi as int)),
{
    let ghost s = cs@.subrange(lo as int, hi as int);
    if hi - lo > 1 && (cs[lo] == '+' || cs[lo] == '-') {
        proof {
            assert(s.drop_first() =~= cs@.subrange(lo + 1, hi as int));
        }
        if !all_digits_at(cs, lo + 1, hi) {
            return None;
        }
        match digits_u64(cs, lo + 1, hi) {
            None => None,
            Some(m) => {
                if cs[lo] == '+' {
                    if m <= i64::MAX as u64 {
                        Some(m as i64)
                    } else {
                        None
                    }
                } else if m <= i64::MAX as u64 {
                    Some(-(m as i64))
                } else if m == i64::MAX as u64 + 1 {
                    Some(i64::MIN)
                } else {
                    None
                }
            },
        }
    } else {
        if hi == lo || !all_digits_at(cs, lo, hi) {
            proof {
                if hi - lo > 0 && all_digits(s) {
                    assert(false);
                }
                if hi - lo > 1 {
                    assert(!(s[0] == '+' || s[0] == '-'));
                }
            }
            return None;
        }
        proof {
            assert(is_digit(s[0]));
        }
        match digits_u64(cs, lo, hi) {
            None => None,
            Some(m) => if m <= i64::MAX as u64 {
                Some(m as i64)
            } else {
                None
            },
        }
    }
}

/// `cs[lo..hi].parse::<u64>().ok()`.
pub fn parse_u64(cs: &[char], lo: usize, hi: usize) -> (r: Option<u64>)
    requires
        lo <= hi <= cs@.len(),
    ensures
        r == parse_u64_spec(cs@.subrange(lo as int, hi as int)),
{
    let ghost s = cs@.subrange(lo as int, hi as int);
    if hi - lo > 1 && cs[lo] == '+' {
        proof {
            assert(s.drop_first() =~= cs@.subrange(lo + 1, hi as int));
        }
        if !all_digits_at(cs, lo + 1, hi) {
            return None;
        }
        digits_u64(cs, lo + 1, hi)
    } else {
        if hi == lo || !all_digits_at(cs, lo, hi) {
            proof {
                if hi - lo > 0 && all_digits(s) {
                    assert(false);
                }
            }
            return None;
        }
        proof {
            assert(is_digit(s[0]));
        }
        digits_u64(cs, lo, hi)
    }
}

/// `cs[lo..hi].parse::<u32>().ok()`.
pub fn parse_u32(cs: &[char], lo: usize, hi: usize) -> (r: Option<u32>)
    requires
        lo <= hi <= cs@.len(),
    ensures
        r == parse_u32_spec(cs@.subrange(lo as int, hi as int)),
{
    match parse_u64(cs, lo, hi) {
        Some(v) => if v <= u32::MAX as u64 {
            Some(v as u32)
        } else {
            None
        },
        None => None,
    }
}

/// `cs[lo..hi].parse::<usize>().ok()`.
pub fn parse_usize(cs: &[char], lo: usize, hi: usize) -> (r: Option<usize>)
    requires
        lo <= hi <= cs@.len(),
    ensures
        r == parse_usize_spec(cs@.subrange(lo as int, hi as int)),
{
    match parse_u64(cs, lo, hi) {
        Some(v) => if v <= usize::MAX as u64 {
            Some(v as usize)
        } else {
            None
        },
        None => None,
    }
}

} // verus!
