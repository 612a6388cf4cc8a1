//! Unreal Engine `.uasset` / `.umap` preview support.
//!
//! These files are binary, so a raw diff is useless. The I/O layer runs
//! UAssetGUI's `tojson` on each side; this module decides which files take
//! that path, reduces the JSON to its content-bearing part, and assembles the
//! resulting `FileDiff` (falling back to a binary view with a note on any
//! failure).

use vstd::prelude::*;

use super::cli::{lemma_diff_of_normalized, text_consistent};
use super::diff::{compute_changes, diff_of, lemma_normalize_idempotent, normalize_eol, normalized, rebuilds};
use super::write::{command_error_spec, command_error_text};
use super::{binary_with_note, FileDiff};
use crate::text::{
    self, ascii_lower, chars_of, ends_with, has_suffix_at, lower, owned, push_chars, push_str,
    str_eq, string_of, trim_bounds,
};

verus! {

/// Byte cap above which an asset is not parsed.
pub const UASSET_MAX_BYTES: u64 = 64_000_000;

/// Resolved configuration for a single derive attempt.
pub struct Config {
    /// Master toggle ("Parse Unreal assets").
    pub enabled: bool,
    /// Absolute path to `UAssetGUI.exe`. `None`/blank → can't parse.
    pub uassetgui_path: Option<String>,
    /// Engine version string passed to `tojson` (e.g. "5.3").
    pub engine_version: String,
}

/// The ASCII-lowercased characters of `s`.
pub open spec fn lowered(s: Seq<char>) -> Seq<char> {
    s.map_values(|c: char| ascii_lower(c))
}

/// Files whose binary content can be derived into a property view.
pub open spec fn uasset_path(p: Seq<char>) -> bool {
    ends_with(lowered(p), ".uasset"@) || ends_with(lowered(p), ".umap"@)
}

/// True for files whose binary content we can derive a property view for.
pub fn is_uasset_path(p: &str) -> (b: bool)
    ensures
        b == uasset_path(p@),
{
    let cs = lower(p);
    let a = chars_of(".uasset");
    let m = chars_of(".umap");
    assert(cs@.subrange(0, cs@.len() as int) =~= cs@);
    has_suffix_at(cs.as_slice(), 0, cs.len(), a.as_slice()) || has_suffix_at(
        cs.as_slice(),
        0,
        cs.len(),
        m.as_slice(),
    )
}

/// Index of the last `c` in `s`, or -1.
pub open spec fn last_index(s: Seq<char>, c: char) -> int
    decreases s.len(),
{
    if s.len() == 0 {
        -1
    } else if s.last() == c {
        s.len() - 1
    } else {
        last_index(s.drop_last(), c)
    }
}

pub proof fn lemma_last_index(s: Seq<char>, c: char)
    ensures
        -1 <= last_index(s, c) < s.len(),
        last_index(s, c) >= 0 ==> s[last_index(s, c)] == c,
        forall|k: int| last_index(s, c) < k < s.len() ==> s[k] != c,
    decreases s.len(),
{
    if s.len() > 0 && s.last() != c {
        lemma_last_index(s.drop_last(), c);
        assert forall|k: int| last_index(s, c) < k < s.len() implies s[k] != c by {
            if k < s.len() - 1 {
                assert(s.drop_last()[k] == s[k]);
            }
        }
    }
}

/// Index of the last path separator (`/` or `\\`) in `p`, or -1.
pub open spec fn last_separator(p: Seq<char>) -> int {
    let a = last_index(p, '/');
    let b = last_index(p, '\\');
    if a >= b {
        a
    } else {
        b
    }
}

/// The sibling `.uexp` of a path: everything before the last `'.'` of its
/// final component (the text after the last `/` or `\\`), followed by
/// `.uexp`; none when that component has no `'.'` (the path has no
/// extension).
pub open spec fn sibling_uexp_spec(p: Seq<char>) -> Option<Seq<char>> {
    let i = last_index(p, '.');
    if i < 0 || i < last_separator(p) {
        None
    } else {
        Some(p.subrange(0, i) + ".uexp"@)
    }
}

/// Index of the last `c` in `cs`, if any.
pub fn rfind_char(cs: &[char], c: char) -> (r: Option<usize>)
    ensures
        match r {
            Some(i) => i == last_index(cs@, c),
            None => last_index(cs@, c) == -1,
        },
{
    let mut i = cs.len();
    assert(cs@.subrange(0, i as int) =~= cs@);
    while i > 0
        invariant
            i <= cs@.len(),
            last_index(cs@, c) == last_index(cs@.subrange(0, i as int), c),
        decreases i,
    {
        if cs[i - 1] == c {
            return Some(i - 1);
        }
        assert(cs@.subrange(0, i as int).drop_last() =~= cs@.subrange(0, i - 1));
        i -= 1;
    }
    None
}

/// The sibling `.uexp` path for a `.uasset`/`.umap` (export/bulk data lives
/// there in UE 4.20+). Returns `None` if `p` has no extension.
pub fn sibling_uexp(p: &str) -> (r: Option<String>)
    ensures
        match (r, sibling_uexp_spec(p@)) {
            (Some(s), Some(t)) => s@ == t,
            (None, None) => true,
            _ => false,
        },
{
    let cs = chars_of(p);
    let slash = rfind_char(cs.as_slice(), '/');
    let backslash = rfind_char(cs.as_slice(), '\\');
    match rfind_char(cs.as_slice(), '.') {
        None => None,
        Some(i) => {
            let after_slash = match slash {
                Some(j) => i > j,
                None => true,
            };
            let after_backslash = match backslash {
                Some(j) => i > j,
                None => true,
            };
            proof {
                lemma_last_index(cs@, '.');
                lemma_last_index(cs@, '/');
                lemma_last_index(cs@, '\\');
            }
            if !(after_slash && after_backslash) {
                return None;
            }
            proof {
                lemma_last_index(cs@, '.');
            }
            let mut s = string_of(cs.as_slice(), 0, i);
            let ext = chars_of(".uexp");
            push_chars(&mut s, ext.as_slice(), 0, ext.len());
            assert(ext@.subrange(0, ext@.len() as int) =~= ext@);
            Some(s)
        },
    }
}

// ---------------------------------------------------------------------------
// Deriving the property view
// ---------------------------------------------------------------------------

/// The line a Git LFS pointer file begins with.
pub const LFS_POINTER_PREFIX: &'static str = "version https://git-lfs.github.com/spec/";

/// Note shown when no UAssetGUI path is configured.
pub const MISSING_TOOL_NOTE: &'static str = "Set the UAssetGUI path in settings to preview Unreal assets.";

/// Error for an asset whose bytes are still an unsmudged LFS pointer.
pub const LFS_MISSING_MSG: &'static str = "Git LFS object isn't available locally — run `git lfs pull` and retry.";

/// Label of a derived property view, before the engine version.
pub const DERIVED_LABEL_PREFIX: &'static str = "Property view · UE ";

/// The bytes begin with the ASCII text `p`.
pub open spec fn bytes_start_with(b: Seq<u8>, p: Seq<char>) -> bool {
    b.len() >= p.len() && forall|i: int| 0 <= i < p.len() ==> (b[i] as u32) == (p[i] as u32)
}

/// Heuristic: a Git LFS pointer file begins with this version line. Such bytes
/// reach the parser only when the LFS object couldn't be smudged (not pulled).
pub fn looks_like_lfs_pointer(bytes: &[u8]) -> (b: bool)
    ensures
        b == bytes_start_with(bytes@, LFS_POINTER_PREFIX@),
{
    let p = chars_of(LFS_POINTER_PREFIX);
    if bytes.len() < p.len() {
        return false;
    }
    let mut i: usize = 0;
    while i < p.len()
        invariant
            p@ == LFS_POINTER_PREFIX@,
            bytes@.len() >= p@.len(),
            i <= p@.len(),
            forall|k: int| 0 <= k < i ==> (bytes@[k] as u32) == (p@[k] as u32),
        decreases p@.len() - i,
    {
        if (bytes[i] as u32) != (p[i] as u32) {
            return false;
        }
        i += 1;
    }
    true
}

/// Characters kept in a temp-file stem.
pub open spec fn stem_char(c: char) -> bool {
    ('a' <= c && c <= 'z') || ('A' <= c && c <= 'Z') || ('0' <= c && c <= '9') || c == '_' || c
        == '-'
}

/// The characters of `s` that may stand in a file stem, in order.
pub open spec fn stem_chars(s: Seq<char>) -> Seq<char>
    decreases s.len(),
{
    if s.len() == 0 {
        seq![]
    } else if stem_char(s.last()) {
        stem_chars(s.drop_last()).push(s.last())
    } else {
        stem_chars(s.drop_last())
    }
}

proof fn lemma_stem_chars(s: Seq<char>)
    ensures
        forall|k: int| 0 <= k < stem_chars(s).len() ==> stem_char(#[trigger] stem_chars(s)[k]),
    decreases s.len(),
{
    if s.len() > 0 {
        lemma_stem_chars(s.drop_last());
        let r = stem_chars(s.drop_last());
        assert forall|k: int| 0 <= k < stem_chars(s).len() implies stem_char(#[trigger] stem_chars(s)[k]) by {
            if k < r.len() {
                assert(stem_chars(s)[k] == r[k]);
            }
        }
    }
}

/// A temp-file stem is never empty and holds only ASCII letters, digits, `_`
/// and `-`.
pub proof fn lemma_safe_stem_is_safe(p: Seq<char>)
    ensures
        safe_stem_spec(p).len() > 0,
        forall|k: int| 0 <= k < safe_stem_spec(p).len() ==> stem_char(#[trigger] safe_stem_spec(p)[k]),
{
    lemma_stem_chars(without_ext(base_name(p)));
    reveal_strlit("asset");
}

/// The last path component of `p` (after the last `'/'` or `'\\'`).
pub open spec fn base_name(p: Seq<char>) -> Seq<char> {
    let i = if last_index(p, '/') >= last_index(p, '\\') {
        last_index(p, '/')
    } else {
        last_index(p, '\\')
    };
    p.subrange(i + 1, p.len() as int)
}

/// A file name without its last extension.
pub open spec fn without_ext(b: Seq<char>) -> Seq<char> {
    let i = last_index(b, '.');
    if i < 0 {
        b
    } else {
        b.subrange(0, i)
    }
}

/// The temp-file stem for a path: the sanitized stem of its file name, or
/// `"asset"` when nothing is left.
pub open spec fn safe_stem_spec(p: Seq<char>) -> Seq<char> {
    let c = stem_chars(without_ext(base_name(p)));
    if c.len() == 0 {
        "asset"@
    } else {
        c
    }
}

/// A sanitized, filesystem-safe stem for temp file names.
pub fn safe_stem(file_path: &str) -> (r: String)
    ensures
        r@ == safe_stem_spec(file_path@),
        r@.len() > 0,
        forall|k: int| 0 <= k < r@.len() ==> stem_char(#[trigger] r@[k]),
{
    proof {
        lemma_safe_stem_is_safe(file_path@);
    }
    let cs = chars_of(file_path);
    proof {
        lemma_last_index(cs@, '/');
        lemma_last_index(cs@, '\\');
    }
    let n = cs.len();
    let slash = rfind_char(cs.as_slice(), '/');
    let back = rfind_char(cs.as_slice(), '\\');
    let start: usize = match (slash, back) {
        (Some(a), Some(b)) => {
            assert(a < cs@.len() && b < cs@.len());
            if a >= b {
                a + 1
            } else {
                b + 1
            }
        },
        (Some(a), None) => {
            assert(a < cs@.len());
            a + 1
        },
        (None, Some(b)) => {
            assert(b < cs@.len());
            b + 1
        },
        (None, None) => 0,
    };
    let base_str = string_of(cs.as_slice(), start, cs.len());
    let base = chars_of(base_str.as_str());
    assert(base@ == base_name(file_path@));
    proof {
        lemma_last_index(base@, '.');
    }
    let stop: usize = match rfind_char(base.as_slice(), '.') {
        Some(d) => d,
        None => base.len(),
    };
    assert(base@.subrange(0, stop as int) =~= without_ext(base@));
    let mut out = String::new();
    let mut any = false;
    let mut k: usize = 0;
    while k < stop
        invariant
            k <= stop <= base@.len(),
            out@ == stem_chars(base@.subrange(0, k as int)),
            any == (out@.len() > 0),
        decreases stop - k,
    {
        let c = base[k];
        assert(base@.subrange(0, k + 1).drop_last() =~= base@.subrange(0, k as int));
        if ('a' <= c && c <= 'z') || ('A' <= c && c <= 'Z') || ('0' <= c && c <= '9') || c == '_'
            || c == '-' {
            crate::text::push_char(&mut out, c);
            any = true;
        }
        k += 1;
    }
    if !any {
        owned("asset")
    } else {
        out
    }
}

/// Engine version used when the frontend names none.
pub const DEFAULT_ENGINE_VERSION: &'static str = "5.5";

/// The derive configuration from the persisted settings and the frontend's
/// per-repository engine-version choice: the user's UAssetGUI path wins over
/// the bundled one; a missing or blank version falls back to
/// `DEFAULT_ENGINE_VERSION`.
pub fn uasset_config(
    enabled: bool,
    user_path: Option<String>,
    bundled_path: Option<String>,
    ue_version: Option<String>,
) -> (c: Config)
    ensures
        c.enabled == enabled,
        c.uassetgui_path == (match user_path {
            Some(p) => Some(p),
            None => bundled_path,
        }),
        c.engine_version@ == (match ue_version {
            Some(v) => if text::trim(v@).len() > 0 {
                v@
            } else {
                DEFAULT_ENGINE_VERSION@
            },
            None => DEFAULT_ENGINE_VERSION@,
        }),
{
    let uassetgui_path = match user_path {
        Some(p) => Some(p),
        None => bundled_path,
    };
    let engine_version = match ue_version {
        Some(v) => {
            let cs = chars_of(v.as_str());
            let (a, b) = trim_bounds(cs.as_slice(), 0, cs.len());
            assert(cs@.subrange(0, cs@.len() as int) =~= cs@);
            if a < b {
                v
            } else {
                owned(DEFAULT_ENGINE_VERSION)
            }
        },
        None => owned(DEFAULT_ENGINE_VERSION),
    };
    Config { enabled, uassetgui_path, engine_version }
}

/// A UAssetGUI path is configured (present and not blank).
pub open spec fn tool_configured(cfg: Config) -> bool {
    cfg.uassetgui_path matches Some(p) && text::trim(p@).len() > 0
}

/// The configured UAssetGUI path, if any.
pub fn uasset_tool(cfg: &Config) -> (r: Option<String>)
    ensures
        r is Some <==> tool_configured(*cfg),
        r matches Some(t) ==> cfg.uassetgui_path matches Some(p) && t@ == p@,
{
    match &cfg.uassetgui_path {
        Some(p) => {
            let cs = chars_of(p.as_str());
            let (a, b) = trim_bounds(cs.as_slice(), 0, cs.len());
            assert(cs@.subrange(0, cs@.len() as int) =~= cs@);
            if a < b {
                Some(owned(p.as_str()))
            } else {
                None
            }
        },
        None => None,
    }
}

/// The error of a failed `tojson` run: the engine version and the command's
/// error text.
pub fn tojson_failure(engine_version: &str, stderr: &[u8], stdout: &[u8]) -> (m: String)
    ensures
        m@ == "UAssetGUI tojson failed (UE "@ + engine_version@ + "): "@ + command_error_spec(
            stderr@,
            stdout@,
        ),
{
    let mut m = owned("UAssetGUI tojson failed (UE ");
    push_str(&mut m, engine_version);
    push_str(&mut m, "): ");
    let detail = command_error_text(stderr, stdout);
    push_str(&mut m, detail.as_str());
    m
}

/// What one side of a derive yields without running UAssetGUI: an absent
/// (empty) side is empty JSON, an unsmudged LFS pointer is an error; `None`
/// when the tool has to run.
pub open spec fn side_shortcut(bytes: Seq<u8>) -> Option<Result<Seq<char>, Seq<char>>> {
    if bytes.len() == 0 {
        Some(Ok(Seq::empty()))
    } else if bytes_start_with(bytes, LFS_POINTER_PREFIX@) {
        Some(Err(LFS_MISSING_MSG@))
    } else {
        None
    }
}

/// The characters of a string result.
pub open spec fn result_view(r: Result<String, String>) -> Result<Seq<char>, Seq<char>> {
    match r {
        Ok(s) => Ok(s@),
        Err(e) => Err(e@),
    }
}

/// The result for one side that needs no UAssetGUI run, if any.
pub fn prerender_side(bytes: &[u8]) -> (r: Option<Result<String, String>>)
    ensures
        match (r, side_shortcut(bytes@)) {
            (Some(x), Some(y)) => result_view(x) == y,
            (None, None) => true,
            _ => false,
        },
{
    if bytes.len() == 0 {
        Some(Ok(String::new()))
    } else if looks_like_lfs_pointer(bytes) {
        Some(Err(owned(LFS_MISSING_MSG)))
    } else {
        None
    }
}

/// `d` is the derived property view of the JSON texts `old` / `new`.
pub open spec fn derived_text(
    d: FileDiff,
    old: Seq<char>,
    new: Seq<char>,
    old_size: u64,
    new_size: u64,
    version: Seq<char>,
) -> bool {
    &&& d matches FileDiff::Text {
        old_content,
        new_content,
        old_size: a,
        new_size: b,
        changes,
        derived_label: Some(label),
        ue_version: Some(ver),
    }
    &&& d->Text_old_content@ == normalized(old)
    &&& d->Text_new_content@ == normalized(new)
    &&& d->Text_old_size == old_size
    &&& d->Text_new_size == new_size
    &&& d->Text_changes@ == diff_of(old, new)
    &&& normalized(old) == normalized(new) ==> d->Text_changes@.len() == 0
    &&& rebuilds(normalized(old), normalized(new), d->Text_changes@)
    &&& d->Text_derived_label == Some(d->Text_derived_label->Some_0)
    &&& d->Text_derived_label->Some_0@ == DERIVED_LABEL_PREFIX@ + version
    &&& d->Text_ue_version is Some
    &&& d->Text_ue_version->Some_0@ == version
}

/// What deriving the view of an asset gives, from the rendered property
/// views of its two sides (JSON text, or the error that stopped rendering): a
/// note when no tool is configured, else the old side's error, else the new
/// side's error, else the derived text view.
pub open spec fn derive_outcome(
    r: FileDiff,
    cfg: Config,
    old_json: Result<Seq<char>, Seq<char>>,
    new_json: Result<Seq<char>, Seq<char>>,
    old_size: u64,
    new_size: u64,
) -> bool {
    &&& !tool_configured(cfg) ==> binary_with_note(r, old_size, new_size, MISSING_TOOL_NOTE@)
    &&& tool_configured(cfg) && old_json is Err ==> binary_with_note(r, old_size, new_size, old_json->Err_0)
    &&& tool_configured(cfg) && old_json is Ok && new_json is Err ==> binary_with_note(
        r,
        old_size,
        new_size,
        new_json->Err_0,
    )
    &&& tool_configured(cfg) && old_json is Ok && new_json is Ok ==> derived_text(
        r,
        old_json->Ok_0,
        new_json->Ok_0,
        old_size,
        new_size,
        cfg.engine_version@,
    )
}

/// The asset view law: whatever the configuration and the rendered sides,
/// the view is a binary view with a note or the labelled text view, it
/// carries the given sizes, and a text view names the engine version, is
/// labelled with it, and is self-consistent (no carriage returns, changes
/// are `compute_changes` of the texts it carries). An unsmudged LFS pointer
/// side renders to the LFS note (`side_shortcut`), so its view is binary.
pub proof fn lemma_derive_view_shape(
    r: FileDiff,
    cfg: Config,
    old_json: Result<Seq<char>, Seq<char>>,
    new_json: Result<Seq<char>, Seq<char>>,
    old_size: u64,
    new_size: u64,
)
    requires
        derive_outcome(r, cfg, old_json, new_json, old_size, new_size),
    ensures
        (r matches FileDiff::Binary { old_size: a, new_size: b, note: Some(_) } && a == old_size && b
            == new_size) || (r matches FileDiff::Text { old_size: a, new_size: b, .. } && a == old_size
            && b == new_size),
        r is Text ==> (r->Text_ue_version matches Some(v) && v@ == cfg.engine_version@),
        r is Text ==> (r->Text_derived_label matches Some(l) && l@ == DERIVED_LABEL_PREFIX@
            + cfg.engine_version@),
        text_consistent(r),
        forall|b: Seq<u8>|
            side_shortcut(b) == Some(Err::<Seq<char>, Seq<char>>(LFS_MISSING_MSG@)) <==> (b.len() > 0
                && #[trigger] bytes_start_with(b, LFS_POINTER_PREFIX@)),
{
    if tool_configured(cfg) && old_json is Ok && new_json is Ok {
        lemma_diff_of_normalized(old_json->Ok_0, new_json->Ok_0);
    }
}

/// Build the `FileDiff` of a uasset from the rendered property views of its
/// two sides (filtered JSON, or the error that stopped rendering): a
/// derived `FileDiff::Text`, or `FileDiff::Binary` with a note when no tool is
/// configured or a side failed (the old side's error first).
pub fn derive_filediff(
    cfg: &Config,
    old_json: Result<String, String>,
    new_json: Result<String, String>,
    old_size: u64,
    new_size: u64,
) -> (r: FileDiff)
    requires
        old_json matches Ok(s) ==> text::utf16_len(normalized(s@)) <= u32::MAX,
        new_json matches Ok(s) ==> text::utf16_len(normalized(s@)) <= u32::MAX,
    ensures
        derive_outcome(r, *cfg, result_view(old_json), result_view(new_json), old_size, new_size),
{
    let tool = uasset_tool(cfg);
    if tool.is_none() {
        return FileDiff::Binary { old_size, new_size, note: Some(owned(MISSING_TOOL_NOTE)) };
    }
    let old_text = match old_json {
        Ok(s) => s,
        Err(e) => {
            return FileDiff::Binary { old_size, new_size, note: Some(e) };
        },
    };
    let new_text = match new_json {
        Ok(s) => s,
        Err(e) => {
            return FileDiff::Binary { old_size, new_size, note: Some(e) };
        },
    };
    let old_content = normalize_eol(old_text.as_str());
    let new_content = normalize_eol(new_text.as_str());
    proof {
        lemma_normalize_idempotent(old_text@);
        lemma_normalize_idempotent(new_text@);
    }
    let changes = compute_changes(old_content.as_str(), new_content.as_str());
    let mut label = owned(DERIVED_LABEL_PREFIX);
    push_str(&mut label, cfg.engine_version.as_str());
    let ver = owned(cfg.engine_version.as_str());
    FileDiff::Text {
        old_content,
        new_content,
        old_size,
        new_size,
        derived_label: Some(label),
        ue_version: Some(ver),
        changes,
    }
}

/// The rendered property view of one side: its shortcut (empty JSON for an
/// absent side, the LFS note for an unsmudged pointer), else what the tool
/// gave, or empty JSON when the tool was not run.
pub open spec fn side_json(bytes: Seq<u8>, render: Option<Result<String, String>>) -> Result<Seq<char>, Seq<char>> {
    match side_shortcut(bytes) {
        Some(r) => r,
        None => match render {
            Some(r) => result_view(r),
            None => Ok(seq![]),
        },
    }
}

/// Which side UAssetGUI runs on next.
#[derive(Debug, Clone, Copy, PartialEq, Eq, Structural)]
pub enum AssetRender {
    Old,
    New,
    Done,
}

/// The next UAssetGUI run of an asset diff: none without a configured tool;
/// the old side first, when it needs the tool; then the new side, unless the
/// old side already failed.
pub open spec fn render_next_spec(
    cfg: Config,
    old_bytes: Seq<u8>,
    new_bytes: Seq<u8>,
    old_render: Option<Result<String, String>>,
    new_render: Option<Result<String, String>>,
) -> AssetRender {
    if !tool_configured(cfg) {
        AssetRender::Done
    } else if side_shortcut(old_bytes) is None && old_render is None {
        AssetRender::Old
    } else if side_json(old_bytes, old_render) is Err {
        AssetRender::Done
    } else if side_shortcut(new_bytes) is None && new_render is None {
        AssetRender::New
    } else {
        AssetRender::Done
    }
}

/// The next UAssetGUI run of an asset diff (each side is run at most once).
pub fn render_next(
    cfg: &Config,
    old_bytes: &[u8],
    new_bytes: &[u8],
    old_render: &Option<Result<String, String>>,
    new_render: &Option<Result<String, String>>,
) -> (r: AssetRender)
    ensures
        r == render_next_spec(*cfg, old_bytes@, new_bytes@, *old_render, *new_render),
        r == AssetRender::Old ==> old_render is None,
        r == AssetRender::New ==> new_render is None,
{
    if uasset_tool(cfg).is_none() {
        return AssetRender::Done;
    }
    let old_short = prerender_side(old_bytes);
    if old_short.is_none() && old_render.is_none() {
        return AssetRender::Old;
    }
    let old_failed = match &old_short {
        Some(r) => r.is_err(),
        None => match old_render {
            Some(r) => r.is_err(),
            None => false,
        },
    };
    if old_failed {
        return AssetRender::Done;
    }
    if prerender_side(new_bytes).is_none() && new_render.is_none() {
        return AssetRender::New;
    }
    AssetRender::Done
}

/// The property view of an asset from both sides' bytes and what UAssetGUI
/// rendered for the sides it ran on. An absent side is empty JSON, an
/// unsmudged LFS pointer gives the LFS note; then `derive_filediff` decides.
pub fn derive_asset_view(
    cfg: &Config,
    old_bytes: &[u8],
    new_bytes: &[u8],
    old_render: Option<Result<String, String>>,
    new_render: Option<Result<String, String>>,
    old_size: u64,
    new_size: u64,
) -> (r: FileDiff)
    requires
        old_render matches Some(Ok(s)) ==> text::utf16_len(normalized(s@)) <= u32::MAX,
        new_render matches Some(Ok(s)) ==> text::utf16_len(normalized(s@)) <= u32::MAX,
    ensures
        derive_outcome(r, *cfg, side_json(old_bytes@, old_render), side_json(new_bytes@, new_render), old_size, new_size),
        tool_configured(*cfg) && old_bytes@.len() > 0 && bytes_start_with(old_bytes@, LFS_POINTER_PREFIX@)
            ==> binary_with_note(r, old_size, new_size, LFS_MISSING_MSG@),
{
    let old_json = match prerender_side(old_bytes) {
        Some(r) => r,
        None => match old_render {
            Some(r) => r,
            None => Ok(String::new()),
        },
    };
    let new_json = match prerender_side(new_bytes) {
        Some(r) => r,
        None => match new_render {
            Some(r) => r,
            None => Ok(String::new()),
        },
    };
    proof {
        assert(normalized(Seq::<char>::empty()) =~= Seq::<char>::empty());
    }
    derive_filediff(cfg, old_json, new_json, old_size, new_size)
}

// ---------------------------------------------------------------------------
// The property view's JSON
// ---------------------------------------------------------------------------

/// A JSON value as the property view holds it. Object entries keep the order
/// they were read in; numbers keep their textual form.
#[derive(Debug, PartialEq)]
pub enum Json {
    Null,
    Bool(bool),
    Number(String),
    Str(String),
    Array(Vec<Json>),
    Object(Vec<(String, Json)>),
}

/// The mathematical value of a `Json`.
pub enum JsonV {
    Null,
    Bool(bool),
    Number(Seq<char>),
    Str(Seq<char>),
    Array(Seq<JsonV>),
    Object(Seq<(Seq<char>, JsonV)>),
}

pub open spec fn json_view(j: Json) -> JsonV
    decreases j, 0int,
{
    match j {
        Json::Null => JsonV::Null,
        Json::Bool(b) => JsonV::Bool(b),
        Json::Number(s) => JsonV::Number(s@),
        Json::Str(s) => JsonV::Str(s@),
        Json::Array(items) => JsonV::Array(items_view(items@, items@.len() as int)),
        Json::Object(entries) => JsonV::Object(entries_view(entries@, entries@.len() as int)),
    }
}

/// The views of the first `n` items.
pub open spec fn items_view(items: Seq<Json>, n: int) -> Seq<JsonV>
    decreases items, n,
{
    if n <= 0 || n > items.len() {
        seq![]
    } else {
        items_view(items, n - 1).push(json_view(items[n - 1]))
    }
}

/// The views of the first `n` entries.
pub open spec fn entries_view(entries: Seq<(String, Json)>, n: int) -> Seq<(Seq<char>, JsonV)>
    decreases entries, n,
{
    if n <= 0 || n > entries.len() {
        seq![]
    } else {
        entries_view(entries, n - 1).push((entries[n - 1].0@, json_view(entries[n - 1].1)))
    }
}

impl View for Json {
    type V = JsonV;

    open spec fn view(&self) -> JsonV {
        json_view(*self)
    }
}

pub proof fn lemma_items_view(items: Seq<Json>, n: int)
    requires
        0 <= n <= items.len(),
    ensures
        items_view(items, n).len() == n,
        forall|i: int| 0 <= i < n ==> #[trigger] items_view(items, n)[i] == json_view(items[i]),
    decreases n,
{
    if n > 0 {
        lemma_items_view(items, n - 1);
    }
}

pub proof fn lemma_entries_view(entries: Seq<(String, Json)>, n: int)
    requires
        0 <= n <= entries.len(),
    ensures
        entries_view(entries, n).len() == n,
        forall|i: int|
            0 <= i < n ==> #[trigger] entries_view(entries, n)[i] == (
                entries[i].0@,
                json_view(entries[i].1),
            ),
    decreases n,
{
    if n > 0 {
        lemma_entries_view(entries, n - 1);
    }
}

/// The view of the first `n` entries depends on those entries only.
pub proof fn lemma_entries_view_prefix(s: Seq<(String, Json)>, t: Seq<(String, Json)>, n: int)
    requires
        0 <= n <= s.len(),
        n <= t.len(),
        s.subrange(0, n) == t.subrange(0, n),
    ensures
        entries_view(s, n) == entries_view(t, n),
    decreases n,
{
    if n > 0 {
        assert(s[n - 1] == s.subrange(0, n)[n - 1]);
        assert(t[n - 1] == t.subrange(0, n)[n - 1]);
        assert(s.subrange(0, n - 1) =~= s.subrange(0, n).subrange(0, n - 1));
        assert(t.subrange(0, n - 1) =~= t.subrange(0, n).subrange(0, n - 1));
        lemma_entries_view_prefix(s, t, n - 1);
    }
}

/// Keys stripped at every depth: .NET type tags and serialization artifacts
/// (offsets, sizes, hashes, GUIDs, package indices, object flags, dependency
/// tables) that change on re-save without representing content.
pub open spec fn is_noise_key(k: Seq<char>) -> bool {
    ||| k == "$type"@
    ||| k == "SerialOffset"@
    ||| k == "SerialSize"@
    ||| k == "PackageGuid"@
    ||| k == "PublicExportHash"@
    ||| k == "SavedHash"@
    ||| k == "PackageFlags"@
    ||| k == "ObjectFlags"@
    ||| k == "OuterIndex"@
    ||| k == "ClassIndex"@
    ||| k == "SuperIndex"@
    ||| k == "TemplateIndex"@
    ||| k == "PropertyGuid"@
    ||| k == "DuplicationIndex"@
    ||| k == "ArrayIndex"@
    ||| k == "NameMap"@
    ||| k == "FirstExportDependency"@
    ||| k == "SerializationBeforeSerializationDependencies"@
    ||| k == "CreateBeforeSerializationDependencies"@
    ||| k == "SerializationBeforeCreateDependencies"@
    ||| k == "CreateBeforeCreateDependencies"@
    ||| k == "bForcedExport"@
    ||| k == "bNotForClient"@
    ||| k == "bNotForServer"@
    ||| k == "bIsInheritedInstance"@
    ||| k == "bNotAlwaysLoadedForEditorGame"@
    ||| k == "bIsAsset"@
    ||| k == "bGeneratePublicHash"@
}

/// Whether `k` is one of the keys stripped at every depth.
pub fn noise_key(k: &str) -> (b: bool)
    ensures
        b == is_noise_key(k@),
{
    str_eq(k, "$type") || str_eq(k, "SerialOffset") || str_eq(k, "SerialSize") || str_eq(
        k,
        "PackageGuid",
    ) || str_eq(k, "PublicExportHash") || str_eq(k, "SavedHash") || str_eq(k, "PackageFlags")
        || str_eq(k, "ObjectFlags") || str_eq(k, "OuterIndex") || str_eq(k, "ClassIndex")
        || str_eq(k, "SuperIndex") || str_eq(k, "TemplateIndex") || str_eq(k, "PropertyGuid")
        || str_eq(k, "DuplicationIndex") || str_eq(k, "ArrayIndex") || str_eq(k, "NameMap")
        || str_eq(k, "FirstExportDependency") || str_eq(
        k,
        "SerializationBeforeSerializationDependencies",
    ) || str_eq(k, "CreateBeforeSerializationDependencies") || str_eq(
        k,
        "SerializationBeforeCreateDependencies",
    ) || str_eq(k, "CreateBeforeCreateDependencies") || str_eq(k, "bForcedExport") || str_eq(
        k,
        "bNotForClient",
    ) || str_eq(k, "bNotForServer") || str_eq(k, "bIsInheritedInstance") || str_eq(
        k,
        "bNotAlwaysLoadedForEditorGame",
    ) || str_eq(k, "bIsAsset") || str_eq(k, "bGeneratePublicHash")
}

/// `v` with every noise-keyed object entry removed, at every depth.
pub open spec fn cleaned(v: JsonV) -> JsonV
    decreases v, 0int,
{
    match v {
        JsonV::Array(items) => JsonV::Array(cleaned_items(items, items.len() as int)),
        JsonV::Object(entries) => JsonV::Object(cleaned_entries(entries, entries.len() as int)),
        _ => v,
    }
}

/// The keys UAssetGUI writes that carry no content: stripped at every depth.
pub open spec fn noise_keys() -> Seq<Seq<char>> {
    seq![
        "$type"@,
        "SerialOffset"@,
        "SerialSize"@,
        "PackageGuid"@,
        "PublicExportHash"@,
        "SavedHash"@,
        "PackageFlags"@,
        "ObjectFlags"@,
        "OuterIndex"@,
        "ClassIndex"@,
        "SuperIndex"@,
        "TemplateIndex"@,
        "PropertyGuid"@,
        "DuplicationIndex"@,
        "ArrayIndex"@,
        "NameMap"@,
        "FirstExportDependency"@,
        "SerializationBeforeSerializationDependencies"@,
        "CreateBeforeSerializationDependencies"@,
        "SerializationBeforeCreateDependencies"@,
        "CreateBeforeCreateDependencies"@,
        "bForcedExport"@,
        "bNotForClient"@,
        "bNotForServer"@,
        "bIsInheritedInstance"@,
        "bNotAlwaysLoadedForEditorGame"@,
        "bIsAsset"@,
        "bGeneratePublicHash"@,
    ]
}

/// A key counts as noise exactly when it is one of `noise_keys()`.
pub proof fn lemma_noise_keys(k: Seq<char>)
    ensures
        is_noise_key(k) <==> noise_keys().contains(k),
{
    let ks = noise_keys();
    assert(ks.len() == 28);
        assert(ks[0] == "$type"@);
        assert(ks[1] == "SerialOffset"@);
        assert(ks[2] == "SerialSize"@);
        assert(ks[3] == "PackageGuid"@);
        assert(ks[4] == "PublicExportHash"@);
        assert(ks[5] == "SavedHash"@);
        assert(ks[6] == "PackageFlags"@);
        assert(ks[7] == "ObjectFlags"@);
        assert(ks[8] == "OuterIndex"@);
        assert(ks[9] == "ClassIndex"@);
        assert(ks[10] == "SuperIndex"@);
        assert(ks[11] == "TemplateIndex"@);
        assert(ks[12] == "PropertyGuid"@);
        assert(ks[13] == "DuplicationIndex"@);
        assert(ks[14] == "ArrayIndex"@);
        assert(ks[15] == "NameMap"@);
        assert(ks[16] == "FirstExportDependency"@);
        assert(ks[17] == "SerializationBeforeSerializationDependencies"@);
        assert(ks[18] == "CreateBeforeSerializationDependencies"@);
        assert(ks[19] == "SerializationBeforeCreateDependencies"@);
        assert(ks[20] == "CreateBeforeCreateDependencies"@);
        assert(ks[21] == "bForcedExport"@);
        assert(ks[22] == "bNotForClient"@);
        assert(ks[23] == "bNotForServer"@);
        assert(ks[24] == "bIsInheritedInstance"@);
        assert(ks[25] == "bNotAlwaysLoadedForEditorGame"@);
        assert(ks[26] == "bIsAsset"@);
        assert(ks[27] == "bGeneratePublicHash"@);
    if noise_keys().contains(k) {
        let i = choose|i: int| 0 <= i < ks.len() && ks[i] == k;
        assert(is_noise_key(ks[i]));
    }
}

/// The first `n` cleaned entries depend on the first `n` entries only.
proof fn lemma_cleaned_entries_prefix(s: Seq<(Seq<char>, JsonV)>, t: Seq<(Seq<char>, JsonV)>, n: int)
    requires
        0 <= n <= s.len(),
        n <= t.len(),
        s.subrange(0, n) == t.subrange(0, n),
    ensures
        cleaned_entries(s, n) == cleaned_entries(t, n),
    decreases n,
{
    if n > 0 {
        assert(s[n - 1] == s.subrange(0, n)[n - 1]);
        assert(t[n - 1] == t.subrange(0, n)[n - 1]);
        assert(s.subrange(0, n - 1) =~= s.subrange(0, n).subrange(0, n - 1));
        assert(t.subrange(0, n - 1) =~= t.subrange(0, n).subrange(0, n - 1));
        lemma_cleaned_entries_prefix(s, t, n - 1);
    }
}

/// Cleaning drops exactly the entries keyed by one of `noise_keys()` and
/// keeps every other entry, in order, with its value cleaned: an empty object
/// stays empty, and one more entry is dropped when its key is a noise key and
/// appended (cleaned) otherwise.
pub proof fn lemma_clean_strips_exactly_noise_keys(es: Seq<(Seq<char>, JsonV)>, k: Seq<char>, v: JsonV)
    ensures
        cleaned(JsonV::Object(seq![])) == JsonV::Object(seq![]),
        cleaned(JsonV::Object(es)) == JsonV::Object(cleaned_entries(es, es.len() as int)),
        noise_keys().contains(k) ==> cleaned(JsonV::Object(es.push((k, v)))) == cleaned(JsonV::Object(es)),
        !noise_keys().contains(k) ==> cleaned(JsonV::Object(es.push((k, v)))) == JsonV::Object(
            cleaned_entries(es, es.len() as int).push((k, cleaned(v))),
        ),
{
    lemma_noise_keys(k);
    let t = es.push((k, v));
    assert(t.subrange(0, es.len() as int) =~= es.subrange(0, es.len() as int));
    lemma_cleaned_entries_prefix(t, es, es.len() as int);
    assert(t[es.len() as int] == (k, v));
}

/// The first `n` items, each cleaned.
pub open spec fn cleaned_items(items: Seq<JsonV>, n: int) -> Seq<JsonV>
    decreases items, n,
{
    if n <= 0 || n > items.len() {
        seq![]
    } else {
        cleaned_items(items, n - 1).push(cleaned(items[n - 1]))
    }
}

/// The first `n` entries without the noise-keyed ones, values cleaned.
pub open spec fn cleaned_entries(entries: Seq<(Seq<char>, JsonV)>, n: int) -> Seq<
    (Seq<char>, JsonV),
>
    decreases entries, n,
{
    if n <= 0 || n > entries.len() {
        seq![]
    } else {
        let rest = cleaned_entries(entries, n - 1);
        let e = entries[n - 1];
        if is_noise_key(e.0) {
            rest
        } else {
            rest.push((e.0, cleaned(e.1)))
        }
    }
}

pub proof fn lemma_cleaned_items(items: Seq<JsonV>, n: int)
    requires
        0 <= n <= items.len(),
    ensures
        cleaned_items(items, n).len() == n,
        forall|i: int| 0 <= i < n ==> #[trigger] cleaned_items(items, n)[i] == cleaned(items[i]),
    decreases n,
{
    if n > 0 {
        lemma_cleaned_items(items, n - 1);
    }
}

/// Recursively remove noise keys at every depth.
pub fn clean(value: Json) -> (r: Json)
    ensures
        r@ == cleaned(value@),
    decreases value,
{
    let ghost whole = value;
    match value {
        Json::Array(items) => {
            let ghost orig = items;
            let mut out: Vec<Json> = Vec::new();
            for x in it: items.into_iter()
                invariant
                    it.seq() == orig@,
                    whole == Json::Array(orig),
                    whole == value,
                    out@.len() == it.index(),
                    forall|i: int| 0 <= i < it.index() ==> #[trigger] json_view(out@[i]) == cleaned(json_view(orig@[i])),
            {
                proof {
                    assert(decreases_to!(whole => whole->Array_0));
                    assert(decreases_to!(orig => orig@));
                    assert(decreases_to!(orig@ => orig@[it.index() as int]));
                    assert(x == orig@[it.index() as int]);
                    assert(decreases_to!(whole => x));
                }
                let c = clean(x);
                out.push(c);
            }
            proof {
                lemma_items_view(orig@, orig@.len() as int);
                lemma_items_view(out@, out@.len() as int);
                lemma_cleaned_items(items_view(orig@, orig@.len() as int), orig@.len() as int);
                assert(items_view(out@, out@.len() as int) =~= cleaned_items(
                    items_view(orig@, orig@.len() as int),
                    orig@.len() as int,
                ));
            }
            Json::Array(out)
        },
        Json::Object(entries) => {
            let ghost orig = entries;
            let mut out: Vec<(String, Json)> = Vec::new();
            proof {
                lemma_entries_view(orig@, orig@.len() as int);
            }
            for e in it: entries.into_iter()
                invariant
                    it.seq() == orig@,
                    whole == Json::Object(orig),
                    whole == value,
                    it.index() <= orig@.len(),
                    entries_view(orig@, orig@.len() as int).len() == orig@.len(),
                    forall|i: int|
                        0 <= i < orig@.len() ==> #[trigger] entries_view(orig@, orig@.len() as int)[i]
                            == (orig@[i].0@, json_view(orig@[i].1)),
                    entries_view(out@, out@.len() as int) == cleaned_entries(
                        entries_view(orig@, orig@.len() as int),
                        it.index() as int,
                    ),
            {
                let ghost i = it.index() as int;
                let ghost big = entries_view(orig@, orig@.len() as int);
                let ghost before = out@;
                let (k, v) = e;
                proof {
                    assert(e == orig@[i]);
                    assert(big[i] == (k@, json_view(v)));
                    assert(cleaned_entries(big, i + 1) == (if is_noise_key(k@) {
                        cleaned_entries(big, i)
                    } else {
                        cleaned_entries(big, i).push((k@, cleaned(json_view(v))))
                    }));
                }
                proof {
                    assert(decreases_to!(whole => whole->Object_0));
                    assert(decreases_to!(orig => orig@));
                    assert(decreases_to!(orig@ => orig@[i]));
                    assert(decreases_to!(orig@[i] => orig@[i].1));
                    assert(v == orig@[i].1);
                    assert(decreases_to!(whole => v));
                }
                if !noise_key(k.as_str()) {
                    let c = clean(v);
                    out.push((k, c));
                    proof {
                        assert(out@.subrange(0, before.len() as int) =~= before.subrange(
                            0,
                            before.len() as int,
                        ));
                        lemma_entries_view_prefix(out@, before, before.len() as int);
                    }
                }
            }
            Json::Object(out)
        },
        other => other,
    }
}

/// No object at any depth of `v` has a noise-keyed entry.
pub open spec fn noise_free(v: JsonV) -> bool
    decreases v, 0int,
{
    match v {
        JsonV::Array(items) => items_noise_free(items, items.len() as int),
        JsonV::Object(entries) => entries_noise_free(entries, entries.len() as int),
        _ => true,
    }
}

pub open spec fn items_noise_free(items: Seq<JsonV>, n: int) -> bool
    decreases items, n,
{
    if n <= 0 || n > items.len() {
        true
    } else {
        items_noise_free(items, n - 1) && noise_free(items[n - 1])
    }
}

pub open spec fn entries_noise_free(entries: Seq<(Seq<char>, JsonV)>, n: int) -> bool
    decreases entries, n,
{
    if n <= 0 || n > entries.len() {
        true
    } else {
        entries_noise_free(entries, n - 1) && !is_noise_key(entries[n - 1].0) && noise_free(
            entries[n - 1].1,
        )
    }
}

proof fn lemma_items_noise_free(items: Seq<JsonV>, n: int)
    requires
        0 <= n <= items.len(),
    ensures
        items_noise_free(items, n) <==> forall|i: int| 0 <= i < n ==> noise_free(#[trigger] items[i]),
    decreases n,
{
    if n > 0 {
        lemma_items_noise_free(items, n - 1);
    }
}

proof fn lemma_entries_noise_free(entries: Seq<(Seq<char>, JsonV)>, n: int)
    requires
        0 <= n <= entries.len(),
    ensures
        entries_noise_free(entries, n) <==> forall|i: int|
            0 <= i < n ==> !is_noise_key((#[trigger] entries[i]).0) && noise_free(entries[i].1),
    decreases n,
{
    if n > 0 {
        lemma_entries_noise_free(entries, n - 1);
    }
}

proof fn lemma_cleaned_entries_noise_free(entries: Seq<(Seq<char>, JsonV)>, n: int)
    requires
        0 <= n <= entries.len(),
        forall|i: int| 0 <= i < n ==> noise_free(cleaned((#[trigger] entries[i]).1)),
    ensures
        forall|j: int|
            0 <= j < cleaned_entries(entries, n).len() ==> !is_noise_key(
                (#[trigger] cleaned_entries(entries, n)[j]).0,
            ) && noise_free(cleaned_entries(entries, n)[j].1),
    decreases n,
{
    if n > 0 {
        lemma_cleaned_entries_noise_free(entries, n - 1);
        let rest = cleaned_entries(entries, n - 1);
        let e = entries[n - 1];
        if !is_noise_key(e.0) {
            assert forall|j: int|
                0 <= j < cleaned_entries(entries, n).len() implies !is_noise_key(
                (#[trigger] cleaned_entries(entries, n)[j]).0,
            ) && noise_free(cleaned_entries(entries, n)[j].1) by {
                if j < rest.len() {
                    assert(cleaned_entries(entries, n)[j] == rest[j]);
                }
            }
        }
    }
}

/// Cleaning leaves no noise key at any depth.
pub proof fn lemma_cleaned_noise_free(v: JsonV)
    ensures
        noise_free(cleaned(v)),
    decreases v,
{
    match v {
        JsonV::Array(items) => {
            let n = items.len() as int;
            assert forall|i: int| 0 <= i < n implies noise_free(#[trigger] cleaned_items(items, n)[i]) by {
                lemma_cleaned_items(items, n);
                assert(decreases_to!(v => items));
                lemma_cleaned_noise_free(items[i]);
            }
            lemma_cleaned_items(items, n);
            lemma_items_noise_free(cleaned_items(items, n), n);
        },
        JsonV::Object(entries) => {
            let n = entries.len() as int;
            assert forall|i: int| 0 <= i < n implies noise_free(cleaned((#[trigger] entries[i]).1)) by {
                assert(decreases_to!(v => entries));
                assert(decreases_to!(entries[i] => entries[i].1));
                lemma_cleaned_noise_free(entries[i].1);
            }
            lemma_cleaned_entries_noise_free(entries, n);
            let ce = cleaned_entries(entries, n);
            lemma_entries_noise_free(ce, ce.len() as int);
        },
        _ => {},
    }
}

/// The kept root sections are not noise keys.
proof fn lemma_sections_not_noise()
    ensures
        !is_noise_key("Exports"@),
        !is_noise_key("Imports"@),
        "Exports"@ != "Imports"@,
{
    assert forall|k: Seq<char>| is_noise_key(k) implies k.len() > 0 && k[0] != 'E' && k[0] != 'I' by {
        reveal_strlit("$type");
        reveal_strlit("SerialOffset");
        reveal_strlit("SerialSize");
        reveal_strlit("PackageGuid");
        reveal_strlit("PublicExportHash");
        reveal_strlit("SavedHash");
        reveal_strlit("PackageFlags");
        reveal_strlit("ObjectFlags");
        reveal_strlit("OuterIndex");
        reveal_strlit("ClassIndex");
        reveal_strlit("SuperIndex");
        reveal_strlit("TemplateIndex");
        reveal_strlit("PropertyGuid");
        reveal_strlit("DuplicationIndex");
        reveal_strlit("ArrayIndex");
        reveal_strlit("NameMap");
        reveal_strlit("FirstExportDependency");
        reveal_strlit("SerializationBeforeSerializationDependencies");
        reveal_strlit("CreateBeforeSerializationDependencies");
        reveal_strlit("SerializationBeforeCreateDependencies");
        reveal_strlit("CreateBeforeCreateDependencies");
        reveal_strlit("bForcedExport");
        reveal_strlit("bNotForClient");
        reveal_strlit("bNotForServer");
        reveal_strlit("bIsInheritedInstance");
        reveal_strlit("bNotAlwaysLoadedForEditorGame");
        reveal_strlit("bIsAsset");
        reveal_strlit("bGeneratePublicHash");
    }
    reveal_strlit("Exports");
    reveal_strlit("Imports");
    assert("Exports"@[0] == 'E');
    assert("Imports"@[0] == 'I');
}

/// The value of the first entry keyed `k`, if any.
pub open spec fn first_value(entries: Seq<(Seq<char>, JsonV)>, k: Seq<char>) -> Option<JsonV>
    decreases entries.len(),
{
    if entries.len() == 0 {
        None
    } else {
        let r = first_value(entries.drop_last(), k);
        if r is Some {
            r
        } else if entries.last().0 == k {
            Some(entries.last().1)
        } else {
            None
        }
    }
}

/// The cleaned `k` section of a root object, when it has one.
pub open spec fn kept_section(entries: Seq<(Seq<char>, JsonV)>, k: Seq<char>) -> Seq<
    (Seq<char>, JsonV),
> {
    match first_value(entries, k) {
        Some(v) => seq![(k, cleaned(v))],
        None => seq![],
    }
}

/// The content-focused view of UAssetGUI's `tojson` output: of a root object
/// only the `Exports` and `Imports` sections are kept, in that order, each
/// cleaned; any other root is cleaned in place.
pub open spec fn filtered(v: JsonV) -> JsonV {
    match v {
        JsonV::Object(entries) => JsonV::Object(
            kept_section(entries, "Exports"@) + kept_section(entries, "Imports"@),
        ),
        _ => cleaned(v),
    }
}

/// The view of an optional value.
pub open spec fn opt_json(o: Option<Json>) -> Option<JsonV> {
    match o {
        Some(j) => Some(j@),
        None => None,
    }
}

/// Reduce the tojson output to a content-focused view: keep only the
/// content-bearing top-level sections, then recursively drop noise keys.
pub fn filter_json(value: Json) -> (r: Json)
    ensures
        r@ == filtered(value@),
        noise_free(r@),
        value@ is Object ==> (r@ matches JsonV::Object(es) && forall|i: int|
            0 <= i < es.len() ==> (#[trigger] es[i]).0 == "Exports"@ || es[i].0 == "Imports"@),
{
    match value {
        Json::Object(root) => {
            let ghost orig = root;
            let ghost n = orig@.len() as int;
            let mut exports: Option<Json> = None;
            let mut imports: Option<Json> = None;
            proof {
                lemma_entries_view(orig@, n);
            }
            for e in it: root.into_iter()
                invariant
                    it.seq() == orig@,
                    n == orig@.len(),
                    it.index() <= n,
                    forall|i: int|
                        0 <= i < n ==> #[trigger] entries_view(orig@, n)[i] == (
                            orig@[i].0@,
                            json_view(orig@[i].1),
                        ),
                    entries_view(orig@, n).len() == n,
                    opt_json(exports) == first_value(
                        entries_view(orig@, n).subrange(0, it.index() as int),
                        "Exports"@,
                    ),
                    opt_json(imports) == first_value(
                        entries_view(orig@, n).subrange(0, it.index() as int),
                        "Imports"@,
                    ),
            {
                let ghost i = it.index() as int;
                let ghost big = entries_view(orig@, n);
                let (k, v) = e;
                proof {
                    lemma_sections_not_noise();
                    assert(e == orig@[i]);
                    assert(big[i] == (k@, json_view(v)));
                    assert(big.subrange(0, i + 1).drop_last() =~= big.subrange(0, i));
                    assert(big.subrange(0, i + 1).last() == big[i]);
                }
                if exports.is_none() && str_eq(k.as_str(), "Exports") {
                    exports = Some(v);
                } else if imports.is_none() && str_eq(k.as_str(), "Imports") {
                    imports = Some(v);
                }
            }
            proof {
                lemma_entries_view(orig@, n);
                assert(entries_view(orig@, n).subrange(0, n) =~= entries_view(orig@, n));
            }
            let mut kept: Vec<(String, Json)> = Vec::new();
            match exports {
                Some(x) => {
                    let c = clean(x);
                    kept.push((owned("Exports"), c));
                },
                None => {},
            }
            match imports {
                Some(x) => {
                    let c = clean(x);
                    kept.push((owned("Imports"), c));
                },
                None => {},
            }
            let ghost ents = entries_view(orig@, n);
            proof {
                lemma_entries_view(kept@, kept@.len() as int);
                let want = kept_section(ents, "Exports"@) + kept_section(ents, "Imports"@);
                assert(entries_view(kept@, kept@.len() as int) =~= want);
                assert forall|i: int| 0 <= i < want.len() implies !is_noise_key((#[trigger] want[i]).0)
                    && noise_free(want[i].1) by {
                    match first_value(ents, "Exports"@) {
                        Some(x) => lemma_cleaned_noise_free(x),
                        None => {},
                    }
                    match first_value(ents, "Imports"@) {
                        Some(x) => lemma_cleaned_noise_free(x),
                        None => {},
                    }
                    lemma_sections_not_noise();
                }
                lemma_entries_noise_free(want, want.len() as int);
            }
            Json::Object(kept)
        },
        other => {
            let r = clean(other);
            proof {
                lemma_cleaned_noise_free(other@);
            }
            r
        },
    }
}

// ---------------------------------------------------------------------------
// Printing the property view
// ---------------------------------------------------------------------------

/// `serde_json::Value`, carried through opaquely.
#[verifier::external_type_specification]
#[verifier::external_body]
pub struct ExSerdeValue(serde_json::Value);

/// `j` as a `serde_json::Value`, one for one (a number from its text, as
/// `serde_json` wrote it).
#[verifier::external_body]
fn serde_value(j: &Json) -> serde_json::Value {
    match j {
        Json::Null => serde_json::Value::Null,
        Json::Bool(b) => serde_json::Value::Bool(*b),
        Json::Number(n) => serde_json::from_str(n).unwrap_or(serde_json::Value::Null),
        Json::Str(s) => serde_json::Value::String(s.clone()),
        Json::Array(a) => serde_json::Value::Array(a.iter().map(serde_value).collect()),
        Json::Object(es) => serde_json::Value::Object(
            es.iter().map(|(k, v)| (k.clone(), serde_value(v))).collect(),
        ),
    }
}

/// The text `serde_json::to_string_pretty` prints for a JSON value:
/// two-space indentation, object keys in sorted order (its default map is
/// ordered by key; a repeated key keeps its last value), numbers as
/// `serde_json` writes them.
pub uninterp spec fn pretty_json(j: JsonV) -> Seq<char>;

/// `serde_json::to_string_pretty` of `j`. Trusted: the result is named
/// `pretty_json`; it depends on the value alone (the map is key-ordered, not
/// hashed). Printing a `Value` cannot fail (every key is a string), so the
/// error arm is never taken.
#[verifier::external_body]
fn json_pretty(j: &Json) -> (s: String)
    ensures
        s@ == pretty_json(j@),
{
    serde_json::to_string_pretty(&serde_value(j)).unwrap_or_default()
}

/// The property view's text of a parsed `tojson` output: only the exported
/// and imported sections, with the noise keys removed at every depth,
/// printed pretty.
pub fn filtered_json_text(parsed: Json) -> (s: String)
    ensures
        s@ == pretty_json(filtered(parsed@)),
{
    let reduced = filter_json(parsed);
    json_pretty(&reduced)
}

} // verus!
