//! The per-file diff views as step machines. Given what has been read so far,
//! a step names the next read or the view to show; the caller performs the
//! read, records its result and asks again. Each read is asked for at most
//! once, so a view is reached after a handful of steps.

use vstd::prelude::*;

use crate::git::cli::{
    asset_size_gate, blob_spec, branch_gate_spec, branch_size_gate, changes_old_spec, content_diff,
    content_view, sides_needed,
    gitlink_diff, gitlink_text_spec, image_diff, lemma_content_view_consistent,
    lemma_plain_text_consistent, text_consistent, image_path, image_view, is_image_path,
    max_u64, over_large_cap, plain_text, size_or_zero, too_large, ASSET_HEADER_TOO_LARGE,
    ASSET_TOO_LARGE, LARGE_FILE_BYTES,
};
use crate::git::diff::normalized;
use crate::git::uasset::{is_uasset_path, sibling_uexp, sibling_uexp_spec, uasset_path, UASSET_MAX_BYTES};
use crate::git::{binary_with_note, opt_view, FileDiff, FileStatus};
use crate::text::{self, owned};
use vstd::utf8::{decode_utf8, valid_utf8};

verus! {

/// Where one side's bytes come from.
#[derive(Debug, Clone, PartialEq, Eq)]
pub enum Fetch {
    /// Nothing to read: the side is absent.
    Absent,
    /// The object at this spec, through git's smudge filters
    /// (`git cat-file --filters`), so LFS pointers resolve to real bytes.
    Filtered(String),
    /// The working-tree file at this repository-relative path.
    Disk(String),
}

pub enum FetchView {
    Absent,
    Filtered(Seq<char>),
    Disk(Seq<char>),
}

impl View for Fetch {
    type V = FetchView;

    open spec fn view(&self) -> FetchView {
        match self {
            Fetch::Absent => FetchView::Absent,
            Fetch::Filtered(s) => FetchView::Filtered(s@),
            Fetch::Disk(s) => FetchView::Disk(s@),
        }
    }
}

/// `<rev>:<path>`, the object spec of a path at a revision.
pub open spec fn object_spec(rev: Seq<char>, path: Seq<char>) -> Seq<char> {
    rev + ":"@ + path
}

/// The byte views of a pair of read sides.
pub open spec fn pair_view(p: Option<(Vec<u8>, Vec<u8>)>) -> Option<(Seq<u8>, Seq<u8>)> {
    match p {
        Some((a, b)) => Some((a@, b@)),
        None => None,
    }
}

/// The views of a pair of looked-up commit ids.
pub open spec fn shas_view(p: Option<(Option<String>, Option<String>)>) -> Option<(Option<Seq<char>>, Option<Seq<char>>)> {
    match p {
        Some((a, b)) => Some((opt_view(a), opt_view(b))),
        None => None,
    }
}

/// Some side has a submodule pointer.
pub open spec fn links_found(p: Option<(Option<Seq<char>>, Option<Seq<char>>)>) -> bool {
    p matches Some((a, b)) && (a is Some || b is Some)
}

/// Both pointer texts fit the diff's `u32` offsets.
pub open spec fn links_fit(p: Option<(Option<Seq<char>>, Option<Seq<char>>)>) -> bool {
    p matches Some((a, b)) ==> text::utf16_len(normalized(gitlink_text_spec(a))) <= u32::MAX
        && text::utf16_len(normalized(gitlink_text_spec(b))) <= u32::MAX
}

// ---------------------------------------------------------------------------
// Branch comparison
// ---------------------------------------------------------------------------

/// What has been read of one file of a branch comparison. The sizes come
/// from the batch session (`None`: no such object).
#[derive(Debug)]
pub struct BranchFacts {
    pub old_size: Option<u64>,
    pub new_size: Option<u64>,
    /// The submodule pointers of both sides (`ls-tree`), once looked up.
    pub links: Option<(Option<String>, Option<String>)>,
    /// Both sides' blobs from the batch session, once read.
    pub content: Option<(Vec<u8>, Vec<u8>)>,
    /// Both sides' smudged image bytes, once read.
    pub images: Option<(Vec<u8>, Vec<u8>)>,
}

pub struct BranchFactsView {
    pub old_size: Option<u64>,
    pub new_size: Option<u64>,
    pub links: Option<(Option<Seq<char>>, Option<Seq<char>>)>,
    pub content: Option<(Seq<u8>, Seq<u8>)>,
    pub images: Option<(Seq<u8>, Seq<u8>)>,
}

impl View for BranchFacts {
    type V = BranchFactsView;

    open spec fn view(&self) -> BranchFactsView {
        BranchFactsView {
            old_size: self.old_size,
            new_size: self.new_size,
            links: shas_view(self.links),
            content: pair_view(self.content),
            images: pair_view(self.images),
        }
    }
}

/// The next step of a branch comparison.
#[derive(Debug)]
pub enum BranchStep {
    /// Look up the submodule pointer at `old_tree:old_path` and
    /// `new_tree:new_path`.
    LookupGitlinks { old_tree: String, old_path: String, new_tree: String, new_path: String },
    /// Read the blobs at these specs from the batch session (`None`: the side
    /// is missing and reads as empty).
    ReadContent { old: Option<String>, new: Option<String> },
    /// The view is the Unreal asset's property view, rendered from these
    /// sides (an absent side reads as empty, an absent `.uexp` as none).
    DeriveAsset { old: Fetch, new: Fetch, old_uexp: Fetch, new_uexp: Fetch, old_size: u64, new_size: u64 },
    /// Read both sides of an image (an absent side reads as empty).
    ReadImages { old: Fetch, new: Fetch },
    /// The view to show.
    Show(FileDiff),
}

/// The decision of a branch comparison at one step.
pub enum BranchNext {
    LookupGitlinks,
    ShowGitlinks(Option<Seq<char>>, Option<Seq<char>>),
    ShowGate(bool, u64, u64),
    ReadContent,
    DeriveAsset,
    ReadImages,
    ShowImages(Seq<u8>, Seq<u8>),
    ShowContent(Seq<u8>, Seq<u8>),
}

/// The next step of a branch comparison: when both sides are missing, the
/// submodule pointers decide first; then the size gate; then the contents
/// are read, and the file is shown as an asset view, an image or text.
pub open spec fn branch_next(f: BranchFactsView, file_path: Seq<char>, force: bool, uasset_enabled: bool) -> BranchNext {
    let derive = uasset_enabled && uasset_path(file_path);
    let image = image_path(file_path);
    let both_missing = f.old_size is None && f.new_size is None;
    if both_missing && f.links is None {
        BranchNext::LookupGitlinks
    } else if both_missing && links_found(f.links) {
        BranchNext::ShowGitlinks(f.links->Some_0.0, f.links->Some_0.1)
    } else if branch_gate_spec(f.old_size, f.new_size, force, derive, image) is Some {
        let g = branch_gate_spec(f.old_size, f.new_size, force, derive, image)->Some_0;
        BranchNext::ShowGate(g.0, g.1, g.2)
    } else if f.content is None {
        BranchNext::ReadContent
    } else if derive {
        BranchNext::DeriveAsset
    } else if image {
        match f.images {
            None => BranchNext::ReadImages,
            Some((oi, ni)) => BranchNext::ShowImages(oi, ni),
        }
    } else {
        BranchNext::ShowContent(f.content->Some_0.0, f.content->Some_0.1)
    }
}

/// The `.uexp` beside an asset at a revision, if the path has one.
pub open spec fn uexp_at(rev: Seq<char>, p: Seq<char>) -> FetchView {
    match sibling_uexp_spec(p) {
        Some(sp) => FetchView::Filtered(object_spec(rev, sp)),
        None => FetchView::Absent,
    }
}

/// The blob spec of a side whose size is known, if it exists.
pub open spec fn present_spec(size: Option<u64>, rev: Seq<char>, p: Seq<char>) -> Option<Seq<char>> {
    if size is Some {
        Some(object_spec(rev, p))
    } else {
        None
    }
}

/// The smudged read of a side whose size is known, if it exists.
pub open spec fn present_fetch(size: Option<u64>, rev: Seq<char>, p: Seq<char>) -> FetchView {
    if size is Some {
        FetchView::Filtered(object_spec(rev, p))
    } else {
        FetchView::Absent
    }
}

/// `s` carries out the decision `n` for a branch comparison of `file_path`
/// (`old_target` on the old side) between `old_ref` and `new_ref`.
pub open spec fn branch_step_ok(
    s: BranchStep,
    n: BranchNext,
    f: BranchFactsView,
    old_ref: Seq<char>,
    new_ref: Seq<char>,
    file_path: Seq<char>,
    old_target: Seq<char>,
    force: bool,
) -> bool {
    match n {
        BranchNext::LookupGitlinks => s matches BranchStep::LookupGitlinks { old_tree, old_path, new_tree, new_path }
            && old_tree@ == old_ref && old_path@ == old_target && new_tree@ == new_ref && new_path@ == file_path,
        BranchNext::ShowGitlinks(a, b) => s matches BranchStep::Show(d) && plain_text(
            d,
            gitlink_text_spec(a),
            gitlink_text_spec(b),
            0,
            0,
        ),
        BranchNext::ShowGate(t, a, b) => s matches BranchStep::Show(d) && (if t {
            too_large(d, a, b)
        } else {
            binary_with_note(d, a, b, ASSET_HEADER_TOO_LARGE@)
        }),
        BranchNext::ReadContent => s matches BranchStep::ReadContent { old, new } && opt_view(old)
            == present_spec(f.old_size, old_ref, old_target) && opt_view(new) == present_spec(
            f.new_size,
            new_ref,
            file_path,
        ),
        BranchNext::DeriveAsset => s matches BranchStep::DeriveAsset { old, new, old_uexp, new_uexp, old_size, new_size }
            && old@ == FetchView::Filtered(object_spec(old_ref, old_target)) && new@ == FetchView::Filtered(
            object_spec(new_ref, file_path),
        ) && old_uexp@ == uexp_at(old_ref, old_target) && new_uexp@ == uexp_at(new_ref, file_path)
            && old_size == size_or_zero(f.old_size) && new_size == size_or_zero(f.new_size),
        BranchNext::ReadImages => s matches BranchStep::ReadImages { old, new } && old@ == present_fetch(
            f.old_size,
            old_ref,
            old_target,
        ) && new@ == present_fetch(f.new_size, new_ref, file_path),
        BranchNext::ShowImages(oi, ni) => s matches BranchStep::Show(d) && image_view(d, file_path, oi, ni, force),
        BranchNext::ShowContent(ob, nb) => s matches BranchStep::Show(d) && content_view(
            d,
            ob,
            nb,
            size_or_zero(f.old_size),
            size_or_zero(f.new_size),
        ),
    }
}

/// The `.uexp` beside an asset at a revision, if the path has one.
fn uexp_fetch(rev: &str, p: &str) -> (r: Fetch)
    ensures
        r@ == uexp_at(rev@, p@),
{
    match sibling_uexp(p) {
        Some(sp) => Fetch::Filtered(blob_spec(rev, sp.as_str())),
        None => Fetch::Absent,
    }
}

/// The next step of comparing `file_path` (at `old_path` on the old side,
/// when renamed) between `old_ref` (the merge base or start) and `new_ref`.
pub fn branch_diff_next(
    f: &BranchFacts,
    old_ref: &str,
    new_ref: &str,
    file_path: &str,
    old_path: Option<&str>,
    force: bool,
    uasset_enabled: bool,
) -> (s: BranchStep)
    requires
        links_fit(f@.links),
        f@.content matches Some((ob, nb)) ==> (!(uasset_enabled && uasset_path(file_path@))
            && !image_path(file_path@) ==> ob.len() <= u32::MAX && nb.len() <= u32::MAX),
    ensures
        branch_step_ok(
            s,
            branch_next(f@, file_path@, force, uasset_enabled),
            f@,
            old_ref@,
            new_ref@,
            file_path@,
            match old_path {
                Some(p) => p@,
                None => file_path@,
            },
            force,
        ),
        s is LookupGitlinks ==> f.links is None,
        s is ReadContent ==> f.content is None,
        s is ReadImages ==> f.images is None,
{
    let old_target = match old_path {
        Some(p) => p,
        None => file_path,
    };
    let both_missing = f.old_size.is_none() && f.new_size.is_none();
    if both_missing {
        match &f.links {
            None => {
                return BranchStep::LookupGitlinks {
                    old_tree: owned(old_ref),
                    old_path: owned(old_target),
                    new_tree: owned(new_ref),
                    new_path: owned(file_path),
                };
            },
            Some((a, b)) => {
                if a.is_some() || b.is_some() {
                    return BranchStep::Show(gitlink_diff(a, b));
                }
            },
        }
    }
    let derive = uasset_enabled && is_uasset_path(file_path);
    let image = is_image_path(file_path);
    if let Some(d) = branch_size_gate(f.old_size, f.new_size, force, derive, image) {
        return BranchStep::Show(d);
    }
    match &f.content {
        None => {
            let old = if f.old_size.is_some() { Some(blob_spec(old_ref, old_target)) } else { None };
            let new = if f.new_size.is_some() { Some(blob_spec(new_ref, file_path)) } else { None };
            BranchStep::ReadContent { old, new }
        },
        Some((ob, nb)) => {
            if derive {
                BranchStep::DeriveAsset {
                    old: Fetch::Filtered(blob_spec(old_ref, old_target)),
                    new: Fetch::Filtered(blob_spec(new_ref, file_path)),
                    old_uexp: uexp_fetch(old_ref, old_target),
                    new_uexp: uexp_fetch(new_ref, file_path),
                    old_size: match f.old_size {
                        Some(n) => n,
                        None => 0,
                    },
                    new_size: match f.new_size {
                        Some(n) => n,
                        None => 0,
                    },
                }
            } else if image {
                match &f.images {
                    None => {
                        let old = if f.old_size.is_some() {
                            Fetch::Filtered(blob_spec(old_ref, old_target))
                        } else {
                            Fetch::Absent
                        };
                        let new = if f.new_size.is_some() {
                            Fetch::Filtered(blob_spec(new_ref, file_path))
                        } else {
                            Fetch::Absent
                        };
                        BranchStep::ReadImages { old, new }
                    },
                    Some((oi, ni)) => BranchStep::Show(image_diff(file_path, oi.as_slice(), ni.as_slice(), force)),
                }
            } else {
                let os = match f.old_size {
                    Some(n) => n,
                    None => 0,
                };
                let ns = match f.new_size {
                    Some(n) => n,
                    None => 0,
                };
                BranchStep::Show(content_diff(ob.as_slice(), nb.as_slice(), os, ns))
            }
        },
    }
}

// ---------------------------------------------------------------------------
// Working-copy changes
// ---------------------------------------------------------------------------

/// What has been read of one side of a working-copy change (the staged gap
/// HEAD↔index, or the unstaged gap index↔worktree).
#[derive(Debug)]
pub struct ChangesFacts {
    /// The working-tree entry is a directory: a submodule.
    pub is_dir: bool,
    /// The submodule commits of both sides, once resolved.
    pub shas: Option<(Option<String>, Option<String>)>,
    /// Both sides of an Unreal asset, once read.
    pub assets: Option<(Vec<u8>, Vec<u8>)>,
    /// Both sides of an image, once read.
    pub images: Option<(Vec<u8>, Vec<u8>)>,
    /// The old side's blob, once read.
    pub old_bytes: Option<Vec<u8>>,
    /// The working-tree file's size, once asked.
    pub disk_size: Option<u64>,
    /// The new side's bytes (index blob or working-tree file), once read.
    pub new_bytes: Option<Vec<u8>>,
}

pub struct ChangesFactsView {
    pub is_dir: bool,
    pub shas: Option<(Option<Seq<char>>, Option<Seq<char>>)>,
    pub assets: Option<(Seq<u8>, Seq<u8>)>,
    pub images: Option<(Seq<u8>, Seq<u8>)>,
    pub old_bytes: Option<Seq<u8>>,
    pub disk_size: Option<u64>,
    pub new_bytes: Option<Seq<u8>>,
}

/// The bytes of an optional read.
pub open spec fn bytes_view(b: Option<Vec<u8>>) -> Option<Seq<u8>> {
    match b {
        Some(v) => Some(v@),
        None => None,
    }
}

impl View for ChangesFacts {
    type V = ChangesFactsView;

    open spec fn view(&self) -> ChangesFactsView {
        ChangesFactsView {
            is_dir: self.is_dir,
            shas: shas_view(self.shas),
            assets: pair_view(self.assets),
            images: pair_view(self.images),
            old_bytes: bytes_view(self.old_bytes),
            disk_size: self.disk_size,
            new_bytes: bytes_view(self.new_bytes),
        }
    }
}

/// The next step of a working-copy diff.
#[derive(Debug)]
pub enum ChangesStep {
    /// Resolve the submodule commit at `old_spec` and at `new_spec` (`None`:
    /// the submodule's own checked-out HEAD).
    ResolveGitlinks { old_spec: String, new_spec: Option<String> },
    /// Read both sides of an Unreal asset (an absent side reads as empty).
    ReadAssets { old: Fetch, new: Fetch },
    /// The view is the asset's property view, rendered from the assets read
    /// and these `.uexp` sides (absent: none).
    DeriveAsset { old_uexp: Fetch, new_uexp: Fetch, old_size: u64, new_size: u64 },
    /// Read both sides of an image (an absent side reads as empty).
    ReadImages { old: Fetch, new: Fetch },
    /// One-shot read of the old side's blob (missing: empty).
    ReadOld { spec: String },
    /// One-shot read of the index blob (missing: empty).
    ReadIndex { spec: String },
    /// The working-tree file's size (0 when it cannot be read).
    StatWorktree,
    /// The working-tree file (missing: empty; any other error fails the diff).
    ReadWorktree,
    /// The view to show.
    Show(FileDiff),
}

/// The decision of a working-copy diff at one step.
pub enum ChangesNext {
    ResolveGitlinks,
    ShowGitlinks(Option<Seq<char>>, Option<Seq<char>>),
    ReadAssets,
    ShowAssetGate(u64, u64),
    DeriveAsset(u64, u64),
    ReadImages,
    ShowImages(Seq<u8>, Seq<u8>),
    ReadOld,
    ReadIndex,
    StatWorktree,
    ReadWorktree,
    ShowTooLarge(u64, u64),
    ShowContent(Seq<u8>, Seq<u8>, u64, u64),
}

/// Either side over `LARGE_FILE_BYTES`, without `force`.
pub open spec fn over_cap(force: bool, a: u64, b: u64) -> bool {
    !force && max_u64(a, b) > LARGE_FILE_BYTES
}

/// The text (or binary) view of the two read sides, or the too-large
/// placeholder when either is over the cap.
pub open spec fn content_or_large(old: Seq<u8>, new: Seq<u8>, new_size: u64, force: bool) -> ChangesNext {
    if over_cap(force, old.len() as u64, new_size) {
        ChangesNext::ShowTooLarge(old.len() as u64, new_size)
    } else {
        ChangesNext::ShowContent(old, new, old.len() as u64, new_size)
    }
}

/// The content decision once the old side is known.
pub open spec fn changes_content_next(f: ChangesFactsView, old: Seq<u8>, needs_new: bool, staged: bool, force: bool) -> ChangesNext {
    if !needs_new {
        content_or_large(old, seq![], 0, force)
    } else if staged {
        match f.new_bytes {
            None => ChangesNext::ReadIndex,
            Some(nb) => content_or_large(old, nb, nb.len() as u64, force),
        }
    } else {
        match f.disk_size {
            None => ChangesNext::StatWorktree,
            Some(ds) => if over_cap(force, ds, old.len() as u64) {
                ChangesNext::ShowTooLarge(old.len() as u64, ds)
            } else {
                match f.new_bytes {
                    None => ChangesNext::ReadWorktree,
                    Some(nb) => content_or_large(old, nb, nb.len() as u64, force),
                }
            },
        }
    }
}

/// The next step of a working-copy diff: a submodule shows its pointer move;
/// an Unreal asset its property view (size-gated); an image its preview;
/// anything else is read side by side (the working-tree side size-checked
/// before it is read) and shown as text, binary or too large.
pub open spec fn changes_next(
    f: ChangesFactsView,
    file_path: Seq<char>,
    status: FileStatus,
    staged: bool,
    force: bool,
    uasset_enabled: bool,
) -> ChangesNext {
    let needs_old = status != FileStatus::Added;
    let needs_new = status != FileStatus::Deleted;
    if f.is_dir {
        match f.shas {
            None => ChangesNext::ResolveGitlinks,
            Some((a, b)) => ChangesNext::ShowGitlinks(a, b),
        }
    } else if uasset_enabled && uasset_path(file_path) {
        match f.assets {
            None => ChangesNext::ReadAssets,
            Some((oa, na)) => if !force && max_u64(oa.len() as u64, na.len() as u64) > UASSET_MAX_BYTES {
                ChangesNext::ShowAssetGate(oa.len() as u64, na.len() as u64)
            } else {
                ChangesNext::DeriveAsset(oa.len() as u64, na.len() as u64)
            },
        }
    } else if image_path(file_path) {
        match f.images {
            None => ChangesNext::ReadImages,
            Some((oi, ni)) => ChangesNext::ShowImages(oi, ni),
        }
    } else if needs_old && f.old_bytes is None {
        ChangesNext::ReadOld
    } else {
        let old = if needs_old {
            f.old_bytes->Some_0
        } else {
            seq![]
        };
        changes_content_next(f, old, needs_new, staged, force)
    }
}

/// The old side of a working-copy change: HEAD for the staged gap, the index
/// for the unstaged one.
pub open spec fn old_side_spec(staged: bool, path: Seq<char>) -> Seq<char> {
    object_spec(if staged { "HEAD"@ } else { ""@ }, path)
}

/// Where the old side of an asset or image is read from.
pub open spec fn old_side_fetch(needs_old: bool, staged: bool, old_target: Seq<char>) -> FetchView {
    if needs_old {
        FetchView::Filtered(old_side_spec(staged, old_target))
    } else {
        FetchView::Absent
    }
}

/// Where the new side of an asset or image is read from: the index for the
/// staged gap, the working tree for the unstaged one.
pub open spec fn new_side_fetch(needs_new: bool, staged: bool, file_path: Seq<char>) -> FetchView {
    if !needs_new {
        FetchView::Absent
    } else if staged {
        FetchView::Filtered(object_spec(""@, file_path))
    } else {
        FetchView::Disk(file_path)
    }
}

/// Where the old side's `.uexp` is read from.
pub open spec fn old_uexp_fetch(needs_old: bool, staged: bool, old_target: Seq<char>) -> FetchView {
    if needs_old {
        match sibling_uexp_spec(old_target) {
            Some(sp) => FetchView::Filtered(old_side_spec(staged, sp)),
            None => FetchView::Absent,
        }
    } else {
        FetchView::Absent
    }
}

/// Where the new side's `.uexp` is read from.
pub open spec fn new_uexp_fetch(needs_new: bool, staged: bool, file_path: Seq<char>) -> FetchView {
    if !needs_new {
        FetchView::Absent
    } else {
        match sibling_uexp_spec(file_path) {
            Some(sp) => if staged {
                FetchView::Filtered(object_spec(""@, sp))
            } else {
                FetchView::Disk(sp)
            },
            None => FetchView::Absent,
        }
    }
}

/// `s` carries out the decision `n` for a working-copy diff of `file_path`
/// (`old_target` on the old side).
pub open spec fn changes_step_ok(
    s: ChangesStep,
    n: ChangesNext,
    file_path: Seq<char>,
    old_target: Seq<char>,
    status: FileStatus,
    staged: bool,
    force: bool,
) -> bool {
    let needs_old = status != FileStatus::Added;
    let needs_new = status != FileStatus::Deleted;
    match n {
        ChangesNext::ResolveGitlinks => s matches ChangesStep::ResolveGitlinks { old_spec, new_spec }
            && old_spec@ == old_side_spec(staged, old_target) && opt_view(new_spec) == (if staged {
            Some(object_spec(""@, file_path))
        } else {
            None
        }),
        ChangesNext::ShowGitlinks(a, b) => s matches ChangesStep::Show(d) && plain_text(
            d,
            gitlink_text_spec(a),
            gitlink_text_spec(b),
            0,
            0,
        ),
        ChangesNext::ReadAssets => s matches ChangesStep::ReadAssets { old, new } && old@ == old_side_fetch(
            needs_old,
            staged,
            old_target,
        ) && new@ == new_side_fetch(needs_new, staged, file_path),
        ChangesNext::ShowAssetGate(a, b) => s matches ChangesStep::Show(d) && binary_with_note(
            d,
            a,
            b,
            ASSET_TOO_LARGE@,
        ),
        ChangesNext::DeriveAsset(a, b) => s matches ChangesStep::DeriveAsset { old_uexp, new_uexp, old_size, new_size }
            && old_uexp@ == old_uexp_fetch(needs_old, staged, old_target) && new_uexp@ == new_uexp_fetch(
            needs_new,
            staged,
            file_path,
        ) && old_size == a && new_size == b,
        ChangesNext::ReadImages => s matches ChangesStep::ReadImages { old, new } && old@ == old_side_fetch(
            needs_old,
            staged,
            old_target,
        ) && new@ == new_side_fetch(needs_new, staged, file_path),
        ChangesNext::ShowImages(oi, ni) => s matches ChangesStep::Show(d) && image_view(d, file_path, oi, ni, force),
        ChangesNext::ReadOld => s matches ChangesStep::ReadOld { spec } && spec@ == old_side_spec(staged, old_target),
        ChangesNext::ReadIndex => s matches ChangesStep::ReadIndex { spec } && spec@ == object_spec(""@, file_path),
        ChangesNext::StatWorktree => s is StatWorktree,
        ChangesNext::ReadWorktree => s is ReadWorktree,
        ChangesNext::ShowTooLarge(a, b) => s matches ChangesStep::Show(d) && too_large(d, a, b),
        ChangesNext::ShowContent(ob, nb, a, b) => s matches ChangesStep::Show(d) && content_view(d, ob, nb, a, b),
    }
}

/// A read side that fits the diff's `u32` offsets.
pub open spec fn fits_u32(b: Option<Seq<u8>>) -> bool {
    b matches Some(v) ==> v.len() <= u32::MAX
}

/// The text (or binary) view of two read sides, or the too-large placeholder.
fn content_or_large_exec(old: &[u8], new: &[u8], new_size: u64, force: bool) -> (s: ChangesStep)
    requires
        old@.len() <= u32::MAX,
        new@.len() <= u32::MAX,
    ensures
        changes_step_ok(
            s,
            content_or_large(old@, new@, new_size, force),
            seq![],
            seq![],
            FileStatus::Modified,
            false,
            force,
        ),
{
    let os = old.len() as u64;
    if over_large_cap(force, os, new_size) {
        ChangesStep::Show(FileDiff::TooLarge { old_size: os, new_size })
    } else {
        ChangesStep::Show(content_diff(old, new, os, new_size))
    }
}

/// The `.uexp` beside the old side of a working-copy change.
fn old_uexp(needs_old: bool, staged: bool, old_target: &str) -> (r: Fetch)
    ensures
        r@ == old_uexp_fetch(needs_old, staged, old_target@),
{
    if !needs_old {
        return Fetch::Absent;
    }
    match sibling_uexp(old_target) {
        Some(sp) => Fetch::Filtered(changes_old_spec(staged, sp.as_str())),
        None => Fetch::Absent,
    }
}

/// The `.uexp` beside the new side of a working-copy change.
fn new_uexp(needs_new: bool, staged: bool, file_path: &str) -> (r: Fetch)
    ensures
        r@ == new_uexp_fetch(needs_new, staged, file_path@),
{
    if !needs_new {
        return Fetch::Absent;
    }
    match sibling_uexp(file_path) {
        Some(sp) => if staged {
            Fetch::Filtered(blob_spec("", sp.as_str()))
        } else {
            Fetch::Disk(sp)
        },
        None => Fetch::Absent,
    }
}

/// Where the two sides of an asset or image are read from.
fn side_fetches(needs_old: bool, needs_new: bool, staged: bool, old_target: &str, file_path: &str) -> (r: (Fetch, Fetch))
    ensures
        r.0@ == old_side_fetch(needs_old, staged, old_target@),
        r.1@ == new_side_fetch(needs_new, staged, file_path@),
{
    let old = if needs_old {
        Fetch::Filtered(changes_old_spec(staged, old_target))
    } else {
        Fetch::Absent
    };
    let new = if !needs_new {
        Fetch::Absent
    } else if staged {
        Fetch::Filtered(blob_spec("", file_path))
    } else {
        Fetch::Disk(owned(file_path))
    };
    (old, new)
}

/// The next step of a working-copy diff of `file_path` (at `old_path` on the
/// old side, when renamed) whose porcelain status on this side is `status`.
pub fn changes_diff_next(
    f: &ChangesFacts,
    file_path: &str,
    old_path: Option<&str>,
    status: FileStatus,
    staged: bool,
    force: bool,
    uasset_enabled: bool,
) -> (s: ChangesStep)
    requires
        links_fit(f@.shas),
        fits_u32(f@.old_bytes),
        fits_u32(f@.new_bytes),
    ensures
        changes_step_ok(
            s,
            changes_next(f@, file_path@, status, staged, force, uasset_enabled),
            file_path@,
            match old_path {
                Some(p) => p@,
                None => file_path@,
            },
            status,
            staged,
            force,
        ),
        s is ResolveGitlinks ==> f.shas is None,
        s is ReadAssets ==> f.assets is None,
        s is ReadImages ==> f.images is None,
        s is ReadOld ==> f.old_bytes is None,
        s is ReadIndex ==> f.new_bytes is None,
        s is StatWorktree ==> f.disk_size is None,
        s is ReadWorktree ==> f.new_bytes is None,
{
    let (needs_old, needs_new) = sides_needed(status);
    let old_target = match old_path {
        Some(p) => p,
        None => file_path,
    };
    if f.is_dir {
        return match &f.shas {
            None => ChangesStep::ResolveGitlinks {
                old_spec: changes_old_spec(staged, old_target),
                new_spec: if staged { Some(blob_spec("", file_path)) } else { None },
            },
            Some((a, b)) => ChangesStep::Show(gitlink_diff(a, b)),
        };
    }
    if uasset_enabled && is_uasset_path(file_path) {
        return match &f.assets {
            None => {
                let (old, new) = side_fetches(needs_old, needs_new, staged, old_target, file_path);
                ChangesStep::ReadAssets { old, new }
            },
            Some((oa, na)) => {
                let os = oa.len() as u64;
                let ns = na.len() as u64;
                match asset_size_gate(os, ns, force) {
                    Some(d) => ChangesStep::Show(d),
                    None => ChangesStep::DeriveAsset {
                        old_uexp: old_uexp(needs_old, staged, old_target),
                        new_uexp: new_uexp(needs_new, staged, file_path),
                        old_size: os,
                        new_size: ns,
                    },
                }
            },
        };
    }
    if is_image_path(file_path) {
        return match &f.images {
            None => {
                let (old, new) = side_fetches(needs_old, needs_new, staged, old_target, file_path);
                ChangesStep::ReadImages { old, new }
            },
            Some((oi, ni)) => ChangesStep::Show(image_diff(file_path, oi.as_slice(), ni.as_slice(), force)),
        };
    }
    let empty: Vec<u8> = Vec::new();
    let old: &[u8] = if needs_old {
        match &f.old_bytes {
            None => {
                return ChangesStep::ReadOld { spec: changes_old_spec(staged, old_target) };
            },
            Some(b) => b.as_slice(),
        }
    } else {
        empty.as_slice()
    };
    if !needs_new {
        return content_or_large_exec(old, empty.as_slice(), 0, force);
    }
    if staged {
        return match &f.new_bytes {
            None => ChangesStep::ReadIndex { spec: blob_spec("", file_path) },
            Some(nb) => content_or_large_exec(old, nb.as_slice(), nb.len() as u64, force),
        };
    }
    match f.disk_size {
        None => ChangesStep::StatWorktree,
        Some(ds) => {
            if over_large_cap(force, ds, old.len() as u64) {
                ChangesStep::Show(FileDiff::TooLarge { old_size: old.len() as u64, new_size: ds })
            } else {
                match &f.new_bytes {
                    None => ChangesStep::ReadWorktree,
                    Some(nb) => content_or_large_exec(old, nb.as_slice(), nb.len() as u64, force),
                }
            }
        },
    }
}

// ---------------------------------------------------------------------------
// Laws
// ---------------------------------------------------------------------------

/// Whatever text a branch comparison shows, its change offsets are UTF-16
/// offsets into exactly the texts it returns: no side holds a carriage return
/// and the changes are `compute_changes` of the two sides.
pub proof fn lemma_branch_text_consistent(
    s: BranchStep,
    f: BranchFactsView,
    old_ref: Seq<char>,
    new_ref: Seq<char>,
    file_path: Seq<char>,
    old_target: Seq<char>,
    force: bool,
    uasset_enabled: bool,
)
    requires
        branch_step_ok(s, branch_next(f, file_path, force, uasset_enabled), f, old_ref, new_ref, file_path, old_target, force),
    ensures
        s matches BranchStep::Show(d) ==> text_consistent(d),
{
    match branch_next(f, file_path, force, uasset_enabled) {
        BranchNext::ShowGitlinks(a, b) => {
            if let BranchStep::Show(d) = s {
                lemma_plain_text_consistent(d, gitlink_text_spec(a), gitlink_text_spec(b), 0, 0);
            }
        },
        BranchNext::ShowContent(ob, nb) => {
            if let BranchStep::Show(d) = s {
                lemma_content_view_consistent(d, ob, nb, size_or_zero(f.old_size), size_or_zero(f.new_size));
            }
        },
        _ => {},
    }
}

/// Whatever text a working-copy diff shows, its change offsets are UTF-16
/// offsets into exactly the texts it returns.
pub proof fn lemma_changes_text_consistent(
    s: ChangesStep,
    f: ChangesFactsView,
    file_path: Seq<char>,
    old_target: Seq<char>,
    status: FileStatus,
    staged: bool,
    force: bool,
    uasset_enabled: bool,
)
    requires
        changes_step_ok(s, changes_next(f, file_path, status, staged, force, uasset_enabled), file_path, old_target, status, staged, force),
    ensures
        s matches ChangesStep::Show(d) ==> text_consistent(d),
{
    match changes_next(f, file_path, status, staged, force, uasset_enabled) {
        ChangesNext::ShowGitlinks(a, b) => {
            if let ChangesStep::Show(d) = s {
                lemma_plain_text_consistent(d, gitlink_text_spec(a), gitlink_text_spec(b), 0, 0);
            }
        },
        ChangesNext::ShowContent(ob, nb, x, y) => {
            if let ChangesStep::Show(d) = s {
                lemma_content_view_consistent(d, ob, nb, x, y);
            }
        },
        _ => {},
    }
}

/// An added file has no old side: a working-copy diff of an added file never
/// reads an old blob, reads its old asset, image and `.uexp` sides as absent
/// (empty), and diffs its content against the empty text.
pub proof fn lemma_added_has_no_old_side(
    s: ChangesStep,
    f: ChangesFactsView,
    file_path: Seq<char>,
    old_target: Seq<char>,
    staged: bool,
    force: bool,
    uasset_enabled: bool,
)
    requires
        changes_step_ok(
            s,
            changes_next(f, file_path, FileStatus::Added, staged, force, uasset_enabled),
            file_path,
            old_target,
            FileStatus::Added,
            staged,
            force,
        ),
    ensures
        !(s is ReadOld),
        s matches ChangesStep::ReadAssets { old, .. } ==> old@ is Absent,
        s matches ChangesStep::ReadImages { old, .. } ==> old@ is Absent,
        s matches ChangesStep::DeriveAsset { old_uexp, .. } ==> old_uexp@ is Absent,
        changes_next(f, file_path, FileStatus::Added, staged, force, uasset_enabled) matches ChangesNext::ShowContent(
            ob,
            _,
            a,
            _,
        ) ==> ob.len() == 0 && a == 0,
        changes_next(f, file_path, FileStatus::Added, staged, force, uasset_enabled) matches ChangesNext::ShowTooLarge(
            a,
            _,
        ) ==> a == 0,
{
}

/// The empty side reads as the empty text.
proof fn lemma_empty_side_text()
    ensures
        valid_utf8(Seq::<u8>::empty()),
        normalized(decode_utf8(Seq::<u8>::empty())) == Seq::<char>::empty(),
{
    assert(decode_utf8(Seq::<u8>::empty()) =~= Seq::<char>::empty());
    assert(normalized(Seq::<char>::empty()) =~= Seq::<char>::empty());
}

/// An added file shows as text with an empty old side.
pub proof fn lemma_added_text_old_side_empty(
    s: ChangesStep,
    f: ChangesFactsView,
    file_path: Seq<char>,
    old_target: Seq<char>,
    staged: bool,
    force: bool,
    uasset_enabled: bool,
)
    requires
        changes_step_ok(
            s,
            changes_next(f, file_path, FileStatus::Added, staged, force, uasset_enabled),
            file_path,
            old_target,
            FileStatus::Added,
            staged,
            force,
        ),
        changes_next(f, file_path, FileStatus::Added, staged, force, uasset_enabled) is ShowContent,
    ensures
        s matches ChangesStep::Show(d) && (d is Text ==> d->Text_old_content@.len() == 0),
{
    lemma_added_has_no_old_side(s, f, file_path, old_target, staged, force, uasset_enabled);
    lemma_empty_side_text();
}

/// A deleted file has no new side: a working-copy diff of a deleted file
/// never reads an index or worktree new side, reads its new asset, image and
/// `.uexp` sides as absent (empty), and shows content as text with an empty
/// new side (or as binary / too large).
pub proof fn lemma_deleted_has_no_new_side(
    s: ChangesStep,
    f: ChangesFactsView,
    file_path: Seq<char>,
    old_target: Seq<char>,
    staged: bool,
    force: bool,
    uasset_enabled: bool,
)
    requires
        changes_step_ok(
            s,
            changes_next(f, file_path, FileStatus::Deleted, staged, force, uasset_enabled),
            file_path,
            old_target,
            FileStatus::Deleted,
            staged,
            force,
        ),
    ensures
        !(s is ReadIndex),
        !(s is StatWorktree),
        !(s is ReadWorktree),
        s matches ChangesStep::ReadAssets { new, .. } ==> new@ is Absent,
        s matches ChangesStep::ReadImages { new, .. } ==> new@ is Absent,
        s matches ChangesStep::DeriveAsset { new_uexp, .. } ==> new_uexp@ is Absent,
        changes_next(f, file_path, FileStatus::Deleted, staged, force, uasset_enabled) matches ChangesNext::ShowContent(
            _,
            nb,
            _,
            b,
        ) ==> nb.len() == 0 && b == 0 && (s matches ChangesStep::Show(d) && (d is Text
            ==> d->Text_new_content@.len() == 0)),
{
    lemma_empty_side_text();
}

} // verus!
