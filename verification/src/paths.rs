//! Paths as the platform reads them: the components of a path, the check a
//! repository-relative path must pass before a file is read from disk, and
//! the key under which a watched root is compared.

use vstd::prelude::*;

use crate::git::error::{GitError, GitErrorView};
use crate::text::{chars_of, decimal, decimal_string, owned, push_str};

verus! {

/// One component of a path, as `std::path::Path::components` yields it.
#[derive(Debug, Clone, PartialEq, Eq)]
pub enum PathPart {
    /// A Windows drive or UNC prefix (`C:`, `\\server\share`).
    Prefix(String),
    /// The root directory.
    Root,
    /// `.` (only kept at the start of a path).
    CurDir,
    /// `..`.
    Parent,
    /// A plain name.
    Normal(String),
}

pub enum PathPartView {
    Prefix(Seq<char>),
    Root,
    CurDir,
    Parent,
    Normal(Seq<char>),
}

impl View for PathPart {
    type V = PathPartView;

    open spec fn view(&self) -> PathPartView {
        match self {
            PathPart::Prefix(s) => PathPartView::Prefix(s@),
            PathPart::Root => PathPartView::Root,
            PathPart::CurDir => PathPartView::CurDir,
            PathPart::Parent => PathPartView::Parent,
            PathPart::Normal(s) => PathPartView::Normal(s@),
        }
    }
}

/// The views of a list of components.
pub open spec fn parts_view(v: Seq<PathPart>) -> Seq<PathPartView> {
    v.map_values(|p: PathPart| p@)
}

/// `std::path::Path::new(p).components()`, each component as a `PathPart`.
/// Trusted: std documents that an empty path has no components. Which
/// components a path has depends on the platform's path syntax (`\` is a
/// separator and `C:` a prefix on Windows only), so nothing else is said.
#[verifier::external_body]
fn path_parts(p: &str) -> (r: Vec<PathPart>)
    ensures
        p@.len() == 0 ==> r@.len() == 0,
{
    std::path::Path::new(p).components().map(|c| match c {
        std::path::Component::Prefix(x) => PathPart::Prefix(x.as_os_str().to_string_lossy().into_owned()),
        std::path::Component::RootDir => PathPart::Root,
        std::path::Component::CurDir => PathPart::CurDir,
        std::path::Component::ParentDir => PathPart::Parent,
        std::path::Component::Normal(x) => PathPart::Normal(x.to_string_lossy().into_owned()),
    }).collect()
}

/// `std::path::Path::new(p).is_absolute()`. Trusted: std documents that an
/// absolute path is independent of the current directory; an empty path has
/// no root and no prefix, so it is not absolute. What counts as absolute
/// otherwise depends on the platform, so nothing else is said.
#[verifier::external_body]
fn path_is_absolute(p: &str) -> (b: bool)
    ensures
        p@.len() == 0 ==> !b,
{
    std::path::Path::new(p).is_absolute()
}

// ---------------------------------------------------------------------------
// Reading a repository file from disk
// ---------------------------------------------------------------------------

/// A component that would leave the repository or name another root.
pub open spec fn escaping_part(k: PathPartView) -> bool {
    k is Prefix || k is Root || k is Parent
}

/// The check on a repository-relative path read straight from disk: not
/// empty, not absolute, and no `..`, root or drive component.
pub open spec fn repo_file_spec(path: Seq<char>, absolute: bool, parts: Seq<PathPartView>) -> Result<(), GitErrorView> {
    if path.len() == 0 {
        Err(GitErrorView::CommandFailed("empty file path"@))
    } else if absolute {
        Err(GitErrorView::CommandFailed("absolute path not allowed"@))
    } else if exists|k: int| 0 <= k < parts.len() && escaping_part(#[trigger] parts[k]) {
        Err(GitErrorView::CommandFailed("invalid path component in file path"@))
    } else {
        Ok(())
    }
}

/// The repository-file check, given whether the platform reads `path` as
/// absolute and the components it reads in it.
pub fn repo_file_check(path: &str, absolute: bool, parts: &[PathPart]) -> (r: Result<(), GitError>)
    ensures
        match (r, repo_file_spec(path@, absolute, parts_view(parts@))) {
            (Ok(()), Ok(())) => true,
            (Err(e), Err(x)) => e@ == x,
            _ => false,
        },
{
    if chars_of(path).len() == 0 {
        return Err(GitError::CommandFailed(owned("empty file path")));
    }
    if absolute {
        return Err(GitError::CommandFailed(owned("absolute path not allowed")));
    }
    let ghost pv = parts_view(parts@);
    let mut i: usize = 0;
    while i < parts.len()
        invariant
            i <= parts@.len(),
            pv == parts_view(parts@),
            path@.len() > 0,
            !absolute,
            forall|k: int| 0 <= k < i ==> !escaping_part(#[trigger] pv[k]),
        decreases parts@.len() - i,
    {
        let bad = match &parts[i] {
            PathPart::Prefix(_) => true,
            PathPart::Root => true,
            PathPart::Parent => true,
            _ => false,
        };
        assert(pv[i as int] == parts@[i as int]@);
        assert(bad <==> escaping_part(pv[i as int]));
        if bad {
            assert(0 <= i < pv.len() && escaping_part(pv[i as int]));
            return Err(GitError::CommandFailed(owned("invalid path component in file path")));
        }
        i += 1;
    }
    Ok(())
}

/// The repository-file check on `path` as this platform reads it. An empty
/// path is refused; otherwise the outcome is `repo_file_check` on what the
/// platform's path parser reports.
pub fn check_repo_file(path: &str) -> (r: Result<(), GitError>)
    ensures
        path@.len() == 0 ==> (r matches Err(e) && e@ == GitErrorView::CommandFailed("empty file path"@)),
        (r matches Err(e) && e@ == GitErrorView::CommandFailed("empty file path"@)) ==> path@.len() == 0,
        r matches Err(e) ==> (e@ == GitErrorView::CommandFailed("empty file path"@) || e@
            == GitErrorView::CommandFailed("absolute path not allowed"@) || e@
            == GitErrorView::CommandFailed("invalid path component in file path"@)),
{
    let absolute = path_is_absolute(path);
    let parts = path_parts(path);
    let r = repo_file_check(path, absolute, parts.as_slice());
    proof {
        reveal_strlit("empty file path");
        reveal_strlit("absolute path not allowed");
        reveal_strlit("invalid path component in file path");
        assert("empty file path"@.len() != "absolute path not allowed"@.len());
        assert("empty file path"@.len() != "invalid path component in file path"@.len());
        if path@.len() > 0 {
            match repo_file_spec(path@, absolute, parts_view(parts@)) {
                Err(x) => assert(x != GitErrorView::CommandFailed("empty file path"@)),
                Ok(()) => {},
            }
        }
    }
    r
}

/// The largest file the blame view reads from disk.
pub const BLAME_READ_CAP: u64 = 2_000_000;

/// A file of `len` bytes may be read for the blame view unless it is over
/// `BLAME_READ_CAP`.
pub fn blame_read_gate(len: u64) -> (r: Result<(), GitError>)
    ensures
        len <= BLAME_READ_CAP ==> r is Ok,
        len > BLAME_READ_CAP ==> (r matches Err(e) && e@ == GitErrorView::CommandFailed(
            "file too large for blame view ("@ + decimal(len as nat) + " bytes)"@,
        )),
{
    if len <= BLAME_READ_CAP {
        return Ok(());
    }
    let mut m = owned("file too large for blame view (");
    let n = decimal_string(len);
    push_str(&mut m, n.as_str());
    push_str(&mut m, " bytes)");
    Err(GitError::CommandFailed(m))
}

// ---------------------------------------------------------------------------
// Watched roots
// ---------------------------------------------------------------------------

/// One component as a key piece: a tag letter, then its text.
pub open spec fn part_key(k: PathPartView) -> Seq<char> {
    match k {
        PathPartView::Prefix(s) => "p"@ + s,
        PathPartView::Root => "r"@,
        PathPartView::CurDir => "c"@,
        PathPartView::Parent => "u"@,
        PathPartView::Normal(s) => "n"@ + s,
    }
}

/// The key of a path: its components' key pieces, each followed by a NUL.
/// Paths with the same components (`r` and `r/`, `a//b` and `a/b`) get the
/// same key, so roots compare as the platform compares paths.
pub open spec fn root_key_spec(parts: Seq<PathPartView>) -> Seq<char>
    decreases parts.len(),
{
    if parts.len() == 0 {
        seq![]
    } else {
        root_key_spec(parts.drop_last()) + part_key(parts.last()) + seq!['\0']
    }
}

/// The key of a path from its components.
pub fn root_key(parts: &[PathPart]) -> (s: String)
    ensures
        s@ == root_key_spec(parts_view(parts@)),
{
    let ghost pv = parts_view(parts@);
    let mut s = String::new();
    let mut i: usize = 0;
    while i < parts.len()
        invariant
            i <= parts@.len(),
            pv == parts_view(parts@),
            s@ == root_key_spec(pv.subrange(0, i as int)),
        decreases parts@.len() - i,
    {
        assert(pv.subrange(0, i + 1).drop_last() =~= pv.subrange(0, i as int));
        assert(pv.subrange(0, i + 1).last() == parts@[i as int]@);
        match &parts[i] {
            PathPart::Prefix(x) => {
                push_str(&mut s, "p");
                push_str(&mut s, x.as_str());
            },
            PathPart::Root => push_str(&mut s, "r"),
            PathPart::CurDir => push_str(&mut s, "c"),
            PathPart::Parent => push_str(&mut s, "u"),
            PathPart::Normal(x) => {
                push_str(&mut s, "n");
                push_str(&mut s, x.as_str());
            },
        }
        push_str(&mut s, "\0");
        proof {
            reveal_strlit("p");
            reveal_strlit("r");
            reveal_strlit("c");
            reveal_strlit("u");
            reveal_strlit("n");
            reveal_strlit("\0");
        }
        i += 1;
    }
    assert(pv.subrange(0, pv.len() as int) =~= pv);
    s
}

/// The keys of watched roots, in order: each path's components as this
/// platform reads them, keyed by `root_key`.
pub fn root_keys(paths: &[String]) -> (keys: Vec<String>)
    ensures
        keys@.len() == paths@.len(),
{
    let mut keys: Vec<String> = Vec::new();
    let mut i: usize = 0;
    while i < paths.len()
        invariant
            i <= paths@.len(),
            keys@.len() == i,
        decreases paths@.len() - i,
    {
        let parts = path_parts(paths[i].as_str());
        keys.push(root_key(parts.as_slice()));
        i += 1;
    }
    keys
}

} // verus!
