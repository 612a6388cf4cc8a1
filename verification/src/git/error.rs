//! The error type shared by every git operation.

use vstd::prelude::*;

use crate::text::push_str;

verus! {

/// `std::io::Error`, carried through opaquely by the `Io` variant.
#[verifier::external_type_specification]
#[verifier::external_body]
pub struct ExIoError(std::io::Error);

#[derive(Debug)]
pub enum GitError {
    NotARepo(String),
    CommandFailed(String),
    Io(std::io::Error),
    InvalidRef(String),
    Parse(String),
}

/// What a `GitError` says, without the opaque I/O payload.
pub enum GitErrorView {
    NotARepo(Seq<char>),
    CommandFailed(Seq<char>),
    Io,
    InvalidRef(Seq<char>),
    Parse(Seq<char>),
}

impl View for GitError {
    type V = GitErrorView;

    open spec fn view(&self) -> GitErrorView {
        match self {
            GitError::NotARepo(s) => GitErrorView::NotARepo(s@),
            GitError::CommandFailed(s) => GitErrorView::CommandFailed(s@),
            GitError::Io(_) => GitErrorView::Io,
            GitError::InvalidRef(s) => GitErrorView::InvalidRef(s@),
            GitError::Parse(s) => GitErrorView::Parse(s@),
        }
    }
}

/// The message of an I/O error (`io::Error`'s `Display`). Its text depends on
/// the operating system, so nothing is promised of it.
#[verifier::external_body]
fn io_error_text(e: &std::io::Error) -> String {
    format!("{e}")
}

impl GitError {
    /// The user-facing message (what the error's `Display` prints).
    pub fn message(&self) -> (m: String)
        ensures
            match self@ {
                GitErrorView::NotARepo(s) => m@ == "path is not a git repository: "@ + s,
                GitErrorView::CommandFailed(s) => m@ == "git command failed: "@ + s,
                GitErrorView::Io => m@.len() >= "io error: "@.len()
                    && m@.subrange(0, "io error: "@.len() as int) == "io error: "@,
                GitErrorView::InvalidRef(s) => m@ == "invalid ref name: "@ + s,
                GitErrorView::Parse(s) => m@ == "failed to parse git output: "@ + s,
            },
    {
        let mut m = String::new();
        match self {
            GitError::NotARepo(s) => {
                push_str(&mut m, "path is not a git repository: ");
                push_str(&mut m, s.as_str());
            },
            GitError::CommandFailed(s) => {
                push_str(&mut m, "git command failed: ");
                push_str(&mut m, s.as_str());
            },
            GitError::Io(e) => {
                push_str(&mut m, "io error: ");
                let t = io_error_text(e);
                let ghost before = m@;
                push_str(&mut m, t.as_str());
                assert(m@.subrange(0, before.len() as int) =~= before);
            },
            GitError::InvalidRef(s) => {
                push_str(&mut m, "invalid ref name: ");
                push_str(&mut m, s.as_str());
            },
            GitError::Parse(s) => {
                push_str(&mut m, "failed to parse git output: ");
                push_str(&mut m, s.as_str());
            },
        }
        m
    }
}

} // verus!
