//! Errors of vault operations.
use vstd::prelude::*;

verus! {

/// What went wrong in a vault operation.
#[derive(Debug)]
pub enum VaultError {
    /// There is no note at this path.
    NoteNotFound(String),
    /// There is no directory at this path.
    DirectoryNotFound(String),
    /// Something is already at this path.
    AlreadyExists(String),
    /// The path leads out of the vault.
    OutsideVault(String),
    /// The path cannot name a file of the vault.
    InvalidPath(String),
    /// The heading, block or front matter that a patch names does not exist.
    PatchTargetNotFound { path: String, target_type: String, target: String },
    /// The front matter is not a YAML mapping.
    FrontmatterParse { path: String, message: String },
    /// The pattern is not a regular expression.
    InvalidRegex { pattern: String, message: String },
    /// The disk could not be read or written.
    Io(String),
    /// Embedding vectors could not be had or do not fit.
    Embedding(String),
    /// The files of the vault could not be watched.
    Watcher(String),
    /// Anything else.
    Other(String),
}

/// The mathematical form of a [`VaultError`].
pub enum ErrorView {
    NoteNotFound(Seq<char>),
    DirectoryNotFound(Seq<char>),
    AlreadyExists(Seq<char>),
    OutsideVault(Seq<char>),
    InvalidPath(Seq<char>),
    PatchTargetNotFound { path: Seq<char>, target_type: Seq<char>, target: Seq<char> },
    FrontmatterParse { path: Seq<char>, message: Seq<char> },
    InvalidRegex { pattern: Seq<char>, message: Seq<char> },
    Io(Seq<char>),
    Embedding(Seq<char>),
    Watcher(Seq<char>),
    Other(Seq<char>),
}

impl View for VaultError {
    type V = ErrorView;

    open spec fn view(&self) -> ErrorView {
        match *self {
            VaultError::NoteNotFound(p) => ErrorView::NoteNotFound(p@),
            VaultError::DirectoryNotFound(p) => ErrorView::DirectoryNotFound(p@),
            VaultError::AlreadyExists(p) => ErrorView::AlreadyExists(p@),
            VaultError::OutsideVault(p) => ErrorView::OutsideVault(p@),
            VaultError::InvalidPath(p) => ErrorView::InvalidPath(p@),
            VaultError::PatchTargetNotFound {
                path,
                target_type,
                target,
            } => ErrorView::PatchTargetNotFound {
                path: path@,
                target_type: target_type@,
                target: target@,
            },
            VaultError::FrontmatterParse { path, message } => ErrorView::FrontmatterParse {
                path: path@,
                message: message@,
            },
            VaultError::InvalidRegex { pattern, message } => ErrorView::InvalidRegex {
                pattern: pattern@,
                message: message@,
            },
            VaultError::Io(p) => ErrorView::Io(p@),
            VaultError::Embedding(p) => ErrorView::Embedding(p@),
            VaultError::Watcher(p) => ErrorView::Watcher(p@),
            VaultError::Other(p) => ErrorView::Other(p@),
        }
    }
}

/// The mathematical form of a result that is a string.
pub open spec fn text_result(r: Result<String, VaultError>) -> Result<Seq<char>, ErrorView> {
    match r {
        Ok(s) => Ok(s@),
        Err(e) => Err(e@),
    }
}

} // verus!
