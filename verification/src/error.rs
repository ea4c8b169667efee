//! The errors of a planning run.

use vstd::prelude::*;
use vstd::string::*;

verus! {

/// Why a run was aborted before any report line was produced.
#[derive(Debug, Clone, PartialEq, Eq)]
pub enum RebuildError {
    /// A configured repository could not be enumerated while the index was built.
    CorpusUnavailable { repository: String },
    /// A requested seed is in no configured repository.
    PackageNotFound { name: String },
}

/// The mathematical value of a `RebuildError`.
pub enum RebuildErrorView {
    CorpusUnavailable { repository: Seq<char> },
    PackageNotFound { name: Seq<char> },
}

impl View for RebuildError {
    type V = RebuildErrorView;

    open spec fn view(&self) -> RebuildErrorView {
        match *self {
            RebuildError::CorpusUnavailable { repository } => RebuildErrorView::CorpusUnavailable {
                repository: repository@,
            },
            RebuildError::PackageNotFound { name } => RebuildErrorView::PackageNotFound {
                name: name@,
            },
        }
    }
}

/// The text of an error: the failing operation, then the repository or the
/// package that it failed on.
pub open spec fn error_text(e: RebuildErrorView) -> Seq<char> {
    match e {
        RebuildErrorView::CorpusUnavailable { repository } => {
            "unable to get packages from sync db "@ + repository
        },
        RebuildErrorView::PackageNotFound { name } => "could not find package "@ + name,
    }
}

impl RebuildError {
    /// Renders the error for the user.
    pub fn message(&self) -> (text: String)
        ensures
            text@ == error_text(self@),
    {
        match self {
            RebuildError::CorpusUnavailable { repository } => {
                String::from_str("unable to get packages from sync db ").concat(
                    repository.as_str(),
                )
            },
            RebuildError::PackageNotFound { name } => {
                String::from_str("could not find package ").concat(name.as_str())
            },
        }
    }
}

} // verus!
