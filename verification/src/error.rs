//! What ends a run.

use vstd::prelude::*;
use vstd::string::*;

verus! {

/// A fatal condition. None is retried, and each ends the whole run: there
/// is no partial success.
#[derive(Clone, Debug, PartialEq, Eq)]
pub enum PipelineError {
    /// The popularity list or the modifications could not be read.
    SourceFetch { detail: String },
    /// The registry knows no version of the library that is not a
    /// pre-release.
    NoViableVersion { name: String },
    /// The registry could not be asked, the requirements could not be
    /// resolved, or a package could not be fetched.
    CandidateResolution { detail: String },
    /// A resolved package has no library target, so that no identifier can
    /// be given to it.
    MissingLibraryTarget { name: String },
    /// An artifact could not be written.
    OutputWrite { detail: String },
}

/// What a [`PipelineError`] stands for.
pub enum PipelineErrorView {
    SourceFetch { detail: Seq<char> },
    NoViableVersion { name: Seq<char> },
    CandidateResolution { detail: Seq<char> },
    MissingLibraryTarget { name: Seq<char> },
    OutputWrite { detail: Seq<char> },
}

impl DeepView for PipelineError {
    type V = PipelineErrorView;

    open spec fn deep_view(&self) -> PipelineErrorView {
        match self {
            PipelineError::SourceFetch { detail } => PipelineErrorView::SourceFetch {
                detail: detail@,
            },
            PipelineError::NoViableVersion { name } => PipelineErrorView::NoViableVersion {
                name: name@,
            },
            PipelineError::CandidateResolution {
                detail,
            } => PipelineErrorView::CandidateResolution { detail: detail@ },
            PipelineError::MissingLibraryTarget {
                name,
            } => PipelineErrorView::MissingLibraryTarget { name: name@ },
            PipelineError::OutputWrite { detail } => PipelineErrorView::OutputWrite {
                detail: detail@,
            },
        }
    }
}

/// The message of an error: what went wrong, and on which library where the
/// error is met on one.
pub open spec fn message_of(e: PipelineErrorView) -> Seq<char> {
    match e {
        PipelineErrorView::SourceFetch { detail } => detail,
        PipelineErrorView::NoViableVersion { name } => {
            "Registry has no viable versions of "@ + name
        },
        PipelineErrorView::CandidateResolution { detail } => detail,
        PipelineErrorView::MissingLibraryTarget { name } => name + " did not have a library"@,
        PipelineErrorView::OutputWrite { detail } => detail,
    }
}

impl PipelineError {
    /// The message that the run ends with.
    pub fn message(&self) -> (r: String)
        ensures
            r@ == message_of(self.deep_view()),
    {
        match self {
            PipelineError::NoViableVersion { name } => {
                let mut out = String::from_str("Registry has no viable versions of ");
                out.append(name.as_str());
                out
            },
            PipelineError::MissingLibraryTarget { name } => {
                let mut out = name.clone();
                out.append(" did not have a library");
                out
            },
            PipelineError::SourceFetch { detail } => detail.clone(),
            PipelineError::CandidateResolution { detail } => detail.clone(),
            PipelineError::OutputWrite { detail } => detail.clone(),
        }
    }

    /// The status that the process ends with: the same for every error, and
    /// never that of success.
    pub fn exit_status(&self) -> (r: i32)
        ensures
            r == 1,
    {
        1
    }
}

} // verus!
