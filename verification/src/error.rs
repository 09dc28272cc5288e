//! The error taxonomy of the exploration. Every error is fatal to the whole
//! exploration; the first one encountered is surfaced with its source context
//! (package name, offending value). `detail` fields carry diagnostic text
//! produced outside the library and are not part of any contract.

use vstd::prelude::*;

verus! {

/// Ghost image of an [`ExploreError`]: the variant and its context fields, without
/// the free-form diagnostic text.
pub enum ErrorView {
    Network,
    HttpStatus { status: u16 },
    Parse { package: Seq<char>, line: Seq<char> },
    InvalidSemver { package: Seq<char>, vers: Seq<char> },
    InvalidVersionRequirement { package: Seq<char>, dep: Seq<char>, req: Seq<char> },
    Channel,
}

/// An exploration-fatal failure.
#[derive(Debug, Clone)]
pub enum ExploreError {
    /// Connection or timeout failure while fetching package metadata.
    Network { detail: String },
    /// A registry response with a non-success HTTP status.
    HttpStatus { status: u16, detail: String },
    /// A malformed metadata line in a fetched registry response.
    Parse { package: String, line: String, detail: String },
    /// An unparsable version string in a fetched record.
    InvalidSemver { package: String, vers: String, detail: String },
    /// An unparsable range string, from seed input (`package` empty) or from a
    /// dependency edge (`package` is the declaring record, `dep` the edge).
    InvalidVersionRequirement { package: String, dep: String, req: String, detail: String },
    /// A fetch worker terminated without delivering a result.
    Channel { detail: String },
}

impl View for ExploreError {
    type V = ErrorView;

    open spec fn view(&self) -> ErrorView {
        match self {
            ExploreError::Network { .. } => ErrorView::Network,
            ExploreError::HttpStatus { status, .. } => ErrorView::HttpStatus { status: *status },
            ExploreError::Parse { package, line, .. } => ErrorView::Parse {
                package: package@,
                line: line@,
            },
            ExploreError::InvalidSemver { package, vers, .. } => ErrorView::InvalidSemver {
                package: package@,
                vers: vers@,
            },
            ExploreError::InvalidVersionRequirement { package, dep, req, .. } => {
                ErrorView::InvalidVersionRequirement { package: package@, dep: dep@, req: req@ }
            },
            ExploreError::Channel { .. } => ErrorView::Channel,
        }
    }
}

/// Whether an error is one of the two that dependency derivation itself can
/// produce; fetch-side errors are made by the caller and only pass through.
pub open spec fn is_derivation_error(e: ErrorView) -> bool {
    e is InvalidSemver || e is InvalidVersionRequirement
}

} // verus!
