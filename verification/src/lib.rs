//! Sentence-coverage analysis for annotated documents.
//!
//! The crate reconciles annotated text segments against a source document
//! and reports how many of the document's sentences fall inside at least one
//! annotated segment.  A sentence is a maximal run of bytes closed by an
//! ASCII `.` terminator; a trailing run with no terminator does not count.
//! All text is handled at byte granularity.

use vstd::prelude::*;

pub mod analyzer;
pub mod model;
pub mod page;
pub mod parse;

verus! {

/// The ways an annotation record can fail to apply to a document.
///
/// Failures of a single record are recoverable by design: the caller may
/// skip the record and continue with the rest of the batch.
#[derive(Clone, Copy, Debug, PartialEq, Eq, Structural)]
pub enum CoverageError {
    /// A field does not follow its expected format, or a numeric field does
    /// not fit in `usize`.
    MalformedRecord,
    /// The start and end positions of a record, or the record and the page
    /// it is applied to, name different page numbers.
    PositionInconsistent,
    /// A record's character offsets fall outside the page they are applied
    /// to, or its end offset precedes its start offset.
    OffsetOutOfRange,
}

} // verus!
