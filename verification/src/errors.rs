//! Error taxonomy: document-shape errors are fatal when an indexed consumer
//! is constructed, decode errors surface at the first query that needs
//! decoded mappings, invalid generator input is fatal at `add_mapping` time,
//! and a missing source fails a content lookup only on request.

use vstd::prelude::*;

verus! {

/// A malformed indexed document: rejected when the consumer is constructed,
/// before any query can run.
#[derive(Clone, Copy, Debug, PartialEq, Eq, Structural)]
pub enum DocumentError {
    /// The document's `version` field is not the supported version 3.
    UnsupportedVersion,
    /// The document has no `sections` field to compose.
    SectionsMissing,
    /// A section carries a `url` field, which is unsupported (no remote
    /// fetch).
    SectionUrlPresent,
    /// Section offsets are not in non-decreasing order (by line, then
    /// column).
    UnorderedSectionOffsets,
}

/// A malformed mapping stream: surfaces at the first query that decodes it.
#[derive(Clone, Copy, Debug, PartialEq, Eq, Structural)]
pub enum DecodeError {
    /// A VLQ with a character outside the 64-symbol alphabet, a truncated
    /// VLQ, or a VLQ value overflowing the integer range.
    InvalidVlq,
    /// A mapping group with a field count other than 1, 4 or 5.
    InvalidFieldCount,
    /// A line, column or index that leaves the representable range: negative,
    /// or too large to survive the 1-based translation at the query boundary.
    PositionOutOfRange,
}

/// A mapping handed to the generator that violates the mapping invariant.
#[derive(Clone, Copy, Debug, PartialEq, Eq, Structural)]
pub enum MappingError {
    InvalidMapping,
}

/// A source name that no entry of the consumer's source table resolves to.
#[derive(Clone, Copy, Debug, PartialEq, Eq, Structural)]
pub enum SourceError {
    SourceNotFound,
}

} // verus!
