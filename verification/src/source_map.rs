//! The source map document model: positions, the document itself, and the
//! sections of an indexed document.

use vstd::prelude::*;

verus! {

/// A line/column pair.  The public query API uses 1-based lines and 0-based
/// columns; the encoded stream and the mapping index use 0-based lines.
#[derive(Debug, Clone, Copy, PartialEq, Eq, Structural)]
pub struct Position {
    pub line: i32,
    pub column: i32,
}

/// A source map document.  Exactly one of the flat form (`mappings`,
/// `sources`, `names`) or the indexed form (`sections`) drives consumer
/// construction; a document with sections ignores the flat fields.
pub struct SourceMapJson {
    pub version: i32,
    pub sources: Vec<String>,
    pub names: Vec<String>,
    pub mappings: String,
    pub file: Option<String>,
    pub source_root: Option<String>,
    pub sources_content: Option<Vec<String>>,
    pub sections: Option<Vec<Section>>,
}

/// One section of an indexed document: a sub-map placed at a 0-based
/// generated offset.  A `url` entry is unsupported and fails construction.
pub struct Section {
    pub offset: Position,
    pub map: Box<SourceMapJson>,
    pub url: Option<String>,
}

} // verus!
