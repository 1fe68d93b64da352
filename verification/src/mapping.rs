//! One correspondence entry between a generated position and, optionally, an
//! original position with its source and name.

use vstd::prelude::*;
use crate::source_map::Position;

verus! {

/// A mapping entry.  Either it carries no original position, source or name
/// (an "unmapped" generated position), or it carries an original position
/// and a source, with the name optional.
#[derive(Debug)]
pub struct Mapping {
    pub generated: Position,
    pub original: Option<Position>,
    pub source: Option<String>,
    pub name: Option<String>,
    pub last_generated_column: Option<i32>,
}

/// The invariant of a mapping the generator accepts: valid bounds on each
/// position, and source present exactly when an original position is.
pub open spec fn mapping_valid(m: Mapping) -> bool {
    &&& m.generated.line > 0
    &&& m.generated.column >= 0
    &&& match m.original {
        Option::None => m.source is None && m.name is None,
        Option::Some(o) => o.line > 0 && o.column >= 0 && m.source is Some,
    }
}

impl Clone for Mapping {
    /// A clone is equal to the original entry.
    fn clone(&self) -> (r: Self)
        ensures
            r == *self,
    {
        Mapping {
            generated: self.generated,
            original: self.original,
            source: match &self.source {
                Some(s) => Some(s.clone()),
                None => None,
            },
            name: match &self.name {
                Some(s) => Some(s.clone()),
                None => None,
            },
            last_generated_column: self.last_generated_column,
        }
    }
}

} // verus!
