//! Three-way comparators: a trait that ties an executable comparison to its
//! mathematical meaning, so that one generic binary search and one generic
//! sort serve every ordering in the crate.

use vstd::prelude::*;

verus! {

/// A three-way comparison between a value of type `A` and a value of type
/// `B`.  The executable `compare` returns a negative, zero or positive
/// number exactly as the specification `cmp_spec` does.
pub trait Comparator<A, B> {
    /// The mathematical comparison: negative, zero or positive.
    spec fn cmp_spec(&self, a: &A, b: &B) -> int;

    /// The executable comparison, with the same sign as `cmp_spec`.
    fn compare(&self, a: &A, b: &B) -> (r: i32)
        ensures
            r > 0 <==> self.cmp_spec(a, b) > 0,
            r < 0 <==> self.cmp_spec(a, b) < 0,
    ;
}

/// The numeric order on 32-bit integers.
pub struct NumberComparator;

impl Comparator<i32, i32> for NumberComparator {
    open spec fn cmp_spec(&self, a: &i32, b: &i32) -> int {
        *a - *b
    }

    fn compare(&self, a: &i32, b: &i32) -> (r: i32)
        ensures
            r > 0 <==> self.cmp_spec(a, b) > 0,
            r < 0 <==> self.cmp_spec(a, b) < 0,
    {
        if *a < *b {
            -1
        } else if *a > *b {
            1
        } else {
            0
        }
    }
}

} // verus!
