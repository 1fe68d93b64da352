//! Bias-aware nearest-match binary search over a sorted sequence.  When the
//! needle is absent, `GreatestLowerBound` settles on the closest element
//! below it and `LeastUpperBound` on the closest element above it; either
//! way the result is walked back to the smallest index among elements that
//! compare equal.

use vstd::prelude::*;
use crate::compare::Comparator;

verus! {

/// The tie-break policy of a nearest-match search.
#[derive(Clone, Copy, Debug, PartialEq, Eq, Structural)]
pub enum Bias {
    /// On no exact match, take the closest element below the needle.
    GreatestLowerBound,
    /// On no exact match, take the closest element above the needle.
    LeastUpperBound,
}

/// The bias to use when none is given: the greatest lower bound.
pub open spec fn bias_or_default(b: Option<Bias>) -> Bias {
    if b is Some {
        b->Some_0
    } else {
        Bias::GreatestLowerBound
    }
}

/// The sequence is sorted in the order the comparator induces.
pub open spec fn sorted_by<T2, C2: Comparator<T2, T2>>(h: Seq<T2>, c2: &C2) -> bool {
    forall|i: int, j: int|
        0 <= i <= j < h.len() ==> #[trigger] c2.cmp_spec(&h[i], &h[j]) <= 0
}

/// Every element of the sequence compares above the needle.
pub open spec fn all_above<T1, T2, C1: Comparator<T1, T2>>(n: &T1, h: Seq<T2>, c1: &C1) -> bool {
    forall|i: int| 0 <= i < h.len() ==> #[trigger] c1.cmp_spec(n, &h[i]) < 0
}

/// Every element of the sequence compares below the needle.
pub open spec fn all_below<T1, T2, C1: Comparator<T1, T2>>(n: &T1, h: Seq<T2>, c1: &C1) -> bool {
    forall|i: int| 0 <= i < h.len() ==> #[trigger] c1.cmp_spec(n, &h[i]) > 0
}

/// Some element of the sequence compares equal to the needle.
pub open spec fn has_exact<T1, T2, C1: Comparator<T1, T2>>(n: &T1, h: Seq<T2>, c1: &C1) -> bool {
    exists|i: int| 0 <= i < h.len() && #[trigger] c1.cmp_spec(n, &h[i]) == 0
}

/// The needle comparator agrees with the element order: elements below the
/// needle form a prefix, elements above it a suffix, and elements that the
/// element comparator ties sit on the same side of the needle.
pub open spec fn needle_compatible<T1, T2, C1: Comparator<T1, T2>, C2: Comparator<T2, T2>>(
    n: &T1,
    h: Seq<T2>,
    c1: &C1,
    c2: &C2,
) -> bool {
    &&& forall|i: int, j: int|
        #![trigger c1.cmp_spec(n, &h[i]), c1.cmp_spec(n, &h[j])]
        0 <= i <= j < h.len() ==> {
            &&& (c1.cmp_spec(n, &h[j]) > 0 ==> c1.cmp_spec(n, &h[i]) > 0)
            &&& (c1.cmp_spec(n, &h[i]) < 0 ==> c1.cmp_spec(n, &h[j]) < 0)
        }
    &&& forall|i: int, j: int|
        0 <= i < h.len() && 0 <= j < h.len() && #[trigger] c2.cmp_spec(&h[i], &h[j]) == 0 ==> {
            &&& (c1.cmp_spec(n, &h[i]) > 0 <==> c1.cmp_spec(n, &h[j]) > 0)
            &&& (c1.cmp_spec(n, &h[i]) < 0 <==> c1.cmp_spec(n, &h[j]) < 0)
        }
}

/// Binary partition search.  `low` and indices below it hold elements below
/// the needle; `high` and indices above it hold elements above it.  Returns
/// an exact match, or the boundary the bias asks for, or -1 when that
/// boundary lies outside the sequence.
fn recursive_search<T1, T2, C1: Comparator<T1, T2>, C2: Comparator<T2, T2>>(
    low: i32,
    high: i32,
    needle: &T1,
    hay_stack: &Vec<T2>,
    compare: &C1,
    elem_compare: &C2,
    bias: Bias,
) -> (r: i32)
    requires
        hay_stack@.len() <= 0x7fff_0000,
        -1 <= low,
        low + 2 <= high,
        high <= hay_stack@.len(),
        needle_compatible(needle, hay_stack@, compare, elem_compare),
        low >= 0 ==> compare.cmp_spec(needle, &hay_stack@[low as int]) > 0,
        high < hay_stack@.len() ==> compare.cmp_spec(needle, &hay_stack@[high as int]) < 0,
    ensures
        -1 <= r < hay_stack@.len(),
        r == -1 ==> {
            ||| (bias == Bias::GreatestLowerBound && compare.cmp_spec(needle, &hay_stack@[0]) < 0)
            ||| (bias == Bias::LeastUpperBound && compare.cmp_spec(
                needle,
                &hay_stack@[hay_stack@.len() - 1],
            ) > 0)
        },
        r >= 0 ==> {
            ||| compare.cmp_spec(needle, &hay_stack@[r as int]) == 0
            ||| (bias == Bias::GreatestLowerBound && compare.cmp_spec(
                needle,
                &hay_stack@[r as int],
            ) > 0 && (r + 1 == hay_stack@.len() || compare.cmp_spec(
                needle,
                &hay_stack@[r as int + 1],
            ) < 0))
            ||| (bias == Bias::LeastUpperBound && compare.cmp_spec(needle, &hay_stack@[r as int])
                < 0 && (r == 0 || compare.cmp_spec(needle, &hay_stack@[r as int - 1]) > 0))
        },
    decreases high - low,
{
    let mid: i32 = (high - low) / 2 + low;
    let cmp = compare.compare(needle, &hay_stack[mid as usize]);

    if cmp == 0 {
        // Found the element we are looking for.
        mid
    } else if cmp > 0 {
        // The needle is above the probed element.
        if high - mid > 1 {
            // The element is in the upper half.
            recursive_search(mid, high, needle, hay_stack, compare, elem_compare, bias)
        } else if bias == Bias::LeastUpperBound {
            if high < hay_stack.len() as i32 {
                high
            } else {
                -1
            }
        } else {
            mid
        }
    } else {
        // The needle is below the probed element.
        if mid - low > 1 {
            recursive_search(low, mid, needle, hay_stack, compare, elem_compare, bias)
        } else if bias == Bias::LeastUpperBound {
            mid
        } else if low < 0 {
            -1
        } else {
            low
        }
    }
}

/// Nearest-match search over `hay_stack`, which must be sorted under
/// `compare2`; `compare1` compares the needle against elements consistently
/// with that order.  The default bias is `GreatestLowerBound`.
///
/// Returns -1 when no element lies on the side the bias asks for; otherwise
/// the index of an exact match when one exists, or of the nearest element on
/// the biased side, always walked back to the smallest index among
/// neighbouring elements that `compare2` ties.
pub fn search<T1, T2, C1: Comparator<T1, T2>, C2: Comparator<T2, T2>>(
    needle: T1,
    hay_stack: &Vec<T2>,
    compare1: C1,
    compare2: C2,
    bias: Option<Bias>,
) -> (r: i32)
    requires
        hay_stack@.len() <= 0x7fff_0000,
        sorted_by(hay_stack@, &compare2),
        needle_compatible(&needle, hay_stack@, &compare1, &compare2),
    ensures
        ({
            let b = if bias is Some {
                bias->0
            } else {
                Bias::GreatestLowerBound
            };
            let h = hay_stack@;
            &&& -1 <= r < h.len()
            &&& h.len() == 0 ==> r == -1
            &&& r == -1 ==> (b == Bias::GreatestLowerBound ==> all_above(&needle, h, &compare1))
            &&& r == -1 ==> (b == Bias::LeastUpperBound ==> all_below(&needle, h, &compare1))
            &&& r >= 0 ==> {
                &&& (b == Bias::GreatestLowerBound ==> compare1.cmp_spec(&needle, &h[r as int])
                    >= 0)
                &&& (b == Bias::LeastUpperBound ==> compare1.cmp_spec(&needle, &h[r as int]) <= 0)
                &&& (r == 0 || compare2.cmp_spec(&h[r as int], &h[r as int - 1]) != 0)
                &&& (has_exact(&needle, h, &compare1) ==> compare1.cmp_spec(
                    &needle,
                    &h[r as int],
                ) == 0)
                &&& exists|m: int|
                    #![trigger compare1.cmp_spec(&needle, &h[m])]
                    {
                        &&& r <= m < h.len()
                        &&& (forall|k: int|
                            r < k <= m ==> #[trigger] compare2.cmp_spec(&h[k], &h[k - 1]) == 0)
                        &&& {
                            ||| compare1.cmp_spec(&needle, &h[m]) == 0
                            ||| (b == Bias::GreatestLowerBound && compare1.cmp_spec(&needle, &h[m])
                                > 0 && (m + 1 == h.len() || compare1.cmp_spec(&needle, &h[m + 1])
                                < 0))
                            ||| (b == Bias::LeastUpperBound && compare1.cmp_spec(&needle, &h[m])
                                < 0 && (m == 0 || compare1.cmp_spec(&needle, &h[m - 1]) > 0))
                        }
                    }
            }
        }),
{
    let ghost h = hay_stack@;
    if hay_stack.len() == 0 {
        return -1;
    }
    let b = match bias {
        Some(b) => b,
        None => Bias::GreatestLowerBound,
    };

    let found = recursive_search(
        -1,
        hay_stack.len() as i32,
        &needle,
        hay_stack,
        &compare1,
        &compare2,
        b,
    );
    if found < 0 {
        proof {
            if b == Bias::GreatestLowerBound {
                assert forall|i: int| 0 <= i < h.len() implies #[trigger] compare1.cmp_spec(
                    &needle,
                    &h[i],
                ) < 0 by {
                    assert(compare1.cmp_spec(&needle, &h[0]) < 0);
                }
            } else {
                assert forall|i: int| 0 <= i < h.len() implies #[trigger] compare1.cmp_spec(
                    &needle,
                    &h[i],
                ) > 0 by {
                    assert(compare1.cmp_spec(&needle, &h[h.len() - 1]) > 0);
                }
            }
        }
        return -1;
    }

    // The found index may sit inside a run of elements that compare equal:
    // return the smallest index of that run.
    let ghost m0 = found as int;
    let mut index = found;
    loop
        invariant_except_break
            0 <= index <= m0 < h.len(),
            h == hay_stack@,
            needle_compatible(&needle, h, &compare1, &compare2),
            forall|k: int| index < k <= m0 ==> #[trigger] compare2.cmp_spec(&h[k], &h[k - 1]) == 0,
            compare1.cmp_spec(&needle, &h[index as int]) > 0 <==> compare1.cmp_spec(
                &needle,
                &h[m0],
            ) > 0,
            compare1.cmp_spec(&needle, &h[index as int]) < 0 <==> compare1.cmp_spec(
                &needle,
                &h[m0],
            ) < 0,
        ensures
            0 <= index <= m0 < h.len(),
            forall|k: int| index < k <= m0 ==> #[trigger] compare2.cmp_spec(&h[k], &h[k - 1]) == 0,
            compare1.cmp_spec(&needle, &h[index as int]) > 0 <==> compare1.cmp_spec(
                &needle,
                &h[m0],
            ) > 0,
            compare1.cmp_spec(&needle, &h[index as int]) < 0 <==> compare1.cmp_spec(
                &needle,
                &h[m0],
            ) < 0,
            index == 0 || compare2.cmp_spec(&h[index as int], &h[index as int - 1]) != 0,
        decreases index,
    {
        if index == 0 {
            break ;
        }
        let c = compare2.compare(&hay_stack[index as usize], &hay_stack[(index - 1) as usize]);
        if c != 0 {
            break ;
        }
        index = index - 1;
    }

    proof {
        if has_exact(&needle, h, &compare1) {
            let i = choose|i: int| 0 <= i < h.len() && #[trigger] compare1.cmp_spec(
                &needle,
                &h[i],
            ) == 0;
            // The search cannot have stopped strictly beside the needle when
            // an exact match exists: the boundary signs exclude every index.
            assert(compare1.cmp_spec(&needle, &h[m0]) == 0);
        }
    }
    index
}

} // verus!
