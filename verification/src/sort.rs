//! A stable insertion sort parameterized by a three-way comparator.

use vstd::prelude::*;
use crate::binary_search::sorted_by;
use crate::compare::Comparator;

verus! {

/// The comparator flips its sign with its arguments, over the elements of
/// the sequence.
pub open spec fn cmp_antisym_on<T, C: Comparator<T, T>>(s: Seq<T>, c: &C) -> bool {
    forall|x: T, y: T|
        s.contains(x) && s.contains(y) ==> #[trigger] c.cmp_spec(&x, &y) == -c.cmp_spec(&y, &x)
}

/// The comparator is transitive over the elements of the sequence.
pub open spec fn cmp_trans_on<T, C: Comparator<T, T>>(s: Seq<T>, c: &C) -> bool {
    forall|x: T, y: T, z: T|
        #![trigger c.cmp_spec(&x, &y), c.cmp_spec(&y, &z)]
        s.contains(x) && s.contains(y) && s.contains(z) && c.cmp_spec(&x, &y) <= 0 && c.cmp_spec(
            &y,
            &z,
        ) <= 0 ==> c.cmp_spec(&x, &z) <= 0
}

/// Sequences with the same contents as multisets have the same comparator
/// properties.
proof fn lemma_props_transfer<T, C: Comparator<T, T>>(s1: Seq<T>, s2: Seq<T>, c: &C)
    requires
        s1.to_multiset() == s2.to_multiset(),
        cmp_antisym_on(s1, c),
        cmp_trans_on(s1, c),
    ensures
        cmp_antisym_on(s2, c),
        cmp_trans_on(s2, c),
{
    assert forall|x: T| s2.contains(x) implies s1.contains(x) by {
        vstd::seq_lib::to_multiset_contains(s1, x);
        vstd::seq_lib::to_multiset_contains(s2, x);
    }
    assert forall|x: T, y: T|
        s2.contains(x) && s2.contains(y) implies #[trigger] c.cmp_spec(&x, &y) == -c.cmp_spec(
        &y,
        &x,
    ) by {
        assert(s1.contains(x) && s1.contains(y));
    }
    assert forall|x: T, y: T, z: T|
        #![trigger c.cmp_spec(&x, &y), c.cmp_spec(&y, &z)]
        s2.contains(x) && s2.contains(y) && s2.contains(z) && c.cmp_spec(&x, &y) <= 0
            && c.cmp_spec(&y, &z) <= 0 implies c.cmp_spec(&x, &z) <= 0 by {
        assert(s1.contains(x) && s1.contains(y) && s1.contains(z));
    }
}

/// A one-to-one map of positions.
pub open spec fn is_reordering(perm: Seq<int>, n: int) -> bool {
    &&& perm.len() == n
    &&& forall|k: int| 0 <= k < n ==> 0 <= #[trigger] perm[k] < n
    &&& forall|k1: int, k2: int|
        0 <= k1 < k2 < n ==> #[trigger] perm[k1] != #[trigger] perm[k2]
}

/// `s1` is `s0` re-ordered by `perm`, and positions that compare equal keep
/// their original relative order: a stable permutation.
pub open spec fn stable_reordering<T, C: Comparator<T, T>>(
    s0: Seq<T>,
    s1: Seq<T>,
    perm: Seq<int>,
    c: &C,
) -> bool {
    &&& is_reordering(perm, s0.len() as int)
    &&& s1.len() == s0.len()
    &&& forall|k: int| 0 <= k < s1.len() ==> s1[k] == s0[#[trigger] perm[k]]
    &&& forall|k1: int, k2: int|
        #![trigger perm[k1], perm[k2]]
        0 <= k1 < k2 < s1.len() && c.cmp_spec(&s1[k1], &s1[k2]) == 0 ==> perm[k1] < perm[k2]
}

/// Sorts the vector in the order the comparator induces, by insertion; the
/// result is a stable permutation of the input: elements that compare equal
/// keep their relative order.
pub fn sort_by<T, C: Comparator<T, T>>(v: &mut Vec<T>, c: &C)
    requires
        cmp_antisym_on(old(v)@, c),
        cmp_trans_on(old(v)@, c),
    ensures
        final(v)@.to_multiset() == old(v)@.to_multiset(),
        final(v)@.len() == old(v)@.len(),
        sorted_by(final(v)@, c),
        exists|perm: Seq<int>| #[trigger] stable_reordering(old(v)@, final(v)@, perm, c),
{
    let n = v.len();
    let ghost mut perm: Seq<int> = Seq::new(n as nat, |k: int| k);
    if n == 0 {
        proof {
            assert(stable_reordering(old(v)@, v@, perm, c));
        }
        return ;
    }
    let mut i: usize = 1;
    while i < n
        invariant
            1 <= i <= n,
            v@.len() == n == old(v)@.len(),
            v@.to_multiset() == old(v)@.to_multiset(),
            cmp_antisym_on(old(v)@, c),
            cmp_trans_on(old(v)@, c),
            stable_reordering(old(v)@, v@, perm, c),
            forall|x: int, y: int|
                0 <= x <= y < i ==> #[trigger] c.cmp_spec(&v@[x], &v@[y]) <= 0,
        decreases n - i,
    {
        let mut j: usize = i;
        loop
            invariant_except_break
                0 <= j <= i < n,
                v@.len() == n == old(v)@.len(),
                v@.to_multiset() == old(v)@.to_multiset(),
                cmp_antisym_on(old(v)@, c),
                cmp_trans_on(old(v)@, c),
                stable_reordering(old(v)@, v@, perm, c),
                forall|x: int, y: int|
                    0 <= x <= y <= i && y != j ==> #[trigger] c.cmp_spec(&v@[x], &v@[y]) <= 0,
                forall|y: int| j < y <= i ==> #[trigger] c.cmp_spec(&v@[j as int], &v@[y]) <= 0,
            ensures
                v@.len() == n == old(v)@.len(),
                v@.to_multiset() == old(v)@.to_multiset(),
                stable_reordering(old(v)@, v@, perm, c),
                forall|x: int, y: int|
                    0 <= x <= y <= i ==> #[trigger] c.cmp_spec(&v@[x], &v@[y]) <= 0,
            decreases j,
        {
            proof {
                lemma_props_transfer(old(v)@, v@, c);
            }
            if j == 0 {
                proof {
                    lemma_sorted_close(v@, c, i as int, 0);
                }
                break ;
            }
            let cmp = c.compare(&v[j - 1], &v[j]);
            if cmp <= 0 {
                proof {
                    lemma_sorted_close(v@, c, i as int, j as int);
                }
                break ;
            }
            // The element at `j` still sits below its predecessor: swap the
            // two and keep walking it down.
            let ghost s0 = v@;
            let ghost perm0 = perm;
            let moved = v.remove(j - 1);
            v.insert(j, moved);
            proof {
                perm = perm.update(j as int - 1, perm0[j as int]).update(
                    j as int,
                    perm0[j as int - 1],
                );
                broadcast use vstd::multiset::group_multiset_axioms;

                let x = s0[j as int - 1];
                assert(v@ =~= s0.update(j as int - 1, s0[j as int]).update(j as int, x));
                vstd::seq_lib::to_multiset_remove(s0, j as int - 1);
                // The removed element goes straight back in: the contents are
                // unchanged as a multiset.
                vstd::seq_lib::to_multiset_contains(s0, x);
                assert(s0.contains(x));
                assert(v@.to_multiset() == s0.to_multiset()) by {
                    let s1 = s0.remove(j as int - 1);
                    vstd::seq_lib::to_multiset_insert(s1, j as int, x);
                    assert(v@ =~= s1.insert(j as int, x));
                    assert(v@.to_multiset() == s1.to_multiset().insert(x));
                    assert(s1.to_multiset() == s0.to_multiset().remove(x));
                    assert(s0.to_multiset().remove(x).insert(x) =~= s0.to_multiset());
                }
                assert(s0.contains(s0[j as int]));
                // The stable permutation follows the swap: only the strictly
                // mis-ordered pair changes relative order.
                lemma_props_transfer(old(v)@, s0, c);
                assert forall|k: int| 0 <= k < v@.len() implies v@[k] == old(v)@[#[trigger] perm[k]]
                    by {
                    if k != j as int - 1 && k != j as int {
                        assert(v@[k] == s0[k]);
                        assert(perm[k] == perm0[k]);
                    }
                }
                assert forall|k1: int, k2: int|
                    #![trigger perm[k1], perm[k2]]
                    0 <= k1 < k2 < v@.len() && c.cmp_spec(&v@[k1], &v@[k2]) == 0 implies perm[k1]
                    < perm[k2] by {
                    assert(s0.contains(s0[j as int - 1]) && s0.contains(s0[j as int]));
                    if k1 == j as int - 1 && k2 == j as int {
                        assert(c.cmp_spec(&s0[j as int], &s0[j as int - 1]) == -c.cmp_spec(
                            &s0[j as int - 1],
                            &s0[j as int],
                        ));
                        assert(c.cmp_spec(&v@[k1], &v@[k2]) != 0);
                    } else if k1 == j as int - 1 {
                        assert(v@[k1] == s0[j as int] && v@[k2] == s0[k2]);
                        assert(perm[k1] == perm0[j as int] && perm[k2] == perm0[k2]);
                    } else if k2 == j as int - 1 {
                        assert(v@[k2] == s0[j as int] && v@[k1] == s0[k1]);
                        assert(perm[k2] == perm0[j as int] && perm[k1] == perm0[k1]);
                    } else if k1 == j as int {
                        assert(v@[k1] == s0[j as int - 1] && v@[k2] == s0[k2]);
                        assert(perm[k1] == perm0[j as int - 1] && perm[k2] == perm0[k2]);
                    } else if k2 == j as int {
                        assert(v@[k2] == s0[j as int - 1] && v@[k1] == s0[k1]);
                        assert(perm[k2] == perm0[j as int - 1] && perm[k1] == perm0[k1]);
                    } else {
                        assert(v@[k1] == s0[k1] && v@[k2] == s0[k2]);
                        assert(perm[k1] == perm0[k1] && perm[k2] == perm0[k2]);
                    }
                }
                assert forall|y: int|
                    j - 1 < y <= i implies #[trigger] c.cmp_spec(&v@[j as int - 1], &v@[y])
                    <= 0 by {
                    assert(s0.contains(s0[y]));
                    if y == j {
                        assert(c.cmp_spec(&s0[j as int - 1], &s0[j as int]) > 0);
                        assert(c.cmp_spec(&s0[j as int], &s0[j as int - 1]) == -c.cmp_spec(
                            &s0[j as int - 1],
                            &s0[j as int],
                        ));
                    } else {
                        assert(v@[y] == s0[y]);
                        assert(c.cmp_spec(&s0[j as int], &s0[y]) <= 0);
                    }
                }
            }
            j = j - 1;
        }
        i = i + 1;
    }
}

/// When the displaced element also orders against its predecessor, the whole
/// prefix is sorted.
proof fn lemma_sorted_close<T, C: Comparator<T, T>>(s: Seq<T>, c: &C, i: int, j: int)
    requires
        0 <= j <= i < s.len(),
        cmp_antisym_on(s, c),
        cmp_trans_on(s, c),
        forall|x: int, y: int| 0 <= x <= y <= i && y != j ==> #[trigger] c.cmp_spec(&s[x], &s[y])
            <= 0,
        forall|y: int| j < y <= i ==> #[trigger] c.cmp_spec(&s[j], &s[y]) <= 0,
        j > 0 ==> c.cmp_spec(&s[j - 1], &s[j]) <= 0,
    ensures
        forall|x: int, y: int| 0 <= x <= y <= i ==> #[trigger] c.cmp_spec(&s[x], &s[y]) <= 0,
{
    assert forall|x: int, y: int|
        0 <= x <= y <= i implies #[trigger] c.cmp_spec(&s[x], &s[y]) <= 0 by {
        if y == j && x < j {
            assert(s.contains(s[x]) && s.contains(s[j - 1]) && s.contains(s[j]));
            assert(c.cmp_spec(&s[x], &s[j - 1]) <= 0);
            assert(c.cmp_spec(&s[j - 1], &s[j]) <= 0);
        } else if y == j && x == j {
            assert(s.contains(s[j]));
            assert(c.cmp_spec(&s[j], &s[j]) == -c.cmp_spec(&s[j], &s[j]));
        }
    }
}

} // verus!
