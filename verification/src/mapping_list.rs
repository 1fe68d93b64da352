//! An append-mostly collection of output mappings.  Appends that keep the
//! generated-position order cost nothing; the first append that breaks it
//! flips a flag, and the collection is sorted lazily when its contents are
//! read back.

use vstd::prelude::*;
use crate::compare::Comparator;
use crate::mapping::{mapping_valid, Mapping};
use crate::util::{compare_by_generated_pos_inflated, mapping_cmp};

verus! {

/// The generated-position order on mappings, as a comparator.
pub struct GeneratedPosComparator;

impl Comparator<Mapping, Mapping> for GeneratedPosComparator {
    open spec fn cmp_spec(&self, a: &Mapping, b: &Mapping) -> int {
        mapping_cmp(*a, *b)
    }

    fn compare(&self, a: &Mapping, b: &Mapping) -> (r: i32)
        ensures
            r > 0 <==> self.cmp_spec(a, b) > 0,
            r < 0 <==> self.cmp_spec(a, b) < 0,
    {
        compare_by_generated_pos_inflated(a, b)
    }
}

/// Whether `b` comes at or after `a` in the generated-position order.
pub fn generated_position_after(a: &Mapping, b: &Mapping) -> (r: bool)
    ensures
        r == (mapping_cmp(*a, *b) <= 0),
{
    compare_by_generated_pos_inflated(a, b) <= 0
}

/// A list of mappings with a lazy sort.
pub struct MappingList {
    array: Vec<Mapping>,
    sorted: bool,
    last: Option<Mapping>,
}

impl MappingList {
    /// The stored mappings, in their current order.
    pub closed spec fn mappings(&self) -> Seq<Mapping> {
        self.array@
    }

    /// Whether the list knows itself to be sorted.
    pub closed spec fn spec_sorted(&self) -> bool {
        self.sorted
    }

    /// Well-formed: every entry is a valid mapping, and when the list
    /// believes itself sorted it is, with the last entry cached.
    pub closed spec fn wf(&self) -> bool {
        &&& forall|k: int| 0 <= k < self.array@.len() ==> mapping_valid(#[trigger] self.array@[k])
        &&& self.sorted ==> {
            &&& forall|x: int, y: int|
                0 <= x <= y < self.array@.len() ==> mapping_cmp(
                    #[trigger] self.array@[x],
                    #[trigger] self.array@[y],
                ) <= 0
            &&& self.array@.len() == 0 ==> self.last is None
            &&& self.array@.len() > 0 ==> self.last == Some(self.array@.last())
        }
    }

    /// Every stored mapping satisfies the mapping invariant.
    pub proof fn lemma_wf_valid(&self)
        requires
            self.wf(),
        ensures
            forall|k: int|
                0 <= k < self.mappings().len() ==> mapping_valid(#[trigger] self.mappings()[k]),
    {
    }

    /// An empty list, trivially sorted.
    pub fn new() -> (r: Self)
        ensures
            r.wf(),
            r.mappings() =~= Seq::<Mapping>::empty(),
            r.spec_sorted(),
    {
        MappingList { array: Vec::new(), sorted: true, last: None }
    }

    /// Calls the visitor on every stored mapping with its index, in the
    /// current internal order, which is not guaranteed to be sorted.
    pub fn unsorted_for_each<F: Fn(&Mapping, usize)>(&self, callback: F)
        requires
            self.wf(),
            forall|m: Mapping, i: usize| call_requires(callback, (&m, i)),
    {
        let n = self.array.len();
        let mut i: usize = 0;
        while i < n
            invariant
                n == self.array@.len(),
                forall|m: Mapping, j: usize| call_requires(callback, (&m, j)),
            decreases n - i,
        {
            callback(&self.array[i], i);
            i = i + 1;
        }
    }

    /// Appends a mapping.  When the append keeps the generated-position
    /// order the list stays sorted; otherwise it is marked for the lazy
    /// sort.
    pub fn add(&mut self, mapping: Mapping)
        requires
            old(self).wf(),
            mapping_valid(mapping),
        ensures
            final(self).wf(),
            final(self).mappings() == old(self).mappings().push(mapping),
            old(self).spec_sorted() && (old(self).mappings().len() == 0 || mapping_cmp(
                old(self).mappings().last(),
                mapping,
            ) <= 0) ==> final(self).spec_sorted(),
    {
        let after = match &self.last {
            None => true,
            Some(l) => generated_position_after(l, &mapping),
        };
        if after && self.sorted {
            proof {
                let s = self.array@;
                if s.len() > 0 {
                    assert forall|x: int| 0 <= x < s.len() implies mapping_cmp(
                        #[trigger] s[x],
                        mapping,
                    ) <= 0 by {
                        assert(mapping_cmp(s[x], s.last()) <= 0);
                        crate::util::lemma_mapping_cmp_trans(s[x], s.last(), mapping);
                    }
                }
            }
            let ghost s = self.array@;
            self.last = Some(mapping.clone());
            self.array.push(mapping);
            proof {
                let t = self.array@;
                assert(t.last() == t[t.len() - 1]);
                assert forall|x: int, y: int|
                    0 <= x <= y < t.len() implies mapping_cmp(#[trigger] t[x], #[trigger] t[y])
                    <= 0 by {
                    if y < t.len() - 1 {
                        assert(mapping_cmp(s[x], s[y]) <= 0);
                    } else if x < t.len() - 1 {
                        assert(mapping_cmp(s[x], t[y]) <= 0);
                    } else {
                        crate::util::lemma_mapping_cmp_antisym(t[x], t[y]);
                    }
                }
            }
        } else {
            self.sorted = false;
            self.array.push(mapping);
        }
    }

    /// The stored mappings in generated-position order: sorts first when an
    /// append broke the order, then hands out a copy.
    pub fn to_array(&mut self) -> (r: Vec<Mapping>)
        requires
            old(self).wf(),
        ensures
            final(self).wf(),
            final(self).spec_sorted(),
            final(self).mappings().to_multiset() == old(self).mappings().to_multiset(),
            old(self).spec_sorted() ==> final(self).mappings() == old(self).mappings(),
            forall|x: int, y: int|
                0 <= x <= y < final(self).mappings().len() ==> mapping_cmp(
                    #[trigger] final(self).mappings()[x],
                    #[trigger] final(self).mappings()[y],
                ) <= 0,
            r@ == final(self).mappings(),
            exists|perm: Seq<int>| #[trigger] crate::sort::stable_reordering(
                old(self).mappings(),
                final(self).mappings(),
                perm,
                &GeneratedPosComparator,
            ),
    {
        let ghost mut stab_perm: Seq<int> = Seq::new(self.array@.len(), |k: int| k);
        if !self.sorted {
            let c = GeneratedPosComparator;
            proof {
                let s = self.array@;
                assert forall|x: Mapping, y: Mapping|
                    s.contains(x) && s.contains(y) implies #[trigger] c.cmp_spec(&x, &y)
                    == -c.cmp_spec(&y, &x) by {
                    crate::util::lemma_mapping_cmp_antisym(x, y);
                }
                assert forall|x: Mapping, y: Mapping, z: Mapping|
                    #![trigger c.cmp_spec(&x, &y), c.cmp_spec(&y, &z)]
                    s.contains(x) && s.contains(y) && s.contains(z) && c.cmp_spec(&x, &y) <= 0
                        && c.cmp_spec(&y, &z) <= 0 implies c.cmp_spec(&x, &z) <= 0 by {
                    crate::util::lemma_mapping_cmp_trans(x, y, z);
                }
            }
            let ghost before = self.array@;
            crate::sort::sort_by(&mut self.array, &c);
            proof {
                stab_perm = choose|perm: Seq<int>| #[trigger] crate::sort::stable_reordering(
                    before,
                    self.array@,
                    perm,
                    &c,
                );
                assert forall|k: int|
                    0 <= k < self.array@.len() implies mapping_valid(
                    #[trigger] self.array@[k],
                ) by {
                    vstd::seq_lib::to_multiset_contains(self.array@, self.array@[k]);
                    vstd::seq_lib::to_multiset_contains(before, self.array@[k]);
                    let j = choose|j: int| 0 <= j < before.len() && before[j] == self.array@[k];
                    assert(mapping_valid(before[j]));
                }
            }
            proof {
                assert forall|x: int, y: int|
                    0 <= x <= y < self.array@.len() implies mapping_cmp(
                    #[trigger] self.array@[x],
                    #[trigger] self.array@[y],
                ) <= 0 by {
                    assert(c.cmp_spec(&self.array@[x], &self.array@[y]) <= 0);
                }
            }
            if self.array.len() > 0 {
                let last = self.array[self.array.len() - 1].clone();
                self.last = Some(last);
                proof {
                    assert(self.array@.last() == self.array@[self.array@.len() - 1]);
                }
            } else {
                self.last = None;
            }
            self.sorted = true;
        }
        let n = self.array.len();
        let mut out: Vec<Mapping> = Vec::new();
        let mut i: usize = 0;
        while i < n
            invariant
                n == self.array@.len(),
                out@.len() == i <= n,
                forall|j: int| 0 <= j < i ==> out@[j] == #[trigger] self.array@[j],
            decreases n - i,
        {
            out.push(self.array[i].clone());
            i = i + 1;
        }
        proof {
            assert(out@ =~= self.array@);
            assert(crate::sort::stable_reordering(
                old(self).mappings(),
                self.mappings(),
                stab_perm,
                &GeneratedPosComparator,
            ));
        }
        out
    }
}

} // verus!
