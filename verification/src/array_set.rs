//! An insertion-ordered collection of unique strings.  An entry keeps its
//! first-assigned index forever, even when it is added again; duplicate
//! storage can be allowed, in which case the backing array grows but the
//! index table does not.

use vstd::prelude::*;

verus! {

/// Looks a value up in parallel key and index columns: the index recorded
/// beside the key equal to the value, or `None`.
pub open spec fn lookup_pairs(keys: Seq<Seq<char>>, idxs: Seq<usize>, v: Seq<char>) -> Option<
    usize,
>
    decreases keys.len(),
{
    if keys.len() == 0 || keys.len() != idxs.len() {
        None
    } else if keys.last() == v {
        Some(idxs.last())
    } else {
        lookup_pairs(keys.drop_last(), idxs.drop_last(), v)
    }
}

/// No two entries of the sequence are equal.
pub open spec fn keys_unique(keys: Seq<Seq<char>>) -> bool {
    forall|i: int, j: int| 0 <= i < j < keys.len() ==> keys[i] != keys[j]
}

/// With unique keys, the lookup finds exactly the recorded index of the one
/// matching key, and `None` when no key matches.
proof fn lemma_lookup_pairs(keys: Seq<Seq<char>>, idxs: Seq<usize>, v: Seq<char>)
    requires
        keys.len() == idxs.len(),
        keys_unique(keys),
    ensures
        (forall|j: int| 0 <= j < keys.len() ==> keys[j] != v) ==> lookup_pairs(keys, idxs, v)
            is None,
        forall|j: int|
            0 <= j < keys.len() && keys[j] == v ==> lookup_pairs(keys, idxs, v) == Some(
                #[trigger] idxs[j],
            ),
    decreases keys.len(),
{
    if keys.len() > 0 && keys.last() != v {
        lemma_lookup_pairs(keys.drop_last(), idxs.drop_last(), v);
        assert forall|j: int|
            0 <= j < keys.len() && keys[j] == v implies lookup_pairs(keys, idxs, v) == Some(
            idxs[j],
        ) by {
            assert(keys.drop_last()[j] == keys[j]);
            assert(idxs.drop_last()[j] == idxs[j]);
        }
        if forall|j: int| 0 <= j < keys.len() ==> keys[j] != v {
            assert forall|j: int|
                0 <= j < keys.len() - 1 implies keys.drop_last()[j] != v by {
                assert(keys.drop_last()[j] == keys[j]);
            }
        }
    }
}

/// An insertion-ordered set of unique strings with stable indices.
#[derive(Clone)]
pub struct ArraySet {
    array: Vec<String>,
    keys: Vec<String>,
    idxs: Vec<usize>,
}

impl ArraySet {
    /// The stored entries, duplicates included, in insertion order.
    pub closed spec fn elements(&self) -> Seq<Seq<char>> {
        self.array@.map_values(|s: String| s@)
    }

    /// The distinct entries, in first-insertion order.
    pub closed spec fn distinct_keys(&self) -> Seq<Seq<char>> {
        self.keys@.map_values(|s: String| s@)
    }

    /// The index recorded for a value, or `None` when it was never added.
    pub closed spec fn spec_index_of(&self, v: Seq<char>) -> Option<usize> {
        lookup_pairs(self.distinct_keys(), self.idxs@, v)
    }

    /// The number of distinct entries.
    pub closed spec fn spec_size(&self) -> nat {
        self.keys@.len()
    }

    /// Well-formed: the key table is a one-to-one record of the first index
    /// of each distinct stored value.
    pub closed spec fn wf(&self) -> bool {
        &&& self.keys@.len() == self.idxs@.len()
        &&& keys_unique(self.distinct_keys())
        &&& forall|k: int|
            0 <= k < self.keys@.len() ==> #[trigger] self.idxs@[k] < self.array@.len()
                && self.elements()[self.idxs@[k] as int] == self.distinct_keys()[k]
        &&& forall|i: int|
            0 <= i < self.array@.len() ==> #[trigger] self.spec_index_of(self.elements()[i])
                is Some
    }

    /// An empty set.
    pub fn new() -> (r: Self)
        ensures
            r.wf(),
            r.elements() =~= Seq::<Seq<char>>::empty(),
            r.spec_size() == 0,
            forall|v: Seq<char>| #[trigger] r.spec_index_of(v) is None,
    {
        let r = ArraySet { array: Vec::new(), keys: Vec::new(), idxs: Vec::new() };
        proof {
            assert(r.distinct_keys() =~= Seq::<Seq<char>>::empty());
        }
        r
    }

    /// Adds every entry of the array in order, with the given duplicate
    /// policy.
    pub fn from_array(arr: Vec<String>, allow_duplicates: bool) -> (r: Self)
        ensures
            r.wf(),
            r.elements() == add_all_elements(arr@.map_values(|s: String| s@), allow_duplicates),
            forall|v: Seq<char>| #[trigger]
                r.spec_index_of(v) == add_all_lookup(arr@.map_values(|s: String| s@), v, allow_duplicates),
    {
        let ghost views = arr@.map_values(|s: String| s@);
        let mut array_set = ArraySet::new();
        proof {
            assert(views.take(0) =~= Seq::<Seq<char>>::empty());
            assert(array_set.elements() =~= add_all_elements(views.take(0), allow_duplicates));
        }
        let n = arr.len();
        let mut i: usize = 0;
        while i < n
            invariant
                n == arr@.len(),
                0 <= i <= n,
                views == arr@.map_values(|s: String| s@),
                array_set.wf(),
                array_set.elements() == add_all_elements(views.take(i as int), allow_duplicates),
                forall|v: Seq<char>| #[trigger]
                    array_set.spec_index_of(v) == add_all_lookup(views.take(i as int), v, allow_duplicates),
            decreases n - i,
        {
            let ghost pre = views.take(i as int);
            let ghost before = array_set;
            array_set.add(arr[i].clone(), allow_duplicates);
            proof {
                let d = views[i as int];
                assert(views.take(i as int + 1) =~= pre.push(d));
                lemma_add_all_unfold(pre, d, allow_duplicates);
                assert(add_all_elements(pre.push(d), allow_duplicates) == array_set.elements());
                assert forall|v: Seq<char>| #[trigger]
                    array_set.spec_index_of(v) == add_all_lookup(
                    views.take(i as int + 1),
                    v,
                    allow_duplicates,
                ) by {
                    assert(add_all_lookup(pre.push(d), v, allow_duplicates) == if add_all_lookup(
                        pre,
                        v,
                        allow_duplicates,
                    ) is Some {
                        add_all_lookup(pre, v, allow_duplicates)
                    } else if d == v {
                        Some(add_all_elements(pre, allow_duplicates).len() as usize)
                    } else {
                        None::<usize>
                    });
                    assert(before.spec_index_of(v) == add_all_lookup(pre, v, allow_duplicates));
                }
            }
            i = i + 1;
        }
        proof {
            assert(views.take(n as int) =~= views);
        }
        array_set
    }

    /// How many distinct entries the set holds.
    pub fn size(&self) -> (r: usize)
        requires
            self.wf(),
        ensures
            r == self.spec_size(),
    {
        self.keys.len()
    }

    /// Adds a value.  A value never seen before is stored and its index
    /// recorded; a value seen before is stored again only when
    /// `allow_duplicates` is set, and its recorded index never changes.
    pub fn add(&mut self, data: String, allow_duplicates: bool)
        requires
            old(self).wf(),
        ensures
            final(self).wf(),
            old(self).spec_index_of(data@) is Some ==> {
                &&& final(self).elements() == if allow_duplicates {
                    old(self).elements().push(data@)
                } else {
                    old(self).elements()
                }
                &&& final(self).spec_index_of(data@) == old(self).spec_index_of(data@)
                &&& final(self).spec_size() == old(self).spec_size()
            },
            old(self).spec_index_of(data@) is None ==> {
                &&& final(self).elements() == old(self).elements().push(data@)
                &&& final(self).spec_index_of(data@) == Some(old(self).elements().len() as usize)
                &&& final(self).spec_size() == old(self).spec_size() + 1
            },
            forall|v: Seq<char>|
                v != data@ ==> #[trigger] final(self).spec_index_of(v) == old(self).spec_index_of(
                    v,
                ),
    {
        let ghost dv = data@;
        let is_duplicate = self.has(&data);
        let idx = self.array.len();

        if !is_duplicate || allow_duplicates {
            self.array.push(data.clone());
        }
        if !is_duplicate {
            self.keys.push(data);
            self.idxs.push(idx);
            proof {
                assert(self.distinct_keys() =~= old(self).distinct_keys().push(
                    self.keys@.last()@,
                ));
                assert(self.elements() =~= old(self).elements().push(self.keys@.last()@));
            }
        } else {
            proof {
                assert(self.distinct_keys() =~= old(self).distinct_keys());
                if allow_duplicates {
                    assert(self.elements() =~= old(self).elements().push(dv));
                } else {
                    assert(self.elements() =~= old(self).elements());
                }
            }
        }
        proof {
            lemma_lookup_pairs(old(self).distinct_keys(), old(self).idxs@, dv);
            assert forall|v: Seq<char>|
                v != dv implies #[trigger] self.spec_index_of(v) == old(self).spec_index_of(
                v,
            ) by {
                if !is_duplicate {
                    assert(self.distinct_keys().drop_last() =~= old(self).distinct_keys());
                    assert(self.idxs@.drop_last() =~= old(self).idxs@);
                }
            }
            if !is_duplicate {
                assert(self.spec_index_of(dv) == Some(idx));
                // The new key is unlike every old key, so uniqueness carries
                // over to the extended table.
                assert forall|j: int|
                    0 <= j < old(self).distinct_keys().len() implies old(self).distinct_keys()[j]
                    != dv by {
                    if old(self).distinct_keys()[j] == dv {
                        assert(old(self).spec_index_of(dv) == Some(old(self).idxs@[j]));
                    }
                }
                assert(keys_unique(self.distinct_keys()));
                assert forall|k: int|
                    0 <= k < self.keys@.len() implies #[trigger] self.idxs@[k]
                    < self.array@.len() && self.elements()[self.idxs@[k] as int]
                    == self.distinct_keys()[k] by {
                    if k < old(self).keys@.len() {
                        assert(old(self).idxs@[k] < old(self).array@.len());
                        assert(self.idxs@[k] == old(self).idxs@[k]);
                        assert(self.distinct_keys()[k] == old(self).distinct_keys()[k]);
                        assert(self.elements()[self.idxs@[k] as int] == old(self).elements()[old(
                            self,
                        ).idxs@[k] as int]);
                    } else {
                        assert(self.idxs@[k] == idx && self.distinct_keys()[k] == dv);
                    }
                }
            } else {
                assert(self.idxs@ == old(self).idxs@);
                assert(self.spec_index_of(dv) == old(self).spec_index_of(dv));
                assert forall|k: int|
                    0 <= k < self.keys@.len() implies #[trigger] self.idxs@[k]
                    < self.array@.len() && self.elements()[self.idxs@[k] as int]
                    == self.distinct_keys()[k] by {
                    assert(old(self).idxs@[k] < old(self).array@.len());
                    assert(self.elements()[self.idxs@[k] as int] == old(self).elements()[old(
                        self,
                    ).idxs@[k] as int]);
                }
            }
            assert forall|i: int|
                0 <= i < self.array@.len() implies #[trigger] self.spec_index_of(
                self.elements()[i],
            ) is Some by {
                if i < old(self).array@.len() {
                    assert(old(self).spec_index_of(old(self).elements()[i]) is Some);
                    if self.elements()[i] != dv {
                        assert(self.spec_index_of(self.elements()[i]) == old(self).spec_index_of(
                            old(self).elements()[i],
                        ));
                    }
                } else {
                    assert(self.elements()[i] == dv);
                }
            }
        }
    }

    /// Whether the value was ever added.
    pub fn has(&self, data: &String) -> (r: bool)
        requires
            self.wf(),
        ensures
            r == (self.spec_index_of(data@) is Some),
    {
        self.index_of(data).is_some()
    }

    /// The index first recorded for the value, or `None`.
    pub fn index_of(&self, data: &String) -> (r: Option<usize>)
        requires
            self.wf(),
        ensures
            r == self.spec_index_of(data@),
            r matches Some(i) ==> i < self.elements().len() && self.elements()[i as int] == data@,
    {
        let n = self.keys.len();
        let mut i: usize = 0;
        while i < n
            invariant
                self.wf(),
                n == self.keys@.len(),
                0 <= i <= n,
                forall|j: int| 0 <= j < i ==> self.distinct_keys()[j] != data@,
            decreases n - i,
        {
            if self.keys[i].eq(data) {
                proof {
                    lemma_lookup_pairs(self.distinct_keys(), self.idxs@, data@);
                }
                return Some(self.idxs[i]);
            }
            i = i + 1;
        }
        proof {
            lemma_lookup_pairs(self.distinct_keys(), self.idxs@, data@);
        }
        None
    }

    /// The stored entry at the index, or `None` when the index is out of
    /// range.
    pub fn at(&self, idx: i32) -> (r: Option<String>)
        requires
            self.wf(),
        ensures
            0 <= idx < self.elements().len() ==> (r matches Some(s) && s@ == self.elements()[idx as int]),
            !(0 <= idx < self.elements().len()) ==> r is None,
    {
        if idx >= 0 && (idx as usize) < self.array.len() {
            Some(self.array[idx as usize].clone())
        } else {
            None
        }
    }

    /// A copy of the stored entries, in insertion order, under the indices
    /// that `index_of` reports.
    pub fn to_vec(&self) -> (r: Vec<String>)
        requires
            self.wf(),
        ensures
            r@.len() == self.elements().len(),
            forall|i: int| 0 <= i < r@.len() ==> #[trigger] r@[i]@ == self.elements()[i],
    {
        let mut out: Vec<String> = Vec::new();
        let n = self.array.len();
        let mut i: usize = 0;
        while i < n
            invariant
                n == self.array@.len(),
                0 <= i <= n,
                out@.len() == i,
                forall|j: int| 0 <= j < i ==> #[trigger] out@[j]@ == self.elements()[j],
            decreases n - i,
        {
            out.push(self.array[i].clone());
            i = i + 1;
        }
        out
    }
}

/// The stored entries after adding every value of `vs` in order to an empty
/// set.
pub open spec fn add_all_elements(vs: Seq<Seq<char>>, allow_duplicates: bool) -> Seq<Seq<char>>
    decreases vs.len(),
{
    if vs.len() == 0 {
        Seq::empty()
    } else {
        let prev = add_all_elements(vs.drop_last(), allow_duplicates);
        if add_all_lookup(vs.drop_last(), vs.last(), allow_duplicates) is Some && !allow_duplicates {
            prev
        } else {
            prev.push(vs.last())
        }
    }
}

/// The index recorded for `v` after adding every value of `vs` in order to
/// an empty set.
pub open spec fn add_all_lookup(vs: Seq<Seq<char>>, v: Seq<char>, allow_duplicates: bool) -> Option<usize>
    decreases vs.len(),
{
    if vs.len() == 0 {
        None
    } else {
        let prev = add_all_lookup(vs.drop_last(), v, allow_duplicates);
        if prev is Some {
            prev
        } else if vs.last() == v {
            Some(add_all_elements(vs.drop_last(), allow_duplicates).len() as usize)
        } else {
            None
        }
    }
}

/// A recorded index always points into the stored entries.
proof fn lemma_lookup_range(keys: Seq<Seq<char>>, idxs: Seq<usize>, v: Seq<char>, bound: int)
    requires
        keys.len() == idxs.len(),
        forall|k: int| 0 <= k < idxs.len() ==> #[trigger] idxs[k] < bound,
        lookup_pairs(keys, idxs, v) is Some,
    ensures
        lookup_pairs(keys, idxs, v)->Some_0 < bound,
    decreases keys.len(),
{
    if keys.len() > 0 && keys.last() != v {
        assert forall|k: int| 0 <= k < idxs.drop_last().len() implies #[trigger] idxs.drop_last()[k]
            < bound by {
            assert(idxs.drop_last()[k] == idxs[k]);
        }
        lemma_lookup_range(keys.drop_last(), idxs.drop_last(), v, bound);
    }
}

impl ArraySet {
    /// A recorded index always points into the stored entries.
    pub proof fn lemma_index_of_range(&self, v: Seq<char>)
        requires
            self.wf(),
            self.spec_index_of(v) is Some,
        ensures
            self.spec_index_of(v)->Some_0 < self.elements().len(),
    {
        lemma_lookup_range(
            self.distinct_keys(),
            self.idxs@,
            v,
            self.elements().len() as int,
        );
    }
}

/// With duplicate storage allowed, every added value is stored.
pub proof fn lemma_add_all_len_true(vs: Seq<Seq<char>>)
    ensures
        add_all_elements(vs, true).len() == vs.len(),
    decreases vs.len(),
{
    if vs.len() > 0 {
        lemma_add_all_len_true(vs.drop_last());
    }
}

/// Unfolds one step of adding a sequence of values.
proof fn lemma_add_all_unfold(vs: Seq<Seq<char>>, v: Seq<char>, allow_duplicates: bool)
    ensures
        add_all_elements(vs.push(v), allow_duplicates) == if add_all_lookup(vs, v, allow_duplicates)
            is Some && !allow_duplicates {
            add_all_elements(vs, allow_duplicates)
        } else {
            add_all_elements(vs, allow_duplicates).push(v)
        },
        forall|w: Seq<char>| #[trigger]
            add_all_lookup(vs.push(v), w, allow_duplicates) == if add_all_lookup(vs, w, allow_duplicates)
                is Some {
                add_all_lookup(vs, w, allow_duplicates)
            } else if v == w {
                Some(add_all_elements(vs, allow_duplicates).len() as usize)
            } else {
                None::<usize>
            },
{
    assert(vs.push(v).drop_last() =~= vs);
}

} // verus!
