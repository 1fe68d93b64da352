//! The consumers: a basic consumer answers position-translation queries over
//! one flat mapping table, decoded lazily from its document; an indexed
//! consumer composes an ordered list of sections, each wrapping a basic
//! consumer at a generated-position offset.

use vstd::prelude::*;
use crate::array_set::{add_all_elements, add_all_lookup, ArraySet};
use crate::binary_search::{bias_or_default, Bias};
use crate::compare::Comparator;
use crate::errors::{DecodeError, DocumentError};
use crate::mapping::Mapping;
use crate::mapping_index::{
    entry_matches_original, gen_query_post, orig_query_post, IndexEntry, MappingIndex,
};
use crate::source_map::{Position, SourceMapJson};
use crate::util::{compute_source_url_spec, view_opt};

verus! {

/// The two orders a consumer can walk its mappings in.
pub enum IterOrd {
    GeneratedOrd,
    OriginalOrd,
}

/// The identifier a source entry resolves to: its resolved URL, or the entry
/// itself when the resolver cannot handle it.
pub open spec fn resolved_source(
    root: Option<Seq<char>>,
    source: Seq<char>,
    map_url: Option<Seq<char>>,
) -> Seq<char> {
    match compute_source_url_spec(root, source, map_url) {
        Option::Some(u) => u,
        Option::None => source,
    }
}

/// The resolved identifiers of a document's sources.
pub open spec fn resolved_sources(
    sources: Seq<Seq<char>>,
    root: Option<Seq<char>>,
    map_url: Option<Seq<char>>,
) -> Seq<Seq<char>> {
    sources.map_values(|s: Seq<char>| resolved_source(root, s, map_url))
}

/// Resolves one source entry, falling back to the entry itself.
fn resolve_source(root: &Option<String>, source: &String, map_url: &Option<String>) -> (r: String)
    ensures
        r@ == resolved_source(view_opt(*root), source@, view_opt(*map_url)),
{
    let root_ref: Option<&str> = match root {
        Some(s) => Some(s.as_str()),
        None => None,
    };
    let url_ref: Option<&str> = match map_url {
        Some(s) => Some(s.as_str()),
        None => None,
    };
    match crate::util::compute_source_url(root_ref, source.as_str(), url_ref) {
        Some(u) => u,
        None => source.clone(),
    }
}

/// Builds the absolute-source table of a document: every entry resolved,
/// duplicates stored but indices stable.
fn build_absolute_sources(
    sources: &Vec<String>,
    root: &Option<String>,
    map_url: &Option<String>,
) -> (r: ArraySet)
    ensures
        r.wf(),
        ({
            let resolved = resolved_sources(
                sources@.map_values(|s: String| s@),
                view_opt(*root),
                view_opt(*map_url),
            );
            &&& r.elements() == add_all_elements(resolved, true)
            &&& forall|v: Seq<char>| #[trigger] r.spec_index_of(v) == add_all_lookup(
                resolved,
                v,
                true,
            )
        }),
{
    let mut resolved: Vec<String> = Vec::new();
    let n = sources.len();
    let mut i: usize = 0;
    let ghost goal = resolved_sources(
        sources@.map_values(|s: String| s@),
        view_opt(*root),
        view_opt(*map_url),
    );
    while i < n
        invariant
            n == sources@.len(),
            resolved@.len() == i <= n,
            goal == resolved_sources(
                sources@.map_values(|s: String| s@),
                view_opt(*root),
                view_opt(*map_url),
            ),
            forall|j: int| 0 <= j < i ==> #[trigger] resolved@[j]@ == goal[j],
        decreases n - i,
    {
        let s = resolve_source(root, &sources[i], map_url);
        resolved.push(s);
        i = i + 1;
    }
    proof {
        assert(resolved@.map_values(|s: String| s@) =~= goal);
    }
    ArraySet::from_array(resolved, true)
}

/// A consumer over one flat mapping table, decoded lazily.
pub struct BasicConsumer {
    /// The document this consumer answers for.
    pub source_map: SourceMapJson,
    source_lookup_cache: Vec<(String, usize)>,
    absolute_sources: ArraySet,
    source_map_url: Option<String>,
    mappings: Option<MappingIndex>,
    computed_column_spans: bool,
}

impl BasicConsumer {
    /// The document this consumer answers for, as a specification value.
    pub closed spec fn spec_document(&self) -> SourceMapJson {
        self.source_map
    }

    /// The resolved source table.
    pub closed spec fn spec_sources(&self) -> ArraySet {
        self.absolute_sources
    }

    /// The decoded index, when the first query has decoded it.
    pub closed spec fn spec_index(&self) -> Option<MappingIndex> {
        self.mappings
    }

    /// Whether column spans were computed.
    pub closed spec fn spec_spans_computed(&self) -> bool {
        self.computed_column_spans
    }

    /// The URL the document was loaded from.
    pub closed spec fn spec_map_url(&self) -> Option<Seq<char>> {
        view_opt(self.source_map_url)
    }

    /// The byte stream the index is decoded from.
    pub open spec fn mapping_bytes(&self) -> Seq<u8> {
        vstd::utf8::encode_utf8(self.spec_document().mappings@)
    }

    /// The index a query source resolves to: first as map-relative, then as
    /// sourceRoot-relative, against the resolved source table.
    pub open spec fn spec_find_source(&self, source: Seq<char>) -> Option<usize> {
        let map_rel = compute_source_url_spec(Option::None, source, self.spec_map_url());
        let map_hit = match map_rel {
            Option::Some(u) => self.spec_sources().spec_index_of(u),
            Option::None => Option::None,
        };
        if map_hit is Some {
            map_hit
        } else {
            let root_rel = compute_source_url_spec(
                view_opt(self.spec_document().source_root),
                source,
                self.spec_map_url(),
            );
            match root_rel {
                Option::Some(u) => self.spec_sources().spec_index_of(u),
                Option::None => Option::None,
            }
        }
    }

    /// The decoded index, whenever present, is the decode of this document's
    /// mapping bytes: the stream parses, and the index holds exactly the
    /// parsed entries (re-ordered), with column spans laid over them once
    /// they were computed.
    pub open spec fn index_linked(&self) -> bool {
        match self.spec_index() {
            Option::Some(ix) => {
                &&& crate::mapping_index::parse_mappings_spec(self.mapping_bytes()) is Ok
                &&& if self.spec_spans_computed() {
                    exists|g0: Seq<IndexEntry>|
                        {
                            &&& ix.entries() == #[trigger] crate::mapping_index::spanned(g0)
                            &&& g0.to_multiset() == crate::mapping_index::parse_mappings_spec(
                                self.mapping_bytes(),
                            )->Ok_0.to_multiset()
                        }
                } else {
                    ix.entries().to_multiset() == crate::mapping_index::parse_mappings_spec(
                        self.mapping_bytes(),
                    )->Ok_0.to_multiset()
                }
            },
            Option::None => true,
        }
    }

    /// Well-formed: the source table is the document's resolved sources, the
    /// cache holds only correct resolutions, and the decoded index is
    /// well-formed with the spans flag in step.
    pub closed spec fn wf(&self) -> bool {
        &&& self.index_linked()
        &&& self.absolute_sources.wf()
        &&& self.absolute_sources.elements() == add_all_elements(
            resolved_sources(
                self.source_map.sources@.map_values(|s: String| s@),
                view_opt(self.source_map.source_root),
                view_opt(self.source_map_url),
            ),
            true,
        )
        &&& forall|v: Seq<char>| #[trigger] self.absolute_sources.spec_index_of(v)
            == add_all_lookup(
            resolved_sources(
                self.source_map.sources@.map_values(|s: String| s@),
                view_opt(self.source_map.source_root),
                view_opt(self.source_map_url),
            ),
            v,
            true,
        )
        &&& forall|k: int|
            0 <= k < self.source_lookup_cache@.len() ==> Some(
                (#[trigger] self.source_lookup_cache@[k]).1,
            ) == self.spec_find_source(self.source_lookup_cache@[k].0@)
        &&& self.absolute_sources.elements().len() <= 0x7fff_0000
        &&& self.mapping_bytes().len() <= 0x7fff_0000
        &&& match self.mappings {
            Option::Some(ix) => ix.wf() && ix.spans_computed() == self.computed_column_spans
                && ix.entries().len() <= 0x7fff_0000 && ix.originals().len() <= 0x7fff_0000,
            Option::None => !self.computed_column_spans,
        }
    }

    /// A consumer for an already-parsed document, with a known map URL.
    pub fn from_source_map_json_with_url(source_map: SourceMapJson, source_map_url: Option<
        String,
    >) -> (r: Self)
        requires
            vstd::utf8::encode_utf8(source_map.mappings@).len() <= 0x7fff_0000,
            source_map.sources@.len() <= 0x7fff_0000,
        ensures
            r.wf(),
            r.spec_document() == source_map,
            r.spec_index() is None,
            !r.spec_spans_computed(),
            r.spec_map_url() == view_opt(source_map_url),
            r.spec_sources().elements() == add_all_elements(
                resolved_sources(
                    source_map.sources@.map_values(|s: String| s@),
                    view_opt(source_map.source_root),
                    view_opt(source_map_url),
                ),
                true,
            ),
            forall|v: Seq<char>| #[trigger] r.spec_sources().spec_index_of(v) == add_all_lookup(
                resolved_sources(
                    source_map.sources@.map_values(|s: String| s@),
                    view_opt(source_map.source_root),
                    view_opt(source_map_url),
                ),
                v,
                true,
            ),
            r.spec_sources().elements().len() == source_map.sources@.len(),
    {
        let absolute_sources = build_absolute_sources(
            &source_map.sources,
            &source_map.source_root,
            &source_map_url,
        );
        proof {
            crate::array_set::lemma_add_all_len_true(
                resolved_sources(
                    source_map.sources@.map_values(|s: String| s@),
                    view_opt(source_map.source_root),
                    view_opt(source_map_url),
                ),
            );
        }
        BasicConsumer {
            source_map,
            source_lookup_cache: Vec::new(),
            absolute_sources,
            source_map_url,
            mappings: None,
            computed_column_spans: false,
        }
    }

    /// A consumer for an already-parsed document.
    pub fn from_source_map_json(source_map: SourceMapJson) -> (r: Self)
        requires
            vstd::utf8::encode_utf8(source_map.mappings@).len() <= 0x7fff_0000,
            source_map.sources@.len() <= 0x7fff_0000,
        ensures
            r.wf(),
            r.spec_document() == source_map,
            r.spec_index() is None,
            !r.spec_spans_computed(),
            r.spec_map_url() is None,
            r.spec_sources().elements() == add_all_elements(
                resolved_sources(
                    source_map.sources@.map_values(|s: String| s@),
                    view_opt(source_map.source_root),
                    Option::None,
                ),
                true,
            ),
            forall|v: Seq<char>| #[trigger] r.spec_sources().spec_index_of(v) == add_all_lookup(
                resolved_sources(
                    source_map.sources@.map_values(|s: String| s@),
                    view_opt(source_map.source_root),
                    Option::None,
                ),
                v,
                true,
            ),
            r.spec_sources().elements().len() == source_map.sources@.len(),
    {
        Self::from_source_map_json_with_url(source_map, None)
    }

    /// Whether column spans were computed on this consumer.
    pub fn column_spans_computed(&self) -> (r: bool)
        ensures
            r == self.spec_spans_computed(),
    {
        self.computed_column_spans
    }

    /// The resolved source identifiers, under the indices queries report.
    pub fn get_sources(&self) -> (r: Vec<String>)
        requires
            self.wf(),
        ensures
            r@.len() == self.spec_sources().elements().len(),
            forall|i: int|
                0 <= i < r@.len() ==> #[trigger] r@[i]@ == self.spec_sources().elements()[i],
    {
        self.absolute_sources.to_vec()
    }

    /// Decodes the mapping stream into the index if that has not happened
    /// yet: the error surfaces here, at the first query that needs it.
    pub fn decode_mappings(&mut self) -> (r: Result<(), DecodeError>)
        requires
            old(self).wf(),
        ensures
            final(self).wf(),
            final(self).spec_document() == old(self).spec_document(),
            final(self).spec_sources() == old(self).spec_sources(),
            final(self).spec_map_url() == old(self).spec_map_url(),
            final(self).spec_spans_computed() == old(self).spec_spans_computed(),
            final(self).index_linked(),
            r is Ok ==> final(self).spec_index() is Some,
            r is Err <==> old(self).spec_index() is None
                && crate::mapping_index::parse_mappings_spec(old(self).mapping_bytes()) is Err,
            old(self).spec_index() is Some ==> *final(self) == *old(self) && r is Ok,
            old(self).spec_index() is None ==> match crate::mapping_index::parse_mappings_spec(
                old(self).mapping_bytes(),
            ) {
                Ok(v) => {
                    &&& r is Ok
                    &&& final(self).spec_index() matches Some(ix)
                    &&& ix.entries().to_multiset() == v.to_multiset()
                    &&& !ix.spans_computed()
                },
                Err(e) => r == Err::<(), DecodeError>(e) && *final(self) == *old(self),
            },
    {
        if self.mappings.is_some() {
            return Ok(());
        }
        let bytes = self.source_map.mappings.as_str().as_bytes_vec();
        match MappingIndex::decode_stream(&bytes) {
            Ok(ix) => {
                proof {
                    crate::mapping_index::lemma_parse_spec_count(bytes@);
                }
                self.mappings = Some(ix);
                Ok(())
            },
            Err(e) => Err(e),
        }
    }

    /// The entry the decoded index holds nearest to a public (1-based line,
    /// 0-based column) generated position under the bias, provided it sits
    /// on the queried line; its fields translated back to the public
    /// convention with the source and name resolved.
    #[verifier::rlimit(100)]
    pub fn original_position_for(&mut self, generated: Position, bias: Option<Bias>) -> (r: Result<
        Option<Mapping>,
        DecodeError,
    >)
        requires
            old(self).wf(),
            generated.line >= 1,
            generated.column >= 0,
        ensures
            final(self).wf(),
            final(self).spec_document() == old(self).spec_document(),
            final(self).spec_sources() == old(self).spec_sources(),
            final(self).spec_spans_computed() == old(self).spec_spans_computed(),
            final(self).index_linked(),
            old(self).spec_index() is Some ==> final(self).spec_index() == old(self).spec_index(),
            r is Err <==> old(self).spec_index() is None
                && crate::mapping_index::parse_mappings_spec(old(self).mapping_bytes()) is Err,
            r is Err ==> old(self).spec_index() is None && crate::mapping_index::parse_mappings_spec(
                old(self).mapping_bytes(),
            ) == Err::<Seq<IndexEntry>, DecodeError>(r->Err_0),
            r matches Ok(res) ==> final(self).spec_index() matches Some(ix) && (exists|
                raw: Option<IndexEntry>,
            |
                {
                    &&& #[trigger] gen_query_post(
                        ix.entries(),
                        generated.line - 1,
                        generated.column as int,
                        bias_or_default(bias),
                        raw,
                    )
                    &&& match (raw, res) {
                        (Option::None, Option::None) => true,
                        (Option::Some(e), Option::None) => e.generated_line != generated.line - 1
                            || e.original is None,
                        (Option::Some(e), Option::Some(m)) => e.generated_line == generated.line
                            - 1 && e.original is Some && final(self).translated_original(e, m),
                        (Option::None, Option::Some(_)) => false,
                    }
                }),
    {
        let b = match bias {
            Some(b) => b,
            None => Bias::GreatestLowerBound,
        };
        match self.decode_mappings() {
            Ok(()) => {},
            Err(e) => {
                return Err(e);
            },
        }
        let found = match &self.mappings {
            Some(ix) => ix.original_location_for(generated.line - 1, generated.column, b),
            None => {
                proof {
                    assert(false);
                }
                None
            },
        };
        let ghost raw = found;
        let ghost ix = self.mappings->Some_0;
        proof {
            assert(b == bias_or_default(bias));
            assert(gen_query_post(
                ix.entries(),
                generated.line - 1,
                generated.column as int,
                bias_or_default(bias),
                raw,
            ));
        }
        match found {
            None => Ok(None),
            Some(e) => {
                proof {
                    let g = ix.entries();
                    ix.lemma_wf_entries_in_range();
                    assert(crate::mapping_index::entry_in_range(e)) by {
                        let wi = choose|i: int| 0 <= i < g.len() && #[trigger] g[i] == e;
                        assert(crate::mapping_index::entry_in_range(g[wi]));
                    }
                }
                if e.generated_line != generated.line - 1 {
                    return Ok(None);
                }
                match &e.original {
                    None => Ok(None),
                    Some(_) => {
                        let m = self.translate_entry(&e);
                        Ok(Some(m))
                    },
                }
            },
        }
    }

    /// How an index entry with original fields appears at the public API:
    /// lines shifted to 1-based, the source looked up in the resolved table,
    /// the name in the document's name list.
    pub open spec fn translated_original(&self, e: IndexEntry, m: Mapping) -> bool {
        &&& m.generated.line == e.generated_line + 1
        &&& m.generated.column == e.generated_column
        &&& m.original == Some(
            Position { line: (e.original->Some_0.line + 1) as i32, column: e.original->Some_0.column },
        )
        &&& view_opt(m.source) == self.source_id_at(e.original->Some_0.source as int)
        &&& view_opt(m.name) == self.name_at(e.original->Some_0.name)
        &&& m.last_generated_column == e.last_generated_column
    }

    /// The resolved source identifier at an index, or `None` out of range.
    pub open spec fn source_id_at(&self, i: int) -> Option<Seq<char>> {
        if 0 <= i < self.spec_sources().elements().len() {
            Option::Some(self.spec_sources().elements()[i])
        } else {
            Option::None
        }
    }

    /// The document name at an index, or `None` when absent or out of range.
    pub open spec fn name_at(&self, n: Option<i32>) -> Option<Seq<char>> {
        match n {
            Option::Some(i) => if 0 <= i < self.spec_document().names@.len() {
                Option::Some(self.spec_document().names@[i as int]@)
            } else {
                Option::None
            },
            Option::None => Option::None,
        }
    }

    /// Translates an entry that carries original fields into a public
    /// mapping.
    fn translate_entry(&self, e: &IndexEntry) -> (m: Mapping)
        requires
            self.wf(),
            e.original is Some,
            crate::mapping_index::entry_in_range(*e),
        ensures
            self.translated_original(*e, m),
    {
        let o = match &e.original {
            Some(o) => *o,
            None => {
                proof {
                    assert(false);
                }
                crate::mapping_index::OriginalFields { source: 0, line: 0, column: 0, name: None }
            },
        };
        let source = self.absolute_sources.at(o.source);
        let name: Option<String> = match o.name {
            Some(ni) => {
                if ni >= 0 && (ni as usize) < self.source_map.names.len() {
                    Some(self.source_map.names[ni as usize].clone())
                } else {
                    None
                }
            },
            None => None,
        };
        Mapping {
            generated: Position { line: e.generated_line + 1, column: e.generated_column },
            original: Some(Position { line: o.line + 1, column: o.column }),
            source,
            name,
            last_generated_column: e.last_generated_column,
        }
    }
}

impl BasicConsumer {
    /// Resolves a queried source name to its index in the resolved source
    /// table: first as map-relative, then as sourceRoot-relative; memoized.
    pub fn find_source_index(&mut self, source: &String) -> (r: Option<usize>)
        requires
            old(self).wf(),
        ensures
            final(self).wf(),
            final(self).spec_document() == old(self).spec_document(),
            final(self).spec_sources() == old(self).spec_sources(),
            final(self).spec_index() == old(self).spec_index(),
            final(self).spec_spans_computed() == old(self).spec_spans_computed(),
            final(self).spec_map_url() == old(self).spec_map_url(),
            r == old(self).spec_find_source(source@),
    {
        let n = self.source_lookup_cache.len();
        let mut k: usize = 0;
        while k < n
            invariant
                self.wf(),
                n == self.source_lookup_cache@.len(),
                0 <= k <= n,
            decreases n - k,
        {
            if self.source_lookup_cache[k].0.eq(source) {
                let hit = self.source_lookup_cache[k].1;
                proof {
                    assert(Some(self.source_lookup_cache@[k as int].1) == self.spec_find_source(
                        self.source_lookup_cache@[k as int].0@,
                    ));
                }
                return Some(hit);
            }
            k = k + 1;
        }
        let url_ref: Option<&str> = match &self.source_map_url {
            Some(s) => Some(s.as_str()),
            None => None,
        };
        let as_map_relative = crate::util::compute_source_url(None, source.as_str(), url_ref);
        let map_hit: Option<usize> = match &as_map_relative {
            Some(u) => self.absolute_sources.index_of(u),
            None => None,
        };
        let found: Option<usize> = match map_hit {
            Some(i) => Some(i),
            None => {
                let root_ref: Option<&str> = match &self.source_map.source_root {
                    Some(s) => Some(s.as_str()),
                    None => None,
                };
                let as_root_relative = crate::util::compute_source_url(
                    root_ref,
                    source.as_str(),
                    url_ref,
                );
                match &as_root_relative {
                    Some(u) => self.absolute_sources.index_of(u),
                    None => None,
                }
            },
        };
        match found {
            Some(i) => {
                self.source_lookup_cache.push((source.clone(), i));
                proof {
                    assert forall|j: int|
                        0 <= j < self.source_lookup_cache@.len() implies Some(
                        (#[trigger] self.source_lookup_cache@[j]).1,
                    ) == self.spec_find_source(self.source_lookup_cache@[j].0@) by {
                        if j < old(self).source_lookup_cache@.len() {
                            assert(self.source_lookup_cache@[j] == old(
                                self,
                            ).source_lookup_cache@[j]);
                        }
                    }
                }
                Some(i)
            },
            None => None,
        }
    }

    /// How an entry answers a generated-position query at the public API:
    /// both lines shifted to 1-based, the source and name resolved, and an
    /// absent span reported as the sentinel -1 once spans were computed.
    pub open spec fn translated_generated(&self, e: IndexEntry, m: Mapping) -> bool {
        &&& m.generated.line == e.generated_line + 1
        &&& m.generated.column == e.generated_column
        &&& m.original == Some(
            Position {
                line: (e.original->Some_0.line + 1) as i32,
                column: e.original->Some_0.column,
            },
        )
        &&& view_opt(m.source) == self.source_id_at(e.original->Some_0.source as int)
        &&& view_opt(m.name) == self.name_at(e.original->Some_0.name)
        &&& m.last_generated_column == (if self.spec_spans_computed()
            && e.last_generated_column is None {
            Some(-1i32)
        } else {
            e.last_generated_column
        })
    }

    /// The entry nearest to a 0-based original position in the resolved
    /// source under the bias, provided its source is the queried one; absent
    /// spans become the sentinel -1 once spans were computed.
    #[verifier::rlimit(100)]
    pub fn generated_position_for(
        &mut self,
        source: &String,
        original_line: i32,
        original_column: i32,
        bias: Option<Bias>,
    ) -> (r: Result<Option<Mapping>, DecodeError>)
        requires
            old(self).wf(),
            original_line >= 1,
            original_column >= 0,
        ensures
            final(self).wf(),
            final(self).spec_document() == old(self).spec_document(),
            final(self).spec_sources() == old(self).spec_sources(),
            final(self).spec_spans_computed() == old(self).spec_spans_computed(),
            final(self).index_linked(),
            old(self).spec_index() is Some ==> final(self).spec_index() == old(self).spec_index(),
            r is Err <==> old(self).spec_find_source(source@) is Some && old(self).spec_index()
                is None && crate::mapping_index::parse_mappings_spec(old(self).mapping_bytes())
                is Err,
            r is Err ==> old(self).spec_index() is None && crate::mapping_index::parse_mappings_spec(
                old(self).mapping_bytes(),
            ) == Err::<Seq<IndexEntry>, DecodeError>(r->Err_0),
            old(self).spec_find_source(source@) is None ==> r == Ok::<
                Option<Mapping>,
                DecodeError,
            >(None),
            r matches Ok(res) ==> (old(self).spec_find_source(source@) matches Some(si)
                ==> final(self).spec_index() matches Some(ix) && (exists|raw: Option<IndexEntry>|
                {
                    &&& #[trigger] orig_query_post(
                        ix.originals(),
                        si as int,
                        original_line - 1,
                        original_column as int,
                        bias_or_default(bias),
                        raw,
                    )
                    &&& match (raw, res) {
                        (Option::None, Option::None) => true,
                        (Option::Some(e), Option::None) => e.original->Some_0.source != si as i32,
                        (Option::Some(e), Option::Some(m)) => e.original->Some_0.source
                            == si as i32 && final(self).translated_generated(e, m),
                        (Option::None, Option::Some(_)) => false,
                    }
                })),
    {
        let b = match bias {
            Some(b) => b,
            None => Bias::GreatestLowerBound,
        };
        let si = match self.find_source_index(source) {
            Some(i) => i,
            None => {
                return Ok(None);
            },
        };
        match self.decode_mappings() {
            Ok(()) => {},
            Err(e) => {
                return Err(e);
            },
        }
        proof {
            lemma_find_source_in_range(old(self), source@);
        }
        let si32 = si as i32;
        let found = match &self.mappings {
            Some(ix) => ix.generated_location_for(si32, original_line - 1, original_column, b),
            None => {
                proof {
                    assert(false);
                }
                None
            },
        };
        let ghost raw = found;
        let ghost ix = self.mappings->Some_0;
        proof {
            assert(b == bias_or_default(bias));
            assert(orig_query_post(
                ix.originals(),
                si as int,
                original_line - 1,
                original_column as int,
                bias_or_default(bias),
                raw,
            ));
        }
        match found {
            None => Ok(None),
            Some(e) => {
                proof {
                    let g = ix.originals();
                    ix.lemma_wf_entries_in_range();
                    assert(crate::mapping_index::entry_in_range(e)) by {
                        let wi = choose|i: int| 0 <= i < g.len() && #[trigger] g[i] == e;
                        assert(crate::mapping_index::entry_in_range(g[wi]));
                    }
                }
                let o = match &e.original {
                    Some(o) => *o,
                    None => {
                        proof {
                            assert(false);
                        }
                        crate::mapping_index::OriginalFields {
                            source: 0,
                            line: 0,
                            column: 0,
                            name: None,
                        }
                    },
                };
                if o.source != si32 {
                    return Ok(None);
                }
                let last = if self.computed_column_spans && e.last_generated_column.is_none() {
                    Some(-1i32)
                } else {
                    e.last_generated_column
                };
                let source_str = self.absolute_sources.at(o.source);
                let name: Option<String> = match o.name {
                    Some(ni) => {
                        if ni >= 0 && (ni as usize) < self.source_map.names.len() {
                            Some(self.source_map.names[ni as usize].clone())
                        } else {
                            None
                        }
                    },
                    None => None,
                };
                Ok(
                    Some(
                        Mapping {
                            generated: Position {
                                line: e.generated_line + 1,
                                column: e.generated_column,
                            },
                            original: Some(Position { line: o.line + 1, column: o.column }),
                            source: source_str,
                            name,
                            last_generated_column: last,
                        },
                    ),
                )
            },
        }
    }

    /// Every entry on the resolved source and 0-based original line, at or
    /// past the original column when one is given; empty when the source
    /// does not resolve.
    pub fn all_generated_position_for(
        &mut self,
        source: &String,
        original_line: i32,
        original_column: Option<i32>,
    ) -> (r: Result<Vec<IndexEntry>, DecodeError>)
        requires
            old(self).wf(),
            original_line >= 1,
            (original_column matches Some(c) ==> c >= 0),
        ensures
            final(self).wf(),
            final(self).spec_document() == old(self).spec_document(),
            final(self).spec_sources() == old(self).spec_sources(),
            final(self).spec_spans_computed() == old(self).spec_spans_computed(),
            final(self).index_linked(),
            old(self).spec_index() is Some ==> final(self).spec_index() == old(self).spec_index(),
            r is Err <==> old(self).spec_find_source(source@) is Some && old(self).spec_index()
                is None && crate::mapping_index::parse_mappings_spec(old(self).mapping_bytes())
                is Err,
            r is Err ==> old(self).spec_index() is None && crate::mapping_index::parse_mappings_spec(
                old(self).mapping_bytes(),
            ) == Err::<Seq<IndexEntry>, DecodeError>(r->Err_0),
            old(self).spec_find_source(source@) is None ==> (r matches Ok(v) && v@ =~= Seq::<
                IndexEntry,
            >::empty()),
            r matches Ok(v) ==> (old(self).spec_find_source(source@) matches Some(si)
                ==> final(self).spec_index() matches Some(ix)
                && v@ == crate::mapping_index::matching_originals(
                ix.originals(),
                si as i32,
                (original_line - 1) as i32,
                Some(
                    match original_column {
                        Option::Some(c) => c,
                        Option::None => 0,
                    },
                ),
            )),
    {
        let col: i32 = match original_column {
            Some(c) => c,
            None => 0,
        };
        let si = match self.find_source_index(source) {
            Some(i) => i,
            None => {
                return Ok(Vec::new());
            },
        };
        match self.decode_mappings() {
            Ok(()) => {},
            Err(e) => {
                return Err(e);
            },
        }
        proof {
            lemma_find_source_in_range(old(self), source@);
        }
        let si32 = si as i32;
        match &self.mappings {
            Some(ix) => Ok(
                ix.all_generated_locations_for(si32, original_line - 1, Some(col)),
            ),
            None => {
                proof {
                    assert(false);
                }
                Ok(Vec::new())
            },
        }
    }

    /// Fills in the column spans, once; a second call changes nothing.
    pub fn compute_column_spans(&mut self) -> (r: Result<(), DecodeError>)
        requires
            old(self).wf(),
        ensures
            final(self).wf(),
            final(self).spec_document() == old(self).spec_document(),
            final(self).spec_sources() == old(self).spec_sources(),
            final(self).index_linked(),
            old(self).spec_spans_computed() ==> *final(self) == *old(self) && r is Ok,
            r is Err <==> !old(self).spec_spans_computed() && old(self).spec_index() is None
                && crate::mapping_index::parse_mappings_spec(old(self).mapping_bytes()) is Err,
            r is Err ==> old(self).spec_index() is None && crate::mapping_index::parse_mappings_spec(
                old(self).mapping_bytes(),
            ) == Err::<Seq<IndexEntry>, DecodeError>(r->Err_0) && *final(self) == *old(self),
            r is Ok ==> final(self).spec_spans_computed() && final(self).spec_index() is Some,
            r is Ok && !old(self).spec_spans_computed() && old(self).spec_index() is Some
                ==> (final(self).spec_index() matches Some(ix)
                && ix.entries() == crate::mapping_index::spanned(
                    old(self).spec_index()->Some_0.entries())),
    {
        if self.computed_column_spans {
            return Ok(());
        }
        match self.decode_mappings() {
            Ok(()) => {},
            Err(e) => {
                return Err(e);
            },
        }
        match &mut self.mappings {
            Some(ix) => {
                ix.compute_column_spans();
            },
            None => {
                proof {
                    assert(false);
                }
            },
        }
        self.computed_column_spans = true;
        Ok(())
    }

    /// Whether the document carries content for at least as many sources as
    /// it names.
    pub fn has_contents_of_all_sources(&self) -> (r: bool)
        ensures
            r == match self.spec_document().sources_content {
                Option::Some(s) => s@.len() >= self.spec_document().sources@.len(),
                Option::None => false,
            },
    {
        match &self.source_map.sources_content {
            Some(s) => s.len() >= self.source_map.sources.len(),
            None => false,
        }
    }

    /// The stored content of a source: `None` when the document has no
    /// content array or the index is out of range, `SourceNotFound` when the
    /// source does not resolve and the caller asked missing sources to fail
    /// (the default).
    pub fn source_content_for(&mut self, source: &String, fail_on_missing: Option<bool>) -> (r:
        Result<Option<String>, crate::errors::SourceError>)
        requires
            old(self).wf(),
        ensures
            final(self).wf(),
            final(self).spec_document() == old(self).spec_document(),
            final(self).spec_sources() == old(self).spec_sources(),
            final(self).spec_index() == old(self).spec_index(),
            final(self).spec_spans_computed() == old(self).spec_spans_computed(),
            ({
                let contents = old(self).spec_document().sources_content;
                let hit = old(self).spec_find_source(source@);
                let fail = match fail_on_missing {
                    Option::Some(f) => f,
                    Option::None => true,
                };
                match contents {
                    Option::None => r == Ok::<Option<String>, crate::errors::SourceError>(None),
                    Option::Some(cs) => match hit {
                        Option::Some(i) => if i < cs@.len() {
                            r matches Ok(v) && view_opt(v) == Some(cs@[i as int]@)
                        } else {
                            r == Ok::<Option<String>, crate::errors::SourceError>(None)
                        },
                        Option::None => if fail {
                            r == Err::<Option<String>, crate::errors::SourceError>(
                                crate::errors::SourceError::SourceNotFound,
                            )
                        } else {
                            r == Ok::<Option<String>, crate::errors::SourceError>(None)
                        },
                    },
                }
            }),
    {
        if self.source_map.sources_content.is_none() {
            return Ok(None);
        }
        let fail = match fail_on_missing {
            Some(f) => f,
            None => true,
        };
        let hit = self.find_source_index(source);
        match hit {
            Some(i) => {
                match &self.source_map.sources_content {
                    Some(cs) => {
                        if i < cs.len() {
                            Ok(Some(cs[i].clone()))
                        } else {
                            Ok(None)
                        }
                    },
                    None => {
                        proof {
                            assert(false);
                        }
                        Ok(None)
                    },
                }
            },
            None => {
                if fail {
                    Err(crate::errors::SourceError::SourceNotFound)
                } else {
                    Ok(None)
                }
            },
        }
    }
}

impl BasicConsumer {
    /// Every decoded entry, in the asked-for order: the generated-position
    /// table or the original-position table (entries without original
    /// fields appear only in the former).  Decodes on first use.
    pub fn each_mapping_entries(&mut self, ord: IterOrd) -> (r: Result<
        Vec<IndexEntry>,
        DecodeError,
    >)
        requires
            old(self).wf(),
        ensures
            final(self).wf(),
            final(self).spec_document() == old(self).spec_document(),
            final(self).spec_sources() == old(self).spec_sources(),
            final(self).spec_spans_computed() == old(self).spec_spans_computed(),
            final(self).index_linked(),
            old(self).spec_index() is Some ==> final(self).spec_index() == old(self).spec_index(),
            r is Err <==> old(self).spec_index() is None
                && crate::mapping_index::parse_mappings_spec(old(self).mapping_bytes()) is Err,
            r matches Ok(v) ==> final(self).spec_index() matches Some(ix) && v@ == (match ord {
                IterOrd::GeneratedOrd => ix.entries(),
                IterOrd::OriginalOrd => ix.originals(),
            }),
    {
        match self.decode_mappings() {
            Ok(()) => {},
            Err(e) => {
                return Err(e);
            },
        }
        match &self.mappings {
            Some(ix) => match ord {
                IterOrd::GeneratedOrd => Ok(ix.by_generated_location()),
                IterOrd::OriginalOrd => Ok(ix.by_original_location()),
            },
            None => {
                proof {
                    assert(false);
                }
                Ok(Vec::new())
            },
        }
    }
}

/// A resolved source index points into the source table, which the document
/// keeps inside the 32-bit query range.
pub proof fn lemma_find_source_in_range(c: &BasicConsumer, source: Seq<char>)
    requires
        c.wf(),
        c.spec_find_source(source) is Some,
    ensures
        c.spec_find_source(source)->Some_0 < 0x7fff_0000,
{
    let hit = c.spec_find_source(source);
    let map_rel = crate::util::compute_source_url_spec(Option::None, source, c.spec_map_url());
    let map_hit = match map_rel {
        Option::Some(u) => c.spec_sources().spec_index_of(u),
        Option::None => Option::None::<usize>,
    };
    if map_hit is Some {
        c.spec_sources().lemma_index_of_range(map_rel->Some_0);
    } else {
        let root_rel = crate::util::compute_source_url_spec(
            view_opt(c.spec_document().source_root),
            source,
            c.spec_map_url(),
        );
        c.spec_sources().lemma_index_of_range(root_rel->Some_0);
    }
}

/// The order on positions: by line, then column.
pub open spec fn pos_cmp(a: Position, b: Position) -> int {
    if a.line != b.line {
        crate::util::sign(a.line - b.line)
    } else {
        crate::util::sign(a.column - b.column)
    }
}

/// One section of an indexed consumer: a basic consumer answering for the
/// part of the generated text that starts at the 1-based offset.
pub struct Section {
    /// Where the section's generated text starts, 1-based in both axes.
    pub generated_offset: Position,
    /// The consumer over the section's own document.
    pub consumer: BasicConsumer,
}

/// The position queries of a section resolve against: the section's offset
/// as stored, 1-based.
pub open spec fn offset_of(s: Section) -> Position {
    s.generated_offset
}

/// A section-offset needle comparator: a queried 1-based position against a
/// section's 1-based offset.
struct SectionNeedleComparator;

impl Comparator<Position, Section> for SectionNeedleComparator {
    open spec fn cmp_spec(&self, a: &Position, b: &Section) -> int {
        pos_cmp(*a, b.generated_offset)
    }

    fn compare(&self, a: &Position, b: &Section) -> (r: i32)
        ensures
            r > 0 <==> self.cmp_spec(a, b) > 0,
            r < 0 <==> self.cmp_spec(a, b) < 0,
    {
        if a.line != b.generated_offset.line {
            if a.line < b.generated_offset.line {
                -1
            } else {
                1
            }
        } else if a.column != b.generated_offset.column {
            if a.column < b.generated_offset.column {
                -1
            } else {
                1
            }
        } else {
            0
        }
    }
}

/// The order of sections by their generated offsets.
struct SectionComparator;

impl Comparator<Section, Section> for SectionComparator {
    open spec fn cmp_spec(&self, a: &Section, b: &Section) -> int {
        pos_cmp(a.generated_offset, b.generated_offset)
    }

    fn compare(&self, a: &Section, b: &Section) -> (r: i32)
        ensures
            r > 0 <==> self.cmp_spec(a, b) > 0,
            r < 0 <==> self.cmp_spec(a, b) < 0,
    {
        if a.generated_offset.line != b.generated_offset.line {
            if a.generated_offset.line < b.generated_offset.line {
                -1
            } else {
                1
            }
        } else if a.generated_offset.column != b.generated_offset.column {
            if a.generated_offset.column < b.generated_offset.column {
                -1
            } else {
                1
            }
        } else {
            0
        }
    }
}

/// The queried position translated into a section's local frame: the line
/// relative to the section's first line, and the column shifted only on that
/// first line.
pub open spec fn local_position(p: Position, off: Position) -> Position {
    Position {
        line: (p.line - (off.line - 1)) as i32,
        column: if p.line == off.line {
            (p.column - (off.column - 1)) as i32
        } else {
            p.column
        },
    }
}

/// Whether an index `si` is the section a generated-position query resolves
/// to: its offset lies at or below the position, it is the first section of
/// its offset, and no later section still at or below the position lies
/// outside its run of equal offsets.
pub open spec fn section_pick(ss: Seq<Section>, p: Position, si: int) -> bool {
    &&& 0 <= si < ss.len()
    &&& pos_cmp(p, ss[si].generated_offset) >= 0
    &&& (si == 0 || pos_cmp(ss[si].generated_offset, ss[si - 1].generated_offset) != 0)
    &&& exists|m: int|
        #![trigger ss[m]]
        {
            &&& si <= m < ss.len()
            &&& (forall|k: int|
                si < k <= m ==> pos_cmp(
                    (#[trigger] ss[k]).generated_offset,
                    ss[k - 1].generated_offset,
                ) == 0)
            &&& {
                ||| pos_cmp(p, ss[m].generated_offset) == 0
                ||| (pos_cmp(p, ss[m].generated_offset) > 0 && (m + 1 == ss.len() || pos_cmp(
                    p,
                    ss[m + 1].generated_offset,
                ) < 0))
            }
        }
}

/// A consumer over an ordered list of sections, each wrapping a basic
/// consumer at a generated-position offset.
pub struct IndexedConsumer {
    /// The document this consumer was built from, its sections moved into
    /// the section list.
    pub source_map: SourceMapJson,
    sections: Vec<Section>,
}

impl IndexedConsumer {
    /// The document this consumer was built from, as a specification value.
    pub closed spec fn spec_document(&self) -> SourceMapJson {
        self.source_map
    }

    /// The section list, in document order.
    pub closed spec fn spec_sections(&self) -> Seq<Section> {
        self.sections@
    }

    /// Well-formed: every section's consumer is well-formed, offsets are
    /// 1-based and non-decreasing by line then column, and small enough for
    /// the translation arithmetic.
    pub closed spec fn wf(&self) -> bool {
        &&& forall|i: int|
            0 <= i < self.sections@.len() ==> (#[trigger] self.sections@[i]).consumer.wf()
        &&& forall|i: int|
            0 <= i < self.sections@.len() ==> 1 <= (
            #[trigger] self.sections@[i]).generated_offset.line <= 0x7fff_0000 && 1
                <= self.sections@[i].generated_offset.column <= 0x7fff_0000
        &&& forall|i: int, j: int|
            0 <= i <= j < self.sections@.len() ==> pos_cmp(
                (#[trigger] self.sections@[i]).generated_offset,
                (#[trigger] self.sections@[j]).generated_offset,
            ) <= 0
        &&& self.sections@.len() <= 0x7fff_0000
    }

    /// A consumer for an already-parsed indexed document.  Fails exactly on
    /// an unsupported version, a missing section list, a section with a
    /// `url`, or section offsets out of order; otherwise each section wraps
    /// a fresh basic consumer at its document offset shifted to 1-based.
    #[verifier::rlimit(100)]
    #[verifier::spinoff_prover]
    pub fn from_source_map_json(source_map: SourceMapJson) -> (r: Result<
        IndexedConsumer,
        DocumentError,
    >)
        requires
            source_map.sections matches Some(ss) ==> forall|i: int|
                0 <= i < ss@.len() ==> vstd::utf8::encode_utf8(
                    (#[trigger] ss@[i]).map.mappings@,
                ).len() <= 0x7fff_0000 && ss@[i].map.sources@.len() <= 0x7fff_0000 && 0
                    <= ss@[i].offset.line < 0x7fff_0000 && 0 <= ss@[i].offset.column
                    < 0x7fff_0000,
            source_map.sections matches Some(ss) ==> ss@.len() <= 0x7fff_0000,
        ensures
            r is Err <==> source_map.version != 3 || source_map.sections is None || (exists|i: int|
                0 <= i < source_map.sections->Some_0@.len() && (
                #[trigger] source_map.sections->Some_0@[i]).url is Some) || (exists|i: int|
                0 < i < source_map.sections->Some_0@.len() && pos_cmp(
                    (#[trigger] source_map.sections->Some_0@[i]).offset,
                    source_map.sections->Some_0@[i - 1].offset,
                ) < 0),
            r matches Ok(c) ==> source_map.sections is Some && {
                &&& c.wf()
                &&& c.spec_sections().len() == source_map.sections->Some_0@.len()
                &&& forall|i: int|
                    0 <= i < source_map.sections->Some_0@.len() ==> {
                        let sec = #[trigger] c.spec_sections()[i];
                        &&& sec.generated_offset.line == source_map.sections->Some_0@[i].offset.line
                            + 1
                        &&& sec.generated_offset.column
                            == source_map.sections->Some_0@[i].offset.column + 1
                        &&& sec.consumer.spec_document() == *source_map.sections->Some_0@[i].map
                        &&& sec.consumer.spec_index() is None
                        &&& !sec.consumer.spec_spans_computed()
                    }
            },
    {
        if source_map.version != 3 {
            return Err(DocumentError::UnsupportedVersion);
        }
        let SourceMapJson { version, sources, names, mappings, file, source_root, sources_content, sections } =
            source_map;
        let mut section_docs = match sections {
            Some(ss) => ss,
            None => {
                return Err(DocumentError::SectionsMissing);
            },
        };
        let ghost ss0 = section_docs@;
        proof {
            assert(source_map.sections matches Some(v) && v@ == ss0);
        }
        let n = section_docs.len();
        let mut built: Vec<Section> = Vec::new();
        let mut i: usize = 0;
        while i < n
            invariant
                n == ss0.len() <= 0x7fff_0000,
                0 <= i <= n,
                source_map.sections is Some && source_map.sections->Some_0@ == ss0,
                section_docs@ == ss0.skip(i as int),
                built@.len() == i,
                forall|k: int|
                    0 <= k < ss0.len() ==> vstd::utf8::encode_utf8(
                        (#[trigger] ss0[k]).map.mappings@,
                    ).len() <= 0x7fff_0000 && ss0[k].map.sources@.len() <= 0x7fff_0000 && 0
                        <= ss0[k].offset.line < 0x7fff_0000 && 0 <= ss0[k].offset.column
                        < 0x7fff_0000,
                forall|k: int| 0 <= k < i ==> (#[trigger] ss0[k]).url is None,
                forall|k: int|
                    0 < k < i ==> pos_cmp((#[trigger] ss0[k]).offset, ss0[k - 1].offset) >= 0,
                forall|k: int|
                    0 <= k < i ==> {
                        let sec = #[trigger] built@[k];
                        &&& sec.generated_offset.line == ss0[k].offset.line + 1
                        &&& sec.generated_offset.column == ss0[k].offset.column + 1
                        &&& sec.consumer.spec_document() == *ss0[k].map
                        &&& sec.consumer.spec_index() is None
                        &&& !sec.consumer.spec_spans_computed()
                        &&& sec.consumer.wf()
                    },
            decreases n - i,
        {
            let sec = section_docs.remove(0);
            proof {
                assert(section_docs@ =~= ss0.skip(i as int + 1));
                assert(ss0.skip(i as int)[0] == ss0[i as int]);
            }
            if i > 0 {
                let prev = &built[i - 1];
                let cur = &sec.offset;
                let decreasing = cur.line + 1 < prev.generated_offset.line || (cur.line + 1
                    == prev.generated_offset.line && cur.column + 1 < prev.generated_offset.column);
                if decreasing {
                    proof {
                        let ssv = source_map.sections->Some_0@;
                        assert(ssv == ss0);
                        assert({
                            let k = i as int;
                            0 < k < ssv.len() && pos_cmp(ssv[k].offset, ssv[k - 1].offset) < 0
                        });
                        assert(exists|k: int|
                            0 < k < ssv.len() && pos_cmp(
                                (#[trigger] ssv[k]).offset,
                                ssv[k - 1].offset,
                            ) < 0);
                    }
                    return Err(DocumentError::UnorderedSectionOffsets);
                }
            }
            let built_sec = match Section::build(sec) {
                Ok(s) => s,
                Err(e) => {
                    proof {
                        let ssv = source_map.sections->Some_0@;
                        assert(ssv == ss0);
                        assert({
                            let k = i as int;
                            0 <= k < ssv.len() && ssv[k].url is Some
                        });
                        assert(exists|k: int|
                            0 <= k < ssv.len() && (#[trigger] ssv[k]).url is Some);
                    }
                    return Err(e);
                },
            };
            built.push(built_sec);
            i = i + 1;
        }
        proof {
            assert forall|x: int, y: int|
                0 <= x <= y < built@.len() implies pos_cmp(
                (#[trigger] built@[x]).generated_offset,
                (#[trigger] built@[y]).generated_offset,
            ) <= 0 by {
                lemma_offsets_sorted(built@, ss0, x, y);
            }
            let ssv = source_map.sections->Some_0@;
            assert(ssv == ss0);
            assert forall|k: int| 0 <= k < ssv.len() implies !((#[trigger] ssv[k]).url
                is Some) by {
                assert(ss0[k].url is None);
            }
            assert forall|k: int|
                0 < k < ssv.len() implies !(pos_cmp((#[trigger] ssv[k]).offset, ssv[k - 1].offset)
                < 0) by {
                assert(pos_cmp(ss0[k].offset, ss0[k - 1].offset) >= 0);
            }
        }
        Ok(
            IndexedConsumer {
                source_map: SourceMapJson {
                    version,
                    sources,
                    names,
                    mappings,
                    file,
                    source_root,
                    sources_content,
                    sections: None,
                },
                sections: built,
            },
        )
    }

    /// The section whose offset run owns a generated position, or -1 when
    /// the position lies before every section.
    #[verifier::rlimit(100)]
    #[verifier::spinoff_prover]
    fn find_section(&self, needle: Position) -> (r: i32)
        requires
            forall|i: int, j: int|
                0 <= i <= j < self.spec_sections().len() ==> pos_cmp(
                    (#[trigger] self.spec_sections()[i]).generated_offset,
                    (#[trigger] self.spec_sections()[j]).generated_offset,
                ) <= 0,
            self.spec_sections().len() <= 0x7fff_0000,
        ensures
            -1 <= r < self.spec_sections().len(),
            r == -1 ==> forall|i: int|
                0 <= i < self.spec_sections().len() ==> pos_cmp(
                    needle,
                    (#[trigger] self.spec_sections()[i]).generated_offset,
                ) < 0,
            r >= 0 ==> section_pick(self.spec_sections(), needle, r as int),
    {
        proof {
            lemma_section_search_pre(self.sections@, needle);
        }
        let found = crate::binary_search::search(
            needle,
            &self.sections,
            SectionNeedleComparator,
            SectionComparator,
            Some(Bias::GreatestLowerBound),
        );
        proof {
            let c1 = SectionNeedleComparator;
            let c2 = SectionComparator;
            let h = self.sections@;
            if found < 0 {
                assert forall|i: int| 0 <= i < h.len() implies pos_cmp(
                    needle,
                    (#[trigger] h[i]).generated_offset,
                ) < 0 by {
                    assert(c1.cmp_spec(&needle, &h[i]) < 0);
                }
            } else {
                let rr = found as int;
                let m0 = choose|m: int|
                    #![trigger c1.cmp_spec(&needle, &h[m])]
                    {
                        &&& rr <= m < h.len()
                        &&& (forall|k: int|
                            rr < k <= m ==> #[trigger] c2.cmp_spec(&h[k], &h[k - 1]) == 0)
                        &&& {
                            ||| c1.cmp_spec(&needle, &h[m]) == 0
                            ||| (c1.cmp_spec(&needle, &h[m]) > 0 && (m + 1 == h.len()
                                || c1.cmp_spec(&needle, &h[m + 1]) < 0))
                        }
                    };
                assert forall|k: int|
                    rr < k <= m0 implies pos_cmp(
                    (#[trigger] h[k]).generated_offset,
                    h[k - 1].generated_offset,
                ) == 0 by {
                    assert(c2.cmp_spec(&h[k], &h[k - 1]) == 0);
                }
                assert(rr == 0 || pos_cmp(h[rr].generated_offset, h[rr - 1].generated_offset)
                    != 0) by {
                    if rr > 0 && c2.cmp_spec(&h[rr], &h[rr - 1]) != 0 {
                        assert(pos_cmp(h[rr].generated_offset, h[rr - 1].generated_offset) != 0);
                    }
                }
                assert(section_pick(h, needle, rr));
            }
        }
        found
    }

    /// The section owning a generated position answers the query in its own
    /// frame — the line made relative to the section's first line, the
    /// column shifted only on that first line — and the answer is lifted
    /// back into the global frame.  `None` when the position lies before
    /// every section.
    #[verifier::rlimit(100)]
    #[verifier::spinoff_prover]
    pub fn original_position_for(&mut self, generated: Position, bias: Option<Bias>) -> (r: Result<
        Option<Mapping>,
        DecodeError,
    >)
        requires
            old(self).wf(),
            generated.line >= 1,
            generated.column >= 0,
        ensures
            final(self).wf(),
            final(self).spec_sections().len() == old(self).spec_sections().len(),
            final(self).spec_document() == old(self).spec_document(),
            (forall|i: int|
                0 <= i < old(self).spec_sections().len() ==> pos_cmp(
                    generated,
                    (#[trigger] old(self).spec_sections()[i]).generated_offset,
                ) < 0) ==> r == Ok::<Option<Mapping>, DecodeError>(None) && *final(self) == *old(
                self,
            ),
            !(forall|i: int|
                0 <= i < old(self).spec_sections().len() ==> pos_cmp(
                    generated,
                    (#[trigger] old(self).spec_sections()[i]).generated_offset,
                ) < 0) ==> exists|si: int|
                {
                    &&& #[trigger] section_pick(old(self).spec_sections(), generated, si)
                    &&& (forall|j: int|
                        0 <= j < old(self).spec_sections().len() && j != si
                            ==> #[trigger] final(self).spec_sections()[j] == old(
                            self,
                        ).spec_sections()[j])
                    &&& final(self).spec_sections()[si].generated_offset == old(
                        self,
                    ).spec_sections()[si].generated_offset
                    &&& exists|inner: Result<Option<Mapping>, DecodeError>|
                        {
                            &&& #[trigger] basic_original_position_rel(
                                old(self).spec_sections()[si].consumer,
                                final(self).spec_sections()[si].consumer,
                                local_position(
                                    generated,
                                    old(self).spec_sections()[si].generated_offset,
                                ),
                                bias,
                                inner,
                            )
                            &&& match (inner, r) {
                                (Result::Ok(lo), Result::Ok(go)) => match (lo, go) {
                                    (Option::None, Option::None) => true,
                                    (Option::Some(lm), Option::Some(gm)) => globalized_mapping(
                                        lm,
                                        gm,
                                        old(self).spec_sections()[si].generated_offset,
                                        if si + 1 < old(self).spec_sections().len() {
                                            Option::Some(
                                                old(self).spec_sections()[si
                                                    + 1].generated_offset,
                                            )
                                        } else {
                                            Option::None
                                        },
                                        final(self).spec_sections()[si]
                                            .consumer.spec_spans_computed(),
                                    ),
                                    _ => false,
                                },
                                (Result::Err(e1), Result::Err(e2)) => e1 == e2,
                                _ => false,
                            }
                        }
                },
    {
        let needle = Position { line: generated.line, column: generated.column };
        let found = self.find_section(needle);
        if found < 0 {
            return Ok(None);
        }
        let si = found as usize;
        let offset = self.sections[si].generated_offset;
        let mut sec = self.sections.remove(si);
        let ghost sec_before = sec;
        let inner = sec.query_original(generated, bias);
        let spans = sec.consumer.column_spans_computed();
        let ghost sec_after = sec;
        self.sections.insert(si, sec);
        let next_off: Option<Position> = if si + 1 < self.sections.len() {
            Some(self.sections[si + 1].generated_offset)
        } else {
            None
        };
        proof {
            assert(self.sections@ =~= old(self).sections@.update(si as int, sec_after));
            assert forall|j: int|
                0 <= j < old(self).sections@.len() && j != si as int
                    implies #[trigger] self.sections@[j] == old(self).sections@[j] by {}
            assert(sec_before == old(self).sections@[si as int]);
            assert(offset == old(self).sections@[si as int].generated_offset);
            assert(next_off == (if si as int + 1 < old(self).sections@.len() {
                Option::Some(old(self).sections@[si as int + 1].generated_offset)
            } else {
                Option::None::<Position>
            }));
            assert(basic_original_position_rel(
                sec_before.consumer,
                sec_after.consumer,
                local_position(generated, sec_before.generated_offset),
                bias,
                inner,
            ));
            assert forall|i: int|
                0 <= i < self.sections@.len() implies (#[trigger] self.sections@[i]).consumer.wf()
                && 1 <= self.sections@[i].generated_offset.line <= 0x7fff_0000 && 1
                <= self.sections@[i].generated_offset.column <= 0x7fff_0000 by {
                if i != si as int {
                    assert(self.sections@[i] == old(self).sections@[i]);
                }
            }
            assert forall|x: int, y: int|
                0 <= x <= y < self.sections@.len() implies pos_cmp(
                (#[trigger] self.sections@[x]).generated_offset,
                (#[trigger] self.sections@[y]).generated_offset,
            ) <= 0 by {
                assert(self.sections@[x].generated_offset == old(
                    self,
                ).sections@[x].generated_offset);
                assert(self.sections@[y].generated_offset == old(
                    self,
                ).sections@[y].generated_offset);
            }
        }
        let out: Result<Option<Mapping>, DecodeError> = match inner {
            Ok(found_mapping) => match found_mapping {
                Some(m) => Ok(Some(globalize(m, offset, next_off, spans))),
                None => Ok(None),
            },
            Err(e) => Err(e),
        };
        proof {
            let gsi = si as int;
            let pre = old(self).spec_sections();
            let post = self.spec_sections();
            assert(section_pick(pre, generated, gsi));
            assert(match (inner, out) {
                (Result::Ok(lo), Result::Ok(go)) => match (lo, go) {
                    (Option::None, Option::None) => true,
                    (Option::Some(lm), Option::Some(gm)) => globalized_mapping(
                        lm,
                        gm,
                        pre[gsi].generated_offset,
                        if gsi + 1 < pre.len() {
                            Option::Some(pre[gsi + 1].generated_offset)
                        } else {
                            Option::None
                        },
                        post[gsi].consumer.spec_spans_computed(),
                    ),
                    _ => false,
                },
                (Result::Err(e1), Result::Err(e2)) => e1 == e2,
                _ => false,
            });
            assert(exists|inner2: Result<Option<Mapping>, DecodeError>|
                {
                    &&& #[trigger] basic_original_position_rel(
                        pre[gsi].consumer,
                        post[gsi].consumer,
                        local_position(generated, pre[gsi].generated_offset),
                        bias,
                        inner2,
                    )
                    &&& match (inner2, out) {
                        (Result::Ok(lo), Result::Ok(go)) => match (lo, go) {
                            (Option::None, Option::None) => true,
                            (Option::Some(lm), Option::Some(gm)) => globalized_mapping(
                                lm,
                                gm,
                                pre[gsi].generated_offset,
                                if gsi + 1 < pre.len() {
                                    Option::Some(pre[gsi + 1].generated_offset)
                                } else {
                                    Option::None
                                },
                                post[gsi].consumer.spec_spans_computed(),
                            ),
                            _ => false,
                        },
                        (Result::Err(e1), Result::Err(e2)) => e1 == e2,
                        _ => false,
                    }
                });
        }
        out
    }
}

impl Section {
    /// Builds one section: rejects a `url`, wraps the sub-document in a
    /// fresh basic consumer, and shifts the 0-based offset to 1-based.
    fn build(sec: crate::source_map::Section) -> (r: Result<Section, DocumentError>)
        requires
            vstd::utf8::encode_utf8(sec.map.mappings@).len() <= 0x7fff_0000,
            sec.map.sources@.len() <= 0x7fff_0000,
            0 <= sec.offset.line < 0x7fff_0000,
            0 <= sec.offset.column < 0x7fff_0000,
        ensures
            r is Err <==> sec.url is Some,
            r matches Ok(s) ==> {
                &&& s.generated_offset.line == sec.offset.line + 1
                &&& s.generated_offset.column == sec.offset.column + 1
                &&& s.consumer.spec_document() == *sec.map
                &&& s.consumer.spec_index() is None
                &&& !s.consumer.spec_spans_computed()
                &&& s.consumer.wf()
            },
    {
        if sec.url.is_some() {
            return Err(DocumentError::SectionUrlPresent);
        }
        let consumer = BasicConsumer::from_source_map_json(*sec.map);
        Ok(
            Section {
                generated_offset: Position {
                    line: sec.offset.line + 1,
                    column: sec.offset.column + 1,
                },
                consumer,
            },
        )
    }

    /// Answers a generated-position query in this section's local frame.
    fn query_original(&mut self, generated: Position, bias: Option<Bias>) -> (r: Result<
        Option<Mapping>,
        DecodeError,
    >)
        requires
            old(self).consumer.wf(),
            1 <= old(self).generated_offset.line <= 0x7fff_0000,
            1 <= old(self).generated_offset.column <= 0x7fff_0000,
            generated.line >= old(self).generated_offset.line,
            generated.line == old(self).generated_offset.line ==> generated.column >= old(
                self,
            ).generated_offset.column,
            generated.column >= 0,
        ensures
            final(self).consumer.wf(),
            final(self).generated_offset == old(self).generated_offset,
            basic_original_position_rel(
                old(self).consumer,
                final(self).consumer,
                local_position(generated, old(self).generated_offset),
                bias,
                r,
            ),
    {
        let offset_line = self.generated_offset.line;
        let offset_column = self.generated_offset.column;
        let local_line = generated.line - (offset_line - 1);
        let local_column = if generated.line == offset_line {
            generated.column - (offset_column - 1)
        } else {
            generated.column
        };
        self.consumer.original_position_for(
            Position { line: local_line, column: local_column },
            bias,
        )
    }
}

/// An integer clamped into the 32-bit signed range.
pub open spec fn sat_i32(v: int) -> int {
    if v > 0x7fff_ffff {
        0x7fff_ffff
    } else if v < -0x8000_0000 {
        -0x8000_0000
    } else {
        v
    }
}

/// Clamps a wide value into the 32-bit signed range.
fn clamp_i64(v: i64) -> (r: i32)
    ensures
        r == sat_i32(v as int),
{
    if v > i32::MAX as i64 {
        i32::MAX
    } else if v < i32::MIN as i64 {
        i32::MIN
    } else {
        v as i32
    }
}

/// A section's local-frame answer lifted into the global frame: the line
/// shifted by the section's offset, the column (and a present span) shifted
/// only on the section's first line, and, once spans exist, an unbounded
/// span on the next section's offset line clamped to end just before that
/// section begins.  Sums past the 32-bit range saturate.
pub open spec fn globalized_mapping(
    local: Mapping,
    g: Mapping,
    off: Position,
    next_off: Option<Position>,
    spans: bool,
) -> bool {
    &&& g.generated.line == sat_i32(local.generated.line + off.line - 1)
    &&& g.generated.column == (if local.generated.line == 1 {
        sat_i32(local.generated.column + off.column - 1)
    } else {
        local.generated.column as int
    })
    &&& g.original == local.original
    &&& g.source == local.source
    &&& g.name == local.name
    &&& ({
        let shifted = if local.generated.line == 1 {
            match local.last_generated_column {
                Option::Some(c) => Option::Some(sat_i32(c + off.column - 1) as i32),
                Option::None => Option::None,
            }
        } else {
            local.last_generated_column
        };
        g.last_generated_column == (if spans && shifted is None && (next_off matches Some(np)
            && g.generated.line == np.line) {
            Option::Some(sat_i32(next_off->Some_0.column - 2) as i32)
        } else {
            shifted
        })
    })
}

/// Lifts a section's local-frame answer into the global frame.
fn globalize(m: Mapping, off: Position, next_off: Option<Position>, spans: bool) -> (g: Mapping)
    ensures
        globalized_mapping(m, g, off, next_off, spans),
{
    let gline: i32 = clamp_i64(m.generated.line as i64 + off.line as i64 - 1);
    let gcol: i32 = if m.generated.line == 1 {
        clamp_i64(m.generated.column as i64 + off.column as i64 - 1)
    } else {
        m.generated.column
    };
    let shifted: Option<i32> = if m.generated.line == 1 {
        match m.last_generated_column {
            Some(c) => Some(clamp_i64(c as i64 + off.column as i64 - 1)),
            None => None,
        }
    } else {
        m.last_generated_column
    };
    let last: Option<i32> = if spans && shifted.is_none() {
        match next_off {
            Some(np) => {
                if np.line == gline {
                    Some(clamp_i64(np.column as i64 - 2))
                } else {
                    shifted
                }
            },
            None => shifted,
        }
    } else {
        shifted
    };
    Mapping {
        generated: Position { line: gline, column: gcol },
        original: m.original,
        source: m.source,
        name: m.name,
        last_generated_column: last,
    }
}

/// How a basic consumer's generated-to-original query relates its states,
/// its arguments and its result: the same relation
/// `BasicConsumer::original_position_for` ensures, restated so an indexed
/// consumer can promise it of the owning section.
pub open spec fn basic_original_position_rel(
    pre: BasicConsumer,
    post: BasicConsumer,
    generated: Position,
    bias: Option<Bias>,
    r: Result<Option<Mapping>, DecodeError>,
) -> bool {
    &&& post.index_linked()
    &&& post.spec_document() == pre.spec_document()
    &&& (r is Err <==> pre.spec_index() is None && crate::mapping_index::parse_mappings_spec(
        pre.mapping_bytes(),
    ) is Err)
    &&& (r matches Ok(res) ==> post.spec_index() matches Some(ix) && (exists|
        raw: Option<IndexEntry>,
    |
        {
            &&& #[trigger] gen_query_post(
                ix.entries(),
                generated.line - 1,
                generated.column as int,
                bias_or_default(bias),
                raw,
            )
            &&& match (raw, res) {
                (Option::None, Option::None) => true,
                (Option::Some(e), Option::None) => e.generated_line != generated.line - 1
                    || e.original is None,
                (Option::Some(e), Option::Some(m)) => e.generated_line == generated.line - 1
                    && e.original is Some && post.translated_original(e, m),
                (Option::None, Option::Some(_)) => false,
            }
        }))
}

/// Offsets built by shifting validated document offsets stay sorted.
proof fn lemma_offsets_sorted(built: Seq<Section>, ss0: Seq<crate::source_map::Section>, x: int, y: int)
    requires
        built.len() == ss0.len(),
        0 <= x <= y < built.len(),
        forall|k: int|
            0 <= k < built.len() ==> (#[trigger] built[k]).generated_offset.line == ss0[k].offset.line
                + 1 && built[k].generated_offset.column == ss0[k].offset.column + 1,
        forall|k: int| 0 < k < built.len() ==> pos_cmp((#[trigger] ss0[k]).offset, ss0[k - 1].offset) >= 0,
        forall|k: int|
            0 <= k < ss0.len() ==> 0 <= (#[trigger] ss0[k]).offset.line < 0x7fff_0000 && 0
                <= ss0[k].offset.column < 0x7fff_0000,
    ensures
        pos_cmp(built[x].generated_offset, built[y].generated_offset) <= 0,
    decreases y - x,
{
    if x < y {
        lemma_offsets_sorted(built, ss0, x, y - 1);
        assert(pos_cmp(ss0[y].offset, ss0[y - 1].offset) >= 0);
    }
}

/// A sorted section list is fit for a nearest-match search with a position
/// needle.
proof fn lemma_section_search_pre(h: Seq<Section>, p: Position)
    requires
        forall|i: int, j: int|
            0 <= i <= j < h.len() ==> pos_cmp(
                (#[trigger] h[i]).generated_offset,
                (#[trigger] h[j]).generated_offset,
            ) <= 0,
    ensures
        crate::binary_search::sorted_by(h, &SectionComparator),
        crate::binary_search::needle_compatible(&p, h, &SectionNeedleComparator, &SectionComparator),
{
    let c1 = SectionNeedleComparator;
    let c2 = SectionComparator;
    assert forall|i: int, j: int| 0 <= i <= j < h.len() implies #[trigger] c2.cmp_spec(
        &h[i],
        &h[j],
    ) <= 0 by {
        assert(pos_cmp(h[i].generated_offset, h[j].generated_offset) <= 0);
    }
    assert forall|i: int, j: int|
        #![trigger c1.cmp_spec(&p, &h[i]), c1.cmp_spec(&p, &h[j])]
        0 <= i <= j < h.len() implies {
        &&& (c1.cmp_spec(&p, &h[j]) > 0 ==> c1.cmp_spec(&p, &h[i]) > 0)
        &&& (c1.cmp_spec(&p, &h[i]) < 0 ==> c1.cmp_spec(&p, &h[j]) < 0)
    } by {
        assert(pos_cmp(h[i].generated_offset, h[j].generated_offset) <= 0);
    }
    assert forall|i: int, j: int|
        0 <= i < h.len() && 0 <= j < h.len() && #[trigger] c2.cmp_spec(&h[i], &h[j])
            == 0 implies {
        &&& (c1.cmp_spec(&p, &h[i]) > 0 <==> c1.cmp_spec(&p, &h[j]) > 0)
        &&& (c1.cmp_spec(&p, &h[i]) < 0 <==> c1.cmp_spec(&p, &h[j]) < 0)
    } by {
        assert(pos_cmp(h[i].generated_offset, h[j].generated_offset) == 0);
    }
}

/// A consumer of either kind: flat or sectioned.
pub enum Consumer {
    BasicConsumer(BasicConsumer),
    IndexedConsumer(IndexedConsumer),
}

impl Consumer {
    /// The flat consumer this holds; the caller must know the kind.
    pub fn as_basic_consumer(&self) -> (r: &BasicConsumer)
        requires
            self is BasicConsumer,
        ensures
            *r == self->BasicConsumer_0,
    {
        match self {
            Consumer::BasicConsumer(c) => c,
            Consumer::IndexedConsumer(_) => {
                proof {
                    assert(false);
                }
                vstd::pervasive::unreached()
            },
        }
    }

    /// The sectioned consumer this holds; the caller must know the kind.
    pub fn as_indexed_consumer(&self) -> (r: &IndexedConsumer)
        requires
            self is IndexedConsumer,
        ensures
            *r == self->IndexedConsumer_0,
    {
        match self {
            Consumer::IndexedConsumer(c) => c,
            Consumer::BasicConsumer(_) => {
                proof {
                    assert(false);
                }
                vstd::pervasive::unreached()
            },
        }
    }

    /// The flat consumer this holds, mutably; the caller must know the kind.
    pub fn as_basic_consumer_mut(&mut self) -> (r: &mut BasicConsumer)
        requires
            *old(self) is BasicConsumer,
        ensures
            *r == (*old(self))->BasicConsumer_0,
            *final(self) == Consumer::BasicConsumer(*final(r)),
    {
        match self {
            Consumer::BasicConsumer(c) => c,
            Consumer::IndexedConsumer(_) => {
                proof {
                    assert(false);
                }
                vstd::pervasive::unreached()
            },
        }
    }

    /// The sectioned consumer this holds, mutably; the caller must know the
    /// kind.
    pub fn as_indexed_consumer_mut(&mut self) -> (r: &mut IndexedConsumer)
        requires
            *old(self) is IndexedConsumer,
        ensures
            *r == (*old(self))->IndexedConsumer_0,
            *final(self) == Consumer::IndexedConsumer(*final(r)),
    {
        match self {
            Consumer::IndexedConsumer(c) => c,
            Consumer::BasicConsumer(_) => {
                proof {
                    assert(false);
                }
                vstd::pervasive::unreached()
            },
        }
    }

    /// The flat consumer this holds, or `None`.
    pub fn try_as_basic_consumer(&self) -> (r: Option<&BasicConsumer>)
        ensures
            self is BasicConsumer ==> (r matches Some(c) && *c == self->BasicConsumer_0),
            self is IndexedConsumer ==> r is None,
    {
        match self {
            Consumer::BasicConsumer(c) => Some(c),
            Consumer::IndexedConsumer(_) => None,
        }
    }

    /// The sectioned consumer this holds, or `None`.
    pub fn try_as_indexed_consumer(&self) -> (r: Option<&IndexedConsumer>)
        ensures
            self is IndexedConsumer ==> (r matches Some(c) && *c == self->IndexedConsumer_0),
            self is BasicConsumer ==> r is None,
    {
        match self {
            Consumer::IndexedConsumer(c) => Some(c),
            Consumer::BasicConsumer(_) => None,
        }
    }

    /// The flat consumer this holds, mutably, or `None`.
    pub fn try_as_basic_consumer_mut(&mut self) -> (r: Option<&mut BasicConsumer>)
        ensures
            *old(self) is BasicConsumer ==> (r matches Some(c) && *c == (*old(self))->BasicConsumer_0
                && *final(self) == Consumer::BasicConsumer(*final(c))),
            *old(self) is IndexedConsumer ==> r is None && *final(self) == *old(self),
    {
        match self {
            Consumer::BasicConsumer(c) => Some(c),
            Consumer::IndexedConsumer(_) => None,
        }
    }

    /// The sectioned consumer this holds, mutably, or `None`.
    pub fn try_as_indexed_consumer_mut(&mut self) -> (r: Option<&mut IndexedConsumer>)
        ensures
            *old(self) is IndexedConsumer ==> (r matches Some(c) && *c == (*old(self))->IndexedConsumer_0 && *final(self) == Consumer::IndexedConsumer(*final(c))),
            *old(self) is BasicConsumer ==> r is None && *final(self) == *old(self),
    {
        match self {
            Consumer::IndexedConsumer(c) => Some(c),
            Consumer::BasicConsumer(_) => None,
        }
    }
}

/// Builds the consumer a document calls for: a `sections` field drives
/// indexed construction, else the flat fields drive a basic consumer.
pub fn create_consumer(source_map: SourceMapJson) -> (r: Result<Consumer, DocumentError>)
    requires
        source_map.sections is None ==> vstd::utf8::encode_utf8(source_map.mappings@).len()
            <= 0x7fff_0000 && source_map.sources@.len() <= 0x7fff_0000,
        source_map.sections matches Some(ss) ==> forall|i: int|
            0 <= i < ss@.len() ==> vstd::utf8::encode_utf8((#[trigger] ss@[i]).map.mappings@).len()
                <= 0x7fff_0000 && ss@[i].map.sources@.len() <= 0x7fff_0000 && 0
                <= ss@[i].offset.line < 0x7fff_0000 && 0 <= ss@[i].offset.column < 0x7fff_0000,
        source_map.sections matches Some(ss) ==> ss@.len() <= 0x7fff_0000,
    ensures
        source_map.sections is None ==> (r matches Ok(c) && c is BasicConsumer
            && c->BasicConsumer_0.spec_document() == source_map && c->BasicConsumer_0.wf()),
        source_map.sections is Some ==> (r is Err <==> source_map.version != 3 || (exists|i: int|
            0 <= i < source_map.sections->Some_0@.len() && (
            #[trigger] source_map.sections->Some_0@[i]).url is Some) || (exists|i: int|
            0 < i < source_map.sections->Some_0@.len() && pos_cmp(
                (#[trigger] source_map.sections->Some_0@[i]).offset,
                source_map.sections->Some_0@[i - 1].offset,
            ) < 0)),
        source_map.sections is Some ==> (r matches Ok(c) ==> c is IndexedConsumer && {
            let ic = c->IndexedConsumer_0;
            &&& ic.wf()
            &&& ic.spec_sections().len() == source_map.sections->Some_0@.len()
            &&& forall|i: int|
                0 <= i < source_map.sections->Some_0@.len() ==> {
                    let sec = #[trigger] ic.spec_sections()[i];
                    &&& sec.generated_offset.line == source_map.sections->Some_0@[i].offset.line
                        + 1
                    &&& sec.generated_offset.column
                        == source_map.sections->Some_0@[i].offset.column + 1
                    &&& sec.consumer.spec_document() == *source_map.sections->Some_0@[i].map
                }
        }),
{
    if source_map.sections.is_some() {
        match IndexedConsumer::from_source_map_json(source_map) {
            Ok(c) => Ok(Consumer::IndexedConsumer(c)),
            Err(e) => Err(e),
        }
    } else {
        Ok(Consumer::BasicConsumer(BasicConsumer::from_source_map_json(source_map)))
    }
}

} // verus!
