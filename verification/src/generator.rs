//! The generator: accumulates mappings and source contents, and serializes
//! them back to the compact encoding.

use vstd::prelude::*;
use crate::array_set::ArraySet;
use crate::base64_vlq::vlq_encode_bytes;
use crate::errors::MappingError;
use crate::mapping::{mapping_valid, Mapping};
use crate::mapping_index::{
    is_separator, parse_mappings_rec, parse_mappings_spec, IndexEntry, OriginalFields, MAX_FIELD,
};
use crate::mapping_list::MappingList;
use crate::source_map::SourceMapJson;
use crate::util::{compare_by_generated_pos_inflated, mapping_cmp, view_opt};

verus! {

/// The running previous-value counters of the serializer.
pub ghost struct SerState {
    pub line: int,
    pub col: int,
    pub src: int,
    pub oline: int,
    pub ocol: int,
    pub name: int,
}

/// The serializer's starting state: line counter 1, every other counter 0.
pub open spec fn ser_start() -> SerState {
    SerState { line: 1, col: 0, src: 0, oline: 0, ocol: 0, name: 0 }
}

/// The bytes one mapping contributes after any separators, and the state it
/// leaves: the generated-column delta, then, when the mapping carries an
/// original position, the source-index, original-line (stored 0-based) and
/// original-column deltas, then the name-index delta when named.
pub open spec fn ser_fields(
    m: Mapping,
    st: SerState,
    src_idx: spec_fn(Seq<char>) -> Option<usize>,
    name_idx: spec_fn(Seq<char>) -> Option<usize>,
) -> (Seq<u8>, SerState) {
    let col_bytes = vlq_encode_bytes(m.generated.column - st.col);
    if m.source is None {
        (col_bytes, SerState { col: m.generated.column as int, ..st })
    } else {
        let si = src_idx(m.source->Some_0@)->Some_0 as int;
        let o = m.original->Some_0;
        let base = col_bytes + vlq_encode_bytes(si - st.src) + vlq_encode_bytes(
            o.line - 1 - st.oline,
        ) + vlq_encode_bytes(o.column - st.ocol);
        if m.name is Some {
            let ni = name_idx(m.name->Some_0@)->Some_0 as int;
            (
                base + vlq_encode_bytes(ni - st.name),
                SerState {
                    col: m.generated.column as int,
                    src: si,
                    oline: o.line - 1,
                    ocol: o.column as int,
                    name: ni,
                    ..st
                },
            )
        } else {
            (
                base,
                SerState {
                    col: m.generated.column as int,
                    src: si,
                    oline: o.line - 1,
                    ocol: o.column as int,
                    ..st
                },
            )
        }
    }
}

/// The serialized form of the mappings from `i` on: one semicolon per line
/// advance (resetting the column counter), a comma between entries that
/// share a line, and nothing at all for an entry that repeats its
/// predecessor under the serialization order.
pub open spec fn ser_from(
    ms: Seq<Mapping>,
    i: int,
    st: SerState,
    src_idx: spec_fn(Seq<char>) -> Option<usize>,
    name_idx: spec_fn(Seq<char>) -> Option<usize>,
) -> Seq<u8>
    decreases ms.len() - i, (if 0 <= i < ms.len() && ms[i].generated.line > st.line {
        ms[i].generated.line - st.line
    } else {
        0
    }),
{
    if i < 0 || i >= ms.len() {
        Seq::empty()
    } else {
        let m = ms[i];
        if m.generated.line > st.line {
            seq![59u8] + ser_from(ms, i, SerState { line: st.line + 1, col: 0, ..st }, src_idx, name_idx)
        } else if m.generated.line < st.line {
            Seq::empty()
        } else if i > 0 && mapping_cmp(m, ms[i - 1]) == 0 {
            ser_from(ms, i + 1, st, src_idx, name_idx)
        } else {
            let sep: Seq<u8> = if i > 0 && ms[i - 1].generated.line == m.generated.line {
                seq![44u8]
            } else {
                Seq::empty()
            };
            let (bytes, st2) = ser_fields(m, st, src_idx, name_idx);
            sep + bytes + ser_from(ms, i + 1, st2, src_idx, name_idx)
        }
    }
}

/// One step of the serializer on a non-skipped mapping that sits on the
/// current line: the separator, its fields, and the rest.
proof fn lemma_ser_step(
    ms: Seq<Mapping>,
    i: int,
    st: SerState,
    src_idx: spec_fn(Seq<char>) -> Option<usize>,
    name_idx: spec_fn(Seq<char>) -> Option<usize>,
)
    requires
        0 <= i < ms.len(),
        ms[i].generated.line == st.line,
        !(i > 0 && mapping_cmp(ms[i], ms[i - 1]) == 0),
    ensures
        ser_from(ms, i, st, src_idx, name_idx) == (if i > 0 && ms[i - 1].generated.line
            == ms[i].generated.line {
            seq![44u8]
        } else {
            Seq::empty()
        }) + ser_fields(ms[i], st, src_idx, name_idx).0 + ser_from(
            ms,
            i + 1,
            ser_fields(ms[i], st, src_idx, name_idx).1,
            src_idx,
            name_idx,
        ),
{
}

/// Skipping a repeated mapping leaves the output unchanged.
proof fn lemma_ser_skip(
    ms: Seq<Mapping>,
    i: int,
    st: SerState,
    src_idx: spec_fn(Seq<char>) -> Option<usize>,
    name_idx: spec_fn(Seq<char>) -> Option<usize>,
)
    requires
        0 < i < ms.len(),
        ms[i].generated.line == st.line,
        mapping_cmp(ms[i], ms[i - 1]) == 0,
    ensures
        ser_from(ms, i, st, src_idx, name_idx) == ser_from(ms, i + 1, st, src_idx, name_idx),
{
}

/// A line advance emits one semicolon and resets the column counter.
proof fn lemma_ser_advance(
    ms: Seq<Mapping>,
    i: int,
    st: SerState,
    src_idx: spec_fn(Seq<char>) -> Option<usize>,
    name_idx: spec_fn(Seq<char>) -> Option<usize>,
)
    requires
        0 <= i < ms.len(),
        ms[i].generated.line > st.line,
    ensures
        ser_from(ms, i, st, src_idx, name_idx) == seq![59u8] + ser_from(
            ms,
            i,
            SerState { line: st.line + 1, col: 0, ..st },
            src_idx,
            name_idx,
        ),
{
}

/// The index entry the parser recovers for one serialized mapping: lines
/// shifted back to 0-based, the source and name replaced by their table
/// indices, no span.
pub open spec fn entry_of(
    m: Mapping,
    src_idx: spec_fn(Seq<char>) -> Option<usize>,
    name_idx: spec_fn(Seq<char>) -> Option<usize>,
) -> IndexEntry {
    IndexEntry {
        generated_line: (m.generated.line - 1) as i32,
        generated_column: m.generated.column,
        original: match m.source {
            Option::Some(_) => Option::Some(
                OriginalFields {
                    source: src_idx(m.source->Some_0@)->Some_0 as i32,
                    line: (m.original->Some_0.line - 1) as i32,
                    column: m.original->Some_0.column,
                    name: match m.name {
                        Option::Some(nm) => Option::Some(name_idx(nm@)->Some_0 as i32),
                        Option::None => Option::None,
                    },
                },
            ),
            Option::None => Option::None,
        },
        last_generated_column: Option::None,
    }
}

/// The entries the parser recovers from the mappings from `i` on: one per
/// mapping, except that a mapping repeating its predecessor yields none.
pub open spec fn entries_of(
    ms: Seq<Mapping>,
    i: int,
    src_idx: spec_fn(Seq<char>) -> Option<usize>,
    name_idx: spec_fn(Seq<char>) -> Option<usize>,
) -> Seq<IndexEntry>
    decreases ms.len() - i,
{
    if i < 0 || i >= ms.len() {
        Seq::empty()
    } else if i > 0 && mapping_cmp(ms[i], ms[i - 1]) == 0 {
        entries_of(ms, i + 1, src_idx, name_idx)
    } else {
        seq![entry_of(ms[i], src_idx, name_idx)] + entries_of(ms, i + 1, src_idx, name_idx)
    }
}

/// A mapping list the serializer can round-trip: valid, sorted, columns in
/// the decodable range, and every source and name resolving to a table
/// index in that range.
pub open spec fn serializable(
    ms: Seq<Mapping>,
    src_idx: spec_fn(Seq<char>) -> Option<usize>,
    name_idx: spec_fn(Seq<char>) -> Option<usize>,
) -> bool {
    &&& forall|k: int| 0 <= k < ms.len() ==> mapping_valid(#[trigger] ms[k])
    &&& forall|k: int, l: int|
        0 <= k <= l < ms.len() ==> mapping_cmp(#[trigger] ms[k], #[trigger] ms[l]) <= 0
    &&& forall|k: int|
        0 <= k < ms.len() ==> (#[trigger] ms[k]).generated.column <= MAX_FIELD && (ms[k].original
            is Some ==> ms[k].original->Some_0.column <= MAX_FIELD)
    &&& forall|k: int|
        0 <= k < ms.len() && (#[trigger] ms[k]).source is Some ==> src_idx(
            ms[k].source->Some_0@,
        ) is Some && src_idx(ms[k].source->Some_0@)->Some_0 <= MAX_FIELD
    &&& forall|k: int|
        0 <= k < ms.len() && (#[trigger] ms[k]).name is Some ==> name_idx(ms[k].name->Some_0@)
            is Some && name_idx(ms[k].name->Some_0@)->Some_0 <= MAX_FIELD
}

/// Splitting a concatenation out of a stream recovers both halves.
proof fn lemma_subrange_concat(s: Seq<u8>, pos: int, a: Seq<u8>, b: Seq<u8>)
    requires
        0 <= pos,
        pos + a.len() + b.len() <= s.len(),
        s.subrange(pos, pos + a.len() + b.len()) == a + b,
    ensures
        s.subrange(pos, pos + a.len() as int) == a,
        s.subrange(pos + a.len() as int, pos + a.len() + b.len()) == b,
{
    let ab = s.subrange(pos, pos + a.len() + b.len());
    assert forall|k: int| 0 <= k < a.len() implies s[pos + k] == a[k] by {
        assert(ab[k] == (a + b)[k]);
    }
    assert forall|k: int| 0 <= k < b.len() implies s[pos + a.len() + k] == b[k] by {
        assert(ab[a.len() + k] == (a + b)[a.len() + k]);
    }
    assert(s.subrange(pos, pos + a.len() as int) =~= a);
    assert(s.subrange(pos + a.len() as int, pos + a.len() + b.len()) =~= b);
}

/// What remains after a mapping's group never begins mid-group: it is empty
/// or begins with a separator.
proof fn lemma_ser_rest_starts_sep(
    ms: Seq<Mapping>,
    j: int,
    st: SerState,
    src_idx: spec_fn(Seq<char>) -> Option<usize>,
    name_idx: spec_fn(Seq<char>) -> Option<usize>,
)
    requires
        forall|k: int| 0 <= k < ms.len() ==> mapping_valid(#[trigger] ms[k]),
        forall|k: int, l: int|
            0 <= k <= l < ms.len() ==> mapping_cmp(#[trigger] ms[k], #[trigger] ms[l]) <= 0,
        0 < j <= ms.len(),
        st.line == ms[j - 1].generated.line,
    ensures
        ({
            let rest = ser_from(ms, j, st, src_idx, name_idx);
            rest.len() == 0 || is_separator(rest[0])
        }),
    decreases ms.len() - j,
{
    if j < ms.len() {
        let m = ms[j];
        assert(mapping_cmp(ms[j - 1], ms[j]) <= 0);
        if m.generated.line > st.line {
        } else if i_dup(ms, j) {
            assert(ms[j].generated.line == ms[j - 1].generated.line) by {
                crate::util::lemma_mapping_cmp_antisym(ms[j], ms[j - 1]);
            }
            lemma_ser_rest_starts_sep(ms, j + 1, st, src_idx, name_idx);
        } else {
            assert(m.generated.line >= st.line) by {
                if m.generated.line < st.line {
                    assert(mapping_cmp(ms[j - 1], ms[j]) > 0);
                }
            }
        }
    }
}

/// Whether the mapping at `j` repeats its predecessor.
pub open spec fn i_dup(ms: Seq<Mapping>, j: int) -> bool {
    j > 0 && mapping_cmp(ms[j], ms[j - 1]) == 0
}

/// Peels one encoded quantity off the head of the remaining stream.
proof fn lemma_peel_vlq(s: Seq<u8>, pos: int, d: int, rest: Seq<u8>)
    requires
        -0x8000_0000 < d < 0x8000_0000,
        0 <= pos,
        pos + vlq_encode_bytes(d).len() + rest.len() <= s.len(),
        s.subrange(pos, pos + vlq_encode_bytes(d).len() + rest.len()) == vlq_encode_bytes(d)
            + rest,
    ensures
        crate::base64_vlq::parse_vlq(s, pos) == Some(
            (d, pos + vlq_encode_bytes(d).len() as int),
        ),
        s.subrange(
            pos + vlq_encode_bytes(d).len() as int,
            pos + vlq_encode_bytes(d).len() + rest.len(),
        ) == rest,
        vlq_encode_bytes(d).len() >= 1,
        rest.len() > 0 ==> s[pos + vlq_encode_bytes(d).len() as int] == rest[0],
        pos + vlq_encode_bytes(d).len() <= s.len(),
        crate::base64::is_base64_byte(s[pos]),
{
    lemma_subrange_concat(s, pos, vlq_encode_bytes(d), rest);
    crate::base64_vlq::lemma_vlq_roundtrip(s, pos, d);
    crate::base64_vlq::lemma_digit_bytes_are_base64(crate::base64_vlq::vlq_unsigned(d));
    assert(s[pos] == vlq_encode_bytes(d)[0]);
    if rest.len() > 0 {
        let tail = s.subrange(
            pos + vlq_encode_bytes(d).len() as int,
            pos + vlq_encode_bytes(d).len() + rest.len(),
        );
        assert(s[pos + vlq_encode_bytes(d).len() as int] == tail[0]);
    }
}

/// Parsing a serialized tail recovers exactly the remaining entries: the
/// central induction of the round trip, generalized over the enclosing
/// stream, the serializer state and the entries already parsed.
#[verifier::rlimit(100)]
proof fn lemma_ser_parse(
    s: Seq<u8>,
    pos: int,
    ms: Seq<Mapping>,
    i: int,
    st: SerState,
    src_idx: spec_fn(Seq<char>) -> Option<usize>,
    name_idx: spec_fn(Seq<char>) -> Option<usize>,
    acc: Seq<IndexEntry>,
)
    requires
        serializable(ms, src_idx, name_idx),
        0 <= i <= ms.len(),
        1 <= st.line,
        0 <= st.col <= MAX_FIELD,
        0 <= st.src <= MAX_FIELD,
        0 <= st.oline <= MAX_FIELD,
        0 <= st.ocol <= MAX_FIELD,
        0 <= st.name <= MAX_FIELD,
        i < ms.len() ==> st.line <= ms[i].generated.line,
        0 <= pos <= s.len(),
        pos + ser_from(ms, i, st, src_idx, name_idx).len() == s.len(),
        s.subrange(pos, s.len() as int) == ser_from(ms, i, st, src_idx, name_idx),
    ensures
        parse_mappings_rec(s, pos, st.line - 1, st.col, st.src, st.oline, st.ocol, st.name, acc)
            == Ok::<Seq<IndexEntry>, crate::errors::DecodeError>(
            acc + entries_of(ms, i, src_idx, name_idx),
        ),
    decreases ms.len() - i, (if 0 <= i < ms.len() && ms[i].generated.line > st.line {
        ms[i].generated.line - st.line
    } else {
        0
    }),
{
    let tail = ser_from(ms, i, st, src_idx, name_idx);
    if i >= ms.len() {
        assert(pos == s.len());
        assert(acc + entries_of(ms, i, src_idx, name_idx) =~= acc);
    } else {
        let m = ms[i];
        assert(mapping_valid(m));
        if m.generated.line > st.line {
            let st2 = SerState { line: st.line + 1, col: 0, ..st };
            let rest = ser_from(ms, i, st2, src_idx, name_idx);
            assert(tail == seq![59u8] + rest);
            lemma_subrange_concat(s, pos, seq![59u8], rest);
            assert(s[pos] == 59) by {
                assert(s.subrange(pos, pos + 1)[0] == seq![59u8][0]);
            }
            assert(s.subrange(pos + 1, s.len() as int) == rest);
            lemma_ser_parse(s, pos + 1, ms, i, st2, src_idx, name_idx, acc);
            assert(st.line <= MAX_FIELD);
            assert(parse_mappings_rec(
                s,
                pos + 1,
                st2.line - 1,
                st2.col,
                st2.src,
                st2.oline,
                st2.ocol,
                st2.name,
                acc,
            ) == Ok::<Seq<IndexEntry>, crate::errors::DecodeError>(
                acc + entries_of(ms, i, src_idx, name_idx),
            ));
            assert(st2.line - 1 == st.line && st2.col == 0);
        } else if i_dup(ms, i) {
            if i + 1 < ms.len() {
                assert(mapping_cmp(ms[i], ms[i + 1]) <= 0);
                assert(st.line <= ms[i + 1].generated.line);
            }
            lemma_ser_parse(s, pos, ms, i + 1, st, src_idx, name_idx, acc);
        } else {
            assert(m.generated.line == st.line);
            let has_sep = i > 0 && ms[i - 1].generated.line == m.generated.line;
            let sep: Seq<u8> = if has_sep {
                seq![44u8]
            } else {
                Seq::empty()
            };
            let pair = ser_fields(m, st, src_idx, name_idx);
            let st2 = pair.1;
            let rest = ser_from(ms, i + 1, st2, src_idx, name_idx);
            assert(tail == sep + pair.0 + rest);
            vstd::seq_lib::lemma_concat_associative(sep, pair.0, rest);
            lemma_subrange_concat(s, pos, sep, pair.0 + rest);
            let p1 = pos + sep.len();
            if has_sep {
                assert(s[pos] == 44) by {
                    assert(s.subrange(pos, pos + 1)[0] == seq![44u8][0]);
                }
            }
            lemma_subrange_concat(s, p1, pair.0, rest);
            let pend = p1 + pair.0.len() as int;
            assert(s.subrange(pend, s.len() as int) == rest);
            assert(st2.line == st.line);
            if i + 1 < ms.len() {
                assert(mapping_cmp(ms[i], ms[i + 1]) <= 0);
                assert(st2.line <= ms[i + 1].generated.line);
            }
            lemma_ser_rest_starts_sep(ms, i + 1, st2, src_idx, name_idx);
            if rest.len() > 0 {
                assert(s[pend] == rest[0]) by {
                    assert(s.subrange(pend, s.len() as int)[0] == rest[0]);
                }
            }
            let e = entry_of(m, src_idx, name_idx);
            lemma_group_parse(s, p1, m, st, src_idx, name_idx, acc);
            assert(parse_mappings_rec(
                s,
                p1,
                st.line - 1,
                st.col,
                st.src,
                st.oline,
                st.ocol,
                st.name,
                acc,
            ) == parse_mappings_rec(
                s,
                p1 + ser_fields(m, st, src_idx, name_idx).0.len() as int,
                ser_fields(m, st, src_idx, name_idx).1.line - 1,
                ser_fields(m, st, src_idx, name_idx).1.col,
                ser_fields(m, st, src_idx, name_idx).1.src,
                ser_fields(m, st, src_idx, name_idx).1.oline,
                ser_fields(m, st, src_idx, name_idx).1.ocol,
                ser_fields(m, st, src_idx, name_idx).1.name,
                acc.push(entry_of(m, src_idx, name_idx)),
            ));
            assert(pend == p1 + ser_fields(m, st, src_idx, name_idx).0.len() as int);
            assert(st2 == ser_fields(m, st, src_idx, name_idx).1);
            assert(parse_mappings_rec(
                s,
                p1,
                st.line - 1,
                st.col,
                st.src,
                st.oline,
                st.ocol,
                st.name,
                acc,
            ) == parse_mappings_rec(
                s,
                pend,
                st2.line - 1,
                st2.col,
                st2.src,
                st2.oline,
                st2.ocol,
                st2.name,
                acc.push(e),
            ));
            lemma_ser_parse(s, pend, ms, i + 1, st2, src_idx, name_idx, acc.push(e));
            assert(parse_mappings_rec(
                s,
                pend,
                st2.line - 1,
                st2.col,
                st2.src,
                st2.oline,
                st2.ocol,
                st2.name,
                acc.push(e),
            ) == Ok::<Seq<IndexEntry>, crate::errors::DecodeError>(
                acc.push(e) + entries_of(ms, i + 1, src_idx, name_idx),
            ));
            assert(parse_mappings_rec(
                s,
                p1,
                st.line - 1,
                st.col,
                st.src,
                st.oline,
                st.ocol,
                st.name,
                acc,
            ) == Ok::<Seq<IndexEntry>, crate::errors::DecodeError>(
                acc.push(e) + entries_of(ms, i + 1, src_idx, name_idx),
            ));
            if has_sep {
                assert(parse_mappings_rec(
                    s,
                    pos,
                    st.line - 1,
                    st.col,
                    st.src,
                    st.oline,
                    st.ocol,
                    st.name,
                    acc,
                ) == parse_mappings_rec(
                    s,
                    p1,
                    st.line - 1,
                    st.col,
                    st.src,
                    st.oline,
                    st.ocol,
                    st.name,
                    acc,
                ));
            }
            assert(entries_of(ms, i, src_idx, name_idx) == seq![e] + entries_of(
                ms,
                i + 1,
                src_idx,
                name_idx,
            ));
            assert(acc.push(e) + entries_of(ms, i + 1, src_idx, name_idx) =~= acc + (seq![e]
                + entries_of(ms, i + 1, src_idx, name_idx)));
        }
    }
}

/// Parsing one serialized group consumes its fields, pushes its entry, and
/// continues in the serializer's follow-on state.
#[verifier::rlimit(100)]
#[verifier::spinoff_prover]
proof fn lemma_group_parse(
    s: Seq<u8>,
    p1: int,
    m: Mapping,
    st: SerState,
    src_idx: spec_fn(Seq<char>) -> Option<usize>,
    name_idx: spec_fn(Seq<char>) -> Option<usize>,
    acc: Seq<IndexEntry>,
)
    requires
        mapping_valid(m),
        m.generated.column <= MAX_FIELD,
        m.original is Some ==> m.original->Some_0.column <= MAX_FIELD,
        m.source is Some ==> src_idx(m.source->Some_0@) is Some && src_idx(
            m.source->Some_0@,
        )->Some_0 <= MAX_FIELD,
        m.name is Some ==> name_idx(m.name->Some_0@) is Some && name_idx(m.name->Some_0@)->Some_0
            <= MAX_FIELD,
        1 <= st.line,
        0 <= st.col <= MAX_FIELD,
        0 <= st.src <= MAX_FIELD,
        0 <= st.oline <= MAX_FIELD,
        0 <= st.ocol <= MAX_FIELD,
        0 <= st.name <= MAX_FIELD,
        m.generated.line == st.line,
        0 <= p1,
        p1 + ser_fields(m, st, src_idx, name_idx).0.len() <= s.len(),
        s.subrange(p1, p1 + ser_fields(m, st, src_idx, name_idx).0.len() as int) == ser_fields(
            m,
            st,
            src_idx,
            name_idx,
        ).0,
        p1 + ser_fields(m, st, src_idx, name_idx).0.len() == s.len() || is_separator(
            s[p1 + ser_fields(m, st, src_idx, name_idx).0.len() as int],
        ),
    ensures
        parse_mappings_rec(s, p1, st.line - 1, st.col, st.src, st.oline, st.ocol, st.name, acc)
            == parse_mappings_rec(
            s,
            p1 + ser_fields(m, st, src_idx, name_idx).0.len() as int,
            ser_fields(m, st, src_idx, name_idx).1.line - 1,
            ser_fields(m, st, src_idx, name_idx).1.col,
            ser_fields(m, st, src_idx, name_idx).1.src,
            ser_fields(m, st, src_idx, name_idx).1.oline,
            ser_fields(m, st, src_idx, name_idx).1.ocol,
            ser_fields(m, st, src_idx, name_idx).1.name,
            acc.push(entry_of(m, src_idx, name_idx)),
        ),
{
    if m.source is None {
        lemma_group_parse_plain(s, p1, m, st, src_idx, name_idx, acc);
    } else if m.name is Some {
        lemma_group_parse_named(s, p1, m, st, src_idx, name_idx, acc);
    } else {
        lemma_group_parse_sourced(s, p1, m, st, src_idx, name_idx, acc);
    }
}

/// The group step for a mapping without original fields.
#[verifier::rlimit(100)]
#[verifier::spinoff_prover]
proof fn lemma_group_parse_plain(
    s: Seq<u8>,
    p1: int,
    m: Mapping,
    st: SerState,
    src_idx: spec_fn(Seq<char>) -> Option<usize>,
    name_idx: spec_fn(Seq<char>) -> Option<usize>,
    acc: Seq<IndexEntry>,
)
    requires
        mapping_valid(m),
        m.generated.column <= MAX_FIELD,
        m.original is Some ==> m.original->Some_0.column <= MAX_FIELD,
        m.source is Some ==> src_idx(m.source->Some_0@) is Some && src_idx(
            m.source->Some_0@,
        )->Some_0 <= MAX_FIELD,
        m.name is Some ==> name_idx(m.name->Some_0@) is Some && name_idx(m.name->Some_0@)->Some_0
            <= MAX_FIELD,
        1 <= st.line,
        0 <= st.col <= MAX_FIELD,
        0 <= st.src <= MAX_FIELD,
        0 <= st.oline <= MAX_FIELD,
        0 <= st.ocol <= MAX_FIELD,
        0 <= st.name <= MAX_FIELD,
        m.generated.line == st.line,
        0 <= p1,
        p1 + ser_fields(m, st, src_idx, name_idx).0.len() <= s.len(),
        s.subrange(p1, p1 + ser_fields(m, st, src_idx, name_idx).0.len() as int) == ser_fields(
            m,
            st,
            src_idx,
            name_idx,
        ).0,
        p1 + ser_fields(m, st, src_idx, name_idx).0.len() == s.len() || is_separator(
            s[p1 + ser_fields(m, st, src_idx, name_idx).0.len() as int],
        ),
        m.source is None,
    ensures
        parse_mappings_rec(s, p1, st.line - 1, st.col, st.src, st.oline, st.ocol, st.name, acc)
            == parse_mappings_rec(
            s,
            p1 + ser_fields(m, st, src_idx, name_idx).0.len() as int,
            ser_fields(m, st, src_idx, name_idx).1.line - 1,
            ser_fields(m, st, src_idx, name_idx).1.col,
            ser_fields(m, st, src_idx, name_idx).1.src,
            ser_fields(m, st, src_idx, name_idx).1.oline,
            ser_fields(m, st, src_idx, name_idx).1.ocol,
            ser_fields(m, st, src_idx, name_idx).1.name,
            acc.push(entry_of(m, src_idx, name_idx)),
        ),
{
    let pair = ser_fields(m, st, src_idx, name_idx);
    let st2 = pair.1;
    let pend = p1 + pair.0.len() as int;
    let d1 = m.generated.column - st.col;
    assert(pair.0 == vlq_encode_bytes(d1));
    lemma_peel_vlq_at_end(s, p1, d1, pend);
    assert(crate::base64_vlq::parse_vlq(s, p1) == Some((d1, pend)));
    assert(parse_mappings_rec(
        s,
        p1,
        st.line - 1,
        st.col,
        st.src,
        st.oline,
        st.ocol,
        st.name,
        acc,
    ) == parse_mappings_rec(
        s,
        pend,
        st2.line - 1,
        st2.col,
        st2.src,
        st2.oline,
        st2.ocol,
        st2.name,
        acc.push(entry_of(m, src_idx, name_idx)),
    ));
}

/// The group step for a named mapping with original fields.
#[verifier::rlimit(100)]
#[verifier::spinoff_prover]
proof fn lemma_group_parse_named(
    s: Seq<u8>,
    p1: int,
    m: Mapping,
    st: SerState,
    src_idx: spec_fn(Seq<char>) -> Option<usize>,
    name_idx: spec_fn(Seq<char>) -> Option<usize>,
    acc: Seq<IndexEntry>,
)
    requires
        mapping_valid(m),
        m.generated.column <= MAX_FIELD,
        m.original is Some ==> m.original->Some_0.column <= MAX_FIELD,
        m.source is Some ==> src_idx(m.source->Some_0@) is Some && src_idx(
            m.source->Some_0@,
        )->Some_0 <= MAX_FIELD,
        m.name is Some ==> name_idx(m.name->Some_0@) is Some && name_idx(m.name->Some_0@)->Some_0
            <= MAX_FIELD,
        1 <= st.line,
        0 <= st.col <= MAX_FIELD,
        0 <= st.src <= MAX_FIELD,
        0 <= st.oline <= MAX_FIELD,
        0 <= st.ocol <= MAX_FIELD,
        0 <= st.name <= MAX_FIELD,
        m.generated.line == st.line,
        0 <= p1,
        p1 + ser_fields(m, st, src_idx, name_idx).0.len() <= s.len(),
        s.subrange(p1, p1 + ser_fields(m, st, src_idx, name_idx).0.len() as int) == ser_fields(
            m,
            st,
            src_idx,
            name_idx,
        ).0,
        p1 + ser_fields(m, st, src_idx, name_idx).0.len() == s.len() || is_separator(
            s[p1 + ser_fields(m, st, src_idx, name_idx).0.len() as int],
        ),
        m.source is Some,
        m.name is Some,
    ensures
        parse_mappings_rec(s, p1, st.line - 1, st.col, st.src, st.oline, st.ocol, st.name, acc)
            == parse_mappings_rec(
            s,
            p1 + ser_fields(m, st, src_idx, name_idx).0.len() as int,
            ser_fields(m, st, src_idx, name_idx).1.line - 1,
            ser_fields(m, st, src_idx, name_idx).1.col,
            ser_fields(m, st, src_idx, name_idx).1.src,
            ser_fields(m, st, src_idx, name_idx).1.oline,
            ser_fields(m, st, src_idx, name_idx).1.ocol,
            ser_fields(m, st, src_idx, name_idx).1.name,
            acc.push(entry_of(m, src_idx, name_idx)),
        ),
{
    let pair = ser_fields(m, st, src_idx, name_idx);
    let st2 = pair.1;
    let pend = p1 + pair.0.len() as int;
    let d1 = m.generated.column - st.col;
    let si = src_idx(m.source->Some_0@)->Some_0 as int;
    let o = m.original->Some_0;
    let d2 = si - st.src;
    let d3 = o.line - 1 - st.oline;
    let d4 = o.column - st.ocol;
    let c1 = vlq_encode_bytes(d1);
    let c2 = vlq_encode_bytes(d2);
    let c3 = vlq_encode_bytes(d3);
    let c4 = vlq_encode_bytes(d4);
    let ni = name_idx(m.name->Some_0@)->Some_0 as int;
    let d5 = ni - st.name;
    let c5 = vlq_encode_bytes(d5);
    assert(pair.0 == c1 + c2 + c3 + c4 + c5);
    let r5 = Seq::<u8>::empty();
    let r4 = c5;
    let r3 = c4 + r4;
    let r2 = c3 + r3;
    let r1 = c2 + r2;
    assert(pair.0 =~= c1 + r1);
    assert(s.subrange(p1, p1 + c1.len() + r1.len()) == c1 + r1);
    lemma_peel_vlq(s, p1, d1, r1);
    let p2 = p1 + c1.len();
    assert(r1 =~= c2 + r2);
    lemma_peel_vlq(s, p2, d2, r2);
    let p3 = p2 + c2.len();
    assert(r2 =~= c3 + r3);
    lemma_peel_vlq(s, p3, d3, r3);
    let p4 = p3 + c3.len();
    assert(r3 =~= c4 + r4);
    lemma_peel_vlq(s, p4, d4, r4);
    let p5 = p4 + c4.len();
    assert(r4 =~= c5 + r5);
    lemma_peel_vlq(s, p5, d5, r5);
    assert(p5 + c5.len() == pend);
    assert(!is_separator(s[p2]) && p2 < s.len());
    assert(!is_separator(s[p3]) && p3 < s.len());
    assert(!is_separator(s[p4]) && p4 < s.len());
    assert(!is_separator(s[p5]) && p5 < s.len());
    assert(crate::mapping_index::parse_mappings_fields(
    s,
    p1,
    p2,
    st.line - 1,
    st.col + d1,
    st.src,
    st.oline,
    st.ocol,
    st.name,
    acc,
    ) == parse_mappings_rec(
    s,
    pend,
    st2.line - 1,
    st2.col,
    st2.src,
    st2.oline,
    st2.ocol,
    st2.name,
    acc.push(entry_of(m, src_idx, name_idx)),
    ));
    assert(parse_mappings_rec(
    s,
    p1,
    st.line - 1,
    st.col,
    st.src,
    st.oline,
    st.ocol,
    st.name,
    acc,
    ) == crate::mapping_index::parse_mappings_fields(
    s,
    p1,
    p2,
    st.line - 1,
    st.col + d1,
    st.src,
    st.oline,
    st.ocol,
    st.name,
    acc,
    ));
}

/// The group step for an unnamed mapping with original fields.
#[verifier::rlimit(100)]
#[verifier::spinoff_prover]
proof fn lemma_group_parse_sourced(
    s: Seq<u8>,
    p1: int,
    m: Mapping,
    st: SerState,
    src_idx: spec_fn(Seq<char>) -> Option<usize>,
    name_idx: spec_fn(Seq<char>) -> Option<usize>,
    acc: Seq<IndexEntry>,
)
    requires
        mapping_valid(m),
        m.generated.column <= MAX_FIELD,
        m.original is Some ==> m.original->Some_0.column <= MAX_FIELD,
        m.source is Some ==> src_idx(m.source->Some_0@) is Some && src_idx(
            m.source->Some_0@,
        )->Some_0 <= MAX_FIELD,
        m.name is Some ==> name_idx(m.name->Some_0@) is Some && name_idx(m.name->Some_0@)->Some_0
            <= MAX_FIELD,
        1 <= st.line,
        0 <= st.col <= MAX_FIELD,
        0 <= st.src <= MAX_FIELD,
        0 <= st.oline <= MAX_FIELD,
        0 <= st.ocol <= MAX_FIELD,
        0 <= st.name <= MAX_FIELD,
        m.generated.line == st.line,
        0 <= p1,
        p1 + ser_fields(m, st, src_idx, name_idx).0.len() <= s.len(),
        s.subrange(p1, p1 + ser_fields(m, st, src_idx, name_idx).0.len() as int) == ser_fields(
            m,
            st,
            src_idx,
            name_idx,
        ).0,
        p1 + ser_fields(m, st, src_idx, name_idx).0.len() == s.len() || is_separator(
            s[p1 + ser_fields(m, st, src_idx, name_idx).0.len() as int],
        ),
        m.source is Some,
        m.name is None,
    ensures
        parse_mappings_rec(s, p1, st.line - 1, st.col, st.src, st.oline, st.ocol, st.name, acc)
            == parse_mappings_rec(
            s,
            p1 + ser_fields(m, st, src_idx, name_idx).0.len() as int,
            ser_fields(m, st, src_idx, name_idx).1.line - 1,
            ser_fields(m, st, src_idx, name_idx).1.col,
            ser_fields(m, st, src_idx, name_idx).1.src,
            ser_fields(m, st, src_idx, name_idx).1.oline,
            ser_fields(m, st, src_idx, name_idx).1.ocol,
            ser_fields(m, st, src_idx, name_idx).1.name,
            acc.push(entry_of(m, src_idx, name_idx)),
        ),
{
    let pair = ser_fields(m, st, src_idx, name_idx);
    let st2 = pair.1;
    let pend = p1 + pair.0.len() as int;
    let d1 = m.generated.column - st.col;
    let si = src_idx(m.source->Some_0@)->Some_0 as int;
    let o = m.original->Some_0;
    let d2 = si - st.src;
    let d3 = o.line - 1 - st.oline;
    let d4 = o.column - st.ocol;
    let c1 = vlq_encode_bytes(d1);
    let c2 = vlq_encode_bytes(d2);
    let c3 = vlq_encode_bytes(d3);
    let c4 = vlq_encode_bytes(d4);
    assert(pair.0 == c1 + c2 + c3 + c4);
    let r4 = Seq::<u8>::empty();
    let r3 = c4;
    let r2 = c3 + r3;
    let r1 = c2 + r2;
    assert(pair.0 =~= c1 + r1);
    assert(s.subrange(p1, p1 + c1.len() + r1.len()) == c1 + r1);
    lemma_peel_vlq(s, p1, d1, r1);
    let p2 = p1 + c1.len();
    assert(r1 =~= c2 + r2);
    lemma_peel_vlq(s, p2, d2, r2);
    let p3 = p2 + c2.len();
    assert(r2 =~= c3 + r3);
    lemma_peel_vlq(s, p3, d3, r3);
    let p4 = p3 + c3.len();
    assert(r3 =~= c4 + r4);
    lemma_peel_vlq(s, p4, d4, r4);
    assert(p4 + c4.len() == pend);
    assert(!is_separator(s[p2]) && p2 < s.len());
    assert(!is_separator(s[p3]) && p3 < s.len());
    assert(!is_separator(s[p4]) && p4 < s.len());
    assert(crate::mapping_index::parse_mappings_fields(
    s,
    p1,
    p2,
    st.line - 1,
    st.col + d1,
    st.src,
    st.oline,
    st.ocol,
    st.name,
    acc,
    ) == parse_mappings_rec(
    s,
    pend,
    st2.line - 1,
    st2.col,
    st2.src,
    st2.oline,
    st2.ocol,
    st2.name,
    acc.push(entry_of(m, src_idx, name_idx)),
    ));
    assert(parse_mappings_rec(
    s,
    p1,
    st.line - 1,
    st.col,
    st.src,
    st.oline,
    st.ocol,
    st.name,
    acc,
    ) == crate::mapping_index::parse_mappings_fields(
    s,
    p1,
    p2,
    st.line - 1,
    st.col + d1,
    st.src,
    st.oline,
    st.ocol,
    st.name,
    acc,
    ));

}

/// Peels the last quantity of a group, whose end meets the stream's end or a
/// separator.
proof fn lemma_peel_vlq_at_end(s: Seq<u8>, pos: int, d: int, pend: int)
    requires
        -0x8000_0000 < d < 0x8000_0000,
        0 <= pos,
        pend == pos + vlq_encode_bytes(d).len(),
        pend <= s.len(),
        s.subrange(pos, pend) == vlq_encode_bytes(d),
    ensures
        crate::base64_vlq::parse_vlq(s, pos) == Some((d, pend)),
{
    assert(s.subrange(pos, pos + vlq_encode_bytes(d).len() + Seq::<u8>::empty().len())
        =~= vlq_encode_bytes(d) + Seq::<u8>::empty());
    lemma_peel_vlq(s, pos, d, Seq::<u8>::empty());
}

/// Round trip: parsing a serialized mapping list recovers one entry per
/// distinct mapping, in order — lines back to 0-based, sources and names as
/// their table indices.
pub proof fn lemma_serialize_parse_roundtrip(
    ms: Seq<Mapping>,
    src_idx: spec_fn(Seq<char>) -> Option<usize>,
    name_idx: spec_fn(Seq<char>) -> Option<usize>,
)
    requires
        serializable(ms, src_idx, name_idx),
    ensures
        parse_mappings_spec(ser_from(ms, 0, ser_start(), src_idx, name_idx)) == Ok::<
            Seq<IndexEntry>,
            crate::errors::DecodeError,
        >(entries_of(ms, 0, src_idx, name_idx)),
{
    let s = ser_from(ms, 0, ser_start(), src_idx, name_idx);
    assert(s.subrange(0, s.len() as int) =~= s);
    if ms.len() > 0 {
        assert(mapping_valid(ms[0]));
    }
    lemma_ser_parse(s, 0, ms, 0, ser_start(), src_idx, name_idx, Seq::empty());
    assert(Seq::<IndexEntry>::empty() + entries_of(ms, 0, src_idx, name_idx) =~= entries_of(
        ms,
        0,
        src_idx,
        name_idx,
    ));
}

/// Looks a key up among stored contents, last entry first.
pub open spec fn content_lookup(entries: Seq<(String, String)>, k: Seq<char>) -> Option<Seq<char>>
    decreases entries.len(),
{
    if entries.len() == 0 {
        Option::None
    } else if entries.last().0@ == k {
        Option::Some(entries.last().1@)
    } else {
        content_lookup(entries.drop_last(), k)
    }
}

/// Accumulates mappings and source contents; serialized by `as_json`.
pub struct SourceMapGenerator {
    file: Option<String>,
    source_root: Option<String>,
    sources: ArraySet,
    names: ArraySet,
    mappings: MappingList,
    source_contents: Vec<(String, String)>,
}

impl SourceMapGenerator {
    /// The output file name.
    pub closed spec fn spec_file(&self) -> Option<Seq<char>> {
        view_opt(self.file)
    }

    /// The source root.
    pub closed spec fn spec_source_root(&self) -> Option<Seq<char>> {
        view_opt(self.source_root)
    }

    /// The registered sources.
    pub closed spec fn spec_sources(&self) -> ArraySet {
        self.sources
    }

    /// The registered names.
    pub closed spec fn spec_names(&self) -> ArraySet {
        self.names
    }

    /// The accumulated mappings.
    pub closed spec fn spec_mappings(&self) -> Seq<Mapping> {
        self.mappings.mappings()
    }

    /// The stored content entries, in storage order.
    pub closed spec fn spec_contents(&self) -> Seq<(String, String)> {
        self.source_contents@
    }

    /// The stored contents, by relative source key.
    pub closed spec fn spec_content(&self, k: Seq<char>) -> Option<Seq<char>> {
        content_lookup(self.source_contents@, k)
    }

    /// Well-formed: the sets and list are well-formed, every stored mapping's
    /// source and name is registered, and the tables stay small enough for
    /// 32-bit indices.
    pub closed spec fn wf(&self) -> bool {
        &&& self.sources.wf()
        &&& self.names.wf()
        &&& self.mappings.wf()
        &&& self.sources.elements().len() == self.sources.spec_size()
        &&& self.names.elements().len() == self.names.spec_size()
        &&& self.sources.elements().len() <= 0x7fff_0000
        &&& self.names.elements().len() <= 0x7fff_0000
        &&& forall|k: int|
            0 <= k < self.mappings.mappings().len() ==> {
                let m = #[trigger] self.mappings.mappings()[k];
                &&& (m.source is Some ==> self.sources.spec_index_of(m.source->Some_0@) is Some)
                &&& (m.name is Some ==> self.names.spec_index_of(m.name->Some_0@) is Some)
            }
    }

    /// A fresh generator for the given output file and source root.
    pub fn new(file: Option<String>, source_root: Option<String>) -> (r: Self)
        ensures
            r.wf(),
            r.spec_file() == view_opt(file),
            r.spec_source_root() == view_opt(source_root),
            r.spec_mappings() =~= Seq::<Mapping>::empty(),
            r.spec_sources().elements() =~= Seq::<Seq<char>>::empty(),
            r.spec_names().elements() =~= Seq::<Seq<char>>::empty(),
            !r.spec_has_contents(),
            forall|k: Seq<char>| #[trigger] r.spec_content(k) is None,
    {
        SourceMapGenerator {
            file,
            source_root,
            sources: ArraySet::new(),
            names: ArraySet::new(),
            mappings: MappingList::new(),
            source_contents: Vec::new(),
        }
    }

    /// Checks a mapping against the mapping invariant.
    fn validate_mapping(mapping: &Mapping) -> (r: Result<(), ()>)
        ensures
            r is Ok <==> mapping_valid(*mapping),
    {
        let gen_ok = mapping.generated.column >= 0 && mapping.generated.line > 0;
        match (&mapping.original, &mapping.source, &mapping.name) {
            (None, None, None) => if gen_ok {
                Ok(())
            } else {
                Err(())
            },
            (Some(o), Some(_), _) => if gen_ok && o.line > 0 && o.column >= 0 {
                Ok(())
            } else {
                Err(())
            },
            _ => Err(()),
        }
    }

    /// Adds a mapping: rejected as `InvalidMapping` when it violates the
    /// mapping invariant or would overflow the source or name table, else
    /// its source and name are registered and it is appended.
    pub fn add_mapping(&mut self, mapping: Mapping) -> (r: Result<(), MappingError>)
        requires
            old(self).wf(),
        ensures
            final(self).wf(),
            !mapping_valid(mapping) ==> r == Err::<(), MappingError>(MappingError::InvalidMapping)
                && *final(self) == *old(self),
            r is Ok ==> {
                &&& mapping_valid(mapping)
                &&& final(self).spec_mappings() == old(self).spec_mappings().push(mapping)
                &&& final(self).spec_contents() == old(self).spec_contents()
                &&& final(self).spec_file() == old(self).spec_file()
                &&& final(self).spec_source_root() == old(self).spec_source_root()
                &&& (mapping.source matches Some(s) ==> final(self).spec_sources().spec_index_of(
                    s@,
                ) is Some)
                &&& (mapping.name matches Some(nm) ==> final(self).spec_names().spec_index_of(
                    nm@,
                ) is Some)
                &&& (forall|v: Seq<char>|
                    old(self).spec_sources().spec_index_of(v) is Some
                        ==> #[trigger] final(self).spec_sources().spec_index_of(v)
                        == old(self).spec_sources().spec_index_of(v))
                &&& (forall|v: Seq<char>|
                    old(self).spec_names().spec_index_of(v) is Some
                        ==> #[trigger] final(self).spec_names().spec_index_of(v)
                        == old(self).spec_names().spec_index_of(v))
            },
            mapping_valid(mapping) && !(r is Ok) ==> r == Err::<(), MappingError>(
                MappingError::InvalidMapping,
            ) && *final(self) == *old(self),
            r is Ok <==> mapping_valid(mapping) && ({
                let need_source = mapping.source matches Some(s) && old(
                    self,
                ).spec_sources().spec_index_of(s@) is None;
                let need_name = mapping.name matches Some(nm) && old(
                    self,
                ).spec_names().spec_index_of(nm@) is None;
                &&& (need_source ==> old(self).spec_sources().spec_size() < 0x7fff_0000)
                &&& (need_name ==> old(self).spec_names().spec_size() < 0x7fff_0000)
            }),
    {
        if Self::validate_mapping(&mapping).is_err() {
            return Err(MappingError::InvalidMapping);
        }
        let need_source = match &mapping.source {
            Some(s) => !self.sources.has(s),
            None => false,
        };
        let need_name = match &mapping.name {
            Some(n) => !self.names.has(n),
            None => false,
        };
        if need_source && self.sources.size() >= 0x7fff_0000 {
            return Err(MappingError::InvalidMapping);
        }
        if need_name && self.names.size() >= 0x7fff_0000 {
            return Err(MappingError::InvalidMapping);
        }
        match &mapping.source {
            Some(s) => {
                if need_source {
                    self.sources.add(s.clone(), false);
                }
            },
            None => {},
        }
        match &mapping.name {
            Some(n) => {
                if need_name {
                    self.names.add(n.clone(), false);
                }
            },
            None => {},
        }
        proof {
            assert forall|k: int|
                0 <= k < self.mappings.mappings().len() implies {
                let m = #[trigger] self.mappings.mappings()[k];
                &&& (m.source is Some ==> self.sources.spec_index_of(m.source->Some_0@) is Some)
                &&& (m.name is Some ==> self.names.spec_index_of(m.name->Some_0@) is Some)
            } by {
                let m = self.mappings.mappings()[k];
                if m.source is Some {
                    assert(old(self).sources.spec_index_of(m.source->Some_0@) is Some);
                }
                if m.name is Some {
                    assert(old(self).names.spec_index_of(m.name->Some_0@) is Some);
                }
            }
            if mapping.source is Some {
                assert(self.sources.spec_index_of(mapping.source->Some_0@) is Some);
            }
            if mapping.name is Some {
                assert(self.names.spec_index_of(mapping.name->Some_0@) is Some);
            }
        }
        self.mappings.add(mapping);
        Ok(())
    }

    /// Stores or removes the content of a source file, keyed by the file
    /// resolved relative to the source root when one is set; rejected when
    /// the resolver cannot handle the path.
    pub fn set_source_content(&mut self, source_file: String, source_content: Option<String>) -> (r:
        Result<(), ()>)
        requires
            old(self).wf(),
        ensures
            final(self).wf(),
            ({
                let key = match old(self).spec_source_root() {
                    Option::Some(root) => crate::util::relative_spec(root, source_file@),
                    Option::None => Option::Some(source_file@),
                };
                match key {
                    Option::None => r is Err && *final(self) == *old(self),
                    Option::Some(k) => {
                        &&& r is Ok
                        &&& final(self).spec_content(k) == view_opt(source_content)
                        &&& (forall|v: Seq<char>|
                            v != k ==> #[trigger] final(self).spec_content(v) == old(
                                self,
                            ).spec_content(v))
                        &&& final(self).spec_mappings() == old(self).spec_mappings()
                        &&& final(self).spec_sources() == old(self).spec_sources()
                        &&& final(self).spec_names() == old(self).spec_names()
                    },
                }
            }),
    {
        let source: String = match &self.source_root {
            Some(root) => {
                match crate::util::relative(root.clone(), source_file) {
                    Some(s) => s,
                    None => {
                        return Err(());
                    },
                }
            },
            None => source_file,
        };
        match source_content {
            Some(content) => {
                self.source_contents.push((source, content));
                proof {
                    assert(self.source_contents@.drop_last() =~= old(self).source_contents@);
                }
            },
            None => {
                remove_content(&mut self.source_contents, &source);
            },
        }
        Ok(())
    }

    /// The stored content for a relative source key.
    pub fn content_for(&self, key: &String) -> (r: Option<String>)
        ensures
            view_opt(r) == self.spec_content(key@),
    {
        let n = self.source_contents.len();
        let mut i: usize = n;
        proof {
            assert(self.source_contents@.take(n as int) =~= self.source_contents@);
        }
        loop
            invariant_except_break
                0 <= i <= n == self.source_contents@.len(),
                content_lookup(self.source_contents@, key@) == content_lookup(
                    self.source_contents@.take(i as int),
                    key@,
                ),
            ensures
                content_lookup(self.source_contents@, key@) is None,
            decreases i,
        {
            if i == 0 {
                proof {
                    assert(self.source_contents@.take(0) =~= Seq::<(String, String)>::empty());
                }
                break ;
            }
            let ghost pre = self.source_contents@.take(i as int);
            proof {
                assert(pre.last() == self.source_contents@[i - 1]);
                assert(pre.drop_last() =~= self.source_contents@.take(i as int - 1));
            }
            if self.source_contents[i - 1].0.eq(key) {
                return Some(self.source_contents[i - 1].1.clone());
            }
            i = i - 1;
        }
        None
    }

    /// Serializes the accumulated mappings to the compact encoding: sorts
    /// them, then emits semicolons, commas and VLQ deltas as `ser_from`
    /// describes, against this generator's source and name tables.
    #[verifier::rlimit(100)]
    pub fn serialize_mappings(&mut self) -> (r: String)
        requires
            old(self).wf(),
        ensures
            final(self).wf(),
            final(self).spec_sources() == old(self).spec_sources(),
            final(self).spec_names() == old(self).spec_names(),
            final(self).spec_file() == old(self).spec_file(),
            final(self).spec_source_root() == old(self).spec_source_root(),
            final(self).spec_contents() == old(self).spec_contents(),
            final(self).spec_mappings().to_multiset() == old(self).spec_mappings().to_multiset(),
            forall|x: int, y: int|
                0 <= x <= y < final(self).spec_mappings().len() ==> mapping_cmp(
                    #[trigger] final(self).spec_mappings()[x],
                    #[trigger] final(self).spec_mappings()[y],
                ) <= 0,
            vstd::utf8::encode_utf8(r@) == ser_from(
                final(self).spec_mappings(),
                0,
                ser_start(),
                |v: Seq<char>| final(self).spec_sources().spec_index_of(v),
                |v: Seq<char>| final(self).spec_names().spec_index_of(v),
            ),
    {
        let mappings = self.mappings.to_array();
        let ghost ms = mappings@;
        let ghost srcf = |v: Seq<char>| self.sources.spec_index_of(v);
        let ghost namef = |v: Seq<char>| self.names.spec_index_of(v);
        proof {
            assert forall|k: int| 0 <= k < ms.len() implies mapping_valid(#[trigger] ms[k]) && (
            ms[k].source is Some ==> self.sources.spec_index_of(ms[k].source->Some_0@) is Some) && (
            ms[k].name is Some ==> self.names.spec_index_of(ms[k].name->Some_0@) is Some) by {
                vstd::seq_lib::to_multiset_contains(ms, ms[k]);
                vstd::seq_lib::to_multiset_contains(old(self).mappings.mappings(), ms[k]);
                old(self).mappings.lemma_wf_valid();
                let j = choose|j: int|
                    0 <= j < old(self).mappings.mappings().len() && old(
                        self,
                    ).mappings.mappings()[j] == ms[k];
                assert(mapping_valid(old(self).mappings.mappings()[j]));
            }
        }
        let n = mappings.len();
        let mut out: Vec<u8> = Vec::new();
        let mut prev_line: i32 = 1;
        let mut prev_col: i32 = 0;
        let mut prev_src: i32 = 0;
        let mut prev_oline: i32 = 0;
        let mut prev_ocol: i32 = 0;
        let mut prev_name: i32 = 0;
        let mut i: usize = 0;
        while i < n
            invariant
                n == ms.len() == mappings@.len(),
                ms == mappings@,
                0 <= i <= n,
                self.sources.wf(),
                self.names.wf(),
                self.sources.elements().len() <= 0x7fff_0000,
                self.names.elements().len() <= 0x7fff_0000,
                srcf == (|v: Seq<char>| self.sources.spec_index_of(v)),
                namef == (|v: Seq<char>| self.names.spec_index_of(v)),
                forall|k: int|
                    0 <= k < ms.len() ==> mapping_valid(#[trigger] ms[k]) && (ms[k].source is Some
                        ==> self.sources.spec_index_of(ms[k].source->Some_0@) is Some) && (
                    ms[k].name is Some ==> self.names.spec_index_of(ms[k].name->Some_0@) is Some),
                forall|x: int, y: int|
                    0 <= x <= y < ms.len() ==> mapping_cmp(#[trigger] ms[x], #[trigger] ms[y])
                        <= 0,
                1 <= prev_line,
                0 <= prev_col,
                0 <= prev_src < 0x7fff_0000,
                0 <= prev_oline,
                0 <= prev_ocol,
                0 <= prev_name < 0x7fff_0000,
                i < n ==> prev_line <= ms[i as int].generated.line,
                i > 0 ==> prev_line == ms[i as int - 1].generated.line,
                i == 0 ==> prev_line == 1,
                forall|b: int| 0 <= b < out@.len() ==> out@[b] < 128,
                ser_from(ms, 0, ser_start(), srcf, namef) == out@ + ser_from(
                    ms,
                    i as int,
                    SerState {
                        line: prev_line as int,
                        col: prev_col as int,
                        src: prev_src as int,
                        oline: prev_oline as int,
                        ocol: prev_ocol as int,
                        name: prev_name as int,
                    },
                    srcf,
                    namef,
                ),
            decreases n - i,
        {
            let ghost st0 = SerState {
                line: prev_line as int,
                col: prev_col as int,
                src: prev_src as int,
                oline: prev_oline as int,
                ocol: prev_ocol as int,
                name: prev_name as int,
            };
            if mappings[i].generated.line != prev_line {
                prev_col = 0;
                let target = mappings[i].generated.line;
                while target != prev_line
                    invariant
                        n == ms.len() == mappings@.len(),
                        ms == mappings@,
                        i < n,
                        target == ms[i as int].generated.line,
                        1 <= prev_line <= target,
                        prev_col == 0,
                        forall|b: int| 0 <= b < out@.len() ==> out@[b] < 128,
                        ser_from(ms, 0, ser_start(), srcf, namef) == out@ + ser_from(
                            ms,
                            i as int,
                            SerState {
                                line: prev_line as int,
                                col: 0,
                                src: st0.src,
                                oline: st0.oline,
                                ocol: st0.ocol,
                                name: st0.name,
                            },
                            srcf,
                            namef,
                        ),
                    decreases target - prev_line,
                {
                    let ghost out_pre = out@;
                    let ghost st_here = SerState {
                        line: prev_line as int,
                        col: 0,
                        src: st0.src,
                        oline: st0.oline,
                        ocol: st0.ocol,
                        name: st0.name,
                    };
                    out.push(59);
                    prev_line = prev_line + 1;
                    proof {
                        let st_next = SerState { line: st_here.line + 1, ..st_here };
                        lemma_ser_advance(ms, i as int, st_here, srcf, namef);
                        vstd::seq_lib::lemma_concat_associative(
                            out_pre,
                            seq![59u8],
                            ser_from(ms, i as int, st_next, srcf, namef),
                        );
                        assert(out@ =~= out_pre + seq![59u8]);
                    }
                }
            } else if i > 0 {
                if compare_by_generated_pos_inflated(&mappings[i], &mappings[i - 1]) == 0 {
                    proof {
                        lemma_ser_skip(ms, i as int, st0, srcf, namef);
                    }
                    i = i + 1;
                    continue ;
                }
            }
            // The state at the head of this group, separators settled.
            let ghost st1 = SerState {
                line: prev_line as int,
                col: prev_col as int,
                src: prev_src as int,
                oline: prev_oline as int,
                ocol: prev_ocol as int,
                name: prev_name as int,
            };
            let ghost out_g = out@;
            let ghost sep: Seq<u8> = if i > 0 && ms[i as int - 1].generated.line
                == ms[i as int].generated.line {
                seq![44u8]
            } else {
                Seq::<u8>::empty()
            };
            // The comma separates same-line neighbours.
            if i > 0 && mappings[i - 1].generated.line == mappings[i].generated.line {
                out.push(44);
            }
            proof {
                assert(out@ =~= out_g + sep);
            }
            let st2 = emit_group(
                &mut out,
                &mappings[i],
                &self.sources,
                &self.names,
                prev_col,
                prev_src,
                prev_oline,
                prev_ocol,
                prev_name,
                Ghost(st1),
                Ghost(srcf),
                Ghost(namef),
            );
            prev_col = st2.0;
            prev_src = st2.1;
            prev_oline = st2.2;
            prev_ocol = st2.3;
            prev_name = st2.4;
            proof {
                let pair = ser_fields(ms[i as int], st1, srcf, namef);
                lemma_ser_step(ms, i as int, st1, srcf, namef);
                let rest = ser_from(ms, i as int + 1, pair.1, srcf, namef);
                vstd::seq_lib::lemma_concat_associative(sep, pair.0, rest);
                vstd::seq_lib::lemma_concat_associative(out_g, sep + pair.0, rest);
                vstd::seq_lib::lemma_concat_associative(out_g, sep, pair.0);
                assert(ser_from(ms, 0, ser_start(), srcf, namef) == out@ + rest);
                assert(SerState {
                    line: prev_line as int,
                    col: prev_col as int,
                    src: prev_src as int,
                    oline: prev_oline as int,
                    ocol: prev_ocol as int,
                    name: prev_name as int,
                } == pair.1);
            }
            i = i + 1;
        }
        proof {
            assert(ser_from(
                ms,
                n as int,
                SerState {
                    line: prev_line as int,
                    col: prev_col as int,
                    src: prev_src as int,
                    oline: prev_oline as int,
                    ocol: prev_ocol as int,
                    name: prev_name as int,
                },
                srcf,
                namef,
            ) == Seq::<u8>::empty());
            assert(ser_from(ms, 0, ser_start(), srcf, namef) =~= out@);
        }
        let r = crate::strings::ascii_bytes_to_string(&out);
        proof {
            assert forall|b: int| 0 <= b < r@.len() implies #[trigger] (r@[b] as u32) < 128 by {
                assert(r@[b] == out@[b] as char);
            }
            assert(vstd::utf8::is_ascii_chars(r@));
            vstd::utf8::is_ascii_chars_encode_utf8(r@);
            assert(vstd::utf8::encode_utf8(r@) =~= out@);
        }
        r
    }

    /// The relative key under which a source's content is stored.
    pub open spec fn content_key(root: Option<Seq<char>>, source: Seq<char>) -> Option<Seq<char>> {
        match root {
            Option::Some(r) => crate::util::relative_spec(r, source),
            Option::None => Option::Some(source),
        }
    }

    /// Whether any content is stored.
    pub closed spec fn spec_has_contents(&self) -> bool {
        self.source_contents@.len() > 0
    }

    /// The stored contents of the given sources, in order, skipping sources
    /// whose key cannot be resolved or has no content.
    pub open spec fn contents_of(&self, srcs: Seq<Seq<char>>, root: Option<Seq<char>>) -> Seq<
        Seq<char>,
    >
        decreases srcs.len(),
    {
        if srcs.len() == 0 {
            Seq::empty()
        } else {
            let rest = self.contents_of(srcs.drop_last(), root);
            match Self::content_key(root, srcs.last()) {
                Option::None => rest,
                Option::Some(k) => match self.spec_content(k) {
                    Option::Some(c) => rest.push(c),
                    Option::None => rest,
                },
            }
        }
    }

    /// The content of each given source: the stored content under the
    /// source's key relative to the root, or `None`.
    pub fn generate_sources_contents(&self, sources: &Vec<String>, source_root: &Option<String>)
        -> (r: Vec<Option<String>>)
        ensures
            r@.len() == sources@.len(),
            forall|i: int|
                0 <= i < r@.len() ==> view_opt(#[trigger] r@[i]) == (match Self::content_key(
                    view_opt(*source_root),
                    sources@[i]@,
                ) {
                    Option::Some(k) => self.spec_content(k),
                    Option::None => Option::None,
                }),
    {
        let mut out: Vec<Option<String>> = Vec::new();
        let n = sources.len();
        let mut i: usize = 0;
        while i < n
            invariant
                n == sources@.len(),
                out@.len() == i <= n,
                forall|j: int|
                    0 <= j < i ==> view_opt(#[trigger] out@[j]) == (match Self::content_key(
                        view_opt(*source_root),
                        sources@[j]@,
                    ) {
                        Option::Some(k) => self.spec_content(k),
                        Option::None => Option::None,
                    }),
            decreases n - i,
        {
            let key: Option<String> = match source_root {
                Some(root) => crate::util::relative(root.clone(), sources[i].clone()),
                None => Some(sources[i].clone()),
            };
            match key {
                Some(k) => {
                    let c = self.content_for(&k);
                    out.push(c);
                },
                None => {
                    out.push(None);
                },
            }
            i = i + 1;
        }
        out
    }

    /// The generator's document: version 3, the registered sources and
    /// names, the serialized mappings, and the stored contents when any
    /// exist; never a sectioned document.
    pub fn as_json(&mut self) -> (r: SourceMapJson)
        requires
            old(self).wf(),
        ensures
            final(self).wf(),
            final(self).spec_sources() == old(self).spec_sources(),
            final(self).spec_names() == old(self).spec_names(),
            final(self).spec_contents() == old(self).spec_contents(),
            final(self).spec_file() == old(self).spec_file(),
            final(self).spec_source_root() == old(self).spec_source_root(),
            r.version == 3,
            view_opt(r.file) == old(self).spec_file(),
            view_opt(r.source_root) == old(self).spec_source_root(),
            r.sections is None,
            r.sources@.len() == final(self).spec_sources().elements().len(),
            forall|i: int|
                0 <= i < r.sources@.len()
                    ==> #[trigger] r.sources@[i]@ == final(self).spec_sources().elements()[i],
            r.names@.len() == final(self).spec_names().elements().len(),
            forall|i: int|
                0 <= i < r.names@.len()
                    ==> #[trigger] r.names@[i]@ == final(self).spec_names().elements()[i],
            vstd::utf8::encode_utf8(r.mappings@) == ser_from(
                final(self).spec_mappings(),
                0,
                ser_start(),
                |v: Seq<char>| final(self).spec_sources().spec_index_of(v),
                |v: Seq<char>| final(self).spec_names().spec_index_of(v),
            ),
            final(self).spec_mappings().to_multiset() == old(self).spec_mappings().to_multiset(),
            !old(self).spec_has_contents() ==> r.sources_content is None,
            old(self).spec_has_contents() ==> (r.sources_content matches Some(v) && v@.map_values(
                |s: String| s@,
            ) == final(self).contents_of(
                r.sources@.map_values(|s: String| s@),
                old(self).spec_source_root(),
            )),
    {
        let sources_vec = self.sources.to_vec();
        let names_vec = self.names.to_vec();
        let mappings_str = self.serialize_mappings();
        let mut sources_content: Option<Vec<String>> = None;
        if self.source_contents.len() > 0 {
            let raw = self.generate_sources_contents(&sources_vec, &self.source_root);
            let mut flat: Vec<String> = Vec::new();
            let ghost svs = sources_vec@.map_values(|s: String| s@);
            let n = raw.len();
            let mut i: usize = 0;
            proof {
                assert(svs.take(0) =~= Seq::<Seq<char>>::empty());
            }
            while i < n
                invariant
                    n == raw@.len() == sources_vec@.len(),
                    0 <= i <= n,
                    svs == sources_vec@.map_values(|s: String| s@),
                    forall|j: int|
                        0 <= j < n ==> view_opt(#[trigger] raw@[j]) == (match Self::content_key(
                            view_opt(self.source_root),
                            sources_vec@[j]@,
                        ) {
                            Option::Some(k) => self.spec_content(k),
                            Option::None => Option::None,
                        }),
                    flat@.map_values(|s: String| s@) == self.contents_of(
                        svs.take(i as int),
                        view_opt(self.source_root),
                    ),
                decreases n - i,
            {
                let ghost pre = svs.take(i as int);
                let ghost flat_pre = flat@;
                match &raw[i] {
                    Some(c) => {
                        flat.push(c.clone());
                    },
                    None => {},
                }
                proof {
                    let cur = svs.take(i as int + 1);
                    assert(cur.drop_last() =~= pre);
                    assert(cur.last() == svs[i as int]);
                    assert(svs[i as int] == sources_vec@[i as int]@);
                    assert forall|x: int|
                        0 <= x < flat@.len() implies flat@.map_values(|s: String| s@)[x]
                        == #[trigger] self.contents_of(cur, view_opt(self.source_root))[x] by {
                        if x < flat_pre.len() {
                            assert(flat@[x] == flat_pre[x]);
                            assert(flat_pre.map_values(|s: String| s@)[x] == self.contents_of(
                                pre,
                                view_opt(self.source_root),
                            )[x]);
                        }
                    }
                    assert(flat@.map_values(|s: String| s@) =~= self.contents_of(
                        cur,
                        view_opt(self.source_root),
                    ));
                }
                i = i + 1;
            }
            proof {
                assert(svs.take(n as int) =~= svs);
            }
            sources_content = Some(flat);
        }
        SourceMapJson {
            version: 3,
            sources: sources_vec,
            names: names_vec,
            mappings: mappings_str,
            file: crate::util::clone_opt_string(&self.file),
            source_root: crate::util::clone_opt_string(&self.source_root),
            sources_content,
            sections: None,
        }
    }
}

/// Emits the VLQ fields of one mapping and returns the updated counters
/// (column, source, original line, original column, name).
#[verifier::rlimit(100)]
fn emit_group(
    out: &mut Vec<u8>,
    m: &Mapping,
    sources: &ArraySet,
    names: &ArraySet,
    prev_col: i32,
    prev_src: i32,
    prev_oline: i32,
    prev_ocol: i32,
    prev_name: i32,
    Ghost(st): Ghost<SerState>,
    Ghost(srcf): Ghost<spec_fn(Seq<char>) -> Option<usize>>,
    Ghost(namef): Ghost<spec_fn(Seq<char>) -> Option<usize>>,
) -> (r: (i32, i32, i32, i32, i32))
    requires
        sources.wf(),
        names.wf(),
        sources.elements().len() <= 0x7fff_0000,
        names.elements().len() <= 0x7fff_0000,
        srcf == (|v: Seq<char>| sources.spec_index_of(v)),
        namef == (|v: Seq<char>| names.spec_index_of(v)),
        mapping_valid(*m),
        m.source is Some ==> sources.spec_index_of(m.source->Some_0@) is Some,
        m.name is Some ==> names.spec_index_of(m.name->Some_0@) is Some,
        st.col == prev_col,
        st.src == prev_src,
        st.oline == prev_oline,
        st.ocol == prev_ocol,
        st.name == prev_name,
        0 <= prev_col,
        0 <= prev_src < 0x7fff_0000,
        0 <= prev_oline,
        0 <= prev_ocol,
        0 <= prev_name < 0x7fff_0000,
    ensures
        final(out)@ == old(out)@ + ser_fields(*m, st, srcf, namef).0,
        ({
            let st2 = ser_fields(*m, st, srcf, namef).1;
            &&& r.0 == st2.col
            &&& r.1 == st2.src
            &&& r.2 == st2.oline
            &&& r.3 == st2.ocol
            &&& r.4 == st2.name
            &&& 0 <= r.0
            &&& 0 <= r.1 < 0x7fff_0000
            &&& 0 <= r.2
            &&& 0 <= r.3
            &&& 0 <= r.4 < 0x7fff_0000
        }),
        forall|b: int|
            old(out)@.len() <= b < final(out)@.len() ==> #[trigger] final(out)@[b] < 128,
{
    let ghost pair = ser_fields(*m, st, srcf, namef);
    proof {
        crate::base64_vlq::lemma_digit_bytes_are_base64(
            crate::base64_vlq::vlq_unsigned(m.generated.column - st.col),
        );
    }
    let ghost out0 = out@;
    crate::base64_vlq::encode_into(m.generated.column - prev_col, out);
    let new_col = m.generated.column;
    match &m.source {
        None => {
            proof {
                assert(out@ == out0 + pair.0);
            }
            (new_col, prev_src, prev_oline, prev_ocol, prev_name)
        },
        Some(sref) => {
            let si: usize = match sources.index_of(sref) {
                Some(x) => x,
                None => {
                    proof {
                        assert(false);
                    }
                    0
                },
            };
            let o = match &m.original {
                Some(o) => *o,
                None => {
                    proof {
                        assert(false);
                    }
                    crate::source_map::Position { line: 1, column: 0 }
                },
            };
            proof {
                crate::base64_vlq::lemma_digit_bytes_are_base64(
                    crate::base64_vlq::vlq_unsigned(si - st.src),
                );
                crate::base64_vlq::lemma_digit_bytes_are_base64(
                    crate::base64_vlq::vlq_unsigned(o.line - 1 - st.oline),
                );
                crate::base64_vlq::lemma_digit_bytes_are_base64(
                    crate::base64_vlq::vlq_unsigned(o.column - st.ocol),
                );
            }
            crate::base64_vlq::encode_into(si as i32 - prev_src, out);
            crate::base64_vlq::encode_into(o.line - 1 - prev_oline, out);
            crate::base64_vlq::encode_into(o.column - prev_ocol, out);
            match &m.name {
                None => {
                    proof {
                        assert(out@ =~= out0 + pair.0);
                    }
                    (new_col, si as i32, o.line - 1, o.column, prev_name)
                },
                Some(nref) => {
                    let ni: usize = match names.index_of(nref) {
                        Some(x) => x,
                        None => {
                            proof {
                                assert(false);
                            }
                            0
                        },
                    };
                    proof {
                        crate::base64_vlq::lemma_digit_bytes_are_base64(
                            crate::base64_vlq::vlq_unsigned(ni - st.name),
                        );
                    }
                    crate::base64_vlq::encode_into(ni as i32 - prev_name, out);
                    proof {
                        assert(out@ =~= out0 + pair.0);
                    }
                    (new_col, si as i32, o.line - 1, o.column, ni as i32)
                },
            }
        },
    }
}

/// Removes every stored pair with the given key.
fn remove_content(entries: &mut Vec<(String, String)>, key: &String)
    ensures
        content_lookup(final(entries)@, key@) is None,
        forall|v: Seq<char>|
            v != key@ ==> #[trigger] content_lookup(final(entries)@, v) == content_lookup(
                old(entries)@,
                v,
            ),
    {
    let mut out: Vec<(String, String)> = Vec::new();
    let n = entries.len();
    let mut i: usize = 0;
    while i < n
        invariant
            n == entries@.len(),
            0 <= i <= n,
            entries@ == old(entries)@,
            content_lookup(out@, key@) is None,
            forall|v: Seq<char>|
                v != key@ ==> #[trigger] content_lookup(out@, v) == content_lookup(
                    entries@.take(i as int),
                    v,
                ),
        decreases n - i,
    {
        let ghost pre_out = out@;
        let ghost pre = entries@.take(i as int);
        proof {
            assert(entries@.take(i as int + 1).drop_last() =~= pre);
            assert(entries@.take(i as int + 1).last() == entries@[i as int]);
        }
        if !entries[i].0.eq(key) {
            let pair = (entries[i].0.clone(), entries[i].1.clone());
            out.push(pair);
            proof {
                assert(out@.drop_last() =~= pre_out);
                assert(out@.last().0@ == entries@[i as int].0@);
                assert(out@.last().1@ == entries@[i as int].1@);
            }
        }
        proof {
            assert forall|v: Seq<char>|
                v != key@ implies #[trigger] content_lookup(out@, v) == content_lookup(
                entries@.take(i as int + 1),
                v,
            ) by {
                let cur = entries@.take(i as int + 1);
                assert(cur.drop_last() =~= pre);
                assert(cur.last() == entries@[i as int]);
                if entries@[i as int].0@ == key@ {
                    assert(content_lookup(cur, v) == content_lookup(pre, v));
                    assert(content_lookup(out@, v) == content_lookup(pre_out, v));
                } else {
                    assert(out@.drop_last() =~= pre_out);
                    assert(out@.last().0 == entries@[i as int].0);
                    assert(out@.last().1 == entries@[i as int].1);
                    if entries@[i as int].0@ == v {
                        assert(content_lookup(out@, v) == Some(out@.last().1@));
                        assert(content_lookup(cur, v) == Some(entries@[i as int].1@));
                    } else {
                        assert(content_lookup(out@, v) == content_lookup(pre_out, v));
                        assert(content_lookup(cur, v) == content_lookup(pre, v));
                    }
                }
            }
            assert(content_lookup(out@, key@) is None) by {
                if entries@[i as int].0@ != key@ {
                    assert(out@.drop_last() =~= pre_out);
                    assert(out@.last().0@ != key@);
                }
            }
        }
        i = i + 1;
    }
    proof {
        assert(entries@.take(n as int) =~= entries@);
    }
    *entries = out;
}

} // verus!
