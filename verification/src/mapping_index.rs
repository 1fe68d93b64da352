//! The mapping index: the decoded form of a compact mapping stream, held in
//! two sort orders, with nearest-match queries and on-demand column spans.
//!
//! The stream is walked group by group: `;` advances the generated line and
//! resets the generated column, `,` separates mappings on one line, and each
//! group carries 1, 4 or 5 VLQ fields, each a delta against the previous
//! value of the same field (the generated column restarts at every line).

use vstd::prelude::*;
use crate::base64::is_base64_byte;
use crate::base64_vlq::parse_vlq;
use crate::binary_search::{needle_compatible, search, sorted_by, Bias};
use crate::compare::Comparator;
use crate::errors::DecodeError;
use crate::util::sign;

verus! {

/// Every decoded line, column and index stays at or below this, so that the
/// 1-based translation at the query boundary cannot overflow.
pub const MAX_FIELD: i32 = 0x7fff_fffe;

/// The original-position fields of a decoded mapping: all 0-based.
#[derive(Debug, Clone, Copy)]
pub struct OriginalFields {
    pub source: i32,
    pub line: i32,
    pub column: i32,
    pub name: Option<i32>,
}

/// One decoded mapping: 0-based generated line and column, optional original
/// fields, and the column span filled in on demand.
#[derive(Debug, Clone, Copy)]
pub struct IndexEntry {
    pub generated_line: i32,
    pub generated_column: i32,
    pub original: Option<OriginalFields>,
    pub last_generated_column: Option<i32>,
}

/// All fields of an entry lie in the decodable range.
pub open spec fn entry_in_range(e: IndexEntry) -> bool {
    &&& 0 <= e.generated_line <= MAX_FIELD
    &&& 0 <= e.generated_column <= MAX_FIELD
    &&& match e.original {
        Option::Some(o) => {
            &&& 0 <= o.source <= MAX_FIELD
            &&& 0 <= o.line <= MAX_FIELD
            &&& 0 <= o.column <= MAX_FIELD
            &&& match o.name {
                Option::Some(n) => 0 <= n <= MAX_FIELD,
                Option::None => true,
            }
        },
        Option::None => true,
    }
}

/// The semicolon and comma bytes that separate groups.
pub open spec fn is_separator(b: u8) -> bool {
    b == 59 || b == 44
}

/// Parses the remaining stream from `i`, given the running value of each
/// delta field and the entries decoded so far.
pub open spec fn parse_mappings_rec(
    s: Seq<u8>,
    i: int,
    line: int,
    col: int,
    src: int,
    oline: int,
    ocol: int,
    name: int,
    acc: Seq<IndexEntry>,
) -> Result<Seq<IndexEntry>, DecodeError>
    decreases s.len() - i, 1nat,
{
    if i < 0 || i >= s.len() {
        Ok(acc)
    } else if s[i] == 59 {
        if line + 1 > MAX_FIELD {
            Err(DecodeError::PositionOutOfRange)
        } else {
            parse_mappings_rec(s, i + 1, line + 1, 0, src, oline, ocol, name, acc)
        }
    } else if s[i] == 44 {
        parse_mappings_rec(s, i + 1, line, col, src, oline, ocol, name, acc)
    } else {
        match parse_vlq(s, i) {
            Option::None => Err(DecodeError::InvalidVlq),
            Option::Some((d1, n1)) => {
                let col2 = col + d1;
                if !(0 <= col2 <= MAX_FIELD) {
                    Err(DecodeError::PositionOutOfRange)
                } else if n1 >= s.len() || is_separator(s[n1]) {
                    let e = IndexEntry {
                        generated_line: line as i32,
                        generated_column: col2 as i32,
                        original: Option::None,
                        last_generated_column: Option::None,
                    };
                    if n1 <= i || n1 > s.len() {
                        Err(DecodeError::InvalidVlq)
                    } else {
                        parse_mappings_rec(s, n1, line, col2, src, oline, ocol, name, acc.push(e))
                    }
                } else {
                    parse_mappings_fields(s, i, n1, line, col2, src, oline, ocol, name, acc)
                }
            },
        }
    }
}

/// Parses the source, original line and original column fields of a group,
/// then the optional name field, and continues with the rest of the stream.
pub open spec fn parse_mappings_fields(
    s: Seq<u8>,
    i: int,
    n1: int,
    line: int,
    col2: int,
    src: int,
    oline: int,
    ocol: int,
    name: int,
    acc: Seq<IndexEntry>,
) -> Result<Seq<IndexEntry>, DecodeError>
    decreases s.len() - i, 0nat,
{
    match parse_vlq(s, n1) {
        Option::None => Err(DecodeError::InvalidVlq),
        Option::Some((d2, n2)) => {
            let src2 = src + d2;
            if !(0 <= src2 <= MAX_FIELD) {
                Err(DecodeError::PositionOutOfRange)
            } else if n2 >= s.len() || is_separator(s[n2]) {
                Err(DecodeError::InvalidFieldCount)
            } else {
                match parse_vlq(s, n2) {
                    Option::None => Err(DecodeError::InvalidVlq),
                    Option::Some((d3, n3)) => {
                        let oline2 = oline + d3;
                        if !(0 <= oline2 <= MAX_FIELD) {
                            Err(DecodeError::PositionOutOfRange)
                        } else if n3 >= s.len() || is_separator(s[n3]) {
                            Err(DecodeError::InvalidFieldCount)
                        } else {
                            match parse_vlq(s, n3) {
                                Option::None => Err(DecodeError::InvalidVlq),
                                Option::Some((d4, n4)) => {
                                    let ocol2 = ocol + d4;
                                    if !(0 <= ocol2 <= MAX_FIELD) {
                                        Err(DecodeError::PositionOutOfRange)
                                    } else if n4 >= s.len() || is_separator(s[n4]) {
                                        let e = IndexEntry {
                                            generated_line: line as i32,
                                            generated_column: col2 as i32,
                                            original: Option::Some(
                                                OriginalFields {
                                                    source: src2 as i32,
                                                    line: oline2 as i32,
                                                    column: ocol2 as i32,
                                                    name: Option::None,
                                                },
                                            ),
                                            last_generated_column: Option::None,
                                        };
                                        if n4 <= i || n4 > s.len() {
                                            Err(DecodeError::InvalidVlq)
                                        } else {
                                            parse_mappings_rec(
                                                s,
                                                n4,
                                                line,
                                                col2,
                                                src2,
                                                oline2,
                                                ocol2,
                                                name,
                                                acc.push(e),
                                            )
                                        }
                                    } else {
                                        match parse_vlq(s, n4) {
                                            Option::None => Err(DecodeError::InvalidVlq),
                                            Option::Some((d5, n5)) => {
                                                let name2 = name + d5;
                                                if !(0 <= name2 <= MAX_FIELD) {
                                                    Err(DecodeError::PositionOutOfRange)
                                                } else if !(n5 >= s.len() || is_separator(
                                                    s[n5],
                                                )) {
                                                    Err(DecodeError::InvalidFieldCount)
                                                } else {
                                                    let e = IndexEntry {
                                                        generated_line: line as i32,
                                                        generated_column: col2 as i32,
                                                        original: Option::Some(
                                                            OriginalFields {
                                                                source: src2 as i32,
                                                                line: oline2 as i32,
                                                                column: ocol2 as i32,
                                                                name: Option::Some(name2 as i32),
                                                            },
                                                        ),
                                                        last_generated_column: Option::None,
                                                    };
                                                    if n5 <= i || n5 > s.len() {
                                                        Err(DecodeError::InvalidVlq)
                                                    } else {
                                                        parse_mappings_rec(
                                                            s,
                                                            n5,
                                                            line,
                                                            col2,
                                                            src2,
                                                            oline2,
                                                            ocol2,
                                                            name2,
                                                            acc.push(e),
                                                        )
                                                    }
                                                }
                                            },
                                        }
                                    }
                                },
                            }
                        }
                    },
                }
            }
        },
    }
}

/// Parsing a whole stream from its start.
pub open spec fn parse_mappings_spec(s: Seq<u8>) -> Result<Seq<IndexEntry>, DecodeError> {
    parse_mappings_rec(s, 0, 0, 0, 0, 0, 0, 0, Seq::empty())
}

/// Decodes a whole mapping stream into entries in stream order, exactly as
/// `parse_mappings_spec` reads it.
#[verifier::rlimit(100)]
pub fn parse_mappings(bytes: &Vec<u8>) -> (r: Result<Vec<IndexEntry>, DecodeError>)
    ensures
        match r {
            Ok(v) => parse_mappings_spec(bytes@) == Ok::<Seq<IndexEntry>, DecodeError>(v@),
            Err(e) => parse_mappings_spec(bytes@) == Err::<Seq<IndexEntry>, DecodeError>(e),
        },
{
    let n = bytes.len();
    let mut entries: Vec<IndexEntry> = Vec::new();
    let mut pos: usize = 0;
    let mut line: i32 = 0;
    let mut col: i32 = 0;
    let mut src: i32 = 0;
    let mut oline: i32 = 0;
    let mut ocol: i32 = 0;
    let mut name: i32 = 0;
    loop
        invariant_except_break
            n == bytes@.len(),
            0 <= pos <= n,
            0 <= line <= MAX_FIELD,
            0 <= col <= MAX_FIELD,
            0 <= src <= MAX_FIELD,
            0 <= oline <= MAX_FIELD,
            0 <= ocol <= MAX_FIELD,
            0 <= name <= MAX_FIELD,
            parse_mappings_spec(bytes@) == parse_mappings_rec(
                bytes@,
                pos as int,
                line as int,
                col as int,
                src as int,
                oline as int,
                ocol as int,
                name as int,
                entries@,
            ),
        ensures
            parse_mappings_spec(bytes@) == Ok::<Seq<IndexEntry>, DecodeError>(entries@),
        decreases n - pos,
    {
        if pos >= n {
            break ;
        }
        let b = bytes[pos];
        if b == 59 {
            if line + 1 > MAX_FIELD {
                return Err(DecodeError::PositionOutOfRange);
            }
            line = line + 1;
            col = 0;
            pos = pos + 1;
            continue ;
        }
        if b == 44 {
            pos = pos + 1;
            continue ;
        }
        // One group: the generated-column field first.
        let ghost i0 = pos as int;
        let ghost st = (line as int, col as int, src as int, oline as int, ocol as int, name as int);
        let ghost acc0 = entries@;
        let (d1, n1) = match crate::base64_vlq::decode(bytes, pos) {
            Ok(p) => p,
            Err(e) => {
                return Err(e);
            },
        };
        proof {
            crate::base64_vlq::lemma_parse_vlq_range(bytes@, i0, 0, 0);
        }
        let col2 = match add_field(col, d1) {
            Ok(v) => v,
            Err(e) => {
                return Err(e);
            },
        };
        if n1 >= n || bytes[n1] == 59 || bytes[n1] == 44 {
            let e = IndexEntry {
                generated_line: line,
                generated_column: col2,
                original: None,
                last_generated_column: None,
            };
            entries.push(e);
            proof {
                assert(entries@ == acc0.push(e));
                assert(parse_mappings_rec(bytes@, i0, st.0, st.1, st.2, st.3, st.4, st.5, acc0)
                    == parse_mappings_rec(
                    bytes@,
                    n1 as int,
                    st.0,
                    col2 as int,
                    st.2,
                    st.3,
                    st.4,
                    st.5,
                    acc0.push(e),
                ));
            }
            col = col2;
            pos = n1;
            continue ;
        }
        // The source, original line and original column fields.
        proof {
            assert(parse_mappings_rec(bytes@, i0, st.0, st.1, st.2, st.3, st.4, st.5, acc0)
                == parse_mappings_fields(
                bytes@,
                i0,
                n1 as int,
                st.0,
                col2 as int,
                st.2,
                st.3,
                st.4,
                st.5,
                acc0,
            ));
        }
        let (d2, n2) = match crate::base64_vlq::decode(bytes, n1) {
            Ok(p) => p,
            Err(e) => {
                return Err(e);
            },
        };
        proof {
            crate::base64_vlq::lemma_parse_vlq_range(bytes@, n1 as int, 0, 0);
        }
        let src2 = match add_field(src, d2) {
            Ok(v) => v,
            Err(e) => {
                return Err(e);
            },
        };
        if n2 >= n || bytes[n2] == 59 || bytes[n2] == 44 {
            return Err(DecodeError::InvalidFieldCount);
        }
        let (d3, n3) = match crate::base64_vlq::decode(bytes, n2) {
            Ok(p) => p,
            Err(e) => {
                return Err(e);
            },
        };
        proof {
            crate::base64_vlq::lemma_parse_vlq_range(bytes@, n2 as int, 0, 0);
        }
        let oline2 = match add_field(oline, d3) {
            Ok(v) => v,
            Err(e) => {
                return Err(e);
            },
        };
        if n3 >= n || bytes[n3] == 59 || bytes[n3] == 44 {
            return Err(DecodeError::InvalidFieldCount);
        }
        let (d4, n4) = match crate::base64_vlq::decode(bytes, n3) {
            Ok(p) => p,
            Err(e) => {
                return Err(e);
            },
        };
        proof {
            crate::base64_vlq::lemma_parse_vlq_range(bytes@, n3 as int, 0, 0);
        }
        let ocol2 = match add_field(ocol, d4) {
            Ok(v) => v,
            Err(e) => {
                return Err(e);
            },
        };
        if n4 >= n || bytes[n4] == 59 || bytes[n4] == 44 {
            let e = IndexEntry {
                generated_line: line,
                generated_column: col2,
                original: Some(
                    OriginalFields { source: src2, line: oline2, column: ocol2, name: None },
                ),
                last_generated_column: None,
            };
            entries.push(e);
            proof {
                assert(entries@ == acc0.push(e));
                assert(parse_mappings_fields(bytes@, i0, n1 as int, st.0, col2 as int, st.2, st.3, st.4, st.5, acc0)
                    == parse_mappings_rec(
                    bytes@,
                    n4 as int,
                    st.0,
                    col2 as int,
                    src2 as int,
                    oline2 as int,
                    ocol2 as int,
                    st.5,
                    acc0.push(e),
                ));
            }
            col = col2;
            src = src2;
            oline = oline2;
            ocol = ocol2;
            pos = n4;
            continue ;
        }
        // The optional name field.
        let (d5, n5) = match crate::base64_vlq::decode(bytes, n4) {
            Ok(p) => p,
            Err(e) => {
                return Err(e);
            },
        };
        proof {
            crate::base64_vlq::lemma_parse_vlq_range(bytes@, n4 as int, 0, 0);
        }
        let name2 = match add_field(name, d5) {
            Ok(v) => v,
            Err(e) => {
                return Err(e);
            },
        };
        if !(n5 >= n || bytes[n5] == 59 || bytes[n5] == 44) {
            return Err(DecodeError::InvalidFieldCount);
        }
        let e = IndexEntry {
            generated_line: line,
            generated_column: col2,
            original: Some(
                OriginalFields {
                    source: src2,
                    line: oline2,
                    column: ocol2,
                    name: Some(name2),
                },
            ),
            last_generated_column: None,
        };
        entries.push(e);
        proof {
            assert(entries@ == acc0.push(e));
            assert(parse_mappings_fields(bytes@, i0, n1 as int, st.0, col2 as int, st.2, st.3, st.4, st.5, acc0)
                == parse_mappings_rec(
                bytes@,
                n5 as int,
                st.0,
                col2 as int,
                src2 as int,
                oline2 as int,
                ocol2 as int,
                name2 as int,
                acc0.push(e),
            ));
        }
        col = col2;
        src = src2;
        oline = oline2;
        ocol = ocol2;
        name = name2;
        pos = n5;
    }
    Ok(entries)
}

/// Applies a delta to a running field value, rejecting results outside the
/// decodable range.
fn add_field(base: i32, delta: i32) -> (r: Result<i32, DecodeError>)
    requires
        0 <= base <= MAX_FIELD,
    ensures
        0 <= base + delta <= MAX_FIELD ==> r == Ok::<i32, DecodeError>((base + delta) as i32),
        !(0 <= base + delta <= MAX_FIELD) ==> r == Err::<i32, DecodeError>(
            DecodeError::PositionOutOfRange,
        ),
{
    let v = base as i64 + delta as i64;
    if 0 <= v && v <= MAX_FIELD as i64 {
        Ok(v as i32)
    } else {
        Err(DecodeError::PositionOutOfRange)
    }
}

/// The generated-position order on entries: by line, then column.
pub open spec fn gen_cmp(a: IndexEntry, b: IndexEntry) -> int {
    if a.generated_line != b.generated_line {
        sign(a.generated_line - b.generated_line)
    } else {
        sign(a.generated_column - b.generated_column)
    }
}

/// A generated-position needle (line, column) against an entry.
pub open spec fn gen_needle_cmp(n: (i32, i32), e: IndexEntry) -> int {
    if n.0 != e.generated_line {
        sign(n.0 - e.generated_line)
    } else {
        sign(n.1 - e.generated_column)
    }
}

/// The order on optional name indices: an absent name first.
pub open spec fn name_idx_cmp(a: Option<i32>, b: Option<i32>) -> int {
    match (a, b) {
        (Option::None, Option::None) => 0,
        (Option::None, Option::Some(_)) => -1,
        (Option::Some(_), Option::None) => 1,
        (Option::Some(x), Option::Some(y)) => sign(x - y),
    }
}

/// The original-position order on entries: by source index, then original
/// line, then original column, then name index; an entry without original
/// fields sorts before every entry with them.
pub open spec fn orig_cmp(a: IndexEntry, b: IndexEntry) -> int {
    match (a.original, b.original) {
        (Option::None, Option::None) => 0,
        (Option::None, Option::Some(_)) => -1,
        (Option::Some(_), Option::None) => 1,
        (Option::Some(ao), Option::Some(bo)) => if ao.source != bo.source {
            sign(ao.source - bo.source)
        } else if ao.line != bo.line {
            sign(ao.line - bo.line)
        } else if ao.column != bo.column {
            sign(ao.column - bo.column)
        } else {
            name_idx_cmp(ao.name, bo.name)
        },
    }
}

/// An original-position needle (source, line, column) against an entry; an
/// entry without original fields sorts below every needle.
pub open spec fn orig_needle_cmp(n: (i32, i32, i32), e: IndexEntry) -> int {
    match e.original {
        Option::None => 1,
        Option::Some(eo) => if n.0 != eo.source {
            sign(n.0 - eo.source)
        } else if n.1 != eo.line {
            sign(n.1 - eo.line)
        } else {
            sign(n.2 - eo.column)
        },
    }
}

/// The generated-position order, as a comparator.
pub struct GenComparator;

impl Comparator<IndexEntry, IndexEntry> for GenComparator {
    open spec fn cmp_spec(&self, a: &IndexEntry, b: &IndexEntry) -> int {
        gen_cmp(*a, *b)
    }

    fn compare(&self, a: &IndexEntry, b: &IndexEntry) -> (r: i32)
        ensures
            r > 0 <==> self.cmp_spec(a, b) > 0,
            r < 0 <==> self.cmp_spec(a, b) < 0,
    {
        if a.generated_line != b.generated_line {
            if a.generated_line < b.generated_line {
                -1
            } else {
                1
            }
        } else if a.generated_column != b.generated_column {
            if a.generated_column < b.generated_column {
                -1
            } else {
                1
            }
        } else {
            0
        }
    }
}

/// The generated-position needle comparator.
pub struct GenNeedleComparator;

impl Comparator<(i32, i32), IndexEntry> for GenNeedleComparator {
    open spec fn cmp_spec(&self, a: &(i32, i32), b: &IndexEntry) -> int {
        gen_needle_cmp(*a, *b)
    }

    fn compare(&self, a: &(i32, i32), b: &IndexEntry) -> (r: i32)
        ensures
            r > 0 <==> self.cmp_spec(a, b) > 0,
            r < 0 <==> self.cmp_spec(a, b) < 0,
    {
        if a.0 != b.generated_line {
            if a.0 < b.generated_line {
                -1
            } else {
                1
            }
        } else if a.1 != b.generated_column {
            if a.1 < b.generated_column {
                -1
            } else {
                1
            }
        } else {
            0
        }
    }
}

/// The original-position order, as a comparator.
pub struct OrigComparator;

impl Comparator<IndexEntry, IndexEntry> for OrigComparator {
    open spec fn cmp_spec(&self, a: &IndexEntry, b: &IndexEntry) -> int {
        orig_cmp(*a, *b)
    }

    fn compare(&self, a: &IndexEntry, b: &IndexEntry) -> (r: i32)
        ensures
            r > 0 <==> self.cmp_spec(a, b) > 0,
            r < 0 <==> self.cmp_spec(a, b) < 0,
    {
        match (&a.original, &b.original) {
            (None, None) => 0,
            (None, Some(_)) => -1,
            (Some(_), None) => 1,
            (Some(ao), Some(bo)) => {
                if ao.source != bo.source {
                    if ao.source < bo.source {
                        -1
                    } else {
                        1
                    }
                } else if ao.line != bo.line {
                    if ao.line < bo.line {
                        -1
                    } else {
                        1
                    }
                } else if ao.column != bo.column {
                    if ao.column < bo.column {
                        -1
                    } else {
                        1
                    }
                } else {
                    match (&ao.name, &bo.name) {
                        (None, None) => 0,
                        (None, Some(_)) => -1,
                        (Some(_), None) => 1,
                        (Some(x), Some(y)) => {
                            if *x < *y {
                                -1
                            } else if *x > *y {
                                1
                            } else {
                                0
                            }
                        },
                    }
                }
            },
        }
    }
}

/// The original-position needle comparator.
pub struct OrigNeedleComparator;

impl Comparator<(i32, i32, i32), IndexEntry> for OrigNeedleComparator {
    open spec fn cmp_spec(&self, a: &(i32, i32, i32), b: &IndexEntry) -> int {
        orig_needle_cmp(*a, *b)
    }

    fn compare(&self, a: &(i32, i32, i32), b: &IndexEntry) -> (r: i32)
        ensures
            r > 0 <==> self.cmp_spec(a, b) > 0,
            r < 0 <==> self.cmp_spec(a, b) < 0,
    {
        match &b.original {
            None => 1,
            Some(bo) => {
                if a.0 != bo.source {
                    if a.0 < bo.source {
                        -1
                    } else {
                        1
                    }
                } else if a.1 != bo.line {
                    if a.1 < bo.line {
                        -1
                    } else {
                        1
                    }
                } else if a.2 != bo.column {
                    if a.2 < bo.column {
                        -1
                    } else {
                        1
                    }
                } else {
                    0
                }
            },
        }
    }
}

/// Whether an entry carries original-position fields.
pub open spec fn has_original(e: IndexEntry) -> bool {
    e.original is Some
}

/// Every entry of the sequence lies in the decodable range.
pub open spec fn entries_in_range(s: Seq<IndexEntry>) -> bool {
    forall|i: int| 0 <= i < s.len() ==> entry_in_range(#[trigger] s[i])
}

/// Entries parsed out of a stream all lie in the decodable range.
proof fn lemma_parse_in_range(
    s: Seq<u8>,
    i: int,
    line: int,
    col: int,
    src: int,
    oline: int,
    ocol: int,
    name: int,
    acc: Seq<IndexEntry>,
)
    requires
        0 <= line <= MAX_FIELD,
        0 <= col <= MAX_FIELD,
        0 <= src <= MAX_FIELD,
        0 <= oline <= MAX_FIELD,
        0 <= ocol <= MAX_FIELD,
        0 <= name <= MAX_FIELD,
        entries_in_range(acc),
        parse_mappings_rec(s, i, line, col, src, oline, ocol, name, acc) is Ok,
    ensures
        entries_in_range(parse_mappings_rec(s, i, line, col, src, oline, ocol, name, acc)->Ok_0),
    decreases s.len() - i, 1nat,
{
    if i < 0 || i >= s.len() {
    } else if s[i] == 59 {
        lemma_parse_in_range(s, i + 1, line + 1, 0, src, oline, ocol, name, acc);
    } else if s[i] == 44 {
        lemma_parse_in_range(s, i + 1, line, col, src, oline, ocol, name, acc);
    } else {
        let (d1, n1) = parse_vlq(s, i)->Some_0;
        let col2 = col + d1;
        if n1 >= s.len() || is_separator(s[n1]) {
            let e = IndexEntry {
                generated_line: line as i32,
                generated_column: col2 as i32,
                original: Option::None,
                last_generated_column: Option::None,
            };
            assert(entries_in_range(acc.push(e)));
            lemma_parse_in_range(s, n1, line, col2, src, oline, ocol, name, acc.push(e));
        } else {
            lemma_parse_fields_in_range(s, i, n1, line, col2, src, oline, ocol, name, acc);
        }
    }
}

/// The original-field half of the range argument.
proof fn lemma_parse_fields_in_range(
    s: Seq<u8>,
    i: int,
    n1: int,
    line: int,
    col2: int,
    src: int,
    oline: int,
    ocol: int,
    name: int,
    acc: Seq<IndexEntry>,
)
    requires
        0 <= line <= MAX_FIELD,
        0 <= col2 <= MAX_FIELD,
        0 <= src <= MAX_FIELD,
        0 <= oline <= MAX_FIELD,
        0 <= ocol <= MAX_FIELD,
        0 <= name <= MAX_FIELD,
        entries_in_range(acc),
        parse_mappings_fields(s, i, n1, line, col2, src, oline, ocol, name, acc) is Ok,
    ensures
        entries_in_range(
            parse_mappings_fields(s, i, n1, line, col2, src, oline, ocol, name, acc)->Ok_0,
        ),
    decreases s.len() - i, 0nat,
{
    let (d2, n2) = parse_vlq(s, n1)->Some_0;
    let src2 = src + d2;
    let (d3, n3) = parse_vlq(s, n2)->Some_0;
    let oline2 = oline + d3;
    let (d4, n4) = parse_vlq(s, n3)->Some_0;
    let ocol2 = ocol + d4;
    if n4 >= s.len() || is_separator(s[n4]) {
        let e = IndexEntry {
            generated_line: line as i32,
            generated_column: col2 as i32,
            original: Option::Some(
                OriginalFields {
                    source: src2 as i32,
                    line: oline2 as i32,
                    column: ocol2 as i32,
                    name: Option::None,
                },
            ),
            last_generated_column: Option::None,
        };
        assert(entries_in_range(acc.push(e)));
        lemma_parse_in_range(s, n4, line, col2, src2, oline2, ocol2, name, acc.push(e));
    } else {
        let (d5, n5) = parse_vlq(s, n4)->Some_0;
        let name2 = name + d5;
        let e = IndexEntry {
            generated_line: line as i32,
            generated_column: col2 as i32,
            original: Option::Some(
                OriginalFields {
                    source: src2 as i32,
                    line: oline2 as i32,
                    column: ocol2 as i32,
                    name: Option::Some(name2 as i32),
                },
            ),
            last_generated_column: Option::None,
        };
        assert(entries_in_range(acc.push(e)));
        lemma_parse_in_range(s, n5, line, col2, src2, oline2, ocol2, name2, acc.push(e));
    }
}

/// A stream of `n` bytes holds at most `n` mapping groups.
proof fn lemma_parse_count(
    s: Seq<u8>,
    i: int,
    line: int,
    col: int,
    src: int,
    oline: int,
    ocol: int,
    name: int,
    acc: Seq<IndexEntry>,
)
    requires
        0 <= i <= s.len(),
        parse_mappings_rec(s, i, line, col, src, oline, ocol, name, acc) is Ok,
    ensures
        parse_mappings_rec(s, i, line, col, src, oline, ocol, name, acc)->Ok_0.len() <= acc.len()
            + (s.len() - i),
    decreases s.len() - i, 1nat,
{
    if i < 0 || i >= s.len() {
    } else if s[i] == 59 {
        lemma_parse_count(s, i + 1, line + 1, 0, src, oline, ocol, name, acc);
    } else if s[i] == 44 {
        lemma_parse_count(s, i + 1, line, col, src, oline, ocol, name, acc);
    } else {
        crate::base64_vlq::lemma_parse_vlq_range(s, i, 0, 0);
        let (d1, n1) = parse_vlq(s, i)->Some_0;
        let col2 = col + d1;
        if n1 >= s.len() || is_separator(s[n1]) {
            let e = IndexEntry {
                generated_line: line as i32,
                generated_column: col2 as i32,
                original: Option::None,
                last_generated_column: Option::None,
            };
            lemma_parse_count(s, n1, line, col2, src, oline, ocol, name, acc.push(e));
        } else {
            lemma_parse_count_fields(s, i, n1, line, col2, src, oline, ocol, name, acc);
        }
    }
}

/// The original-field half of the count argument.
proof fn lemma_parse_count_fields(
    s: Seq<u8>,
    i: int,
    n1: int,
    line: int,
    col2: int,
    src: int,
    oline: int,
    ocol: int,
    name: int,
    acc: Seq<IndexEntry>,
)
    requires
        0 <= i < s.len(),
        i < n1,
        parse_mappings_fields(s, i, n1, line, col2, src, oline, ocol, name, acc) is Ok,
    ensures
        parse_mappings_fields(s, i, n1, line, col2, src, oline, ocol, name, acc)->Ok_0.len()
            <= acc.len() + (s.len() - i),
    decreases s.len() - i, 0nat,
{
    crate::base64_vlq::lemma_parse_vlq_range(s, n1, 0, 0);
    let (d2, n2) = parse_vlq(s, n1)->Some_0;
    let src2 = src + d2;
    crate::base64_vlq::lemma_parse_vlq_range(s, n2, 0, 0);
    let (d3, n3) = parse_vlq(s, n2)->Some_0;
    let oline2 = oline + d3;
    crate::base64_vlq::lemma_parse_vlq_range(s, n3, 0, 0);
    let (d4, n4) = parse_vlq(s, n3)->Some_0;
    let ocol2 = ocol + d4;
    if n4 >= s.len() || is_separator(s[n4]) {
        let e = IndexEntry {
            generated_line: line as i32,
            generated_column: col2 as i32,
            original: Option::Some(
                OriginalFields {
                    source: src2 as i32,
                    line: oline2 as i32,
                    column: ocol2 as i32,
                    name: Option::None,
                },
            ),
            last_generated_column: Option::None,
        };
        lemma_parse_count(s, n4, line, col2, src2, oline2, ocol2, name, acc.push(e));
    } else {
        crate::base64_vlq::lemma_parse_vlq_range(s, n4, 0, 0);
        let (d5, n5) = parse_vlq(s, n4)->Some_0;
        let name2 = name + d5;
        let e = IndexEntry {
            generated_line: line as i32,
            generated_column: col2 as i32,
            original: Option::Some(
                OriginalFields {
                    source: src2 as i32,
                    line: oline2 as i32,
                    column: ocol2 as i32,
                    name: Option::Some(name2 as i32),
                },
            ),
            last_generated_column: Option::None,
        };
        lemma_parse_count(s, n5, line, col2, src2, oline2, ocol2, name2, acc.push(e));
    }
}

/// Parsing a whole stream yields at most one entry per byte.
pub proof fn lemma_parse_spec_count(s: Seq<u8>)
    requires
        parse_mappings_spec(s) is Ok,
    ensures
        parse_mappings_spec(s)->Ok_0.len() <= s.len(),
{
    lemma_parse_count(s, 0, 0, 0, 0, 0, 0, 0, Seq::empty());
}

/// A parse that succeeds has read the whole stream: every byte is a
/// separator or a base64 digit.
proof fn lemma_parse_covers(
    s: Seq<u8>,
    i: int,
    line: int,
    col: int,
    src: int,
    oline: int,
    ocol: int,
    name: int,
    acc: Seq<IndexEntry>,
)
    requires
        0 <= i <= s.len(),
        parse_mappings_rec(s, i, line, col, src, oline, ocol, name, acc) is Ok,
    ensures
        forall|j: int|
            i <= j < s.len() ==> is_separator(#[trigger] s[j]) || is_base64_byte(s[j]),
    decreases s.len() - i, 1nat,
{
    if i < 0 || i >= s.len() {
    } else if s[i] == 59 {
        lemma_parse_covers(s, i + 1, line + 1, 0, src, oline, ocol, name, acc);
    } else if s[i] == 44 {
        lemma_parse_covers(s, i + 1, line, col, src, oline, ocol, name, acc);
    } else {
        crate::base64_vlq::lemma_parse_vlq_range(s, i, 0, 0);
        crate::base64_vlq::lemma_parse_vlq_covers(s, i, 0, 0);
        let (d1, n1) = parse_vlq(s, i)->Some_0;
        let col2 = col + d1;
        if n1 >= s.len() || is_separator(s[n1]) {
            let e = IndexEntry {
                generated_line: line as i32,
                generated_column: col2 as i32,
                original: Option::None,
                last_generated_column: Option::None,
            };
            lemma_parse_covers(s, n1, line, col2, src, oline, ocol, name, acc.push(e));
        } else {
            lemma_parse_covers_fields(s, i, n1, line, col2, src, oline, ocol, name, acc);
        }
    }
}

/// The original-field half of the coverage argument.
proof fn lemma_parse_covers_fields(
    s: Seq<u8>,
    i: int,
    n1: int,
    line: int,
    col2: int,
    src: int,
    oline: int,
    ocol: int,
    name: int,
    acc: Seq<IndexEntry>,
)
    requires
        0 <= i < s.len(),
        i < n1,
        forall|j: int| i <= j < n1 ==> is_base64_byte(#[trigger] s[j]),
        parse_mappings_fields(s, i, n1, line, col2, src, oline, ocol, name, acc) is Ok,
    ensures
        forall|j: int|
            i <= j < s.len() ==> is_separator(#[trigger] s[j]) || is_base64_byte(s[j]),
    decreases s.len() - i, 0nat,
{
    crate::base64_vlq::lemma_parse_vlq_range(s, n1, 0, 0);
    crate::base64_vlq::lemma_parse_vlq_covers(s, n1, 0, 0);
    let (d2, n2) = parse_vlq(s, n1)->Some_0;
    let src2 = src + d2;
    crate::base64_vlq::lemma_parse_vlq_range(s, n2, 0, 0);
    crate::base64_vlq::lemma_parse_vlq_covers(s, n2, 0, 0);
    let (d3, n3) = parse_vlq(s, n2)->Some_0;
    let oline2 = oline + d3;
    crate::base64_vlq::lemma_parse_vlq_range(s, n3, 0, 0);
    crate::base64_vlq::lemma_parse_vlq_covers(s, n3, 0, 0);
    let (d4, n4) = parse_vlq(s, n3)->Some_0;
    let ocol2 = ocol + d4;
    if n4 >= s.len() || is_separator(s[n4]) {
        let e = IndexEntry {
            generated_line: line as i32,
            generated_column: col2 as i32,
            original: Option::Some(
                OriginalFields {
                    source: src2 as i32,
                    line: oline2 as i32,
                    column: ocol2 as i32,
                    name: Option::None,
                },
            ),
            last_generated_column: Option::None,
        };
        lemma_parse_covers(s, n4, line, col2, src2, oline2, ocol2, name, acc.push(e));
    } else {
        crate::base64_vlq::lemma_parse_vlq_range(s, n4, 0, 0);
        crate::base64_vlq::lemma_parse_vlq_covers(s, n4, 0, 0);
        let (d5, n5) = parse_vlq(s, n4)->Some_0;
        let name2 = name + d5;
        let e = IndexEntry {
            generated_line: line as i32,
            generated_column: col2 as i32,
            original: Option::Some(
                OriginalFields {
                    source: src2 as i32,
                    line: oline2 as i32,
                    column: ocol2 as i32,
                    name: Option::Some(name2 as i32),
                },
            ),
            last_generated_column: Option::None,
        };
        lemma_parse_covers(s, n5, line, col2, src2, oline2, ocol2, name2, acc.push(e));
    }
}

/// A stream holding a byte outside the 64-symbol alphabet that is no group
/// separator never parses: the first query that decodes such a stream fails
/// closed with the decode error.
pub proof fn lemma_foreign_byte_fails_parse(s: Seq<u8>, i: int)
    requires
        0 <= i < s.len(),
        !is_separator(s[i]),
        !is_base64_byte(s[i]),
    ensures
        parse_mappings_spec(s) is Err,
{
    if parse_mappings_spec(s) is Ok {
        lemma_parse_covers(s, 0, 0, 0, 0, 0, 0, 0, Seq::empty());
        assert(is_separator(s[i]) || is_base64_byte(s[i]));
    }
}

/// Sequences with the same contents as multisets stay in range together.
proof fn lemma_range_transfer(s1: Seq<IndexEntry>, s2: Seq<IndexEntry>)
    requires
        s1.to_multiset() == s2.to_multiset(),
        entries_in_range(s1),
    ensures
        entries_in_range(s2),
{
    assert forall|i: int| 0 <= i < s2.len() implies entry_in_range(#[trigger] s2[i]) by {
        vstd::seq_lib::to_multiset_contains(s1, s2[i]);
        vstd::seq_lib::to_multiset_contains(s2, s2[i]);
        assert(s2.contains(s2[i]));
        let j = choose|j: int| 0 <= j < s1.len() && s1[j] == s2[i];
        assert(entry_in_range(s1[j]));
    }
}

/// A table sorted in generated-position order is fit for a nearest-match
/// search with a (line, column) needle.
proof fn lemma_gen_search_pre(g: Seq<IndexEntry>, l: i32, c: i32)
    requires
        forall|x: int, y: int| 0 <= x <= y < g.len() ==> gen_cmp(#[trigger] g[x], #[trigger] g[y])
            <= 0,
    ensures
        sorted_by(g, &GenComparator),
        needle_compatible(&(l, c), g, &GenNeedleComparator, &GenComparator),
{
    let c1 = GenNeedleComparator;
    let c2 = GenComparator;
    assert forall|x: int, y: int| 0 <= x <= y < g.len() implies #[trigger] c2.cmp_spec(
        &g[x],
        &g[y],
    ) <= 0 by {
        assert(gen_cmp(g[x], g[y]) <= 0);
    }
    assert forall|i: int, j: int|
        #![trigger c1.cmp_spec(&(l, c), &g[i]), c1.cmp_spec(&(l, c), &g[j])]
        0 <= i <= j < g.len() implies {
        &&& (c1.cmp_spec(&(l, c), &g[j]) > 0 ==> c1.cmp_spec(&(l, c), &g[i]) > 0)
        &&& (c1.cmp_spec(&(l, c), &g[i]) < 0 ==> c1.cmp_spec(&(l, c), &g[j]) < 0)
    } by {
        assert(gen_cmp(g[i], g[j]) <= 0);
    }
    assert forall|i: int, j: int|
        0 <= i < g.len() && 0 <= j < g.len() && #[trigger] c2.cmp_spec(&g[i], &g[j])
            == 0 implies {
        &&& (c1.cmp_spec(&(l, c), &g[i]) > 0 <==> c1.cmp_spec(&(l, c), &g[j]) > 0)
        &&& (c1.cmp_spec(&(l, c), &g[i]) < 0 <==> c1.cmp_spec(&(l, c), &g[j]) < 0)
    } by {
        assert(gen_cmp(g[i], g[j]) == 0);
    }
}

/// A table sorted in original-position order, all entries carrying original
/// fields, is fit for a nearest-match search with a (source, line, column)
/// needle.
proof fn lemma_orig_search_pre(g: Seq<IndexEntry>, src: i32, l: i32, c: i32)
    requires
        forall|x: int, y: int| 0 <= x <= y < g.len() ==> orig_cmp(#[trigger] g[x], #[trigger] g[y])
            <= 0,
        forall|i: int| 0 <= i < g.len() ==> (#[trigger] g[i]).original is Some,
    ensures
        sorted_by(g, &OrigComparator),
        needle_compatible(&(src, l, c), g, &OrigNeedleComparator, &OrigComparator),
{
    let c1 = OrigNeedleComparator;
    let c2 = OrigComparator;
    assert forall|x: int, y: int| 0 <= x <= y < g.len() implies #[trigger] c2.cmp_spec(
        &g[x],
        &g[y],
    ) <= 0 by {
        assert(orig_cmp(g[x], g[y]) <= 0);
    }
    assert forall|i: int, j: int|
        #![trigger c1.cmp_spec(&(src, l, c), &g[i]), c1.cmp_spec(&(src, l, c), &g[j])]
        0 <= i <= j < g.len() implies {
        &&& (c1.cmp_spec(&(src, l, c), &g[j]) > 0 ==> c1.cmp_spec(&(src, l, c), &g[i]) > 0)
        &&& (c1.cmp_spec(&(src, l, c), &g[i]) < 0 ==> c1.cmp_spec(&(src, l, c), &g[j]) < 0)
    } by {
        assert(orig_cmp(g[i], g[j]) <= 0);
    }
    assert forall|i: int, j: int|
        0 <= i < g.len() && 0 <= j < g.len() && #[trigger] c2.cmp_spec(&g[i], &g[j])
            == 0 implies {
        &&& (c1.cmp_spec(&(src, l, c), &g[i]) > 0 <==> c1.cmp_spec(&(src, l, c), &g[j]) > 0)
        &&& (c1.cmp_spec(&(src, l, c), &g[i]) < 0 <==> c1.cmp_spec(&(src, l, c), &g[j]) < 0)
    } by {
        assert(orig_cmp(g[i], g[j]) == 0);
    }
}

/// The table with each entry's column span filled in: the span ends one
/// column before the next entry on the same generated line, and is absent
/// for the last entry of each line.
pub open spec fn spanned(g: Seq<IndexEntry>) -> Seq<IndexEntry> {
    Seq::new(
        g.len(),
        |i: int|
            IndexEntry {
                last_generated_column: if i + 1 < g.len() && g[i + 1].generated_line
                    == g[i].generated_line {
                    Option::Some((g[i + 1].generated_column - 1) as i32)
                } else {
                    Option::None
                },
                ..g[i]
            },
    )
}

/// Filling in column spans twice gives the same table as filling them once:
/// the spans depend only on the lines and columns, which it leaves alone.
pub proof fn lemma_spanned_idempotent(g: Seq<IndexEntry>)
    ensures
        spanned(spanned(g)) == spanned(g),
{
    assert(spanned(spanned(g)) =~= spanned(g));
}


/// Collects the entries that carry original fields and orders them by
/// original position.
fn order_by_original(by_generated: &Vec<IndexEntry>) -> (r: Vec<IndexEntry>)
    requires
        entries_in_range(by_generated@),
    ensures
        forall|x: int, y: int|
            0 <= x <= y < r@.len() ==> orig_cmp(#[trigger] r@[x], #[trigger] r@[y]) <= 0,
        forall|i: int|
            0 <= i < r@.len() ==> (#[trigger] r@[i]).original is Some && entry_in_range(r@[i]),
        r@.to_multiset() == by_generated@.filter(|e: IndexEntry| e.original is Some).to_multiset(),
{
        // Collect the entries that carry original fields, then order them.
        let mut by_original: Vec<IndexEntry> = Vec::new();
        let ghost pred = |e: IndexEntry| e.original is Some;
        proof {
            reveal(Seq::filter);
            assert(by_generated@.take(0).filter(pred) =~= Seq::<IndexEntry>::empty());
        }
        let n = by_generated.len();
        let mut i: usize = 0;
        while i < n
            invariant
                n == by_generated@.len(),
                0 <= i <= n,
                by_original@ == by_generated@.take(i as int).filter(pred),
                pred == (|e: IndexEntry| e.original is Some),
                entries_in_range(by_generated@),
                forall|k: int|
                    0 <= k < by_original@.len() ==> (#[trigger] by_original@[k]).original is Some
                        && entry_in_range(by_original@[k]),
            decreases n - i,
        {
            let ghost pre = by_generated@.take(i as int);
            let e = by_generated[i];
            if e.original.is_some() {
                by_original.push(e);
            }
            proof {
                reveal(Seq::filter);
                let cur = by_generated@.take(i as int + 1);
                assert(cur.drop_last() =~= pre);
                assert(cur.last() == e);
                assert(cur.filter(pred) == if pred(e) {
                    pre.filter(pred).push(e)
                } else {
                    pre.filter(pred)
                });
            }
            i = i + 1;
        }
        proof {
            assert(by_generated@.take(n as int) =~= by_generated@);
        }
        let oc = OrigComparator;
        proof {
            assert forall|x: IndexEntry, y: IndexEntry|
                by_original@.contains(x) && by_original@.contains(y) implies #[trigger] oc
                .cmp_spec(&x, &y) == -oc.cmp_spec(&y, &x) by {}
            assert forall|x: IndexEntry, y: IndexEntry, z: IndexEntry|
                #![trigger oc.cmp_spec(&x, &y), oc.cmp_spec(&y, &z)]
                by_original@.contains(x) && by_original@.contains(y) && by_original@.contains(z)
                    && oc.cmp_spec(&x, &y) <= 0 && oc.cmp_spec(&y, &z) <= 0 implies oc.cmp_spec(
                &x,
                &z,
            ) <= 0 by {}
        }
        let ghost filtered_view = by_original@;
        crate::sort::sort_by(&mut by_original, &oc);
        proof {
            assert forall|i: int|
                0 <= i < by_original@.len() implies (#[trigger] by_original@[i]).original is Some
                && entry_in_range(by_original@[i]) by {
                vstd::seq_lib::to_multiset_contains(filtered_view, by_original@[i]);
                vstd::seq_lib::to_multiset_contains(by_original@, by_original@[i]);
                let j = choose|j: int|
                    0 <= j < filtered_view.len() && filtered_view[j] == by_original@[i];
                assert(filtered_view[j].original is Some && entry_in_range(filtered_view[j]));
            }
        }
        proof {
            assert forall|x: int, y: int|
                0 <= x <= y < by_original@.len() implies orig_cmp(
                #[trigger] by_original@[x],
                #[trigger] by_original@[y],
            ) <= 0 by {
                assert(oc.cmp_spec(&by_original@[x], &by_original@[y]) <= 0);
            }
            assert(by_generated@.take(n as int).filter(pred) == by_generated@.filter(pred));
            assert(by_generated@.filter(pred) == by_generated@.filter(
                |e: IndexEntry| e.original is Some,
            ));
        }
        by_original
}

/// Whether an entry lies on the given source and original line, at or past
/// the asked-for original column when one is given.
pub open spec fn entry_matches_original(
    e: IndexEntry,
    source: i32,
    original_line: i32,
    original_column: Option<i32>,
) -> bool {
    match e.original {
        Option::Some(o) => o.source == source && o.line == original_line && (match original_column {
            Option::Some(c) => o.column >= c,
            Option::None => true,
        }),
        Option::None => false,
    }
}

/// The entries of a table on the given source and original line, at or past
/// the asked-for original column when one is given, in table order.
pub open spec fn matching_originals(
    g: Seq<IndexEntry>,
    source: i32,
    original_line: i32,
    original_column: Option<i32>,
) -> Seq<IndexEntry>
    decreases g.len(),
{
    if g.len() == 0 {
        Seq::empty()
    } else {
        let rest = matching_originals(g.drop_last(), source, original_line, original_column);
        if entry_matches_original(g.last(), source, original_line, original_column) {
            rest.push(g.last())
        } else {
            rest
        }
    }
}

/// Converts a nearest-match search outcome over the original-order table
/// from comparator terms into the query characterization.
proof fn lemma_orig_post_from_search(g: Seq<IndexEntry>, nd: (i32, i32, i32), bias: Bias, rr: int)
    requires
        0 <= rr < g.len(),
        ({
            let c1 = OrigNeedleComparator;
            let c2 = OrigComparator;
            &&& (rr == 0 || c2.cmp_spec(&g[rr], &g[rr - 1]) != 0)
            &&& (crate::binary_search::has_exact(&nd, g, &c1) ==> c1.cmp_spec(&nd, &g[rr]) == 0)
            &&& (bias == Bias::GreatestLowerBound ==> c1.cmp_spec(&nd, &g[rr]) >= 0)
            &&& (bias == Bias::LeastUpperBound ==> c1.cmp_spec(&nd, &g[rr]) <= 0)
            &&& exists|m: int|
                #![trigger c1.cmp_spec(&nd, &g[m])]
                {
                    &&& rr <= m < g.len()
                    &&& (forall|k: int|
                        rr < k <= m ==> #[trigger] c2.cmp_spec(&g[k], &g[k - 1]) == 0)
                    &&& {
                        ||| c1.cmp_spec(&nd, &g[m]) == 0
                        ||| (bias == Bias::GreatestLowerBound && c1.cmp_spec(&nd, &g[m]) > 0 && (m
                            + 1 == g.len() || c1.cmp_spec(&nd, &g[m + 1]) < 0))
                        ||| (bias == Bias::LeastUpperBound && c1.cmp_spec(&nd, &g[m]) < 0 && (m
                            == 0 || c1.cmp_spec(&nd, &g[m - 1]) > 0))
                    }
                }
        }),
        g[rr].original is Some,
    ensures
        orig_query_post(g, nd.0 as int, nd.1 as int, nd.2 as int, bias, Some(g[rr])),
        exists|i: int| 0 <= i < g.len() && #[trigger] g[i] == g[rr],
{
    let c1 = OrigNeedleComparator;
    let c2 = OrigComparator;
    let m = choose|m: int|
        #![trigger c1.cmp_spec(&nd, &g[m])]
        {
            &&& rr <= m < g.len()
            &&& (forall|k: int| rr < k <= m ==> #[trigger] c2.cmp_spec(&g[k], &g[k - 1]) == 0)
            &&& {
                ||| c1.cmp_spec(&nd, &g[m]) == 0
                ||| (bias == Bias::GreatestLowerBound && c1.cmp_spec(&nd, &g[m]) > 0 && (m + 1
                    == g.len() || c1.cmp_spec(&nd, &g[m + 1]) < 0))
                ||| (bias == Bias::LeastUpperBound && c1.cmp_spec(&nd, &g[m]) < 0 && (m == 0
                    || c1.cmp_spec(&nd, &g[m - 1]) > 0))
            }
        };
    assert forall|k: int| rr < k <= m implies orig_cmp(#[trigger] g[k], g[k - 1]) == 0 by {
        assert(c2.cmp_spec(&g[k], &g[k - 1]) == 0);
    }
    assert(rr == 0 || orig_cmp(g[rr - 1], g[rr]) != 0) by {
        if rr > 0 && c2.cmp_spec(&g[rr], &g[rr - 1]) != 0 {
            assert(orig_cmp(g[rr], g[rr - 1]) != 0);
        }
    }
    if exists|i: int| 0 <= i < g.len() && orig_needle_cmp(nd, #[trigger] g[i]) == 0 {
        let i = choose|i: int| 0 <= i < g.len() && orig_needle_cmp(nd, #[trigger] g[i]) == 0;
        assert(c1.cmp_spec(&nd, &g[i]) == 0);
        assert(crate::binary_search::has_exact(&nd, g, &c1));
    }
    assert({
        &&& 0 <= rr <= m < g.len()
        &&& g[rr] == g[rr]
        &&& (forall|k: int| rr < k <= m ==> orig_cmp(#[trigger] g[k], g[k - 1]) == 0)
        &&& (rr == 0 || orig_cmp(g[rr - 1], g[rr]) != 0)
        &&& {
            ||| orig_needle_cmp(nd, g[m]) == 0
            ||| (bias == Bias::GreatestLowerBound && orig_needle_cmp(nd, g[m]) > 0 && (m + 1
                == g.len() || orig_needle_cmp(nd, g[m + 1]) < 0))
            ||| (bias == Bias::LeastUpperBound && orig_needle_cmp(nd, g[m]) < 0 && (m == 0
                || orig_needle_cmp(nd, g[m - 1]) > 0))
        }
    });
}

/// A copy of a table of entries.
fn copy_entries(v: &Vec<IndexEntry>) -> (r: Vec<IndexEntry>)
    ensures
        r@ == v@,
{
    let mut out: Vec<IndexEntry> = Vec::new();
    let n = v.len();
    let mut i: usize = 0;
    while i < n
        invariant
            n == v@.len(),
            out@.len() == i <= n,
            forall|j: int| 0 <= j < i ==> out@[j] == #[trigger] v@[j],
        decreases n - i,
    {
        out.push(v[i]);
        i = i + 1;
    }
    proof {
        assert(out@ =~= v@);
    }
    out
}


/// The characterization of a nearest-match query over the generated-order
/// table: `None` only when no entry lies on the biased side; otherwise an
/// exact match when one exists, else the nearest entry on the biased side,
/// always the first entry of a run of equal generated positions.
pub open spec fn gen_query_post(
    g: Seq<IndexEntry>,
    line: int,
    col: int,
    bias: Bias,
    r: Option<IndexEntry>,
) -> bool {
    let nd = (line as i32, col as i32);
    match r {
        Option::None => {
            &&& (bias == Bias::GreatestLowerBound ==> forall|i: int|
                0 <= i < g.len() ==> gen_needle_cmp(nd, #[trigger] g[i]) < 0)
            &&& (bias == Bias::LeastUpperBound ==> forall|i: int|
                0 <= i < g.len() ==> gen_needle_cmp(nd, #[trigger] g[i]) > 0)
        },
        Option::Some(e) => {
            &&& (exists|i: int| 0 <= i < g.len() && gen_needle_cmp(nd, #[trigger] g[i]) == 0)
                ==> gen_needle_cmp(nd, e) == 0
            &&& (bias == Bias::GreatestLowerBound ==> gen_needle_cmp(nd, e) >= 0)
            &&& (bias == Bias::LeastUpperBound ==> gen_needle_cmp(nd, e) <= 0)
            &&& exists|i: int, m: int|
                #![trigger g[i], g[m]]
                {
                    &&& 0 <= i <= m < g.len()
                    &&& g[i] == e
                    &&& (forall|k: int| i < k <= m ==> gen_cmp(#[trigger] g[k], g[k - 1]) == 0)
                    &&& (i == 0 || gen_cmp(g[i - 1], g[i]) != 0)
                    &&& {
                        ||| gen_needle_cmp(nd, g[m]) == 0
                        ||| (bias == Bias::GreatestLowerBound && gen_needle_cmp(nd, g[m]) > 0 && (
                        m + 1 == g.len() || gen_needle_cmp(nd, g[m + 1]) < 0))
                        ||| (bias == Bias::LeastUpperBound && gen_needle_cmp(nd, g[m]) < 0 && (m
                            == 0 || gen_needle_cmp(nd, g[m - 1]) > 0))
                    }
                }
        },
    }
}

/// The same characterization over the original-order table, keyed by source
/// index, original line and original column.
pub open spec fn orig_query_post(
    g: Seq<IndexEntry>,
    source: int,
    line: int,
    col: int,
    bias: Bias,
    r: Option<IndexEntry>,
) -> bool {
    let nd = (source as i32, line as i32, col as i32);
    match r {
        Option::None => {
            &&& (bias == Bias::GreatestLowerBound ==> forall|i: int|
                0 <= i < g.len() ==> orig_needle_cmp(nd, #[trigger] g[i]) < 0)
            &&& (bias == Bias::LeastUpperBound ==> forall|i: int|
                0 <= i < g.len() ==> orig_needle_cmp(nd, #[trigger] g[i]) > 0)
        },
        Option::Some(e) => {
            &&& e.original is Some
            &&& (exists|i: int| 0 <= i < g.len() && orig_needle_cmp(nd, #[trigger] g[i]) == 0)
                ==> orig_needle_cmp(nd, e) == 0
            &&& (bias == Bias::GreatestLowerBound ==> orig_needle_cmp(nd, e) >= 0)
            &&& (bias == Bias::LeastUpperBound ==> orig_needle_cmp(nd, e) <= 0)
            &&& exists|i: int, m: int|
                #![trigger g[i], g[m]]
                {
                    &&& 0 <= i <= m < g.len()
                    &&& g[i] == e
                    &&& (forall|k: int| i < k <= m ==> orig_cmp(#[trigger] g[k], g[k - 1]) == 0)
                    &&& (i == 0 || orig_cmp(g[i - 1], g[i]) != 0)
                    &&& {
                        ||| orig_needle_cmp(nd, g[m]) == 0
                        ||| (bias == Bias::GreatestLowerBound && orig_needle_cmp(nd, g[m]) > 0 && (
                        m + 1 == g.len() || orig_needle_cmp(nd, g[m + 1]) < 0))
                        ||| (bias == Bias::LeastUpperBound && orig_needle_cmp(nd, g[m]) < 0 && (m
                            == 0 || orig_needle_cmp(nd, g[m - 1]) > 0))
                    }
                }
        },
    }
}

/// The decoded form of one mapping stream, as two sorted tables over the
/// same entries.
pub struct MappingIndex {
    by_generated: Vec<IndexEntry>,
    by_original: Vec<IndexEntry>,
    computed_column_spans: bool,
}

impl MappingIndex {
    /// The entries, in generated-position order.
    pub closed spec fn entries(&self) -> Seq<IndexEntry> {
        self.by_generated@
    }

    /// The entries that carry original fields, in original-position order.
    pub closed spec fn originals(&self) -> Seq<IndexEntry> {
        self.by_original@
    }

    /// Whether column spans were computed.
    pub closed spec fn spans_computed(&self) -> bool {
        self.computed_column_spans
    }

    /// Well-formed: both tables sorted in their orders, the original table
    /// holding exactly the entries with original fields, everything in
    /// range.
    pub closed spec fn wf(&self) -> bool {
        &&& forall|x: int, y: int|
            0 <= x <= y < self.by_generated@.len() ==> gen_cmp(
                #[trigger] self.by_generated@[x],
                #[trigger] self.by_generated@[y],
            ) <= 0
        &&& forall|x: int, y: int|
            0 <= x <= y < self.by_original@.len() ==> orig_cmp(
                #[trigger] self.by_original@[x],
                #[trigger] self.by_original@[y],
            ) <= 0
        &&& forall|i: int|
            0 <= i < self.by_original@.len() ==> (#[trigger] self.by_original@[i]).original
                is Some
        &&& self.by_original@.to_multiset() == self.by_generated@.filter(
            |e: IndexEntry| e.original is Some,
        ).to_multiset()
        &&& entries_in_range(self.by_generated@)
        &&& entries_in_range(self.by_original@)
    }

    /// Decodes a stream into an index: the entries are exactly those parsed
    /// out of the stream, re-ordered into the two tables, or the parse error.
    pub fn decode_stream(bytes: &Vec<u8>) -> (r: Result<MappingIndex, DecodeError>)
        ensures
            match parse_mappings_spec(bytes@) {
                Ok(v) => r is Ok && {
                    let ix = r->Ok_0;
                    &&& ix.wf()
                    &&& !ix.spans_computed()
                    &&& ix.entries().to_multiset() == v.to_multiset()
                    &&& ix.entries().len() == v.len()
                    &&& ix.originals().len() <= v.len()
                    &&& exists|perm: Seq<int>| #[trigger] crate::sort::stable_reordering(
                        v,
                        ix.entries(),
                        perm,
                        &GenComparator,
                    )
                },
                Err(e) => r == Err::<MappingIndex, DecodeError>(e),
            },
    {
        let decoded = match parse_mappings(bytes) {
            Ok(v) => v,
            Err(e) => {
                return Err(e);
            },
        };
        proof {
            lemma_parse_in_range(bytes@, 0, 0, 0, 0, 0, 0, 0, Seq::empty());
        }
        let mut by_generated = decoded;
        let gc = GenComparator;
        proof {
            assert forall|x: IndexEntry, y: IndexEntry|
                by_generated@.contains(x) && by_generated@.contains(y) implies #[trigger] gc
                .cmp_spec(&x, &y) == -gc.cmp_spec(&y, &x) by {}
            assert forall|x: IndexEntry, y: IndexEntry, z: IndexEntry|
                #![trigger gc.cmp_spec(&x, &y), gc.cmp_spec(&y, &z)]
                by_generated@.contains(x) && by_generated@.contains(y) && by_generated@.contains(z)
                    && gc.cmp_spec(&x, &y) <= 0 && gc.cmp_spec(&y, &z) <= 0 implies gc.cmp_spec(
                &x,
                &z,
            ) <= 0 by {}
        }
        let ghost decoded_view = by_generated@;
        crate::sort::sort_by(&mut by_generated, &gc);
        proof {
            lemma_range_transfer(decoded_view, by_generated@, );
        }

        let by_original = order_by_original(&by_generated);
        proof {
            assert forall|x: int, y: int|
                0 <= x <= y < by_generated@.len() implies gen_cmp(
                #[trigger] by_generated@[x],
                #[trigger] by_generated@[y],
            ) <= 0 by {
                assert(gc.cmp_spec(&by_generated@[x], &by_generated@[y]) <= 0);
            }
            let pred = |e: IndexEntry| e.original is Some;
            vstd::seq_lib::to_multiset_len(decoded_view);
            vstd::seq_lib::to_multiset_len(by_generated@);
            by_generated@.lemma_filter_len(pred);
            vstd::seq_lib::to_multiset_len(by_generated@.filter(pred));
            vstd::seq_lib::to_multiset_len(by_original@);
            assert(by_original@.len() <= by_generated@.len());
        }
        Ok(
            MappingIndex {
                by_generated,
                by_original,
                computed_column_spans: false,
            },
        )
    }

    /// A well-formed index holds only entries in the decodable range.
    pub proof fn lemma_wf_entries_in_range(&self)
        requires
            self.wf(),
        ensures
            entries_in_range(self.entries()),
            entries_in_range(self.originals()),
    {
    }

    /// The entries in generated-position order, as a copy.
    pub fn by_generated_location(&self) -> (r: Vec<IndexEntry>)
        ensures
            r@ == self.entries(),
    {
        copy_entries(&self.by_generated)
    }

    /// The entries that carry original fields, in original-position order,
    /// as a copy.
    pub fn by_original_location(&self) -> (r: Vec<IndexEntry>)
        ensures
            r@ == self.originals(),
    {
        copy_entries(&self.by_original)
    }

    /// The nearest entry to a 0-based generated position under the given
    /// bias: an exact match when one exists, else the nearest entry on the
    /// biased side, always the first entry of its generated position.
    pub fn original_location_for(&self, generated_line: i32, generated_column: i32, bias: Bias)
        -> (r: Option<IndexEntry>)
        requires
            self.wf(),
            self.entries().len() <= 0x7fff_0000,
        ensures
            gen_query_post(self.entries(), generated_line as int, generated_column as int, bias, r),
            r matches Some(e) ==> exists|i: int|
                0 <= i < self.entries().len() && #[trigger] self.entries()[i] == e,
    {
        self.original_location_search(generated_line, generated_column, bias)
    }

    /// The search behind `original_location_for`.
    #[verifier::rlimit(100)]
    #[verifier::spinoff_prover]
    fn original_location_search(&self, generated_line: i32, generated_column: i32, bias: Bias)
        -> (r: Option<IndexEntry>)
        requires
            self.wf(),
            self.entries().len() <= 0x7fff_0000,
        ensures
            ({
                let g = self.entries();
                let nd = (generated_line, generated_column);
                match r {
                    Option::None => {
                        &&& (bias == Bias::GreatestLowerBound ==> forall|i: int|
                            0 <= i < g.len() ==> gen_needle_cmp(nd, #[trigger] g[i]) < 0)
                        &&& (bias == Bias::LeastUpperBound ==> forall|i: int|
                            0 <= i < g.len() ==> gen_needle_cmp(nd, #[trigger] g[i]) > 0)
                    },
                    Option::Some(e) => {
                        &&& (exists|i: int|
                            0 <= i < g.len() && gen_needle_cmp(nd, #[trigger] g[i]) == 0)
                            ==> gen_needle_cmp(nd, e) == 0
                        &&& (bias == Bias::GreatestLowerBound ==> gen_needle_cmp(nd, e) >= 0)
                        &&& (bias == Bias::LeastUpperBound ==> gen_needle_cmp(nd, e) <= 0)
                        &&& (exists|i: int|
                            0 <= i < g.len() && #[trigger] g[i] == e)
                        &&& exists|i: int, m: int|
                            #![trigger g[i], g[m]]
                            {
                                &&& 0 <= i <= m < g.len()
                                &&& g[i] == e
                                &&& (forall|k: int|
                                    i < k <= m ==> gen_cmp(#[trigger] g[k], g[k - 1]) == 0)
                                &&& (i == 0 || gen_cmp(g[i - 1], g[i]) != 0)
                                &&& {
                                    ||| gen_needle_cmp(nd, g[m]) == 0
                                    ||| (bias == Bias::GreatestLowerBound && gen_needle_cmp(
                                        nd,
                                        g[m],
                                    ) > 0 && (m + 1 == g.len() || gen_needle_cmp(nd, g[m + 1])
                                        < 0))
                                    ||| (bias == Bias::LeastUpperBound && gen_needle_cmp(nd, g[m])
                                        < 0 && (m == 0 || gen_needle_cmp(nd, g[m - 1]) > 0))
                                }
                            }
                    },
                }
            }),
    {
        proof {
            lemma_gen_search_pre(self.by_generated@, generated_line, generated_column);
        }
        let found = search(
            (generated_line, generated_column),
            &self.by_generated,
            GenNeedleComparator,
            GenComparator,
            Some(bias),
        );
        proof {
            let g = self.by_generated@;
            let nd = (generated_line, generated_column);
            let c1 = GenNeedleComparator;
            let c2 = GenComparator;
            if found >= 0 {
                let rr = found as int;
                assert forall|k: int|
                    rr < k <= rr implies gen_cmp(#[trigger] g[k], g[k - 1]) == 0 by {}
                let m = choose|m: int|
                    #![trigger c1.cmp_spec(&nd, &g[m])]
                    {
                        &&& rr <= m < g.len()
                        &&& (forall|k: int|
                            rr < k <= m ==> #[trigger] c2.cmp_spec(&g[k], &g[k - 1]) == 0)
                        &&& {
                            ||| c1.cmp_spec(&nd, &g[m]) == 0
                            ||| (bias == Bias::GreatestLowerBound && c1.cmp_spec(&nd, &g[m]) > 0
                                && (m + 1 == g.len() || c1.cmp_spec(&nd, &g[m + 1]) < 0))
                            ||| (bias == Bias::LeastUpperBound && c1.cmp_spec(&nd, &g[m]) < 0 && (
                            m == 0 || c1.cmp_spec(&nd, &g[m - 1]) > 0))
                        }
                    };
                assert forall|k: int|
                    rr < k <= m implies gen_cmp(#[trigger] g[k], g[k - 1]) == 0 by {
                    assert(c2.cmp_spec(&g[k], &g[k - 1]) == 0);
                }
                assert(rr == 0 || gen_cmp(g[rr - 1], g[rr]) != 0) by {
                    if rr > 0 && c2.cmp_spec(&g[rr], &g[rr - 1]) != 0 {
                        assert(gen_cmp(g[rr], g[rr - 1]) != 0);
                    }
                }
                if exists|i: int| 0 <= i < g.len() && gen_needle_cmp(nd, #[trigger] g[i]) == 0 {
                    let i = choose|i: int|
                        0 <= i < g.len() && gen_needle_cmp(nd, #[trigger] g[i]) == 0;
                    assert(c1.cmp_spec(&nd, &g[i]) == 0);
                    assert(crate::binary_search::has_exact(&nd, g, &c1));
                }
                assert({
                    &&& 0 <= rr <= m < g.len()
                    &&& g[rr] == g[rr]
                    &&& (forall|k: int| rr < k <= m ==> gen_cmp(#[trigger] g[k], g[k - 1]) == 0)
                    &&& (rr == 0 || gen_cmp(g[rr - 1], g[rr]) != 0)
                    &&& {
                        ||| gen_needle_cmp(nd, g[m]) == 0
                        ||| (bias == Bias::GreatestLowerBound && gen_needle_cmp(nd, g[m]) > 0 && (
                        m + 1 == g.len() || gen_needle_cmp(nd, g[m + 1]) < 0))
                        ||| (bias == Bias::LeastUpperBound && gen_needle_cmp(nd, g[m]) < 0 && (m
                            == 0 || gen_needle_cmp(nd, g[m - 1]) > 0))
                    }
                });
            } else {
                assert forall|i: int|
                    0 <= i < g.len() && bias == Bias::GreatestLowerBound implies gen_needle_cmp(
                    nd,
                    #[trigger] g[i],
                ) < 0 by {
                    assert(c1.cmp_spec(&nd, &g[i]) < 0);
                }
                assert forall|i: int|
                    0 <= i < g.len() && bias == Bias::LeastUpperBound implies gen_needle_cmp(
                    nd,
                    #[trigger] g[i],
                ) > 0 by {
                    assert(c1.cmp_spec(&nd, &g[i]) > 0);
                }
            }
        }
        if found < 0 {
            None
        } else {
            Some(self.by_generated[found as usize])
        }
    }

    /// The nearest entry to a 0-based original position (source index, line,
    /// column) under the given bias, searched in original-position order.
    #[verifier::rlimit(100)]
    #[verifier::spinoff_prover]
    pub fn generated_location_for(
        &self,
        source: i32,
        original_line: i32,
        original_column: i32,
        bias: Bias,
    ) -> (r: Option<IndexEntry>)
        requires
            self.wf(),
            self.originals().len() <= 0x7fff_0000,
        ensures
            orig_query_post(
                self.originals(),
                source as int,
                original_line as int,
                original_column as int,
                bias,
                r,
            ),
            r matches Some(e) ==> exists|i: int|
                0 <= i < self.originals().len() && #[trigger] self.originals()[i] == e,
    {
        proof {
            lemma_orig_search_pre(self.by_original@, source, original_line, original_column);
        }
        let found = search(
            (source, original_line, original_column),
            &self.by_original,
            OrigNeedleComparator,
            OrigComparator,
            Some(bias),
        );
        proof {
            let g = self.by_original@;
            let nd = (source, original_line, original_column);
            let c1 = OrigNeedleComparator;
            if found >= 0 {
                lemma_orig_post_from_search(g, nd, bias, found as int);
            } else {
                assert forall|i: int|
                    0 <= i < g.len() && bias == Bias::GreatestLowerBound implies orig_needle_cmp(
                    nd,
                    #[trigger] g[i],
                ) < 0 by {
                    assert(c1.cmp_spec(&nd, &g[i]) < 0);
                }
                assert forall|i: int|
                    0 <= i < g.len() && bias == Bias::LeastUpperBound implies orig_needle_cmp(
                    nd,
                    #[trigger] g[i],
                ) > 0 by {
                    assert(c1.cmp_spec(&nd, &g[i]) > 0);
                }
            }
        }
        if found < 0 {
            None
        } else {
            Some(self.by_original[found as usize])
        }
    }

    /// Every entry on the given source and original line whose original
    /// column, when a column is asked for, is at or past it, in
    /// original-position order.
    pub fn all_generated_locations_for(
        &self,
        source: i32,
        original_line: i32,
        original_column: Option<i32>,
    ) -> (r: Vec<IndexEntry>)
        requires
            self.wf(),
        ensures
            r@ == matching_originals(self.originals(), source, original_line, original_column),
    {
        let mut out: Vec<IndexEntry> = Vec::new();
        proof {
            assert(self.by_original@.take(0) =~= Seq::<IndexEntry>::empty());
        }
        let n = self.by_original.len();
        let mut i: usize = 0;
        while i < n
            invariant
                n == self.by_original@.len(),
                0 <= i <= n,
                out@ == matching_originals(
                    self.by_original@.take(i as int),
                    source,
                    original_line,
                    original_column,
                ),
            decreases n - i,
        {
            let ghost pre = self.by_original@.take(i as int);
            let e = self.by_original[i];
            let keep = match &e.original {
                Some(o) => o.source == source && o.line == original_line && (match original_column
                {
                    Some(c) => o.column >= c,
                    None => true,
                }),
                None => false,
            };
            if keep {
                out.push(e);
            }
            proof {
                let cur = self.by_original@.take(i as int + 1);
                assert(cur.drop_last() =~= pre);
                assert(cur.last() == e);
            }
            i = i + 1;
        }
        proof {
            assert(self.by_original@.take(n as int) =~= self.by_original@);
        }
        out
    }

    /// Fills in the column span of every entry: each span ends one column
    /// before the next entry of the same generated line, and the last entry
    /// of a line has none.  Both tables see the spans.
    pub fn compute_column_spans(&mut self)
        requires
            old(self).wf(),
        ensures
            final(self).wf(),
            final(self).spans_computed(),
            final(self).entries() == spanned(old(self).entries()),
            final(self).originals().len() <= final(self).entries().len(),
    {
        let n = self.by_generated.len();
        let mut g2: Vec<IndexEntry> = Vec::new();
        let mut i: usize = 0;
        while i < n
            invariant
                n == self.by_generated@.len(),
                0 <= i <= n,
                old(self).wf(),
                self == old(self),
                g2@.len() == i,
                forall|j: int| 0 <= j < i ==> g2@[j] == spanned(self.by_generated@)[j],
            decreases n - i,
        {
            let e = self.by_generated[i];
            let last = if i + 1 < n {
                let next = self.by_generated[i + 1];
                if next.generated_line == e.generated_line {
                    Some(next.generated_column - 1)
                } else {
                    None
                }
            } else {
                None
            };
            g2.push(
                IndexEntry {
                    generated_line: e.generated_line,
                    generated_column: e.generated_column,
                    original: e.original,
                    last_generated_column: last,
                },
            );
            i = i + 1;
        }
        proof {
            assert(g2@ =~= spanned(self.by_generated@));
        }
        let by_original = order_by_original(&g2);
        proof {
            let pred = |e: IndexEntry| e.original is Some;
            g2@.lemma_filter_len(pred);
            vstd::seq_lib::to_multiset_len(g2@.filter(pred));
            vstd::seq_lib::to_multiset_len(by_original@);
        }
        let ghost old_view = self.by_generated@;
        self.by_generated = g2;
        self.by_original = by_original;
        self.computed_column_spans = true;
        proof {
            assert forall|x: int, y: int|
                0 <= x <= y < self.by_generated@.len() implies gen_cmp(
                #[trigger] self.by_generated@[x],
                #[trigger] self.by_generated@[y],
            ) <= 0 by {
                assert(gen_cmp(old_view[x], old_view[y]) <= 0);
            }
        }
    }

}

} // verus!
