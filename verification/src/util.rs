//! The orderings over mappings: optional-string comparison where an absent
//! value sorts above any present one, and the generated-position comparator
//! that serialization order follows.

use vstd::prelude::*;
use crate::mapping::{mapping_valid, Mapping};
use crate::strings::{bytes_cmp, str_cmp};

verus! {

/// The sign of an integer: -1, 0 or 1.
pub open spec fn sign(x: int) -> int {
    if x < 0 {
        -1
    } else if x > 0 {
        1
    } else {
        0
    }
}

/// The views of an optional string.
pub open spec fn view_opt(o: Option<String>) -> Option<Seq<char>> {
    match o {
        Option::Some(s) => Option::Some(s@),
        Option::None => Option::None,
    }
}

/// The UTF-8 byte form of an optional character sequence.
pub open spec fn opt_bytes(o: Option<Seq<char>>) -> Option<Seq<u8>> {
    match o {
        Option::Some(s) => Option::Some(vstd::utf8::encode_utf8(s)),
        Option::None => Option::None,
    }
}

/// Comparison of optional strings: equal inputs compare equal, an absent
/// value compares above any present one, present values compare
/// lexicographically.
pub open spec fn opt_str_cmp(a: Option<Seq<char>>, b: Option<Seq<char>>) -> int {
    match (a, b) {
        (Option::None, Option::None) => 0,
        (Option::None, Option::Some(_)) => 1,
        (Option::Some(_), Option::None) => -1,
        (Option::Some(x), Option::Some(y)) => str_cmp(x, y),
    }
}

/// The optional-string comparison returns one of three values, ties exactly
/// on equal byte forms, and flips its sign with its arguments.
pub proof fn lemma_opt_str_cmp_props(a: Option<Seq<char>>, b: Option<Seq<char>>)
    ensures
        -1 <= opt_str_cmp(a, b) <= 1,
        opt_str_cmp(a, b) == 0 <==> opt_bytes(a) == opt_bytes(b),
        opt_str_cmp(a, b) == -opt_str_cmp(b, a),
{
    if a is Some && b is Some {
        let x = vstd::utf8::encode_utf8(a->Some_0);
        let y = vstd::utf8::encode_utf8(b->Some_0);
        crate::strings::lemma_bytes_cmp_range(x, y);
        crate::strings::lemma_bytes_cmp_eq(x, y);
        crate::strings::lemma_bytes_cmp_antisym(x, y);
    }
}

/// The optional-string comparison is transitive.
pub proof fn lemma_opt_str_cmp_trans(a: Option<Seq<char>>, b: Option<Seq<char>>, c: Option<
    Seq<char>,
>)
    requires
        opt_str_cmp(a, b) <= 0,
        opt_str_cmp(b, c) <= 0,
    ensures
        opt_str_cmp(a, c) <= 0,
{
    if a is Some && b is Some && c is Some {
        crate::strings::lemma_bytes_cmp_trans(
            vstd::utf8::encode_utf8(a->Some_0),
            vstd::utf8::encode_utf8(b->Some_0),
            vstd::utf8::encode_utf8(c->Some_0),
        );
    }
}

/// A tie of the optional-string comparison leaves every further comparison
/// unchanged.
pub proof fn lemma_opt_str_cmp_substitute(a: Option<Seq<char>>, b: Option<Seq<char>>, y: Option<
    Seq<char>,
>)
    requires
        opt_bytes(a) == opt_bytes(b),
    ensures
        opt_str_cmp(a, y) == opt_str_cmp(b, y),
        opt_str_cmp(y, a) == opt_str_cmp(y, b),
{
}

/// The order serialization uses: by generated line, then generated column,
/// then source, then (when both entries carry one) original line and column,
/// then name.
pub open spec fn mapping_cmp(a: Mapping, b: Mapping) -> int {
    if a.generated.line != b.generated.line {
        sign(a.generated.line - b.generated.line)
    } else if a.generated.column != b.generated.column {
        sign(a.generated.column - b.generated.column)
    } else if opt_str_cmp(view_opt(a.source), view_opt(b.source)) != 0 {
        opt_str_cmp(view_opt(a.source), view_opt(b.source))
    } else if a.original is Some && b.original is Some && a.original->Some_0.line
        != b.original->Some_0.line {
        sign(a.original->Some_0.line - b.original->Some_0.line)
    } else if a.original is Some && b.original is Some && a.original->Some_0.column
        != b.original->Some_0.column {
        sign(a.original->Some_0.column - b.original->Some_0.column)
    } else {
        opt_str_cmp(view_opt(a.name), view_opt(b.name))
    }
}

/// The mapping comparison flips its sign with its arguments.
pub proof fn lemma_mapping_cmp_antisym(a: Mapping, b: Mapping)
    ensures
        mapping_cmp(a, b) == -mapping_cmp(b, a),
        -1 <= mapping_cmp(a, b) <= 1,
{
    lemma_opt_str_cmp_props(view_opt(a.source), view_opt(b.source));
    lemma_opt_str_cmp_props(view_opt(a.name), view_opt(b.name));
}

/// On valid mappings the comparison is transitive.
pub proof fn lemma_mapping_cmp_trans(a: Mapping, b: Mapping, c: Mapping)
    requires
        mapping_valid(a),
        mapping_valid(b),
        mapping_valid(c),
        mapping_cmp(a, b) <= 0,
        mapping_cmp(b, c) <= 0,
    ensures
        mapping_cmp(a, c) <= 0,
{
    let sa = view_opt(a.source);
    let sb = view_opt(b.source);
    let sc = view_opt(c.source);
    let na = view_opt(a.name);
    let nb = view_opt(b.name);
    let nc = view_opt(c.name);
    lemma_opt_str_cmp_props(sa, sb);
    lemma_opt_str_cmp_props(sb, sc);
    lemma_opt_str_cmp_props(sa, sc);
    lemma_opt_str_cmp_props(na, nb);
    lemma_opt_str_cmp_props(nb, nc);
    lemma_opt_str_cmp_props(na, nc);
    if opt_str_cmp(sa, sb) <= 0 && opt_str_cmp(sb, sc) <= 0 {
        lemma_opt_str_cmp_trans(sa, sb, sc);
    }
    if opt_str_cmp(na, nb) <= 0 && opt_str_cmp(nb, nc) <= 0 {
        lemma_opt_str_cmp_trans(na, nb, nc);
    }
    if opt_str_cmp(sa, sb) == 0 {
        lemma_opt_str_cmp_substitute(sa, sb, sc);
    }
    if opt_str_cmp(sb, sc) == 0 {
        lemma_opt_str_cmp_substitute(sb, sc, sa);
        lemma_opt_str_cmp_props(sc, sa);
    }
}

/// Compares two optional strings: equal inputs compare equal, an absent
/// value is greater than any present one, else lexicographic.
pub fn strcmp(a: Option<String>, b: Option<String>) -> (r: i32)
    ensures
        r == opt_str_cmp(view_opt(a), view_opt(b)),
{
    match (&a, &b) {
        (None, None) => 0,
        (None, Some(_)) => 1,
        (Some(_), None) => -1,
        (Some(x), Some(y)) => crate::strings::compare_string(x, y),
    }
}

/// Compares two mappings by generated position, then source, original
/// position and name, treating absent strings as greater than present ones.
pub fn compare_by_generated_pos_inflated(a: &Mapping, b: &Mapping) -> (r: i32)
    ensures
        r == mapping_cmp(*a, *b),
{
    if a.generated.line != b.generated.line {
        return if a.generated.line < b.generated.line {
            -1
        } else {
            1
        };
    }
    if a.generated.column != b.generated.column {
        return if a.generated.column < b.generated.column {
            -1
        } else {
            1
        };
    }
    let cmp = strcmp(clone_opt_string(&a.source), clone_opt_string(&b.source));
    if cmp != 0 {
        return cmp;
    }
    match (&a.original, &b.original) {
        (Some(ao), Some(bo)) => {
            if ao.line != bo.line {
                return if ao.line < bo.line {
                    -1
                } else {
                    1
                };
            }
            if ao.column != bo.column {
                return if ao.column < bo.column {
                    -1
                } else {
                    1
                };
            }
        },
        _ => {},
    }
    strcmp(clone_opt_string(&a.name), clone_opt_string(&b.name))
}

/// A copy of an optional string.
pub fn clone_opt_string(o: &Option<String>) -> (r: Option<String>)
    ensures
        view_opt(r) == view_opt(*o),
        r is Some <==> *o is Some,
{
    match o {
        Some(s) => Some(s.clone()),
        None => None,
    }
}

// --- URL and path resolution -----------------------------------------------
//
// Sources are resolved against `sourceRoot` and the source map's own URL by
// generic URL-join semantics.  The URL algebra itself comes from the `url`
// crate behind the trusted items below; everything around it — classifying a
// reference, building a safe parsing base, and computing relative paths — is
// verified here.

/// What the `url` crate computes when `input` is resolved against `base`: a
/// pure function of the two strings.
pub uninterp spec fn url_join_spec(base: Seq<char>, input: Seq<char>) -> Option<Seq<char>>;

/// Relies on `url::Url::parse` and `url::Url::join`: resolving a reference
/// against a base by the WHATWG rules, a deterministic function of the two
/// strings; `None` exactly when parsing or joining fails.
#[verifier::external_body]
fn url_join(base: &str, input: &str) -> (r: Option<String>)
    ensures
        r is Some <==> url_join_spec(base@, input@) is Some,
        r matches Some(s) ==> url_join_spec(base@, input@) == Some(s@),
{
    match url::Url::parse(base) {
        Ok(u) => match u.join(input) {
            Ok(j) => Some(j.as_str().to_string()),
            Err(_) => None,
        },
        Err(_) => None,
    }
}

/// The path, query and fragment of a parsed URL string: a pure function of
/// the string.
pub uninterp spec fn url_parts_spec(s: Seq<char>) -> Option<
    (Seq<char>, Option<Seq<char>>, Option<Seq<char>>),
>;

/// Relies on `url::Url::parse` with the accessors `path`, `query` and
/// `fragment`: the three components of the parsed URL, deterministic in the
/// string; `None` exactly when parsing fails.
#[verifier::external_body]
fn url_parts(s: &str) -> (r: Option<(String, Option<String>, Option<String>)>)
    ensures
        r is Some <==> url_parts_spec(s@) is Some,
        r matches Some(p) ==> url_parts_spec(s@) == Some(
            (p.0@, view_opt(p.1), view_opt(p.2)),
        ),
{
    match url::Url::parse(s) {
        Ok(u) => Some(
            (
                u.path().to_string(),
                u.query().map(|q| q.to_string()),
                u.fragment().map(|f| f.to_string()),
            ),
        ),
        Err(_) => None,
    }
}

/// The URL string after its path is replaced: a pure function of the string
/// and the new path.
pub uninterp spec fn url_set_path_spec(s: Seq<char>, path: Seq<char>) -> Option<Seq<char>>;

/// Relies on `url::Url::parse` and `url::Url::set_path`: the URL re-written
/// with the given path, deterministic in the two strings; `None` exactly
/// when parsing fails.
#[verifier::external_body]
fn url_set_path(s: &str, path: &str) -> (r: Option<String>)
    ensures
        r is Some <==> url_set_path_spec(s@, path@) is Some,
        r matches Some(t) ==> url_set_path_spec(s@, path@) == Some(t@),
{
    match url::Url::parse(s) {
        Ok(mut u) => {
            u.set_path(path);
            Some(u.as_str().to_string())
        },
        Err(_) => None,
    }
}

/// The scheme, username, password, host and port of a parsed URL string: a
/// pure function of the string.
pub uninterp spec fn url_origin_spec(s: Seq<char>) -> Option<
    (Seq<char>, Seq<char>, Option<Seq<char>>, Option<Seq<char>>, Option<u16>),
>;

/// Relies on `url::Url::parse` with the accessors `scheme`, `username`,
/// `password`, `host_str` and `port`: the origin components of the parsed
/// URL, deterministic in the string; `None` exactly when parsing fails.
#[verifier::external_body]
fn url_origin(s: &str) -> (r: Option<(String, String, Option<String>, Option<String>, Option<u16>)>)
    ensures
        r is Some <==> url_origin_spec(s@) is Some,
        r matches Some(p) ==> url_origin_spec(s@) == Some(
            (p.0@, p.1@, view_opt(p.2), view_opt(p.3), p.4),
        ),
{
    match url::Url::parse(s) {
        Ok(u) => Some(
            (
                u.scheme().to_string(),
                u.username().to_string(),
                u.password().map(|p| p.to_string()),
                u.host_str().map(|h| h.to_string()),
                u.port(),
            ),
        ),
        Err(_) => None,
    }
}

/// Relies on `String::from_iter` over characters: collecting characters into
/// a string keeps exactly those characters.
#[verifier::external_body]
pub fn chars_to_string(v: &Vec<char>) -> (r: String)
    ensures
        r@ == v@,
{
    v.iter().collect()
}

/// The characters of a string, as a vector.
pub fn string_to_chars(s: &str) -> (r: Vec<char>)
    ensures
        r@ == s@,
{
    let n = s.unicode_len();
    let mut out: Vec<char> = Vec::new();
    let mut i: usize = 0;
    while i < n
        invariant
            n == s@.len(),
            out@.len() == i <= n,
            forall|j: int| 0 <= j < i ==> out@[j] == s@[j],
        decreases n - i,
    {
        out.push(s.get_char(i));
        i = i + 1;
    }
    proof {
        assert(out@ =~= s@);
    }
    out
}

/// The characters at the index range, as a new vector.
pub fn sub_chars(s: &Vec<char>, from: usize, to: usize) -> (r: Vec<char>)
    requires
        from <= to <= s@.len(),
    ensures
        r@ == s@.subrange(from as int, to as int),
{
    let mut out: Vec<char> = Vec::new();
    let mut i: usize = from;
    while i < to
        invariant
            from <= i <= to <= s@.len(),
            out@.len() == i - from,
            forall|j: int| 0 <= j < out@.len() ==> out@[j] == s@[from + j],
        decreases to - i,
    {
        out.push(s[i]);
        i = i + 1;
    }
    proof {
        assert(out@ =~= s@.subrange(from as int, to as int));
    }
    out
}

/// Whether one character sequence occurs inside another.
pub open spec fn seq_contains_seq(hay: Seq<char>, needle: Seq<char>) -> bool {
    exists|k: int|
        0 <= k && k + needle.len() <= hay.len() && #[trigger] hay.subrange(k, k + needle.len())
            == needle
}

/// Whether `needle` occurs inside `hay`.
pub fn chars_contain(hay: &Vec<char>, needle: &Vec<char>) -> (r: bool)
    ensures
        r == seq_contains_seq(hay@, needle@),
{
    let m = needle.len();
    let n = hay.len();
    if m > n {
        return false;
    }
    let mut k: usize = 0;
    while k <= n - m
        invariant
            m == needle@.len() <= n == hay@.len(),
            0 <= k <= n - m + 1,
            forall|j: int|
                0 <= j < k ==> #[trigger] hay@.subrange(j, j + needle@.len()) != needle@,
        decreases n - k,
    {
        let mut i: usize = 0;
        let mut same = true;
        while i < m
            invariant
                m == needle@.len() <= n == hay@.len(),
                0 <= k <= n - m,
                0 <= i <= m,
                same <==> hay@.subrange(k as int, k + i) =~= needle@.subrange(0, i as int),
            decreases m - i,
        {
            let ghost pre_same = same;
            if hay[k + i] != needle[i] {
                same = false;
            }
            proof {
                let a = hay@.subrange(k as int, k + i + 1);
                let b = needle@.subrange(0, i + 1);
                if pre_same && hay@[k + i] == needle@[i as int] {
                    assert(a =~= hay@.subrange(k as int, k as int + i as int).push(hay@[k + i]));
                    assert(b =~= needle@.subrange(0, i as int).push(needle@[i as int]));
                    assert(a =~= b);
                } else {
                    if a == b {
                        assert(a[i as int] == b[i as int]);
                        assert(a.subrange(0, i as int) =~= hay@.subrange(
                            k as int,
                            k as int + i as int,
                        ));
                        assert(b.subrange(0, i as int) =~= needle@.subrange(0, i as int));
                        assert(hay@.subrange(k as int, k as int + i as int) =~= needle@.subrange(
                            0,
                            i as int,
                        ));
                    }
                    assert(a != b);
                }
            }
            i = i + 1;
        }
        if same {
            proof {
                assert(hay@.subrange(k as int, k + needle@.len()) =~= needle@.subrange(
                    0,
                    needle@.len() as int,
                ));
                assert(needle@.subrange(0, needle@.len() as int) =~= needle@);
            }
            return true;
        }
        proof {
            assert(hay@.subrange(k as int, k + needle@.len()) != needle@) by {
                assert(needle@.subrange(0, needle@.len() as int) =~= needle@);
            }
        }
        k = k + 1;
    }
    proof {
        assert forall|j: int|
            0 <= j && j + needle@.len() <= hay@.len() implies #[trigger] hay@.subrange(
            j,
            j + needle@.len(),
        ) != needle@ by {
            assert(j < k);
        }
    }
    false
}

/// The kind of a URL reference.
#[derive(Debug, Clone, Copy, PartialEq, Eq, Structural)]
pub enum UrlType {
    /// A full URL with a scheme, such as `https://...`.
    Absolute,
    /// A path starting at the root, such as `/a/b`.
    PathAbsolute,
    /// A relative path, such as `a/b` or `../a`.
    PathRelative,
    /// A URL keeping the base's scheme, such as `//host/a`.
    SchemeRelative,
}

/// A character allowed in a URL scheme.
pub open spec fn is_scheme_char(c: char) -> bool {
    ('A' <= c <= 'Z') || ('a' <= c <= 'z') || ('0' <= c <= '9') || c == '+' || c == '-' || c == '.'
}

/// The first index at or after `i` holding a character no scheme may hold,
/// or the length.
pub open spec fn scheme_end(s: Seq<char>, i: int) -> int
    decreases s.len() - i,
{
    if i < 0 || i >= s.len() {
        s.len() as int
    } else if !is_scheme_char(s[i]) {
        i
    } else {
        scheme_end(s, i + 1)
    }
}

/// Whether the string starts with a scheme followed by `:/`.
pub open spec fn is_absolute_url(s: Seq<char>) -> bool {
    let k = scheme_end(s, 0);
    1 <= k && k + 1 < s.len() && s[k] == ':' && s[k + 1] == '/'
}

/// The kind of a URL reference: scheme-relative on a leading `//`,
/// path-absolute on a leading `/`, absolute on a leading scheme, else
/// path-relative.
pub open spec fn url_type_of(s: Seq<char>) -> UrlType {
    if s.len() >= 2 && s[0] == '/' && s[1] == '/' {
        UrlType::SchemeRelative
    } else if s.len() >= 1 && s[0] == '/' {
        UrlType::PathAbsolute
    } else if is_absolute_url(s) {
        UrlType::Absolute
    } else {
        UrlType::PathRelative
    }
}

/// Classifies a URL reference.
pub fn get_url_type(input: &Vec<char>) -> (r: UrlType)
    ensures
        r == url_type_of(input@),
{
    let n = input.len();
    if n >= 2 && input[0] == '/' && input[1] == '/' {
        return UrlType::SchemeRelative;
    }
    if n >= 1 && input[0] == '/' {
        return UrlType::PathAbsolute;
    }
    let mut i: usize = 0;
    loop
        invariant_except_break
            0 <= i <= n == input@.len(),
            scheme_end(input@, 0) == scheme_end(input@, i as int),
        ensures
            i == scheme_end(input@, 0),
        decreases n - i,
    {
        if i >= n {
            break ;
        }
        let c = input[i];
        let sc = ('A' <= c && c <= 'Z') || ('a' <= c && c <= 'z') || ('0' <= c && c <= '9') || c
            == '+' || c == '-' || c == '.';
        if !sc {
            break ;
        }
        i = i + 1;
    }
    if 1 <= i && i < n && input[i] == ':' && i + 1 < n && input[i + 1] == '/' {
        UrlType::Absolute
    } else {
        UrlType::PathRelative
    }
}

/// The decimal digit character of a value below ten.
pub open spec fn digit_char_of(d: int) -> char {
    ((48 + d) as u8) as char
}

/// The decimal digits of a non-negative number.
pub open spec fn dec_chars(n: int) -> Seq<char>
    decreases n,
{
    if n < 10 {
        seq![digit_char_of(if n < 0 {
            0
        } else {
            n
        })]
    } else {
        dec_chars(n / 10).push(digit_char_of(n % 10))
    }
}

/// The decimal digits of a number.
pub fn dec_chars_exec(n: u64) -> (r: Vec<char>)
    ensures
        r@ == dec_chars(n as int),
    decreases n,
{
    if n < 10 {
        let mut v: Vec<char> = Vec::new();
        v.push((48 + n as u8) as char);
        proof {
            assert(v@ =~= dec_chars(n as int));
        }
        v
    } else {
        let mut v = dec_chars_exec(n / 10);
        v.push((48 + (n % 10) as u8) as char);
        v
    }
}

/// Appends the characters of `src` to `dst`.
pub fn extend_chars(dst: &mut Vec<char>, src: &Vec<char>)
    ensures
        final(dst)@ == old(dst)@ + src@,
{
    let n = src.len();
    let mut i: usize = 0;
    while i < n
        invariant
            n == src@.len(),
            0 <= i <= n,
            dst@ == old(dst)@ + src@.subrange(0, i as int),
        decreases n - i,
    {
        dst.push(src[i]);
        proof {
            assert(old(dst)@ + src@.subrange(0, i as int + 1) =~= (old(dst)@ + src@.subrange(
                0,
                i as int,
            )).push(src@[i as int]));
        }
        i = i + 1;
    }
    proof {
        assert(src@.subrange(0, n as int) =~= src@);
    }
}

/// The candidate segment `p` followed by the decimal digits of `id`.
pub open spec fn p_ident(id: int) -> Seq<char> {
    seq!['p'] + dec_chars(id)
}

/// A run of `n` zero characters.
pub open spec fn zero_chars(n: int) -> Seq<char> {
    Seq::new(if n < 0 {
        0nat
    } else {
        n as nat
    }, |i: int| '0')
}

/// The first candidate segment from `id` on that the string does not
/// contain; past the bound, a segment longer than the string, which it can
/// never contain.
pub open spec fn unique_segment_from(s: Seq<char>, id: int, bound: int) -> Seq<char>
    decreases bound - id,
{
    if id >= bound || bound - id < 0 {
        seq!['p'] + zero_chars(s.len() as int + 1)
    } else if !seq_contains_seq(s, p_ident(id)) {
        p_ident(id)
    } else {
        unique_segment_from(s, id + 1, bound)
    }
}

/// The path segment used to build a safe parsing base for the string.
pub open spec fn unique_segment_spec(s: Seq<char>) -> Seq<char> {
    unique_segment_from(s, 0, s.len() as int + 2)
}

/// A path segment that the string does not contain, so that relative-path
/// arithmetic against a base built from it cannot collide with the string's
/// own segments.
pub fn build_unique_segment(input: &Vec<char>) -> (r: Vec<char>)
    requires
        input@.len() <= 0xffff_0000,
    ensures
        r@ == unique_segment_spec(input@),
        !seq_contains_seq(input@, r@),
        r@.len() >= 1,
{
    let n = input.len();
    let bound: u64 = n as u64 + 2;
    let mut id: u64 = 0;
    while id < bound
        invariant
            bound == input@.len() + 2,
            0 <= id <= bound,
            input@.len() <= 0xffff_0000,
            unique_segment_spec(input@) == unique_segment_from(input@, id as int, bound as int),
        decreases bound - id,
    {
        let mut ident: Vec<char> = Vec::new();
        ident.push('p');
        let digits = dec_chars_exec(id);
        extend_chars(&mut ident, &digits);
        proof {
            assert(ident@ =~= p_ident(id as int));
        }
        if !chars_contain(input, &ident) {
            return ident;
        }
        id = id + 1;
    }
    // Every numbered candidate occurred in the string: fall back to a
    // segment longer than the string itself.
    let mut ident: Vec<char> = Vec::new();
    ident.push('p');
    let mut i: usize = 0;
    while i < n + 1
        invariant
            n == input@.len() <= 0xffff_0000,
            0 <= i <= n + 1,
            ident@ =~= seq!['p'] + zero_chars(i as int),
        decreases n + 1 - i,
    {
        ident.push('0');
        proof {
            assert(ident@ =~= seq!['p'] + zero_chars(i as int + 1));
        }
        i = i + 1;
    }
    proof {
        assert(ident@ =~= unique_segment_from(input@, bound as int, bound as int));
        assert(ident@.len() == input@.len() + 2);
        assert forall|k: int|
            !(0 <= k && k + ident@.len() <= input@.len() && #[trigger] input@.subrange(
                k,
                k + ident@.len(),
            ) == ident@) by {}
    }
    ident
}

/// A repetition of a character sequence.
pub open spec fn repeat_chars(x: Seq<char>, n: int) -> Seq<char>
    decreases n,
{
    if n <= 0 {
        Seq::empty()
    } else {
        x + repeat_chars(x, n - 1)
    }
}

/// Repeating once more appends one copy.
proof fn lemma_repeat_snoc(x: Seq<char>, n: int)
    requires
        n >= 0,
    ensures
        repeat_chars(x, n + 1) == repeat_chars(x, n) + x,
    decreases n,
{
    if n == 0 {
        assert(repeat_chars(x, 0) =~= Seq::<char>::empty());
        assert(repeat_chars(x, 1) =~= x + Seq::<char>::empty());
        assert(repeat_chars(x, 0) + x =~= x + Seq::<char>::empty());
    } else {
        lemma_repeat_snoc(x, n - 1);
        assert(repeat_chars(x, n + 1) =~= x + repeat_chars(x, n));
        assert(x + (repeat_chars(x, n - 1) + x) =~= (x + repeat_chars(x, n - 1)) + x);
    }
}

/// The number of non-overlapping `..` pairs, scanned left to right.
pub open spec fn count_dot_dot(s: Seq<char>, i: int) -> int
    decreases s.len() - i,
{
    if i < 0 || i + 2 > s.len() {
        0
    } else if s[i] == '.' && s[i + 1] == '.' {
        1 + count_dot_dot(s, i + 2)
    } else {
        count_dot_dot(s, i + 1)
    }
}

/// The parsing base `http://host/`: `http` makes URLs under it "special",
/// so path normalization applies as it would for web content.
pub open spec fn protocol_and_host() -> Seq<char> {
    seq!['h', 't', 't', 'p', ':', '/', '/', 'h', 'o', 's', 't']
}

/// The characters `http://host`.
pub fn protocol_and_host_chars() -> (r: Vec<char>)
    ensures
        r@ == protocol_and_host(),
{
    let mut v: Vec<char> = Vec::new();
    v.push('h');
    v.push('t');
    v.push('t');
    v.push('p');
    v.push(':');
    v.push('/');
    v.push('/');
    v.push('h');
    v.push('o');
    v.push('s');
    v.push('t');
    proof {
        assert(v@ =~= protocol_and_host());
    }
    v
}

/// The safe parsing base for a string: `http://host/` with one unique
/// segment per `..` pair the string could climb through.
pub open spec fn safe_base_spec(s: Seq<char>) -> Seq<char> {
    protocol_and_host() + seq!['/'] + repeat_chars(
        unique_segment_spec(s) + seq!['/'],
        count_dot_dot(s, 0),
    )
}

/// Builds the safe parsing base for a string.
pub fn build_safe_base(input: &Vec<char>) -> (r: Vec<char>)
    requires
        input@.len() <= 0xffff_0000,
    ensures
        r@ == safe_base_spec(input@),
{
    let n = input.len();
    // Count the `..` pairs.
    let mut parts: usize = 0;
    let mut i: usize = 0;
    loop
        invariant_except_break
            0 <= i <= n == input@.len() <= 0xffff_0000,
            parts <= i,
            count_dot_dot(input@, 0) == parts + count_dot_dot(input@, i as int),
        ensures
            count_dot_dot(input@, 0) == parts,
        decreases n - i,
    {
        if i + 2 > n {
            break ;
        }
        if input[i] == '.' && input[i + 1] == '.' {
            parts = parts + 1;
            i = i + 2;
        } else {
            i = i + 1;
        }
    }
    let segment = build_unique_segment(input);
    let mut seg_slash = segment;
    seg_slash.push('/');
    let mut base = protocol_and_host_chars();
    base.push('/');
    let ghost prefix = protocol_and_host() + seq!['/'];
    proof {
        assert(base@ =~= prefix);
        assert(base@ =~= prefix + repeat_chars(seg_slash@, 0));
    }
    let mut k: usize = 0;
    while k < parts
        invariant
            0 <= k <= parts,
            seg_slash@ == unique_segment_spec(input@) + seq!['/'],
            base@ == prefix + repeat_chars(seg_slash@, k as int),
            prefix == protocol_and_host() + seq!['/'],
        decreases parts - k,
    {
        extend_chars(&mut base, &seg_slash);
        proof {
            lemma_repeat_snoc(seg_slash@, k as int);
            assert(base@ =~= prefix + repeat_chars(seg_slash@, k as int + 1));
        }
        k = k + 1;
    }
    base
}

/// The views of a vector of character vectors.
pub open spec fn views(parts: Seq<Vec<char>>) -> Seq<Seq<char>> {
    parts.map_values(|v: Vec<char>| v@)
}

/// The first index at or after `i` holding the character, or the length.
pub open spec fn find_char_from(s: Seq<char>, i: int, c: char) -> int
    decreases s.len() - i,
{
    if i < 0 || i >= s.len() {
        s.len() as int
    } else if s[i] == c {
        i
    } else {
        find_char_from(s, i + 1, c)
    }
}

/// The pieces of the string from `i` on, split on the character.
pub open spec fn split_char_from(s: Seq<char>, i: int, c: char) -> Seq<Seq<char>>
    decreases s.len() - i,
{
    let k = find_char_from(s, i, c);
    if i < 0 || k < i || k > s.len() {
        Seq::empty()
    } else if k == s.len() {
        seq![s.subrange(i, k)]
    } else {
        seq![s.subrange(i, k)] + split_char_from(s, k + 1, c)
    }
}

/// The pieces from index `i` on, joined with the character between them.
pub open spec fn join_char_from(parts: Seq<Seq<char>>, i: int, c: char) -> Seq<char>
    decreases parts.len() - i,
{
    if i < 0 || i >= parts.len() {
        Seq::empty()
    } else if i == parts.len() - 1 {
        parts[i]
    } else {
        parts[i] + seq![c] + join_char_from(parts, i + 1, c)
    }
}

/// The first index from `i` on where the two piece lists differ, or the end
/// of the shorter one.
pub open spec fn common_prefix_from(a: Seq<Seq<char>>, b: Seq<Seq<char>>, i: int) -> int
    decreases a.len() - i,
{
    if i < 0 || i >= a.len() || i >= b.len() || a[i] != b[i] {
        i
    } else {
        common_prefix_from(a, b, i + 1)
    }
}

/// Splits the characters from `from` on at the given character.
fn split_chars(s: &Vec<char>, from: usize, c: char) -> (r: Vec<Vec<char>>)
    requires
        from <= s@.len(),
    ensures
        views(r@) == split_char_from(s@, from as int, c),
    decreases s@.len() - from,
{
    let n = s.len();
    let mut k: usize = from;
    loop
        invariant_except_break
            from <= k <= n == s@.len(),
            find_char_from(s@, from as int, c) == find_char_from(s@, k as int, c),
        ensures
            from <= k <= n,
            k == find_char_from(s@, from as int, c),
        decreases n - k,
    {
        if k >= n {
            break ;
        }
        if s[k] == c {
            break ;
        }
        k = k + 1;
    }
    let piece = sub_chars(s, from, k);
    if k == n {
        let mut r: Vec<Vec<char>> = Vec::new();
        r.push(piece);
        proof {
            assert(views(r@) =~= seq![s@.subrange(from as int, k as int)]);
        }
        r
    } else {
        let mut rest = split_chars(s, k + 1, c);
        rest.insert(0, piece);
        proof {
            assert(views(rest@) =~= seq![s@.subrange(from as int, k as int)] + split_char_from(
                s@,
                k as int + 1,
                c,
            ));
        }
        rest
    }
}

/// Joins the pieces from index `i` on with the given character.
fn join_chars(parts: &Vec<Vec<char>>, i: usize, c: char) -> (r: Vec<char>)
    ensures
        r@ == join_char_from(views(parts@), i as int, c),
    decreases parts@.len() - i,
{
    let n = parts.len();
    if i >= n {
        Vec::new()
    } else if i == n - 1 {
        let mut r: Vec<char> = Vec::new();
        extend_chars(&mut r, &parts[i]);
        proof {
            assert(r@ =~= views(parts@)[i as int]);
        }
        r
    } else {
        let mut r: Vec<char> = Vec::new();
        extend_chars(&mut r, &parts[i]);
        r.push(c);
        let rest = join_chars(parts, i + 1, c);
        extend_chars(&mut r, &rest);
        proof {
            assert(r@ =~= views(parts@)[i as int] + seq![c] + join_char_from(
                views(parts@),
                i as int + 1,
                c,
            ));
        }
        r
    }
}

/// What the relative-path computation produces: the target's path with the
/// piece-wise common prefix of the root's path replaced by one `..` per
/// remaining root piece, with the target's raw query and fragment appended.
pub open spec fn relative_url_spec(root: Seq<char>, target: Seq<char>) -> Option<Seq<char>> {
    match (url_parts_spec(root), url_parts_spec(target)) {
        (Option::Some(rp), Option::Some(tp)) => {
            let root_parts0 = split_char_from(rp.0, 0, '/');
            let root_parts = if root_parts0.len() > 0 && root_parts0.last().len() == 0 {
                root_parts0.drop_last()
            } else {
                root_parts0
            };
            let target_parts = split_char_from(tp.0, 0, '/');
            let k = common_prefix_from(root_parts, target_parts, 0);
            let combined = Seq::new((root_parts.len() - k) as nat, |j: int| seq!['.', '.'])
                + target_parts.skip(k);
            let path = join_char_from(combined, 0, '/');
            let with_query = path + (match tp.1 {
                Option::Some(q) => q,
                Option::None => Seq::empty(),
            });
            Option::Some(
                with_query + (match tp.2 {
                    Option::Some(f) => f,
                    Option::None => Seq::empty(),
                }),
            )
        },
        _ => Option::None,
    }
}

/// The relative path that leads from `root` to `target`, both URL strings.
fn compute_relative_url(root: &Vec<char>, target: &Vec<char>) -> (r: Option<Vec<char>>)
    ensures
        r is Some <==> relative_url_spec(root@, target@) is Some,
        r matches Some(v) ==> relative_url_spec(root@, target@) == Some(v@),
{
    let root_s = chars_to_string(root);
    let target_s = chars_to_string(target);
    let rp = match url_parts(root_s.as_str()) {
        Some(p) => p,
        None => {
            return None;
        },
    };
    let tp = match url_parts(target_s.as_str()) {
        Some(p) => p,
        None => {
            return None;
        },
    };
    let root_path = string_to_chars(rp.0.as_str());
    let target_path = string_to_chars(tp.0.as_str());
    let mut root_parts = split_chars(&root_path, 0, '/');
    let target_parts = split_chars(&target_path, 0, '/');
    let ghost root_parts0 = views(root_parts@);
    if root_parts.len() > 0 && root_parts[root_parts.len() - 1].len() == 0 {
        root_parts.pop();
        proof {
            assert(views(root_parts@) =~= root_parts0.drop_last());
        }
    }
    let ghost rv = views(root_parts@);
    let ghost tv = views(target_parts@);
    let mut k: usize = 0;
    loop
        invariant_except_break
            0 <= k <= rv.len(),
            k <= tv.len(),
            rv == views(root_parts@),
            tv == views(target_parts@),
            root_parts@.len() == rv.len(),
            target_parts@.len() == tv.len(),
            common_prefix_from(rv, tv, 0) == common_prefix_from(rv, tv, k as int),
        ensures
            0 <= k <= rv.len() && k <= tv.len(),
            rv == views(root_parts@),
            tv == views(target_parts@),
            k == common_prefix_from(rv, tv, 0),
        decreases rv.len() - k,
    {
        if k >= root_parts.len() || k >= target_parts.len() {
            break ;
        }
        if !chars_equal(&root_parts[k], &target_parts[k]) {
            break ;
        }
        k = k + 1;
    }
    let mut combined: Vec<Vec<char>> = Vec::new();
    let rlen = root_parts.len();
    let mut j: usize = k;
    while j < rlen
        invariant
            k <= j <= rlen == rv.len(),
            combined@.len() == j - k,
            forall|x: int| 0 <= x < combined@.len() ==> views(combined@)[x] == seq!['.', '.'],
        decreases rlen - j,
    {
        let mut dots: Vec<char> = Vec::new();
        dots.push('.');
        dots.push('.');
        proof {
            assert(dots@ =~= seq!['.', '.']);
        }
        let ghost before = combined@;
        combined.push(dots);
        proof {
            assert forall|x: int| 0 <= x < combined@.len() implies views(combined@)[x] == seq![
                '.',
                '.',
            ] by {
                if x < before.len() {
                    assert(combined@[x] == before[x]);
                    assert(views(before)[x] == seq!['.', '.']);
                }
            }
        }
        j = j + 1;
    }
    let tlen = target_parts.len();
    let ghost dots_count = rv.len() - k;
    let mut t: usize = k;
    while t < tlen
        invariant
            k <= t <= tlen == tv.len(),
            tv == views(target_parts@),
            target_parts@.len() == tv.len(),
            k <= rv.len(),
            dots_count == rv.len() - k,
            combined@.len() == dots_count + (t - k),
            forall|x: int| 0 <= x < dots_count ==> views(combined@)[x] == seq!['.', '.'],
            forall|x: int|
                dots_count <= x < combined@.len() ==> views(combined@)[x] == tv[k + (
                x - dots_count)],
        decreases tlen - t,
    {
        let mut piece: Vec<char> = Vec::new();
        extend_chars(&mut piece, &target_parts[t]);
        let ghost pv = piece@;
        let ghost before = combined@;
        proof {
            assert(pv =~= tv[t as int]);
        }
        combined.push(piece);
        proof {
            assert(combined@[before.len() as int] == combined@.last());
            assert(views(combined@)[before.len() as int] == pv);
            assert forall|x: int| 0 <= x < dots_count implies views(combined@)[x] == seq![
                '.',
                '.',
            ] by {
                assert(combined@[x] == before[x]);
                assert(views(before)[x] == seq!['.', '.']);
            }
            assert forall|x: int|
                dots_count <= x < combined@.len() implies views(combined@)[x] == tv[k + (
                x - dots_count)] by {
                if x < before.len() {
                    assert(combined@[x] == before[x]);
                    assert(views(before)[x] == tv[k + (x - dots_count)]);
                } else {
                    assert(views(combined@)[x] == pv);
                    assert(x - dots_count == t - k);
                }
            }
        }
        t = t + 1;
    }
    proof {
        let goal = Seq::new((rv.len() - k) as nat, |x: int| seq!['.', '.']) + tv.skip(k as int);
        assert forall|x: int| 0 <= x < combined@.len() implies views(combined@)[x] == goal[x] by {
            if x >= dots_count {
                assert(tv.skip(k as int)[x - dots_count] == tv[k + (x - dots_count)]);
            }
        }
        assert(views(combined@) =~= goal);
    }

    let mut path = join_chars(&combined, 0, '/');
    match &tp.1 {
        Some(q) => {
            let qc = string_to_chars(q.as_str());
            extend_chars(&mut path, &qc);
        },
        None => {},
    }
    match &tp.2 {
        Some(f) => {
            let fc = string_to_chars(f.as_str());
            extend_chars(&mut path, &fc);
        },
        None => {},
    }
    Some(path)
}

/// Whether two character vectors hold the same characters.
pub fn chars_equal(a: &Vec<char>, b: &Vec<char>) -> (r: bool)
    ensures
        r == (a@ == b@),
{
    let n = a.len();
    if n != b.len() {
        proof {
            assert(a@ != b@);
        }
        return false;
    }
    let mut i: usize = 0;
    while i < n
        invariant
            n == a@.len() == b@.len(),
            0 <= i <= n,
            forall|j: int| 0 <= j < i ==> a@[j] == b@[j],
        decreases n - i,
    {
        if a[i] != b[i] {
            return false;
        }
        i = i + 1;
    }
    proof {
        assert(a@ =~= b@);
    }
    true
}

/// The sequence without its first `n` characters; empty when it is shorter.
pub open spec fn skip_chars(s: Seq<char>, n: int) -> Seq<char> {
    if 0 <= n <= s.len() {
        s.skip(n)
    } else if n > s.len() {
        Seq::empty()
    } else {
        s
    }
}

/// Drops the first `n` characters.
fn skip_chars_exec(s: &Vec<char>, n: usize) -> (r: Vec<char>)
    ensures
        r@ == skip_chars(s@, n as int),
{
    let len = s.len();
    let from = if n < len {
        n
    } else {
        len
    };
    let r = sub_chars(s, from, len);
    proof {
        if n <= s@.len() {
            assert(r@ =~= s@.skip(n as int));
        } else {
            assert(r@ =~= Seq::<char>::empty());
        }
    }
    r
}

/// The last index at or before `i` holding a slash, or -1.
pub open spec fn last_slash_from(s: Seq<char>, i: int) -> int
    decreases i + 1,
{
    if i < 0 || i >= s.len() {
        -1
    } else if s[i] == '/' {
        i
    } else {
        last_slash_from(s, i - 1)
    }
}

/// Inputs longer than this are refused by the resolver: the safe parsing
/// base must count and concatenate them.
pub const MAX_URL_INPUT: usize = 0x7fff_0000;

/// The result stripped back to the shape of the input: an absolute input
/// keeps the whole resolved URL, a scheme-relative one loses the scheme, a
/// path-absolute one the scheme and host, and a relative one is made
/// relative to the base again.
pub open spec fn postprocess_spec(t: UrlType, base: Seq<char>, fixed: Seq<char>) -> Option<
    Seq<char>,
> {
    match t {
        UrlType::Absolute => Option::Some(fixed),
        UrlType::SchemeRelative => Option::Some(skip_chars(fixed, 5)),
        UrlType::PathAbsolute => Option::Some(skip_chars(fixed, 11)),
        UrlType::PathRelative => relative_url_spec(base, fixed),
    }
}

/// Strips the resolved URL back to the shape of the input.
fn postprocess(t: UrlType, base: &Vec<char>, fixed: &Vec<char>) -> (r: Option<Vec<char>>)
    ensures
        r is Some <==> postprocess_spec(t, base@, fixed@) is Some,
        r matches Some(v) ==> postprocess_spec(t, base@, fixed@) == Some(v@),
{
    match t {
        UrlType::Absolute => Some(sub_chars(fixed, 0, fixed.len())),
        UrlType::SchemeRelative => Some(skip_chars_exec(fixed, 5)),
        UrlType::PathAbsolute => Some(skip_chars_exec(fixed, 11)),
        UrlType::PathRelative => compute_relative_url(base, fixed),
    }
}

/// URL normalization: the string resolved against a safe base and stripped
/// back to its own shape; `None` on an unparsable or oversized input.
pub open spec fn normalize_spec(s: Seq<char>) -> Option<Seq<char>> {
    if s.len() > MAX_URL_INPUT {
        Option::None
    } else {
        let base = safe_base_spec(s);
        match url_join_spec(base, s) {
            Option::None => Option::None,
            Option::Some(j) => postprocess_spec(url_type_of(s), base, j),
        }
    }
}

/// Normalizes a URL string.
fn normalize(input: &Vec<char>) -> (r: Option<Vec<char>>)
    ensures
        r is Some <==> normalize_spec(input@) is Some,
        r matches Some(v) ==> normalize_spec(input@) == Some(v@),
{
    if input.len() > MAX_URL_INPUT {
        return None;
    }
    let t = get_url_type(input);
    let base = build_safe_base(input);
    let base_s = chars_to_string(&base);
    let input_s = chars_to_string(input);
    let joined = match url_join(base_s.as_str(), input_s.as_str()) {
        Some(j) => j,
        None => {
            return None;
        },
    };
    let jc = string_to_chars(joined.as_str());
    postprocess(t, &base, &jc)
}

/// Directory form: the string resolved and its path given a trailing slash,
/// stripped back to its own shape.
pub open spec fn ensure_directory_spec(s: Seq<char>) -> Option<Seq<char>> {
    if s.len() > MAX_URL_INPUT {
        Option::None
    } else {
        let base = safe_base_spec(s);
        match url_join_spec(base, s) {
            Option::None => Option::None,
            Option::Some(j) => match url_parts_spec(j) {
                Option::None => Option::None,
                Option::Some(p) => {
                    let np = if p.0.len() > 0 && p.0.last() == '/' {
                        p.0
                    } else {
                        p.0.push('/')
                    };
                    match url_set_path_spec(j, np) {
                        Option::None => Option::None,
                        Option::Some(fixed) => postprocess_spec(url_type_of(s), base, fixed),
                    }
                },
            },
        }
    }
}

/// Resolves a URL string and makes its path end in a slash.
fn ensure_directory(input: &Vec<char>) -> (r: Option<Vec<char>>)
    ensures
        r is Some <==> ensure_directory_spec(input@) is Some,
        r matches Some(v) ==> ensure_directory_spec(input@) == Some(v@),
{
    if input.len() > MAX_URL_INPUT {
        return None;
    }
    let t = get_url_type(input);
    let base = build_safe_base(input);
    let base_s = chars_to_string(&base);
    let input_s = chars_to_string(input);
    let joined = match url_join(base_s.as_str(), input_s.as_str()) {
        Some(j) => j,
        None => {
            return None;
        },
    };
    let parts = match url_parts(joined.as_str()) {
        Some(p) => p,
        None => {
            return None;
        },
    };
    let mut path = string_to_chars(parts.0.as_str());
    let plen = path.len();
    if !(plen > 0 && path[plen - 1] == '/') {
        path.push('/');
    }
    let path_s = chars_to_string(&path);
    let fixed = match url_set_path(joined.as_str(), path_s.as_str()) {
        Some(f) => f,
        None => {
            return None;
        },
    };
    let fc = string_to_chars(fixed.as_str());
    postprocess(t, &base, &fc)
}

/// Directory of a URL: the string resolved and its path cut after its last
/// slash, stripped back to its own shape.
pub open spec fn trim_filename_spec(s: Seq<char>) -> Option<Seq<char>> {
    if s.len() > MAX_URL_INPUT {
        Option::None
    } else {
        let base = safe_base_spec(s);
        match url_join_spec(base, s) {
            Option::None => Option::None,
            Option::Some(j) => match url_parts_spec(j) {
                Option::None => Option::None,
                Option::Some(p) => {
                    let np = p.0.subrange(0, last_slash_from(p.0, p.0.len() - 1) + 1);
                    match url_set_path_spec(j, np) {
                        Option::None => Option::None,
                        Option::Some(fixed) => postprocess_spec(url_type_of(s), base, fixed),
                    }
                },
            },
        }
    }
}

/// Resolves a URL string and cuts its path back to the directory holding
/// its last segment.
fn trim_filename(input: &Vec<char>) -> (r: Option<Vec<char>>)
    ensures
        r is Some <==> trim_filename_spec(input@) is Some,
        r matches Some(v) ==> trim_filename_spec(input@) == Some(v@),
{
    if input.len() > MAX_URL_INPUT {
        return None;
    }
    let t = get_url_type(input);
    let base = build_safe_base(input);
    let base_s = chars_to_string(&base);
    let input_s = chars_to_string(input);
    let joined = match url_join(base_s.as_str(), input_s.as_str()) {
        Some(j) => j,
        None => {
            return None;
        },
    };
    let parts = match url_parts(joined.as_str()) {
        Some(p) => p,
        None => {
            return None;
        },
    };
    let path = string_to_chars(parts.0.as_str());
    let n = path.len();
    let mut cut: usize = 0;
    let mut i: usize = n;
    loop
        invariant_except_break
            0 <= i <= n == path@.len(),
            last_slash_from(path@, path@.len() - 1) == last_slash_from(path@, i - 1),
        ensures
            cut <= n,
            cut == last_slash_from(path@, path@.len() - 1) + 1,
        decreases i,
    {
        if i == 0 {
            proof {
                assert(last_slash_from(path@, -1) == -1);
            }
            cut = 0;
            break ;
        }
        if path[i - 1] == '/' {
            cut = i;
            break ;
        }
        i = i - 1;
    }
    let np = sub_chars(&path, 0, cut);
    let np_s = chars_to_string(&np);
    let fixed = match url_set_path(joined.as_str(), np_s.as_str()) {
        Some(f) => f,
        None => {
            return None;
        },
    };
    let fc = string_to_chars(fixed.as_str());
    postprocess(t, &base, &fc)
}

/// Joining a path against a root: an absolute path stands alone, an
/// absolute root takes the path by URL resolution, and other shapes resolve
/// through a safe base and are stripped back to the root's shape.  The root
/// is first put in directory form.
pub open spec fn join_spec(root: Seq<char>, path: Seq<char>) -> Option<Seq<char>> {
    let pt = url_type_of(path);
    let rt = url_type_of(root);
    match ensure_directory_spec(root) {
        Option::None => Option::None,
        Option::Some(rootd) => {
            if pt == UrlType::Absolute {
                Option::Some(path)
            } else if rt == UrlType::Absolute {
                url_join_spec(rootd, path)
            } else if pt == UrlType::SchemeRelative {
                normalize_spec(path)
            } else if rt == UrlType::SchemeRelative {
                match url_join_spec(protocol_and_host(), rootd) {
                    Option::None => Option::None,
                    Option::Some(b) => match url_join_spec(b, path) {
                        Option::None => Option::None,
                        Option::Some(r) => Option::Some(skip_chars(r, 5)),
                    },
                }
            } else if pt == UrlType::PathAbsolute {
                normalize_spec(path)
            } else if rt == UrlType::PathAbsolute {
                match url_join_spec(protocol_and_host(), rootd) {
                    Option::None => Option::None,
                    Option::Some(b) => match url_join_spec(b, path) {
                        Option::None => Option::None,
                        Option::Some(r) => Option::Some(skip_chars(r, 11)),
                    },
                }
            } else {
                if path.len() + rootd.len() > MAX_URL_INPUT {
                    Option::None
                } else {
                    let base = safe_base_spec(path + rootd);
                    match url_join_spec(base, rootd) {
                        Option::None => Option::None,
                        Option::Some(b2) => match url_join_spec(b2, path) {
                            Option::None => Option::None,
                            Option::Some(np) => relative_url_spec(base, np),
                        },
                    }
                }
            }
        },
    }
}

/// Joins a path against a root URL or directory; `None` on unparsable or
/// oversized input.
pub fn join(root: &str, path: &str) -> (r: Option<String>)
    ensures
        r is Some <==> join_spec(root@, path@) is Some,
        r matches Some(v) ==> join_spec(root@, path@) == Some(v@),
{
    let root_c = string_to_chars(root);
    let path_c = string_to_chars(path);
    let pt = get_url_type(&path_c);
    let rt = get_url_type(&root_c);
    let rootd = match ensure_directory(&root_c) {
        Some(d) => d,
        None => {
            return None;
        },
    };
    let rootd_s = chars_to_string(&rootd);
    if pt == UrlType::Absolute {
        return Some(chars_to_string(&path_c));
    }
    if rt == UrlType::Absolute {
        return url_join(rootd_s.as_str(), path);
    }
    if pt == UrlType::SchemeRelative {
        let n = normalize(&path_c);
        return match n {
            Some(v) => Some(chars_to_string(&v)),
            None => None,
        };
    }
    if rt == UrlType::SchemeRelative {
        let phh = protocol_and_host_chars();
        let phh_s = chars_to_string(&phh);
        let b = match url_join(phh_s.as_str(), rootd_s.as_str()) {
            Some(b) => b,
            None => {
                return None;
            },
        };
        let joined = match url_join(b.as_str(), path) {
            Some(j) => j,
            None => {
                return None;
            },
        };
        let jc = string_to_chars(joined.as_str());
        let stripped = skip_chars_exec(&jc, 5);
        return Some(chars_to_string(&stripped));
    }
    if pt == UrlType::PathAbsolute {
        let n = normalize(&path_c);
        return match n {
            Some(v) => Some(chars_to_string(&v)),
            None => None,
        };
    }
    if rt == UrlType::PathAbsolute {
        let phh = protocol_and_host_chars();
        let phh_s = chars_to_string(&phh);
        let b = match url_join(phh_s.as_str(), rootd_s.as_str()) {
            Some(b) => b,
            None => {
                return None;
            },
        };
        let joined = match url_join(b.as_str(), path) {
            Some(j) => j,
            None => {
                return None;
            },
        };
        let jc = string_to_chars(joined.as_str());
        let stripped = skip_chars_exec(&jc, 11);
        return Some(chars_to_string(&stripped));
    }
    // Both path and root are relative: resolve through a safe base and
    // relativize against it.
    if rootd.len() > MAX_URL_INPUT || path_c.len() > MAX_URL_INPUT - rootd.len() {
        return None;
    }
    let mut concat = sub_chars(&path_c, 0, path_c.len());
    extend_chars(&mut concat, &rootd);
    proof {
        assert(concat@ =~= path@ + rootd@);
    }
    let base = build_safe_base(&concat);
    let base_s = chars_to_string(&base);
    let b2 = match url_join(base_s.as_str(), rootd_s.as_str()) {
        Some(b) => b,
        None => {
            return None;
        },
    };
    let np = match url_join(b2.as_str(), path) {
        Some(j) => j,
        None => {
            return None;
        },
    };
    let npc = string_to_chars(np.as_str());
    match compute_relative_url(&base, &npc) {
        Some(v) => Some(chars_to_string(&v)),
        None => None,
    }
}

/// Whether one URL can be written relative to another: both must have the
/// same shape and, once resolved, the same scheme, credentials, host and
/// port; then the relative path between them, else `None`.
pub open spec fn replace_if_possible_spec(root: Seq<char>, target: Seq<char>) -> Option<
    Seq<char>,
> {
    if url_type_of(root) != url_type_of(target) {
        Option::None
    } else if root.len() + target.len() > MAX_URL_INPUT {
        Option::None
    } else {
        let base = safe_base_spec(root + target);
        match (url_join_spec(base, root), url_join_spec(base, target)) {
            (Option::Some(ru), Option::Some(tu)) => match url_join_spec(tu, Seq::empty()) {
                Option::None => Option::None,
                Option::Some(_) => match (url_origin_spec(ru), url_origin_spec(tu)) {
                    (Option::Some(ro), Option::Some(to_)) => if ro == to_ {
                        relative_url_spec(root, target)
                    } else {
                        Option::None
                    },
                    _ => Option::None,
                },
            },
            _ => Option::None,
        }
    }
}

/// Tries to relativize `target` against `root` directly.
fn replace_if_possible(root: &Vec<char>, target: &Vec<char>) -> (r: Option<Vec<char>>)
    ensures
        r is Some <==> replace_if_possible_spec(root@, target@) is Some,
        r matches Some(v) ==> replace_if_possible_spec(root@, target@) == Some(v@),
{
    let rt = get_url_type(root);
    let tt = get_url_type(target);
    if rt != tt {
        return None;
    }
    if target.len() > MAX_URL_INPUT || root.len() > MAX_URL_INPUT - target.len() {
        return None;
    }
    let mut concat = sub_chars(root, 0, root.len());
    extend_chars(&mut concat, target);
    proof {
        assert(concat@ =~= root@ + target@);
    }
    let base = build_safe_base(&concat);
    let base_s = chars_to_string(&base);
    let root_s = chars_to_string(root);
    let target_s = chars_to_string(target);
    let ru = match url_join(base_s.as_str(), root_s.as_str()) {
        Some(u) => u,
        None => {
            return None;
        },
    };
    let tu = match url_join(base_s.as_str(), target_s.as_str()) {
        Some(u) => u,
        None => {
            return None;
        },
    };
    let empty = String::new();
    proof {
        assert(empty@ =~= Seq::<char>::empty());
    }
    if url_join(tu.as_str(), empty.as_str()).is_none() {
        return None;
    }
    let ro = match url_origin(ru.as_str()) {
        Some(o) => o,
        None => {
            return None;
        },
    };
    let to_ = match url_origin(tu.as_str()) {
        Some(o) => o,
        None => {
            return None;
        },
    };
    let same = compare_origin(&ro, &to_);
    if !same {
        proof {
            assert(url_origin_spec(ru@)->Some_0 != url_origin_spec(tu@)->Some_0);
        }
        return None;
    }
    proof {
        assert(url_origin_spec(ru@)->Some_0 == url_origin_spec(tu@)->Some_0);
    }
    compute_relative_url(root, target)
}

/// Whether two origin tuples are equal.
fn compare_origin(
    a: &(String, String, Option<String>, Option<String>, Option<u16>),
    b: &(String, String, Option<String>, Option<String>, Option<u16>),
) -> (r: bool)
    ensures
        r == ((a.0@, a.1@, view_opt(a.2), view_opt(a.3), a.4) == (
            b.0@,
            b.1@,
            view_opt(b.2),
            view_opt(b.3),
            b.4,
        )),
{
    let s0 = a.0.eq(&b.0);
    let s1 = a.1.eq(&b.1);
    let s2 = opt_string_equal(&a.2, &b.2);
    let s3 = opt_string_equal(&a.3, &b.3);
    let s4 = match (&a.4, &b.4) {
        (None, None) => true,
        (Some(x), Some(y)) => *x == *y,
        _ => false,
    };
    s0 && s1 && s2 && s3 && s4
}

/// Whether two optional strings are equal.
pub fn opt_string_equal(a: &Option<String>, b: &Option<String>) -> (r: bool)
    ensures
        r == (view_opt(*a) == view_opt(*b)),
{
    match (a, b) {
        (None, None) => true,
        (Some(x), Some(y)) => x.eq(y),
        _ => false,
    }
}

/// Relativizing a target against a root: the direct relative path when the
/// two share an origin, else the normalized target.
pub open spec fn relative_spec(root: Seq<char>, target: Seq<char>) -> Option<Seq<char>> {
    match replace_if_possible_spec(root, target) {
        Option::None => normalize_spec(target),
        Option::Some(r) => Option::Some(r),
    }
}

/// The path of `target` relative to `root`, or the normalized target when
/// no relative path exists; `None` on unparsable or oversized input.
pub fn relative(root: String, target: String) -> (r: Option<String>)
    ensures
        r is Some <==> relative_spec(root@, target@) is Some,
        r matches Some(v) ==> relative_spec(root@, target@) == Some(v@),
{
    let root_c = string_to_chars(root.as_str());
    let target_c = string_to_chars(target.as_str());
    match replace_if_possible(&root_c, &target_c) {
        Some(v) => Some(chars_to_string(&v)),
        None => match normalize(&target_c) {
            Some(v) => Some(chars_to_string(&v)),
            None => None,
        },
    }
}

/// A source entry resolved to its stable identifier: the entry (trimmed of
/// its leading slash when a root will absorb it) normalized, joined against
/// the root, then against the directory of the map's own URL.
pub open spec fn compute_source_url_spec(
    source_root: Option<Seq<char>>,
    source_url: Seq<char>,
    source_map_url: Option<Seq<char>>,
) -> Option<Seq<char>> {
    let u = if source_root is Some && url_type_of(source_url) == UrlType::PathAbsolute {
        skip_chars(source_url, 1)
    } else {
        source_url
    };
    match normalize_spec(u) {
        Option::None => Option::None,
        Option::Some(n0) => {
            let after_root = if source_root is Some {
                join_spec(source_root->Some_0, n0)
            } else {
                Option::Some(n0)
            };
            match after_root {
                Option::None => Option::None,
                Option::Some(v) => if source_map_url is Some {
                    match trim_filename_spec(source_map_url->Some_0) {
                        Option::None => Option::None,
                        Option::Some(t) => join_spec(t, v),
                    }
                } else {
                    Option::Some(v)
                },
            }
        },
    }
}

/// Resolves one `sources` entry against `sourceRoot` and the source map's
/// own URL, producing the identifier the consumer's source table keys on.
pub fn compute_source_url(
    source_root: Option<&str>,
    source_url: &str,
    source_map_url: Option<&str>,
) -> (r: Option<String>)
    ensures
        ({
            let spec_r = compute_source_url_spec(
                match source_root {
                    Option::Some(s) => Option::Some(s@),
                    Option::None => Option::None,
                },
                source_url@,
                match source_map_url {
                    Option::Some(s) => Option::Some(s@),
                    Option::None => Option::None,
                },
            );
            &&& r is Some <==> spec_r is Some
            &&& (r matches Some(v) ==> spec_r == Some(v@))
        }),
{
    let url_c = string_to_chars(source_url);
    let trimmed: Vec<char>;
    if source_root.is_some() {
        let t = get_url_type(&url_c);
        if t == UrlType::PathAbsolute {
            trimmed = skip_chars_exec(&url_c, 1);
        } else {
            trimmed = url_c;
        }
    } else {
        trimmed = url_c;
    }
    let n0 = match normalize(&trimmed) {
        Some(v) => v,
        None => {
            return None;
        },
    };
    let n0_s = chars_to_string(&n0);
    let after_root = match source_root {
        Some(root) => {
            match join(root, n0_s.as_str()) {
                Some(v) => v,
                None => {
                    return None;
                },
            }
        },
        None => n0_s,
    };
    match source_map_url {
        Some(mu) => {
            let mu_c = string_to_chars(mu);
            let t = match trim_filename(&mu_c) {
                Some(t) => t,
                None => {
                    return None;
                },
            };
            let t_s = chars_to_string(&t);
            join(t_s.as_str(), after_root.as_str())
        },
        None => Some(after_root),
    }
}

} // verus!
