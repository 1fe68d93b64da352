//! String helpers: building a string from ASCII bytes, and the byte-wise
//! lexicographic comparison that string sorting uses.

use vstd::prelude::*;
use vstd::string::StringSliceAdditionalSpecFns;

verus! {

/// Relies on `alloc::string::String::from_utf8`: a vector of ASCII bytes is
/// valid UTF-8 and becomes the string of exactly those characters.
#[verifier::external_body]
pub fn ascii_bytes_to_string(v: &Vec<u8>) -> (r: String)
    requires
        forall|i: int| 0 <= i < v@.len() ==> v@[i] < 128,
    ensures
        r@.len() == v@.len(),
        forall|i: int| 0 <= i < v@.len() ==> r@[i] == v@[i] as char,
{
    match String::from_utf8(v.clone()) {
        Ok(s) => s,
        Err(_) => String::new(),
    }
}

/// Lexicographic comparison of two byte sequences: -1, 0 or 1.
pub open spec fn bytes_cmp(x: Seq<u8>, y: Seq<u8>) -> int
    decreases x.len(),
{
    if x.len() == 0 && y.len() == 0 {
        0
    } else if x.len() == 0 {
        -1
    } else if y.len() == 0 {
        1
    } else if x[0] < y[0] {
        -1
    } else if x[0] > y[0] {
        1
    } else {
        bytes_cmp(x.drop_first(), y.drop_first())
    }
}

/// The comparison of the byte forms of two strings, which is the order Rust
/// itself sorts strings in.
pub open spec fn str_cmp(x: Seq<char>, y: Seq<char>) -> int {
    bytes_cmp(vstd::utf8::encode_utf8(x), vstd::utf8::encode_utf8(y))
}

/// The comparison returns one of three values.
pub proof fn lemma_bytes_cmp_range(x: Seq<u8>, y: Seq<u8>)
    ensures
        -1 <= bytes_cmp(x, y) <= 1,
    decreases x.len(),
{
    if x.len() > 0 && y.len() > 0 && x[0] == y[0] {
        lemma_bytes_cmp_range(x.drop_first(), y.drop_first());
    }
}

/// Two byte sequences compare equal exactly when they are equal.
pub proof fn lemma_bytes_cmp_eq(x: Seq<u8>, y: Seq<u8>)
    ensures
        bytes_cmp(x, y) == 0 <==> x == y,
    decreases x.len(),
{
    if x.len() > 0 && y.len() > 0 && x[0] == y[0] {
        lemma_bytes_cmp_eq(x.drop_first(), y.drop_first());
        if bytes_cmp(x, y) == 0 {
            assert(x =~= seq![x[0]] + x.drop_first());
            assert(y =~= seq![y[0]] + y.drop_first());
        }
    } else if x.len() == 0 && y.len() == 0 {
        assert(x =~= y);
    }
}

/// Swapping the arguments flips the sign.
pub proof fn lemma_bytes_cmp_antisym(x: Seq<u8>, y: Seq<u8>)
    ensures
        bytes_cmp(x, y) == -bytes_cmp(y, x),
    decreases x.len(),
{
    if x.len() > 0 && y.len() > 0 && x[0] == y[0] {
        lemma_bytes_cmp_antisym(x.drop_first(), y.drop_first());
    }
}

/// The comparison is transitive.
pub proof fn lemma_bytes_cmp_trans(x: Seq<u8>, y: Seq<u8>, z: Seq<u8>)
    requires
        bytes_cmp(x, y) <= 0,
        bytes_cmp(y, z) <= 0,
    ensures
        bytes_cmp(x, z) <= 0,
    decreases x.len(),
{
    if x.len() > 0 && y.len() > 0 && z.len() > 0 && x[0] == y[0] && y[0] == z[0] {
        lemma_bytes_cmp_trans(x.drop_first(), y.drop_first(), z.drop_first());
    }
}

/// When the first is no greater than the second and the second strictly less
/// than the third, the first is strictly less than the third.
pub proof fn lemma_bytes_cmp_trans_strict(x: Seq<u8>, y: Seq<u8>, z: Seq<u8>)
    requires
        bytes_cmp(x, y) <= 0,
        bytes_cmp(y, z) < 0,
    ensures
        bytes_cmp(x, z) < 0,
    decreases x.len(),
{
    lemma_bytes_cmp_range(x, y);
    lemma_bytes_cmp_range(y, z);
    if x.len() > 0 && y.len() > 0 && z.len() > 0 && x[0] == y[0] && y[0] == z[0] {
        lemma_bytes_cmp_trans_strict(x.drop_first(), y.drop_first(), z.drop_first());
    }
}

/// Compares two strings byte-wise, the order `str` comparison uses.
pub fn compare_str(a: &str, b: &str) -> (r: i32)
    ensures
        r == bytes_cmp(a.spec_bytes(), b.spec_bytes()),
        r == str_cmp(a@, b@),
{
    let x = a.as_bytes_vec();
    let y = b.as_bytes_vec();
    let mut i: usize = 0;
    proof {
        assert(x@.skip(0) =~= x@);
        assert(y@.skip(0) =~= y@);
    }
    loop
        invariant
            i <= x@.len(),
            i <= y@.len(),
            x@ == a.spec_bytes(),
            y@ == b.spec_bytes(),
            x@.subrange(0, i as int) =~= y@.subrange(0, i as int),
            bytes_cmp(x@, y@) == bytes_cmp(x@.skip(i as int), y@.skip(i as int)),
        decreases x@.len() - i,
    {
        let ghost xs = x@.skip(i as int);
        let ghost ys = y@.skip(i as int);
        if i >= x.len() && i >= y.len() {
            return 0;
        }
        if i >= x.len() {
            return -1;
        }
        if i >= y.len() {
            return 1;
        }
        let xb = x[i];
        let yb = y[i];
        assert(xs[0] == x@[i as int] && ys[0] == y@[i as int]);
        if xb < yb {
            return -1;
        }
        if xb > yb {
            return 1;
        }
        proof {
            assert(xs.drop_first() =~= x@.skip(i as int + 1));
            assert(ys.drop_first() =~= y@.skip(i as int + 1));
            assert(x@.subrange(0, i as int + 1) =~= y@.subrange(0, i as int + 1));
        }
        i = i + 1;
    }
}

/// Compares two strings given by value.
pub fn compare_string(a: &String, b: &String) -> (r: i32)
    ensures
        r == str_cmp(a@, b@),
{
    compare_str(a.as_str(), b.as_str())
}

} // verus!
