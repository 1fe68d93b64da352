//! The base64 variable-length-quantity codec: a signed integer is stored
//! sign-bit-first (bit 0 of the unsigned form carries the sign), five data
//! bits per base64 digit, with the continuation bit (value 32) set on every
//! digit but the last.

use vstd::prelude::*;
use vstd::arithmetic::power2::pow2;
use crate::base64;
use crate::base64::{base64_byte_of, base64_value_of, is_base64_byte};
use crate::errors::DecodeError;

verus! {

/// The unsigned form of a value: the magnitude shifted left once, with the
/// sign in the lowest bit.
pub open spec fn vlq_unsigned(v: int) -> nat {
    if v < 0 {
        (1 - 2 * v) as nat
    } else {
        (2 * v) as nat
    }
}

/// The signed value of an unsigned form.
pub open spec fn vlq_signed(u: nat) -> int {
    if u % 2 == 1 {
        -((u / 2) as int)
    } else {
        (u / 2) as int
    }
}

/// The digits of an unsigned form, low five bits first, continuation bit set
/// on all but the last digit.
pub open spec fn vlq_digit_bytes(u: nat) -> Seq<u8>
    decreases u,
{
    if u < 32 {
        seq![base64_byte_of(u as int)]
    } else {
        seq![base64_byte_of(32 + (u % 32) as int)] + vlq_digit_bytes(u / 32)
    }
}

/// The encoding of a signed value.
pub open spec fn vlq_encode_bytes(v: int) -> Seq<u8> {
    vlq_digit_bytes(vlq_unsigned(v))
}

/// Parsing one VLQ starting at `i`, with `acc` already accumulated below the
/// next `shift` bits: the decoded value and the position after its last
/// digit, or `None` on a byte outside the alphabet, a truncated quantity, or
/// an unsigned form that overflows the 32-bit range.
pub open spec fn parse_vlq_rec(s: Seq<u8>, i: int, acc: nat, shift: nat) -> Option<(int, int)>
    decreases s.len() - i,
{
    if i < 0 || i >= s.len() {
        None
    } else if !is_base64_byte(s[i]) {
        None
    } else {
        let d = base64_value_of(s[i]) as nat;
        let acc2 = acc + (d % 32) * pow2(shift);
        if acc2 > u32::MAX as nat {
            None
        } else if d >= 32 {
            parse_vlq_rec(s, i + 1, acc2, shift + 5)
        } else {
            Some((vlq_signed(acc2), i + 1))
        }
    }
}

/// Parsing one VLQ starting at `i`.
pub open spec fn parse_vlq(s: Seq<u8>, i: int) -> Option<(int, int)> {
    parse_vlq_rec(s, i, 0, 0)
}

/// A parsed value lies strictly inside the 32-bit signed range, and parsing
/// consumed at least one byte and stopped inside the stream.
pub proof fn lemma_parse_vlq_range(s: Seq<u8>, i: int, acc: nat, shift: nat)
    requires
        parse_vlq_rec(s, i, acc, shift) is Some,
    ensures
        ({
            let (v, n) = parse_vlq_rec(s, i, acc, shift)->Some_0;
            -0x8000_0000 < v < 0x8000_0000 && i < n <= s.len()
        }),
    decreases s.len() - i,
{
    let d = base64_value_of(s[i]) as nat;
    let acc2 = acc + (d % 32) * pow2(shift);
    if d >= 32 {
        lemma_parse_vlq_range(s, i + 1, acc2, shift + 5);
    }
}

/// Appends the encoding of `value`.
pub fn encode_into(value: i32, out: &mut Vec<u8>)
    ensures
        final(out)@ == old(out)@ + vlq_encode_bytes(value as int),
{
    let mut u: u64 = if value < 0 {
        2 * ((-(value as i64)) as u64) + 1
    } else {
        2 * (value as u64)
    };
    let ghost u0: nat = u as nat;
    assert(u0 == vlq_unsigned(value as int));
    while u >= 32
        invariant
            out@ + vlq_digit_bytes(u as nat) == old(out)@ + vlq_digit_bytes(u0),
        decreases u,
    {
        let d = (u % 32) as u8;
        let ghost prev = u as nat;
        out.push(base64::encode_byte(32 + d));
        u = u / 32;
        assert(vlq_digit_bytes(prev) == seq![base64_byte_of(32 + (prev % 32) as int)] + vlq_digit_bytes(prev / 32));
        assert(out@ + vlq_digit_bytes(u as nat) == old(out)@ + vlq_digit_bytes(u0));
    }
    out.push(base64::encode_byte(u as u8));
    assert(vlq_digit_bytes(u as nat) == seq![base64_byte_of(u as int)]);
    assert(out@ == old(out)@ + vlq_digit_bytes(u0));
}

/// The encoding of a signed value as a string of base64 digits.
pub fn encode(value: i32) -> (r: String)
    ensures
        r@.len() == vlq_encode_bytes(value as int).len(),
        forall|i: int|
            0 <= i < r@.len() ==> r@[i] == vlq_encode_bytes(value as int)[i] as char,
{
    let mut out: Vec<u8> = Vec::new();
    encode_into(value, &mut out);
    proof {
        assert forall|i: int| 0 <= i < out@.len() implies out@[i] < 128 by {
            lemma_digit_bytes_are_base64(vlq_unsigned(value as int));
        }
    }
    crate::strings::ascii_bytes_to_string(&out)
}

/// Every byte of an encoded quantity belongs to the alphabet.
pub proof fn lemma_digit_bytes_are_base64(u: nat)
    ensures
        forall|i: int|
            0 <= i < vlq_digit_bytes(u).len() ==> is_base64_byte(#[trigger] vlq_digit_bytes(u)[i]),
    decreases u,
{
    if u < 32 {
        assert(is_base64_byte(vlq_digit_bytes(u)[0]));
    } else {
        lemma_digit_bytes_are_base64(u / 32);
        let s = vlq_digit_bytes(u);
        let rest = vlq_digit_bytes(u / 32);
        assert(s == seq![base64_byte_of(32 + (u % 32) as int)] + rest);
        assert forall|i: int| 0 <= i < s.len() implies is_base64_byte(#[trigger] s[i]) by {
            if i > 0 {
                assert(s[i] == rest[i - 1]);
            }
        }
    }
}

/// Parsing the digits of an unsigned form adds that form, scaled by the
/// current shift, to the accumulator.
proof fn lemma_parse_digit_bytes(s: Seq<u8>, i: int, u: nat, acc: nat, shift: nat)
    requires
        acc + u * pow2(shift) <= u32::MAX,
        0 <= i,
        i + vlq_digit_bytes(u).len() <= s.len(),
        s.subrange(i, i + vlq_digit_bytes(u).len() as int) == vlq_digit_bytes(u),
    ensures
        parse_vlq_rec(s, i, acc, shift) == Some(
            (vlq_signed((acc + u * pow2(shift)) as nat), i + vlq_digit_bytes(u).len()),
        ),
    decreases u,
{
    vstd::arithmetic::power2::lemma_pow2_pos(shift);
    let ds = vlq_digit_bytes(u);
    assert(s[i] == ds[0]);
    if u < 32 {
        base64::lemma_base64_byte_roundtrip(u as int);
        assert(base64_value_of(s[i]) == u);
        vstd::arithmetic::mul::lemma_mul_basics(u as int);
        assert(u * pow2(shift) >= u * 1) by (nonlinear_arith)
            requires
                pow2(shift) >= 1,
                u >= 0,
        ;
        assert((u as int) % 32 == u as int);
    } else {
        base64::lemma_base64_byte_roundtrip(32 + (u % 32) as int);
        assert(base64_value_of(s[i]) == 32 + (u % 32) as int);
        let d = base64_value_of(s[i]) as nat;
        assert(d % 32 == u % 32);
        let acc2 = acc + (u % 32) * pow2(shift);
        vstd::arithmetic::power2::lemma_pow2_adds(shift, 5);
        vstd::arithmetic::power2::lemma2_to64();
        assert(pow2(shift + 5) == pow2(shift) * 32);
        assert((u % 32) * pow2(shift) + (u / 32) * (pow2(shift) * 32) == u * pow2(shift))
            by (nonlinear_arith)
            requires
                pow2(shift) > 0,
                u >= 32,
        ;
        let rest = vlq_digit_bytes(u / 32);
        assert(ds == seq![base64_byte_of(32 + (u % 32) as int)] + rest);
        assert(s.subrange(i + 1, i + 1 + rest.len() as int) =~= rest) by {
            assert forall|k: int| 0 <= k < rest.len() implies s[i + 1 + k] == rest[k] by {
                assert(s[i + 1 + k] == ds[1 + k]);
            }
        }
        lemma_parse_digit_bytes(s, i + 1, u / 32, acc2, shift + 5);
    }
}

/// Round trip: parsing an encoded value out of any stream that holds its
/// digits yields the value back and stops right after its last digit.
pub proof fn lemma_vlq_roundtrip(s: Seq<u8>, i: int, v: int)
    requires
        -0x8000_0000 < v < 0x8000_0000,
        0 <= i,
        i + vlq_encode_bytes(v).len() <= s.len(),
        s.subrange(i, i + vlq_encode_bytes(v).len() as int) == vlq_encode_bytes(v),
    ensures
        parse_vlq(s, i) == Some((v, i + vlq_encode_bytes(v).len())),
{
    let u = vlq_unsigned(v);
    vstd::arithmetic::power2::lemma2_to64();
    assert(pow2(0) == 1);
    vstd::arithmetic::mul::lemma_mul_basics(u as int);
    assert(u * pow2(0) == u);
    lemma_parse_digit_bytes(s, i, u, 0, 0);
    assert(vlq_signed(u) == v);
}

/// A quantity that parses reads only alphabet bytes.
pub proof fn lemma_parse_vlq_covers(s: Seq<u8>, i: int, acc: nat, shift: nat)
    requires
        parse_vlq_rec(s, i, acc, shift) is Some,
    ensures
        forall|j: int|
            i <= j < parse_vlq_rec(s, i, acc, shift)->Some_0.1 ==> is_base64_byte(
                #[trigger] s[j],
            ),
    decreases s.len() - i,
{
    let d = base64_value_of(s[i]) as nat;
    let acc2 = acc + (d % 32) * pow2(shift);
    if d >= 32 {
        lemma_parse_vlq_covers(s, i + 1, acc2, shift + 5);
        lemma_parse_vlq_range(s, i + 1, acc2, shift + 5);
    }
}

/// Decodes one VLQ starting at `start`: the value and the number of bytes up
/// to and including its last digit, exactly as `parse_vlq` reads the stream.
pub fn decode(bytes: &Vec<u8>, start: usize) -> (r: Result<(i32, usize), DecodeError>)
    requires
        start <= bytes@.len(),
    ensures
        match parse_vlq(bytes@, start as int) {
            Some(p) => r == Ok::<(i32, usize), DecodeError>((p.0 as i32, p.1 as usize)),
            None => r == Err::<(i32, usize), DecodeError>(DecodeError::InvalidVlq),
        },
{
    let mut acc: u64 = 0;
    let mut shift_small: u32 = 0;
    let ghost mut shift: nat = 0nat;
    let mut pos: usize = start;
    loop
        invariant
            start <= pos <= bytes@.len(),
            acc <= u32::MAX,
            shift <= 31 ==> shift_small == shift,
            shift > 31 ==> shift_small == 32,
            parse_vlq_rec(bytes@, start as int, 0, 0) == parse_vlq_rec(
                bytes@,
                pos as int,
                acc as nat,
                shift,
            ),
        decreases bytes@.len() - pos,
    {
        if pos >= bytes.len() {
            return Err(DecodeError::InvalidVlq);
        }
        let b = bytes[pos];
        let d = match base64::decode_byte(b) {
            Some(d) => d,
            None => {
                return Err(DecodeError::InvalidVlq);
            },
        };
        let low: u8 = d % 32;
        proof {
            assert(d as nat % 32 == low as nat);
        }
        let add_ok: bool;
        let mut acc2: u64 = acc;
        if low == 0 {
            add_ok = true;
        } else if shift_small > 31 {
            add_ok = false;
        } else {
            proof {
                vstd::arithmetic::power2::lemma_pow2_pos(shift);
                lemma_pow2_le_u32(shift);
            }
            let add: u64 = (low as u64) << shift_small;
            proof {
                lemma_shl_is_mul_pow2(low, shift_small);
                assert((low as nat) * pow2(shift) <= 32 * 0x8000_0000) by (nonlinear_arith)
                    requires
                        low < 32,
                        pow2(shift) <= 0x8000_0000,
                ;
            }
            acc2 = acc + add;
            add_ok = acc2 <= u32::MAX as u64;
        }
        proof {
            if shift > 31 && low > 0 {
                vstd::arithmetic::power2::lemma2_to64();
                if shift > 32 {
                    vstd::arithmetic::power2::lemma_pow2_strictly_increases(32, shift);
                }
                assert(pow2(shift) >= 0x1_0000_0000);
                assert((low as nat) * pow2(shift) >= pow2(shift)) by (nonlinear_arith)
                    requires
                        low >= 1,
                        pow2(shift) > 0,
                ;
                assert(acc as nat + (low as nat % 32) * pow2(shift) > u32::MAX as nat);
            }
        }
        if !add_ok {
            return Err(DecodeError::InvalidVlq);
        }
        pos = pos + 1;
        if d < 32 {
            let u: u64 = acc2;
            let mag: u64 = u / 2;
            let v: i32 = if u % 2 == 1 {
                -((mag as u32) as i64) as i32
            } else {
                (mag as u32) as i32
            };
            return Ok((v, pos));
        }
        acc = acc2;
        proof {
            shift = shift + 5;
        }
        if shift_small <= 31 {
            shift_small = shift_small + 5;
            if shift_small > 31 {
                shift_small = 32;
            }
        }
    }
}

/// For shifts past the 32-bit range, two to the shift exceeds the range.
proof fn lemma_pow2_le_u32(shift: nat)
    requires
        shift <= 31,
    ensures
        pow2(shift) <= 0x8000_0000,
{
    vstd::arithmetic::power2::lemma2_to64();
    if shift < 31 {
        vstd::arithmetic::power2::lemma_pow2_strictly_increases(shift, 31);
    }
}

/// A left shift of a small value by a small amount is multiplication by a
/// power of two.
proof fn lemma_shl_is_mul_pow2(low: u8, shift: u32)
    requires
        low < 32,
        shift <= 31,
    ensures
        (low as u64) << shift == (low as nat) * pow2(shift as nat),
{
    let l = low as u64;
    let s = shift as u64;
    assert((l << s) == l * (1u64 << s)) by (bit_vector)
        requires
            l < 32,
            s <= 31,
    ;
    assert((1u64 << s) == pow2(s as nat)) by {
        vstd::bits::lemma_u64_pow2_no_overflow(s as nat);
        vstd::bits::lemma_u64_shl_is_mul(1u64, s);
    }
    assert(l * (1u64 << s) == (low as nat) * pow2(shift as nat));
}

} // verus!
