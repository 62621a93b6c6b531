//! Text encodings: hexadecimal, ROT13 and Caesar shifts, Base32.
use vstd::prelude::*;

use crate::chars::{chars_of, string_of};
use vstd::string::StringSliceAdditionalSpecFns;

verus! {

/// `c` shifted by `k` places within its ASCII alphabet; other characters
/// are unchanged.
pub open spec fn shift_char(c: char, k: int) -> char {
    if 'a' <= c <= 'z' {
        (((c as int - 97 + k) % 26) + 97) as u8 as char
    } else if 'A' <= c <= 'Z' {
        (((c as int - 65 + k) % 26) + 65) as u8 as char
    } else {
        c
    }
}

fn shift_char_exec(c: char, k: u8) -> (r: char)
    requires
        k < 26,
    ensures
        r == shift_char(c, k as int),
{
    if 'a' <= c && c <= 'z' {
        (((c as u8 - 97u8 + k) % 26) + 97u8) as char
    } else if 'A' <= c && c <= 'Z' {
        (((c as u8 - 65u8 + k) % 26) + 65u8) as char
    } else {
        c
    }
}

fn shift_str(s: &str, k: u8) -> (r: String)
    requires
        k < 26,
    ensures
        r@ == s@.map_values(|c: char| shift_char(c, k as int)),
{
    let cs = chars_of(s);
    let mut out: Vec<char> = Vec::new();
    let mut i: usize = 0;
    while i < cs.len()
        invariant
            k < 26,
            cs@ == s@,
            i <= cs@.len(),
            out@ == cs@.subrange(0, i as int).map_values(|c: char| shift_char(c, k as int)),
        decreases cs@.len() - i,
    {
        out.push(shift_char_exec(cs[i], k));
        proof {
            assert(cs@.subrange(0, i as int + 1) == cs@.subrange(0, i as int).push(cs@[i as int]));
        }
        i = i + 1;
    }
    proof {
        assert(cs@.subrange(0, cs@.len() as int) == cs@);
    }
    string_of(&out)
}

/// ROT13: each ASCII letter moved 13 places, others kept.
pub fn rot13(s: &str) -> (r: String)
    ensures
        r@ == s@.map_values(|c: char| shift_char(c, 13)),
{
    shift_str(s, 13)
}

/// Caesar cipher: each ASCII letter moved `shift` places (modulo 26, also
/// for negative shifts), others kept.
pub fn caesar_cipher(s: &str, shift: i8) -> (r: String)
    ensures
        r@ == s@.map_values(|c: char| shift_char(c, (shift as int) % 26)),
{
    let m = shift % 26;
    let k: u8 = if m < 0 {
        (m + 26) as u8
    } else {
        m as u8
    };
    proof {
        assert(k as int == (shift as int) % 26);
    }
    shift_str(s, k)
}

/// Lower-case hexadecimal digit of `v < 16`.
pub open spec fn hex_digit(v: int) -> char {
    if v < 10 {
        (v + 48) as u8 as char
    } else {
        (v - 10 + 97) as u8 as char
    }
}

/// Two lower-case hexadecimal digits per byte.
pub open spec fn hex_spec(b: Seq<u8>) -> Seq<char>
    decreases b.len(),
{
    if b.len() == 0 {
        Seq::empty()
    } else {
        hex_spec(b.drop_last()).push(hex_digit(b.last() as int / 16)).push(
            hex_digit(b.last() as int % 16),
        )
    }
}

fn hex_digit_exec(v: u8) -> (r: char)
    requires
        v < 16,
    ensures
        r == hex_digit(v as int),
{
    if v < 10 {
        (v + 48u8) as char
    } else {
        (v - 10 + 97u8) as char
    }
}

/// Lower-case hexadecimal text of `bytes`.
pub fn hex_encode(bytes: &[u8]) -> (r: String)
    ensures
        r@ == hex_spec(bytes@),
{
    let mut out: Vec<char> = Vec::new();
    let mut i: usize = 0;
    while i < bytes.len()
        invariant
            i <= bytes@.len(),
            out@ == hex_spec(bytes@.subrange(0, i as int)),
        decreases bytes@.len() - i,
    {
        proof {
            assert(bytes@.subrange(0, i as int + 1).drop_last() == bytes@.subrange(0, i as int));
        }
        let b = bytes[i];
        out.push(hex_digit_exec(b / 16));
        out.push(hex_digit_exec(b % 16));
        i = i + 1;
    }
    proof {
        assert(bytes@.subrange(0, bytes@.len() as int) == bytes@);
    }
    string_of(&out)
}

/// Value of a hexadecimal digit, either case.
pub open spec fn hex_value(c: char) -> Option<u8> {
    if '0' <= c <= '9' {
        Some((c as int - 48) as u8)
    } else if 'a' <= c <= 'f' {
        Some((c as int - 97 + 10) as u8)
    } else if 'A' <= c <= 'F' {
        Some((c as int - 65 + 10) as u8)
    } else {
        None
    }
}

fn hex_value_exec(c: char) -> (r: Option<u8>)
    ensures
        r == hex_value(c),
{
    if '0' <= c && c <= '9' {
        Some(c as u8 - 48u8)
    } else if 'a' <= c && c <= 'f' {
        Some(c as u8 - 97u8 + 10)
    } else if 'A' <= c && c <= 'F' {
        Some(c as u8 - 65u8 + 10)
    } else {
        None
    }
}

/// Whether every character of `s` is a hexadecimal digit.
pub open spec fn all_hex(s: Seq<char>) -> bool {
    forall|i: int| 0 <= i < s.len() ==> (#[trigger] hex_value(s[i])) is Some
}

/// The bytes of hexadecimal text, two digits each.
pub open spec fn unhex_spec(s: Seq<char>) -> Seq<u8>
    decreases s.len(),
{
    if s.len() < 2 {
        Seq::empty()
    } else {
        let p = s.subrange(0, s.len() - 2);
        unhex_spec(p).push(
            (hex_value(s[s.len() - 2])->Some_0 * 16 + hex_value(s[s.len() - 1])->Some_0) as u8,
        )
    }
}

/// The bytes written by hexadecimal text of even length, or `None` when
/// the length is odd or a character is not a hexadecimal digit.
pub fn hex_decode(s: &str) -> (r: Option<Vec<u8>>)
    ensures
        r is Some <==> (s@.len() % 2 == 0 && all_hex(s@)),
        r is Some ==> r->Some_0@ == unhex_spec(s@),
{
    let cs = chars_of(s);
    if cs.len() % 2 != 0 {
        return None;
    }
    let mut out: Vec<u8> = Vec::new();
    let mut i: usize = 0;
    while i < cs.len()
        invariant
            cs@ == s@,
            cs@.len() % 2 == 0,
            i % 2 == 0,
            i <= cs@.len(),
            all_hex(cs@.subrange(0, i as int)),
            out@ == unhex_spec(cs@.subrange(0, i as int)),
        decreases cs@.len() - i,
    {
        let hi = hex_value_exec(cs[i]);
        let lo = hex_value_exec(cs[i + 1]);
        match (hi, lo) {
            (Some(h), Some(l)) => {
                proof {
                    let p = cs@.subrange(0, i as int + 2);
                    assert(p.subrange(0, p.len() - 2) == cs@.subrange(0, i as int));
                    assert(p[p.len() - 2] == cs@[i as int]);
                    assert(p[p.len() - 1] == cs@[i + 1]);
                    assert forall|j: int| 0 <= j < p.len() implies (#[trigger] hex_value(p[j])) is Some by {
                        if j < i {
                            assert(p[j] == cs@.subrange(0, i as int)[j]);
                        }
                    }
                }
                out.push(h * 16 + l);
                i = i + 2;
            },
            _ => {
                proof {
                    if hi is None {
                        assert(hex_value(s@[i as int]) is None);
                    } else {
                        assert(hex_value(s@[i + 1]) is None);
                    }
                }
                return None;
            },
        }
    }
    proof {
        assert(cs@.subrange(0, cs@.len() as int) == cs@);
    }
    Some(out)
}

/// The Base32 alphabet (RFC 4648).
pub open spec fn b32_alphabet() -> Seq<char> {
    seq![
        'A', 'B', 'C', 'D', 'E', 'F', 'G', 'H', 'I', 'J', 'K', 'L', 'M', 'N', 'O', 'P', 'Q', 'R',
        'S', 'T', 'U', 'V', 'W', 'X', 'Y', 'Z', '2', '3', '4', '5', '6', '7',
    ]
}

/// Byte `i` of `b` as a `u64`, zero past the end.
pub open spec fn byte_at(b: Seq<u8>, i: int) -> u64 {
    if 0 <= i < b.len() {
        b[i] as u64
    } else {
        0
    }
}

/// The 40-bit big-endian value of bytes `5g` to `5g + 4` of `b` (missing
/// bytes read as zero).
pub open spec fn group40(b: Seq<u8>, g: int) -> u64 {
    (byte_at(b, 5 * g) << 32u64) | (byte_at(b, 5 * g + 1) << 24u64) | (byte_at(b, 5 * g + 2)
        << 16u64) | (byte_at(b, 5 * g + 3) << 8u64) | byte_at(b, 5 * g + 4)
}

/// Alphabet index of Base32 character `k` of `b`: bits `5k` to `5k + 4`.
pub open spec fn b32_index(b: Seq<u8>, k: int) -> u64 {
    (group40(b, k / 8) >> (35 - 5 * (k % 8)) as u64) & 31u64
}

fn byte_at_exec(b: &[u8], i: usize) -> (r: u64)
    ensures
        r == byte_at(b@, i as int),
{
    if i < b.len() {
        b[i] as u64
    } else {
        0
    }
}

fn group40_exec(b: &[u8], g: usize) -> (r: u64)
    requires
        5 * g + 4 <= usize::MAX,
    ensures
        r == group40(b@, g as int),
{
    let i = 5 * g;
    (byte_at_exec(b, i) << 32u64) | (byte_at_exec(b, i + 1) << 24u64) | (byte_at_exec(b, i + 2)
        << 16u64) | (byte_at_exec(b, i + 3) << 8u64) | byte_at_exec(b, i + 4)
}

/// Base32 (RFC 4648 alphabet, no padding) of `bytes`: each character
/// stands for the next five bits, the last group filled with zero bits.
pub fn base32_encode(bytes: &[u8]) -> (r: String)
    requires
        bytes@.len() <= usize::MAX / 8,
    ensures
        r@.len() == (8 * bytes@.len() + 4) / 5,
        forall|k: int| 0 <= k < r@.len() ==> #[trigger] r@[k] == b32_alphabet()[b32_index(bytes@, k) as int],
{
    let alphabet = vec![
        'A', 'B', 'C', 'D', 'E', 'F', 'G', 'H', 'I', 'J', 'K', 'L', 'M', 'N', 'O', 'P', 'Q', 'R',
        'S', 'T', 'U', 'V', 'W', 'X', 'Y', 'Z', '2', '3', '4', '5', '6', '7',
    ];
    proof {
        assert(alphabet@ == b32_alphabet());
    }
    let n = bytes.len();
    let out_len = (8 * n + 4) / 5;
    let mut out: Vec<char> = Vec::new();
    let mut k: usize = 0;
    while k < out_len
        invariant
            alphabet@ == b32_alphabet(),
            n == bytes@.len(),
            n <= usize::MAX / 8,
            out_len == (8 * n + 4) / 5,
            k <= out_len,
            out@.len() == k,
            forall|j: int| 0 <= j < k ==> #[trigger] out@[j] == b32_alphabet()[b32_index(bytes@, j) as int],
        decreases out_len - k,
    {
        let g = k / 8;
        let grp = group40_exec(bytes, g);
        let sh = (35 - 5 * (k % 8)) as u64;
        let idx = (grp >> sh) & 31u64;
        proof {
            assert(((grp >> sh) & 31u64) < 32u64) by (bit_vector);
        }
        out.push(alphabet[idx as usize]);
        k = k + 1;
    }
    string_of(&out)
}

/// Value of a Base32 character byte (either case), `None` for others.
pub open spec fn b32_value(c: u8) -> Option<u8> {
    if 65 <= c <= 90 {
        Some((c - 65) as u8)
    } else if 50 <= c <= 55 {
        Some((26 + (c - 50)) as u8)
    } else if 97 <= c <= 122 {
        Some((c - 97) as u8)
    } else {
        None
    }
}

/// Values of the Base32 characters of `s`, others skipped.
pub open spec fn b32_values(s: Seq<u8>) -> Seq<u8>
    decreases s.len(),
{
    if s.len() == 0 {
        Seq::empty()
    } else {
        match b32_value(s.last()) {
            Some(v) => b32_values(s.drop_last()).push(v),
            None => b32_values(s.drop_last()),
        }
    }
}

/// Value `i` of `v` as a `u64`, zero past the end.
pub open spec fn val_at(v: Seq<u8>, i: int) -> u64 {
    if 0 <= i < v.len() {
        v[i] as u64
    } else {
        0
    }
}

/// The 40 bits of values `8g` to `8g + 7` of `v`, five bits each.
pub open spec fn vgroup40(v: Seq<u8>, g: int) -> u64 {
    (val_at(v, 8 * g) << 35u64) | (val_at(v, 8 * g + 1) << 30u64) | (val_at(v, 8 * g + 2) << 25u64)
        | (val_at(v, 8 * g + 3) << 20u64) | (val_at(v, 8 * g + 4) << 15u64) | (val_at(v, 8 * g + 5)
        << 10u64) | (val_at(v, 8 * g + 6) << 5u64) | val_at(v, 8 * g + 7)
}

/// Decoded byte `k`: bits `8k` to `8k + 7` of the five-bit values.
pub open spec fn b32_byte(v: Seq<u8>, k: int) -> u8 {
    ((vgroup40(v, k / 5) >> (32 - 8 * (k % 5)) as u64) & 255u64) as u8
}

fn val_at_exec(v: &Vec<u8>, i: usize) -> (r: u64)
    ensures
        r == val_at(v@, i as int),
{
    if i < v.len() {
        v[i] as u64
    } else {
        0
    }
}

/// The bytes written in Base32 text: characters outside the alphabet are
/// skipped, and bits left over after the last whole byte are dropped.
pub fn base32_decode(s: &str) -> (r: Option<Vec<u8>>)
    ensures
        r is Some,
        ({
            let v = b32_values(s.spec_bytes());
            let out = r->Some_0@;
            &&& out.len() == (5 * v.len()) / 8
            &&& forall|k: int| 0 <= k < out.len() ==> #[trigger] out[k] == b32_byte(v, k)
        }),
{
    let b = s.as_bytes();
    let mut vals: Vec<u8> = Vec::new();
    let mut i: usize = 0;
    while i < b.len()
        invariant
            b@ == s.spec_bytes(),
            i <= b@.len(),
            vals@ == b32_values(b@.subrange(0, i as int)),
        decreases b@.len() - i,
    {
        proof {
            assert(b@.subrange(0, i as int + 1).drop_last() == b@.subrange(0, i as int));
        }
        let c = b[i];
        if 65 <= c && c <= 90 {
            vals.push(c - 65);
        } else if 50 <= c && c <= 55 {
            vals.push(26 + (c - 50));
        } else if 97 <= c && c <= 122 {
            vals.push(c - 97);
        }
        i = i + 1;
    }
    proof {
        assert(b@.subrange(0, b@.len() as int) == b@);
    }
    let m = vals.len();
    let q = m / 8;
    let rem = m % 8;
    let out_len = q * 5 + (rem * 5) / 8;
    proof {
        assert(out_len == (5 * m) / 8) by (nonlinear_arith)
            requires
                m == 8 * q + rem,
                0 <= rem < 8,
                out_len == q * 5 + (rem * 5) / 8,
        ;
    }
    let mut out: Vec<u8> = Vec::new();
    let mut k: usize = 0;
    while k < out_len
        invariant
            m == vals@.len(),
            out_len == (5 * m) / 8,
            k <= out_len,
            out@.len() == k,
            forall|j: int| 0 <= j < k ==> #[trigger] out@[j] == b32_byte(vals@, j),
        decreases out_len - k,
    {
        let g = k / 5;
        let i0 = 8 * g;
        let grp = (val_at_exec(&vals, i0) << 35u64) | (val_at_exec(&vals, i0 + 1) << 30u64) | (
        val_at_exec(&vals, i0 + 2) << 25u64) | (val_at_exec(&vals, i0 + 3) << 20u64) | (
        val_at_exec(&vals, i0 + 4) << 15u64) | (val_at_exec(&vals, i0 + 5) << 10u64) | (
        val_at_exec(&vals, i0 + 6) << 5u64) | val_at_exec(&vals, i0 + 7);
        let sh = (32 - 8 * (k % 5)) as u64;
        out.push(((grp >> sh) & 255u64) as u8);
        k = k + 1;
    }
    Some(out)
}

} // verus!
