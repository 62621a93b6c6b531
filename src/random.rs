//! Pseudo-random helpers on a linear congruential generator seeded from
//! the clock. Not for cryptography.
use vstd::prelude::*;

use crate::chars::string_of;
use crate::encoding::hex_digit;

verus! {

/// 2^128.
pub open spec fn m128() -> int {
    (0x1_0000_0000_0000_0000 * 0x1_0000_0000_0000_0000) as int
}

/// Next state of the generator.
pub open spec fn lcg_step(s: u128) -> u128 {
    let a = (s as int * 1664525) % m128();
    if a + 1013904223 > u128::MAX {
        (a + 1013904223 - m128()) as u128
    } else {
        (a + 1013904223) as u128
    }
}

/// Output drawn from a state: bits 32 to 95.
pub open spec fn lcg_out(s: u128) -> u64 {
    ((s as int / 0x1_0000_0000) % 0x1_0000_0000_0000_0000) as u64
}

/// Linear congruential generator (multiplier 1664525, increment
/// 1013904223, modulo 2^128).
pub struct Lcg {
    state: u128,
}

impl Lcg {
    pub closed spec fn spec_state(&self) -> u128 {
        self.state
    }

    /// A generator in state `seed`.
    pub fn new(seed: u128) -> (r: Self)
        ensures
            r.spec_state() == seed,
    {
        Lcg { state: seed }
    }

    /// Step the generator and draw 64 bits.
    pub fn next_u64(&mut self) -> (r: u64)
        ensures
            final(self).spec_state() == lcg_step(old(self).spec_state()),
            r == lcg_out(final(self).spec_state()),
    {
        self.state = self.state.wrapping_mul(1664525).wrapping_add(1013904223);
        let s = self.state;
        proof {
            assert((s >> 32u128) as u64 == ((s as int / 0x1_0000_0000) % 0x1_0000_0000_0000_0000)
                as u64) by (bit_vector);
        }
        (s >> 32u128) as u64
    }
}

/// Nanoseconds between two readings of the clock, used as a seed.
pub(crate) fn clock_seed() -> (r: u128) {
    let start = crate::clock::instant_now();
    crate::clock::whole_nanos(crate::clock::elapsed_since(&start))
}

/// `min + x mod (max - min)` for a draw `x` read as an `i64` (Euclidean
/// remainder, so the value lies in `[min, max)`).
pub open spec fn in_span(min: i64, max: i64, x: u64) -> int {
    min + (x as i64) as int % (max - min)
}

/// The value of `[min, max)` that the generator seeded with `seed` draws
/// first.
pub fn random_range_from(seed: u128, min: i64, max: i64) -> (r: i64)
    requires
        min < max,
        max - min <= i64::MAX,
    ensures
        r == in_span(min, max, lcg_out(lcg_step(seed))),
        min <= r < max,
{
    let mut g = Lcg::new(seed);
    let x = g.next_u64() as i64;
    let span = max - min;
    let m = match x.checked_rem_euclid(span) {
        Some(m) => m,
        None => 0,
    };
    min + m
}

/// A pseudo-random value of `[min, max)`, drawn from a clock-seeded
/// generator.
pub fn random_range(min: i64, max: i64) -> (r: i64)
    requires
        min < max,
        max - min <= i64::MAX,
    ensures
        min <= r < max,
        exists|seed: u128| r == in_span(min, max, lcg_out(lcg_step(seed))),
{
    random_range_from(clock_seed(), min, max)
}

/// A pseudo-random element of `v`, `None` when it is empty.
pub fn random_choice<T>(v: &[T]) -> (r: Option<&T>)
    ensures
        r is None <==> v@.len() == 0,
        r is Some ==> exists|i: int| 0 <= i < v@.len() && *r->Some_0 == v@[i],
{
    if v.len() == 0 {
        None
    } else {
        let mut g = Lcg::new(clock_seed());
        let i = (g.next_u64() as usize) % v.len();
        Some(&v[i])
    }
}

/// `n` pseudo-random elements of `v` (none when `v` is empty).
pub fn random_choices<T: Copy>(v: &[T], n: usize) -> (r: Vec<T>)
    ensures
        r@.len() == (if v@.len() == 0 {
            0
        } else {
            n as int
        }),
        forall|k: int| 0 <= k < r@.len() ==> v@.contains(#[trigger] r@[k]),
{
    let mut out: Vec<T> = Vec::new();
    if v.len() == 0 {
        return out;
    }
    let mut g = Lcg::new(clock_seed());
    let mut k: usize = 0;
    while k < n
        invariant
            v@.len() > 0,
            k <= n,
            out@.len() == k,
            forall|j: int| 0 <= j < out@.len() ==> v@.contains(#[trigger] out@[j]),
        decreases n - k,
    {
        let i = (g.next_u64() as usize) % v.len();
        proof {
            assert(v@[i as int] == v@[i as int]);
        }
        out.push(v[i]);
        k = k + 1;
    }
    out
}

/// `n` pseudo-random bytes.
pub fn random_bytes(n: usize) -> (r: Vec<u8>)
    ensures
        r@.len() == n,
{
    let mut g = Lcg::new(clock_seed());
    let mut out: Vec<u8> = Vec::new();
    let mut k: usize = 0;
    while k < n
        invariant
            k <= n,
            out@.len() == k,
        decreases n - k,
    {
        out.push((g.next_u64() & 0xff) as u8);
        k = k + 1;
    }
    out
}

/// Whether `s` has the layout of a version-4 UUID: 36 characters, dashes
/// at 8, 13, 18 and 23, lower-case hex digits elsewhere, `4` at 14 and
/// one of `8`, `9`, `a`, `b` at 19.
pub open spec fn uuid_v4_shape(s: Seq<char>) -> bool {
    &&& s.len() == 36
    &&& forall|i: int|
        0 <= i < 36 ==> if i == 8 || i == 13 || i == 18 || i == 23 {
            s[i] == '-'
        } else {
            exists|v: int| 0 <= v < 16 && #[trigger] s[i] == hex_digit(v)
        }
    &&& s[14] == '4'
    &&& (s[19] == '8' || s[19] == '9' || s[19] == 'a' || s[19] == 'b')
}

fn hex_char(v: u8) -> (r: char)
    requires
        v < 16,
    ensures
        r == hex_digit(v as int),
{
    if v < 10 {
        (v + 48) as char
    } else {
        (v - 10 + 97) as char
    }
}

/// A pseudo-random version-4 UUID in its usual text form.
pub fn uuid_v4() -> (r: String)
    ensures
        uuid_v4_shape(r@),
{
    let mut g = Lcg::new(clock_seed());
    let mut out: Vec<char> = Vec::new();
    let mut k: usize = 0;
    while k < 16
        invariant
            k <= 16,
            out@.len() == 2 * k + (if k > 10 {
                4int
            } else if k > 8 {
                3int
            } else if k > 6 {
                2int
            } else if k > 4 {
                1int
            } else {
                0int
            }),
            forall|i: int|
                0 <= i < out@.len() ==> if i == 8 || i == 13 || i == 18 || i == 23 {
                    out@[i] == '-'
                } else {
                    exists|v: int| 0 <= v < 16 && #[trigger] out@[i] == hex_digit(v)
                },
            k > 6 ==> out@[14] == '4',
            k > 8 ==> (out@[19] == '8' || out@[19] == '9' || out@[19] == 'a' || out@[19] == 'b'),
        decreases 16 - k,
    {
        if k == 4 || k == 6 || k == 8 || k == 10 {
            out.push('-');
        }
        let raw = (g.next_u64() & 0xff) as u8;
        let b = if k == 6 {
            (raw & 0x0f) | 0x40
        } else if k == 8 {
            (raw & 0x3f) | 0x80
        } else {
            raw
        };
        proof {
            assert(b / 16 < 16 && b % 16 < 16) by (bit_vector);
            assert(((raw & 0x0f) | 0x40) / 16 == 4) by (bit_vector);
            assert(8 <= ((raw & 0x3f) | 0x80) / 16 <= 11) by (bit_vector);
        }
        let hi = hex_char(b / 16);
        let lo = hex_char(b % 16);
        let ghost before = out@;
        out.push(hi);
        out.push(lo);
        proof {
            if k == 6 {
                assert(out@[14] == hex_digit(4));
            } else if k > 6 {
                assert(out@[14] == before[14]);
            }
            if k == 8 {
                assert(out@[19] == hex_digit((b / 16) as int));
            } else if k > 8 {
                assert(out@[19] == before[19]);
            }
            assert(out@[out@.len() - 2] == hex_digit((b / 16) as int));
            assert(out@[out@.len() - 1] == hex_digit((b % 16) as int));
            assert forall|i: int|
                0 <= i < out@.len() implies if i == 8 || i == 13 || i == 18 || i == 23 {
                out@[i] == '-'
            } else {
                exists|v: int| 0 <= v < 16 && #[trigger] out@[i] == hex_digit(v)
            } by {
                if i < before.len() {
                    assert(out@[i] == before[i]);
                } else if i == before.len() {
                    assert(out@[i] == hex_digit((b / 16) as int));
                } else {
                    assert(out@[i] == hex_digit((b % 16) as int));
                }
            }
        }
        k = k + 1;
    }
    string_of(&out)
}

} // verus!
