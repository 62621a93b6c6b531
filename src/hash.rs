//! Non-cryptographic hashes: djb2, FNV-1a (64-bit) and MurmurHash3
//! (x86, 32-bit), and bucket selection on top of MurmurHash3.
use vstd::prelude::*;
use vstd::string::StringSliceAdditionalSpecFns;

verus! {

/// 2^64.
pub open spec fn m64() -> int {
    0x1_0000_0000_0000_0000
}

/// 2^32.
pub open spec fn m32() -> int {
    0x1_0000_0000
}

/// djb2 of `s`: start at 5381, then `h * 33 + b` per byte, modulo 2^64.
pub open spec fn djb2_spec(s: Seq<u8>) -> u64
    decreases s.len(),
{
    if s.len() == 0 {
        5381
    } else {
        ((djb2_spec(s.drop_last()) * 33 + s.last()) % m64()) as u64
    }
}

/// The djb2 hash of `bytes` (wrapping).
pub fn djb2(bytes: &[u8]) -> (r: u64)
    ensures
        r == djb2_spec(bytes@),
{
    let mut h: u64 = 5381;
    let mut i: usize = 0;
    while i < bytes.len()
        invariant
            i <= bytes@.len(),
            h == djb2_spec(bytes@.subrange(0, i as int)),
        decreases bytes@.len() - i,
    {
        proof {
            assert(bytes@.subrange(0, i as int + 1).drop_last() == bytes@.subrange(0, i as int));
        }
        h = h.wrapping_mul(33).wrapping_add(bytes[i] as u64);
        proof {
            assert(h == ((djb2_spec(bytes@.subrange(0, i as int)) * 33 + bytes@[i as int]) % m64()))
                by (nonlinear_arith)
                requires
                    h == ((((djb2_spec(bytes@.subrange(0, i as int)) * 33) % m64()) + bytes@[i as int])
                        % m64()),
            ;
        }
        i = i + 1;
    }
    proof {
        assert(bytes@.subrange(0, bytes@.len() as int) == bytes@);
    }
    h
}

/// The djb2 hash of the UTF-8 bytes of `s`.
pub fn hash_code(s: &str) -> (r: u64)
    ensures
        r == djb2_spec(s.spec_bytes()),
{
    djb2(s.as_bytes())
}

/// FNV-1a (64-bit) of `s`: xor each byte in, then multiply by the FNV
/// prime, modulo 2^64.
pub open spec fn fnv1a_spec(s: Seq<u8>) -> u64
    decreases s.len(),
{
    if s.len() == 0 {
        0xcbf29ce484222325
    } else {
        (((fnv1a_spec(s.drop_last()) ^ (s.last() as u64)) as int * 0x100000001b3) % m64()) as u64
    }
}

/// The 64-bit FNV-1a hash of `bytes`.
pub fn fnv1a(bytes: &[u8]) -> (r: u64)
    ensures
        r == fnv1a_spec(bytes@),
{
    let mut h: u64 = 0xcbf29ce484222325;
    let mut i: usize = 0;
    while i < bytes.len()
        invariant
            i <= bytes@.len(),
            h == fnv1a_spec(bytes@.subrange(0, i as int)),
        decreases bytes@.len() - i,
    {
        proof {
            assert(bytes@.subrange(0, i as int + 1).drop_last() == bytes@.subrange(0, i as int));
        }
        h = h ^ (bytes[i] as u64);
        h = h.wrapping_mul(0x100000001b3);
        i = i + 1;
    }
    proof {
        assert(bytes@.subrange(0, bytes@.len() as int) == bytes@);
    }
    h
}

/// `x * y` modulo 2^32.
pub open spec fn mul32(x: u32, y: u32) -> u32 {
    ((x as int * y as int) % m32()) as u32
}

/// `x` rotated left by `n` bits, `0 < n < 32`.
#[verifier::opaque]
pub open spec fn rotl32(x: u32, n: u32) -> u32 {
    (x << n) | (x >> (32 - n) as u32)
}

/// MurmurHash3 scrambling of one 32-bit block.
#[verifier::opaque]
pub open spec fn scramble(k: u32) -> u32 {
    mul32(rotl32(mul32(k, 0xcc9e2d51), 15), 0x1b873593)
}

/// Little-endian value of the four bytes of `s` from `i`.
pub open spec fn le32(s: Seq<u8>, i: int) -> u32 {
    (s[i] as int + s[i + 1] as int * 0x100 + s[i + 2] as int * 0x10000 + s[i + 3] as int
        * 0x1000000) as u32
}

/// MurmurHash3 state after the first `n` whole blocks of `s`.
pub open spec fn murmur_blocks(s: Seq<u8>, seed: u32, n: nat) -> u32
    decreases n,
{
    if n == 0 {
        seed
    } else {
        let h = murmur_blocks(s, seed, (n - 1) as nat) ^ scramble(le32(s, 4 * (n - 1)));
        ((mul32(rotl32(h, 13), 5) as int + 0xe6546b64) % m32()) as u32
    }
}

/// The 1 to 3 trailing bytes of `s` as a little-endian value.
pub open spec fn tail_value(s: Seq<u8>) -> u32 {
    let t = (s.len() / 4 * 4) as int;
    let r = s.len() % 4;
    if r == 3 {
        (s[t] as int + s[t + 1] as int * 0x100 + s[t + 2] as int * 0x10000) as u32
    } else if r == 2 {
        (s[t] as int + s[t + 1] as int * 0x100) as u32
    } else if r == 1 {
        s[t] as u32
    } else {
        0
    }
}

/// MurmurHash3 finalization mix.
#[verifier::opaque]
pub open spec fn fmix32(h0: u32) -> u32 {
    let h1 = h0 ^ (h0 >> 16u32);
    let h2 = mul32(h1, 0x85ebca6b);
    let h3 = h2 ^ (h2 >> 13u32);
    let h4 = mul32(h3, 0xc2b2ae35);
    h4 ^ (h4 >> 16u32)
}

/// MurmurHash3 (x86, 32-bit) of `s` with `seed`; the length enters as a
/// `u32` (modulo 2^32).
pub open spec fn murmur3_spec(s: Seq<u8>, seed: u32) -> u32 {
    let h = murmur_blocks(s, seed, s.len() / 4);
    let h = if s.len() % 4 != 0 {
        h ^ scramble(tail_value(s))
    } else {
        h
    };
    fmix32(h ^ (s.len() as u32))
}

fn scramble_exec(k: u32) -> (r: u32)
    ensures
        r == scramble(k),
{
    reveal(scramble);
    reveal(rotl32);
    let k1 = k.wrapping_mul(0xcc9e2d51);
    let k2 = (k1 << 15u32) | (k1 >> 17u32);
    k2.wrapping_mul(0x1b873593)
}

fn le32_exec(bytes: &[u8], i: usize) -> (r: u32)
    requires
        i + 4 <= bytes@.len(),
    ensures
        r == le32(bytes@, i as int),
{
    let (b0, b1, b2, b3) = (bytes[i], bytes[i + 1], bytes[i + 2], bytes[i + 3]);
    proof {
        assert(((b0 as u32) | ((b1 as u32) << 8u32) | ((b2 as u32) << 16u32) | ((b3 as u32)
            << 24u32)) == (b0 as int + b1 as int * 0x100 + b2 as int * 0x10000 + b3 as int
            * 0x1000000) as u32) by (bit_vector);
    }
    (b0 as u32) | ((b1 as u32) << 8u32) | ((b2 as u32) << 16u32) | ((b3 as u32) << 24u32)
}

fn block_round(h: u32, k: u32) -> (r: u32)
    ensures
        r == ((mul32(rotl32(h ^ scramble(k), 13), 5) as int + 0xe6546b64) % m32()) as u32,
{
    reveal(rotl32);
    let x = h ^ scramble_exec(k);
    let y = (x << 13u32) | (x >> 19u32);
    y.wrapping_mul(5).wrapping_add(0xe6546b64)
}

fn tail_exec(bytes: &[u8]) -> (r: u32)
    ensures
        r == tail_value(bytes@),
{
    let n = bytes.len();
    let t = n / 4 * 4;
    let rem = n % 4;
    if rem == 3 {
        let (b0, b1, b2) = (bytes[t], bytes[t + 1], bytes[t + 2]);
        proof {
            assert(((b0 as u32) | ((b1 as u32) << 8u32) | ((b2 as u32) << 16u32)) == (b0 as int
                + b1 as int * 0x100 + b2 as int * 0x10000) as u32) by (bit_vector);
        }
        (b0 as u32) | ((b1 as u32) << 8u32) | ((b2 as u32) << 16u32)
    } else if rem == 2 {
        let (b0, b1) = (bytes[t], bytes[t + 1]);
        proof {
            assert(((b0 as u32) | ((b1 as u32) << 8u32)) == (b0 as int + b1 as int * 0x100) as u32)
                by (bit_vector);
        }
        (b0 as u32) | ((b1 as u32) << 8u32)
    } else if rem == 1 {
        bytes[t] as u32
    } else {
        0
    }
}

fn fmix32_exec(h0: u32) -> (r: u32)
    ensures
        r == fmix32(h0),
{
    reveal(fmix32);
    let h1 = h0 ^ (h0 >> 16u32);
    let h2 = h1.wrapping_mul(0x85ebca6b);
    let h3 = h2 ^ (h2 >> 13u32);
    let h4 = h3.wrapping_mul(0xc2b2ae35);
    h4 ^ (h4 >> 16u32)
}

/// MurmurHash3 (x86, 32-bit) of `bytes` with `seed`.
pub fn murmur3_32(bytes: &[u8], seed: u32) -> (r: u32)
    ensures
        r == murmur3_spec(bytes@, seed),
{
    let n = bytes.len();
    let blocks = n / 4;
    let mut h = seed;
    let mut b: usize = 0;
    while b < blocks
        invariant
            blocks == n / 4,
            n == bytes@.len(),
            b <= blocks,
            h == murmur_blocks(bytes@, seed, b as nat),
        decreases blocks - b,
    {
        let k = le32_exec(bytes, 4 * b);
        h = block_round(h, k);
        b = b + 1;
    }
    if n % 4 != 0 {
        h = h ^ scramble_exec(tail_exec(bytes));
    }
    fmix32_exec(h ^ (n as u32))
}

/// Bucket of `key` among `buckets` (zero when there are none).
pub fn consistent_hash(key: &str, buckets: u32) -> (r: u32)
    ensures
        buckets == 0 ==> r == 0,
        buckets > 0 ==> r == murmur3_spec(key.spec_bytes(), 0x9747b28c) % buckets,
        buckets > 0 ==> r < buckets,
{
    if buckets == 0 {
        0
    } else {
        murmur3_32(key.as_bytes(), 0x9747b28c) % buckets
    }
}

} // verus!
