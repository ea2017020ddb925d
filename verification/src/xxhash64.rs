//! XXH64, the 64-bit xxHash, as used to key entries of the project's own WAD format.
use crate::le::{le_u32, le_u64, read_u32, read_u64};
use vstd::prelude::*;

verus! {

pub const PRIME64_1: u64 = 0x9E37_79B1_85EB_CA87;

pub const PRIME64_2: u64 = 0xC2B2_AE3D_27D4_EB4F;

pub const PRIME64_3: u64 = 0x1656_67B1_9E37_79F9;

pub const PRIME64_4: u64 = 0x85EB_CA77_C2B2_AE63;

pub const PRIME64_5: u64 = 0x27D4_EB2F_1656_67C5;

/// Rotate left by `r` bits (`0 < r < 64`).
pub open spec fn rotl(x: u64, r: u64) -> u64 {
    (x << r) | (x >> ((64 - r) as u64))
}

pub open spec fn round_spec(acc: u64, lane: u64) -> u64 {
    rotl(acc.wrapping_add(lane.wrapping_mul(PRIME64_2)), 31).wrapping_mul(PRIME64_1)
}

pub open spec fn merge_spec(acc: u64, val: u64) -> u64 {
    (acc ^ round_spec(0, val)).wrapping_mul(PRIME64_1).wrapping_add(PRIME64_4)
}

/// The four accumulators after consuming the first `k` 32-byte stripes.
pub open spec fn stripes(s: Seq<u8>, seed: u64, k: nat) -> (u64, u64, u64, u64)
    decreases k,
{
    if k == 0 {
        (
            seed.wrapping_add(PRIME64_1).wrapping_add(PRIME64_2),
            seed.wrapping_add(PRIME64_2),
            seed,
            seed.wrapping_sub(PRIME64_1),
        )
    } else {
        let v = stripes(s, seed, (k - 1) as nat);
        let b = 32 * (k - 1);
        (
            round_spec(v.0, le_u64(s, b)),
            round_spec(v.1, le_u64(s, b + 8)),
            round_spec(v.2, le_u64(s, b + 16)),
            round_spec(v.3, le_u64(s, b + 24)),
        )
    }
}

pub open spec fn converge(v: (u64, u64, u64, u64)) -> u64 {
    let h = rotl(v.0, 1).wrapping_add(rotl(v.1, 7)).wrapping_add(rotl(v.2, 12)).wrapping_add(
        rotl(v.3, 18),
    );
    merge_spec(merge_spec(merge_spec(merge_spec(h, v.0), v.1), v.2), v.3)
}

pub open spec fn step8(h: u64, lane: u64) -> u64 {
    rotl(h ^ round_spec(0, lane), 27).wrapping_mul(PRIME64_1).wrapping_add(PRIME64_4)
}

pub open spec fn step4(h: u64, word: u32) -> u64 {
    rotl(h ^ (word as u64).wrapping_mul(PRIME64_1), 23).wrapping_mul(PRIME64_2).wrapping_add(
        PRIME64_3,
    )
}

pub open spec fn step1(h: u64, byte: u8) -> u64 {
    rotl(h ^ (byte as u64).wrapping_mul(PRIME64_5), 11).wrapping_mul(PRIME64_1)
}

/// Single bytes from `i` to the end.
pub open spec fn tail1(s: Seq<u8>, h: u64, i: int) -> u64
    decreases s.len() - i,
{
    if 0 <= i < s.len() {
        tail1(s, step1(h, s[i]), i + 1)
    } else {
        h
    }
}

/// Eight-byte lanes from `i` while they fit, then one four-byte word if it fits,
/// then single bytes.
pub open spec fn tail(s: Seq<u8>, h: u64, i: int) -> u64
    decreases s.len() - i,
{
    if 0 <= i && i + 8 <= s.len() {
        tail(s, step8(h, le_u64(s, i)), i + 8)
    } else if 0 <= i && i + 4 <= s.len() {
        tail1(s, step4(h, le_u32(s, i)), i + 4)
    } else {
        tail1(s, h, i)
    }
}

pub open spec fn avalanche(h: u64) -> u64 {
    let h1 = h ^ (h >> 33u64);
    let h2 = h1.wrapping_mul(PRIME64_2);
    let h3 = h2 ^ (h2 >> 29u64);
    let h4 = h3.wrapping_mul(PRIME64_3);
    h4 ^ (h4 >> 32u64)
}

/// XXH64 of `s` with `seed`.
#[verifier::opaque]
pub open spec fn xxh64_spec(s: Seq<u8>, seed: u64) -> u64 {
    let n = s.len();
    let h = if n >= 32 {
        converge(stripes(s, seed, n / 32))
    } else {
        seed.wrapping_add(PRIME64_5)
    };
    avalanche(tail(s, h.wrapping_add(n as u64), 32 * (n / 32) as int))
}

fn rotate_left(x: u64, r: u64) -> (y: u64)
    requires
        0 < r < 64,
    ensures
        y == rotl(x, r),
{
    (x << r) | (x >> (64 - r))
}

/// One accumulator round.
pub fn xxh_round(acc: u64, input: u64) -> (r: u64)
    ensures
        r == round_spec(acc, input),
{
    rotate_left(acc.wrapping_add(input.wrapping_mul(PRIME64_2)), 31).wrapping_mul(PRIME64_1)
}

/// Folds one accumulator into the converged hash.
pub fn xxh_merge(acc: u64, val: u64) -> (r: u64)
    ensures
        r == merge_spec(acc, val),
{
    (acc ^ xxh_round(0, val)).wrapping_mul(PRIME64_1).wrapping_add(PRIME64_4)
}

/// XXH64 of `input` with `seed`.
pub fn xxh64(input: &[u8], seed: u64) -> (h: u64)
    ensures
        h == xxh64_spec(input@, seed),
{
    reveal(xxh64_spec);
    let len = input.len();
    let mut index: usize = 0;
    let mut hash: u64;
    if len >= 32 {
        let mut v1 = seed.wrapping_add(PRIME64_1).wrapping_add(PRIME64_2);
        let mut v2 = seed.wrapping_add(PRIME64_2);
        let mut v3 = seed;
        let mut v4 = seed.wrapping_sub(PRIME64_1);
        let ghost mut k: nat = 0;
        while len - index >= 32
            invariant
                len == input@.len(),
                index <= len,
                index == 32 * k,
                (v1, v2, v3, v4) == stripes(input@, seed, k),
            decreases len - index,
        {
            v1 = xxh_round(v1, read_u64(input, index));
            v2 = xxh_round(v2, read_u64(input, index + 8));
            v3 = xxh_round(v3, read_u64(input, index + 16));
            v4 = xxh_round(v4, read_u64(input, index + 24));
            index += 32;
            proof {
                k = k + 1;
            }
        }
        assert(k == len / 32) by (nonlinear_arith)
            requires
                32 * k <= len,
                len - 32 * k < 32,
        ;
        hash = rotate_left(v1, 1).wrapping_add(rotate_left(v2, 7)).wrapping_add(
            rotate_left(v3, 12),
        ).wrapping_add(rotate_left(v4, 18));
        hash = xxh_merge(hash, v1);
        hash = xxh_merge(hash, v2);
        hash = xxh_merge(hash, v3);
        hash = xxh_merge(hash, v4);
    } else {
        hash = seed.wrapping_add(PRIME64_5);
        assert(len / 32 == 0);
    }
    hash = hash.wrapping_add(len as u64);
    assert(index == 32 * (len / 32));
    while len - index >= 8
        invariant
            len == input@.len(),
            index <= len,
            xxh64_spec(input@, seed) == avalanche(tail(input@, hash, index as int)),
        decreases len - index,
    {
        let k1 = xxh_round(0, read_u64(input, index));
        hash = hash ^ k1;
        hash = rotate_left(hash, 27).wrapping_mul(PRIME64_1).wrapping_add(PRIME64_4);
        index += 8;
    }
    if len - index >= 4 {
        hash = hash ^ (read_u32(input, index) as u64).wrapping_mul(PRIME64_1);
        hash = rotate_left(hash, 23).wrapping_mul(PRIME64_2).wrapping_add(PRIME64_3);
        index += 4;
    }
    assert(xxh64_spec(input@, seed) == avalanche(tail1(input@, hash, index as int)));
    while index < len
        invariant
            len == input@.len(),
            index <= len,
            xxh64_spec(input@, seed) == avalanche(tail1(input@, hash, index as int)),
        decreases len - index,
    {
        hash = hash ^ (input[index] as u64).wrapping_mul(PRIME64_5);
        hash = rotate_left(hash, 11).wrapping_mul(PRIME64_1);
        index += 1;
    }
    hash = hash ^ (hash >> 33);
    hash = hash.wrapping_mul(PRIME64_2);
    hash = hash ^ (hash >> 29);
    hash = hash.wrapping_mul(PRIME64_3);
    hash = hash ^ (hash >> 32);
    hash
}

} // verus!
