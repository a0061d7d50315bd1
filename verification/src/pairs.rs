//! Adjacent token pairs: their 32-bit keys, their merge scores, and the
//! hash that places them in the pair table.
use vstd::prelude::*;
use vstd::arithmetic::power2::{pow2, lemma_pow2_adds, lemma_pow2_pos, lemma_pow2_strictly_increases, lemma_pow2_unfold, lemma2_to64};
use crate::token_meta::TokenMeta;

verus! {

/// The key of the pair `(a, b)`: `a` in the high half, `b` in the low half.
pub open spec fn pair_key_spec(a: u16, b: u16) -> u32 {
    (a as int * 65536 + b as int) as u32
}

/// The two ids of a pair key.
pub open spec fn pair_ids_spec(key: u32) -> (u16, u16) {
    ((key as int / 65536) as u16, (key as int % 65536) as u16)
}

/// `r` is the integer square root of `n`.
pub open spec fn is_isqrt(n: int, r: int) -> bool {
    0 <= r && r * r <= n && n < (r + 1) * (r + 1)
}

/// The integer square root of `n`.
pub open spec fn isqrt(n: int) -> int {
    choose|r: int| is_isqrt(n, r)
}

/// Number of binary digits of `x` (0 for 0).
pub open spec fn bit_len(x: nat) -> nat
    decreases x,
{
    if x == 0 {
        0
    } else {
        1 + bit_len(x / 2)
    }
}

/// `x / 2^d` rounded to the nearest integer, ties to the even one.
pub open spec fn round_shift(x: nat, d: nat) -> nat {
    if d == 0 {
        x
    } else {
        let q = x / pow2(d);
        let r = x % pow2(d);
        let half = pow2((d - 1) as nat);
        if r > half || (r == half && q % 2 == 1) {
            q + 1
        } else {
            q
        }
    }
}

/// The double nearest `sqrt(len)` is `sqrt_significand(len) / 2^sqrt_scale(len)`:
/// scaled by `2^sqrt_scale(len)`, the root lies in `[2^52, 2^53)`.
pub open spec fn sqrt_scale(len: nat) -> nat {
    (53 - bit_len(isqrt(len as int) as nat)) as nat
}

/// The root of `len`, scaled by `2^sqrt_scale(len)` and rounded to the
/// nearest integer (the root of an integer never lies halfway).
pub open spec fn sqrt_significand(len: nat) -> nat {
    let n = len * pow2(2 * sqrt_scale(len));
    let r = isqrt(n as int);
    if n - r * r > r {
        (r + 1) as nat
    } else {
        r as nat
    }
}

/// How good a merge is: the count times the square root of the merged
/// token's byte length, both taken as IEEE doubles rounded to nearest (the
/// root rounded to 53 significant bits, then the product rounded to 53
/// significant bits, ties to even), then truncated to an integer.
pub open spec fn score_spec(count: u32, len: int) -> int {
    if len <= 0 {
        0
    } else {
        let k = sqrt_scale(len as nat);
        let p = count as nat * sqrt_significand(len as nat);
        let d: nat = if bit_len(p) > 53 {
            (bit_len(p) - 53) as nat
        } else {
            0
        };
        (round_shift(p, d) * pow2(d)) as int / pow2(k) as int
    }
}

/// Byte length of the token that merging the pair `key` makes.
pub open spec fn merged_len(key: u32, meta: Seq<TokenMeta>) -> int {
    let (a, b) = pair_ids_spec(key);
    meta[a as int].byte_len + meta[b as int].byte_len
}

/// The finalizer that spreads keys over the pair table.
pub open spec fn mix_spec(x0: u64) -> u64 {
    let x1 = x0 ^ (x0 >> 30u64);
    let x2 = x1.wrapping_mul(0xbf58476d1ce4e5b9u64);
    let x3 = x2 ^ (x2 >> 27u64);
    let x4 = x3.wrapping_mul(0x94d049bb133111ebu64);
    x4 ^ (x4 >> 31u64)
}

/// Knowing the pair from its key: `pair_ids` undoes `pair_key`.
pub proof fn lemma_pair_key_roundtrip(a: u16, b: u16)
    ensures
        pair_ids_spec(pair_key_spec(a, b)) == (a, b),
        pair_key_spec(a, b) as int == a as int * 65536 + b as int,
{
}

/// Every 32-bit key is the key of the pair its ids name.
pub proof fn lemma_pair_ids_roundtrip(key: u32)
    ensures
        pair_key_spec(pair_ids_spec(key).0, pair_ids_spec(key).1) == key,
{
}

pub proof fn lemma_isqrt_unique(n: int, r1: int, r2: int)
    requires
        is_isqrt(n, r1),
        is_isqrt(n, r2),
    ensures
        r1 == r2,
{
    if r1 < r2 {
        assert((r1 + 1) * (r1 + 1) <= r2 * r2) by (nonlinear_arith)
            requires
                0 <= r1 + 1 <= r2,
        ;
    } else if r2 < r1 {
        assert((r2 + 1) * (r2 + 1) <= r1 * r1) by (nonlinear_arith)
            requires
                0 <= r2 + 1 <= r1,
        ;
    }
}

/// The key of the pair `(a, b)`.
pub fn pair_key(a: u16, b: u16) -> (r: u32)
    ensures
        r == pair_key_spec(a, b),
{
    let r = ((a as u32) << 16u32) | b as u32;
    assert(((a as u32) << 16u32) | b as u32 == a as u32 * 65536 + b as u32) by (bit_vector);
    r
}

/// The ids of a pair key.
pub fn pair_ids(key: u32) -> (r: (u16, u16))
    ensures
        r == pair_ids_spec(key),
{
    let hi = (key >> 16u32) as u16;
    let lo = key as u16;
    assert((key >> 16u32) as u16 == (key / 65536) as u16) by (bit_vector);
    assert(key as u16 == (key % 65536) as u16) by (bit_vector);
    (hi, lo)
}

/// The integer square root of `n`, by bisection.
fn isqrt_u128(n: u128) -> (r: u64)
    requires
        n < 0x400_0000_0000_0000_0000_0000_0000u128,
    ensures
        r as int == isqrt(n as int),
        is_isqrt(n as int, r as int),
{
    let mut lo: u128 = 0;
    let mut hi: u128 = 0x20_0000_0000_0000u128;
    assert(hi * hi == 0x400_0000_0000_0000_0000_0000_0000u128);
    while hi - lo > 1
        invariant
            lo < hi <= 0x20_0000_0000_0000u128,
            lo * lo <= n,
            n < hi * hi,
        decreases hi - lo,
    {
        let mid = lo + (hi - lo) / 2;
        assert(mid * mid <= hi * hi) by (nonlinear_arith)
            requires
                0 <= mid <= hi,
        ;
        assert(hi * hi <= 0x20_0000_0000_0000u128 * 0x20_0000_0000_0000u128) by (nonlinear_arith)
            requires
                0 <= hi <= 0x20_0000_0000_0000u128,
        ;
        if mid * mid <= n {
            lo = mid;
        } else {
            hi = mid;
        }
    }
    proof {
        assert(hi == lo + 1);
        assert(is_isqrt(n as int, lo as int));
        let r = isqrt(n as int);
        assert(is_isqrt(n as int, r));
        lemma_isqrt_unique(n as int, r, lo as int);
    }
    lo as u64
}

/// The powers of two that bound the score's arithmetic.
proof fn lemma_pow2_values()
    ensures
        pow2(0) == 1,
        pow2(1) == 2,
        pow2(53) == 9007199254740992,
        pow2(128) == 0x1_0000_0000_0000_0000_0000_0000_0000_0000int,
{
    lemma2_to64();
    lemma_pow2_adds(32, 21);
    lemma_pow2_adds(64, 64);
}

/// `x` lies between the powers of two its bit length names.
proof fn lemma_bit_len_bounds(x: nat)
    requires
        x > 0,
    ensures
        bit_len(x) >= 1,
        pow2((bit_len(x) - 1) as nat) <= x < pow2(bit_len(x)),
    decreases x,
{
    lemma_pow2_values();
    assert(bit_len(x) == 1 + bit_len(x / 2));
    if x / 2 > 0 {
        lemma_bit_len_bounds(x / 2);
        let b = bit_len(x / 2);
        lemma_pow2_unfold(b + 1);
        lemma_pow2_unfold(b);
        assert(pow2(b) == 2 * pow2((b - 1) as nat));
        assert(pow2(b + 1) == 2 * pow2(b));
    } else {
        assert(x == 1);
        assert(bit_len(0) == 0);
    }
}

/// A number below `2^b` has at most `b` bits.
proof fn lemma_bit_len_at_most(x: nat, b: nat)
    requires
        x < pow2(b),
    ensures
        bit_len(x) <= b,
{
    if x > 0 {
        lemma_bit_len_bounds(x);
        if bit_len(x) > b {
            lemma_pow2_strictly_increases(b, (bit_len(x) - 1) as nat);
            if bit_len(x) - 1 == b {
            }
        }
    }
}

/// `2^e`.
fn pow2_u128(e: u32) -> (r: u128)
    requires
        e < 128,
    ensures
        r == pow2(e as nat),
{
    let mut r: u128 = 1;
    let mut i: u32 = 0;
    proof {
        lemma_pow2_values();
    }
    while i < e
        invariant
            i <= e < 128,
            r == pow2(i as nat),
        decreases e - i,
    {
        proof {
            lemma_pow2_unfold((i + 1) as nat);
            lemma_pow2_strictly_increases((i + 1) as nat, 128);
            lemma_pow2_values();
            assert(r * 2 == pow2((i + 1) as nat));
        }
        r = r * 2;
        i = i + 1;
    }
    r
}

/// The number of binary digits of `x`.
fn bit_len_u128(x: u128) -> (r: u32)
    ensures
        r == bit_len(x as nat),
{
    let mut y = x;
    let mut b: u32 = 0;
    proof {
        lemma_pow2_values();
        lemma_bit_len_at_most(x as nat, 128);
    }
    while y > 0
        invariant
            b + bit_len(y as nat) == bit_len(x as nat),
            b <= 128 - bit_len(y as nat),
            bit_len(y as nat) <= 128,
        decreases y,
    {
        proof {
            assert(bit_len(y as nat) == 1 + bit_len((y / 2) as nat));
        }
        y = y / 2;
        b = b + 1;
    }
    b
}

/// The merge score of the pair `key` seen `count` times:
/// `count * sqrt(len)` in double precision, truncated, `len` being the bytes
/// the merged token would span (see `score_spec`).
pub fn pair_score(key: u32, count: u32, meta: &[TokenMeta]) -> (r: u64)
    requires
        (key as int / 65536) < meta@.len(),
        (key as int % 65536) < meta@.len(),
        merged_len(key, meta@) <= 4294967295,
        count < 2147483648,
    ensures
        r as int == score_spec(count, merged_len(key, meta@)),
{
    let (a, b) = pair_ids(key);
    let len = meta[a as usize].byte_len + meta[b as usize].byte_len;
    if len == 0 {
        return 0;
    }
    proof {
        lemma2_to64();
        lemma_pow2_values();
        lemma_pow2_adds(32, 21);
        lemma_pow2_adds(53, 53);
        lemma_pow2_adds(53, 32);
        lemma_pow2_adds(64, 64);
        lemma_pow2_strictly_increases(106, 128);
    }
    let s = isqrt_u128(len as u128);
    assert(s < 65536) by (nonlinear_arith)
        requires
            s * s <= len,
            len <= 4294967295,
    ;
    proof {
        lemma_pow2_strictly_increases(16, 32);
        lemma_bit_len_at_most(s as nat, 16);
        assert(1 * 1 <= len);
        if s == 0 {
            assert((s + 1) * (s + 1) == 1);
        }
        lemma_bit_len_bounds(s as nat);
    }
    let bl = bit_len_u128(s as u128);
    let k = 53 - bl;
    proof {
        let pb = pow2(bl as nat);
        assert(s + 1 <= pb);
        assert(len < pb * pb) by (nonlinear_arith)
            requires
                len < (s + 1) * (s + 1),
                0 <= s + 1 <= pb,
        ;
        lemma_pow2_adds(bl as nat, bl as nat);
        lemma_pow2_adds((2 * bl) as nat, (2 * k) as nat);
        lemma_pow2_pos((2 * k) as nat);
        assert(len * pow2((2 * k) as nat) < pow2((2 * bl) as nat) * pow2((2 * k) as nat)) by (
        nonlinear_arith)
            requires
                len < pow2((2 * bl) as nat),
                pow2((2 * k) as nat) > 0,
        ;
    }
    let pk2 = pow2_u128(2 * k);
    let n = (len as u128) * pk2;
    let r = isqrt_u128(n) as u128;
    proof {
        let p53 = pow2(53);
        if r >= p53 {
            assert(r * r >= p53 * p53) by (nonlinear_arith)
                requires
                    r >= p53,
                    p53 >= 0,
            ;
        }
    }
    let m: u128 = if n - r * r > r { r + 1 } else { r };
    assert(m <= 9007199254740992);
    assert((count as u128) * m < 38685626227668133590597632u128) by (nonlinear_arith)
        requires
            count < 2147483648,
            m <= 9007199254740992,
    ;
    let p = (count as u128) * m;
    assert(p < 38685626227668133590597632u128) by (nonlinear_arith)
        requires
            count < 2147483648,
            m <= 9007199254740992,
            p == count * m,
    ;
    proof {
        lemma_bit_len_at_most(p as nat, 85);
    }
    let pb = bit_len_u128(p);
    let d: u32 = if pb > 53 { pb - 53 } else { 0 };
    let pd = pow2_u128(d);
    let q: u128 = if d == 0 {
        assert(pd == 1);
        assert(p / pd == p);
        p
    } else {
        let q0 = p / pd;
        let rem = p % pd;
        let half = pow2_u128(d - 1);
        if rem > half || (rem == half && q0 % 2 == 1) {
            assert(q0 <= p);
            q0 + 1
        } else {
            q0
        }
    };
    assert(q <= p / pd + 1);
    proof {
        lemma_pow2_pos(d as nat);
        lemma_pow2_strictly_increases(d as nat, 33);
        lemma_pow2_adds(32, 1);
        assert((p / pd) * pd <= p) by (nonlinear_arith)
            requires
                pd > 0,
        ;
        assert(q * pd <= p + pd) by (nonlinear_arith)
            requires
                pd > 0,
                q <= p / pd + 1,
                (p / pd) * pd <= p,
        ;
    }
    let pkk = pow2_u128(k);
    proof {
        lemma_pow2_adds(32, 5);
        if k > 37 {
            lemma_pow2_strictly_increases(37, k as nat);
        }
        assert((q * pd) as int / (pkk as int) <= (q * pd) as int / 137438953472) by (nonlinear_arith)
            requires
                pkk >= 137438953472,
                q * pd >= 0,
        ;
    }
    let v = q * pd / pkk;
    v as u64
}

/// The 64-bit finalizer behind the pair table's hash.
pub fn mix(x: u64) -> (r: u64)
    ensures
        r == mix_spec(x),
{
    let mut x = x;
    x ^= x >> 30u64;
    x = x.wrapping_mul(0xbf58476d1ce4e5b9u64);
    x ^= x >> 27u64;
    x = x.wrapping_mul(0x94d049bb133111ebu64);
    x ^ (x >> 31u64)
}

} // verus!
