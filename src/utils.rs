use vstd::arithmetic::power2::pow2;
use vstd::arithmetic::div_mod::{lemma_fundamental_div_mod_converse, lemma_small_mod};
use vstd::arithmetic::power2::lemma_pow2_pos;
use vstd::bits::{
    lemma_u64_low_bits_mask_is_mod, lemma_u64_pow2_no_overflow, lemma_u64_shl_is_mul,
    lemma_u64_shr_is_div, low_bits_mask,
};
use vstd::prelude::*;

verus! {

/// A 2D point with unsigned integer coordinates.
#[derive(Debug, Clone, Copy, PartialEq, Eq, Structural)]
pub struct Point {
    pub x: u32,
    pub y: u32,
}

/// Absolute difference of two coordinates.
pub open spec fn abs_diff(a: u32, b: u32) -> nat {
    if a >= b {
        (a - b) as nat
    } else {
        (b - a) as nat
    }
}

/// Squared Euclidean distance between two points.
pub open spec fn dist_sq(p: Point, q: Point) -> nat {
    abs_diff(p.x, q.x) * abs_diff(p.x, q.x) + abs_diff(p.y, q.y) * abs_diff(p.y, q.y)
}

/// The low `bits` bits of `v`.
pub open spec fn truncated(v: nat, bits: nat) -> nat {
    v % pow2(bits)
}

/// The key holding the low `bits` bits of `a` above the low `bits` bits of `b`.
pub open spec fn packed_key(a: nat, b: nat, bits: nat) -> nat {
    truncated(a, bits) * pow2(bits) + truncated(b, bits)
}

/// The two `bits`-wide fields of a key: the upper one first.
pub open spec fn unpacked(key: nat, bits: nat) -> (nat, nat) {
    ((key / pow2(bits)) % pow2(bits), key % pow2(bits))
}

/// A valid field width for a 64-bit key.
pub open spec fn valid_bits(bits: nat) -> bool {
    1 <= bits <= 32
}

proof fn lemma_pow2_as_shift(bits: u8)
    requires
        bits <= 32,
    ensures
        (1u64 << bits) == pow2(bits as nat),
        1 <= pow2(bits as nat) <= 0x1_0000_0000,
        low_bits_mask(bits as nat) == pow2(bits as nat) - 1,
{
    lemma_pow2_pos(bits as nat);
    lemma_u64_pow2_no_overflow(bits as nat);
    lemma_u64_shl_is_mul(1, bits as u64);
    assert((1u64 << bits) <= 0x1_0000_0000u64) by (bit_vector)
        requires
            bits <= 32,
    ;
}

/// Squared Euclidean distance between two points, computed exactly.
///
/// The coordinate differences are taken as absolute differences, so that
/// neither order of the points can wrap around.
pub fn eucid_distance(p1: &Point, p2: &Point) -> (r: u128)
    ensures
        r == dist_sq(*p1, *p2),
{
    let dx: u32 = if p1.x >= p2.x { p1.x - p2.x } else { p2.x - p1.x };
    let dy: u32 = if p1.y >= p2.y { p1.y - p2.y } else { p2.y - p1.y };
    proof {
        assert((dx as u128) * (dx as u128) <= 0xffff_ffff_ffff_ffff) by (nonlinear_arith)
            requires
                dx <= 0xffff_ffff,
        ;
        assert((dy as u128) * (dy as u128) <= 0xffff_ffff_ffff_ffff) by (nonlinear_arith)
            requires
                dy <= 0xffff_ffff,
        ;
    }
    let dx2: u128 = (dx as u128) * (dx as u128);
    let dy2: u128 = (dy as u128) * (dy as u128);
    dx2 + dy2
}

/// Packs two numbers into one key, `bits` bits for each.
///
/// The low `bits` bits of `num1` form the upper field and those of `num2` the
/// lower one; higher bits are dropped. Keys therefore order pairs
/// lexicographically by their truncated values.
pub fn pack_numbers(num1: u32, num2: u32, bits: u8) -> (r: u64)
    requires
        valid_bits(bits as nat),
    ensures
        r == packed_key(num1 as nat, num2 as nat, bits as nat),
{
    proof {
        lemma_pow2_as_shift(bits);
    }
    let p: u64 = 1u64 << bits;
    let mask: u64 = p - 1;
    let a: u64 = num1 as u64;
    let b: u64 = num2 as u64;
    let hi: u64 = a & mask;
    let lo: u64 = b & mask;
    proof {
        lemma_u64_low_bits_mask_is_mod(a, bits as nat);
        lemma_u64_low_bits_mask_is_mod(b, bits as nat);
        assert(hi * p <= 0xffff_ffff_ffff_ffff) by (nonlinear_arith)
            requires
                hi < p,
                p <= 0x1_0000_0000,
        ;
        lemma_u64_shl_is_mul(hi, bits as u64);
        assert((hi << bits) | lo == (hi << bits) + lo) by (bit_vector)
            requires
                bits <= 32,
                hi < (1u64 << bits),
                lo < (1u64 << bits),
        ;
    }
    (hi << bits) | lo
}

/// Splits a key made by `pack_numbers` into its two `bits`-wide fields.
pub fn unpack_numbers(packed: u64, bits: u8) -> (r: (u32, u32))
    requires
        valid_bits(bits as nat),
    ensures
        (r.0 as nat, r.1 as nat) == unpacked(packed as nat, bits as nat),
{
    proof {
        lemma_pow2_as_shift(bits);
    }
    let p: u64 = 1u64 << bits;
    let mask: u64 = p - 1;
    let num1: u64 = (packed >> bits) & mask;
    let num2: u64 = packed & mask;
    proof {
        lemma_u64_shr_is_div(packed, bits as u64);
        lemma_u64_low_bits_mask_is_mod(packed >> bits, bits as nat);
        lemma_u64_low_bits_mask_is_mod(packed, bits as nat);
    }
    (num1 as u32, num2 as u32)
}

/// The squared distance is zero exactly between equal points.
pub proof fn lemma_dist_sq_zero(p: Point, q: Point)
    ensures
        dist_sq(p, q) == 0 <==> p == q,
{
    let dx = abs_diff(p.x, q.x);
    let dy = abs_diff(p.y, q.y);
    assert(dx * dx == 0 <==> dx == 0) by (nonlinear_arith);
    assert(dy * dy == 0 <==> dy == 0) by (nonlinear_arith);
    assert(dx * dx >= 0 && dy * dy >= 0) by (nonlinear_arith);
}

/// Unpacking a packed key gives back both numbers truncated to `bits` bits.
pub proof fn lemma_truncation(a: nat, b: nat, bits: nat)
    requires
        valid_bits(bits),
    ensures
        unpacked(packed_key(a, b, bits), bits) == (truncated(a, bits), truncated(b, bits)),
{
    let p = pow2(bits);
    lemma_pow2_pos(bits);
    let key = packed_key(a, b, bits);
    lemma_fundamental_div_mod_converse(key as int, p as int, (a % p) as int, (b % p) as int);
    lemma_small_mod(a % p, p);
}

/// Numbers that fit in `bits` bits come back unchanged from packing and unpacking.
pub proof fn lemma_round_trip(a: nat, b: nat, bits: nat)
    requires
        valid_bits(bits),
        a < pow2(bits),
        b < pow2(bits),
    ensures
        unpacked(packed_key(a, b, bits), bits) == (a, b),
{
    lemma_truncation(a, b, bits);
    lemma_small_mod(a, pow2(bits));
    lemma_small_mod(b, pow2(bits));
}

} // verus!
