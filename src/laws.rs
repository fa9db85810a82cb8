use crate::algorithms::{
    bit_shift_result, brute_force_result, in_window, is_first_in_window, is_sorted_keys_of,
    is_window_closest, key_point, optimized_result, packed_keys, ClosestPairError, PairResult,
};
use crate::pairs::{is_pair, lemma_pair_of_permutation, lemma_sorted_unique};
use crate::utils::{dist_sq, lemma_dist_sq_zero, lemma_round_trip, packed_key, valid_bits, Point};
use vstd::arithmetic::div_mod::lemma_small_mod;
use vstd::arithmetic::power2::{lemma2_to64, pow2};
use vstd::prelude::*;

verus! {

/// The divide-and-conquer search never reports a distance below the true
/// minimum that the exhaustive search reports, and on at most three points
/// both report the same distance.
pub proof fn lemma_optimized_agrees_with_brute_force(s: Seq<Point>, ro: PairResult, rb: PairResult)
    requires
        optimized_result(s, Ok::<PairResult, ClosestPairError>(ro)),
        brute_force_result(s, Ok::<PairResult, ClosestPairError>(rb)),
    ensures
        rb.2 <= ro.2,
        s.len() <= 3 ==> ro.2 == rb.2,
{
    let (i, j) = choose|i: int, j: int|
        0 <= i < s.len() && 0 <= j < s.len() && i != j && #[trigger] s[i] == ro.0 && #[trigger] s[j]
            == ro.1;
    if i < j {
        assert(rb.2 <= dist_sq(s[i], s[j]));
    } else {
        assert(rb.2 <= dist_sq(s[j], s[i]));
    }
    if s.len() <= 3 {
        let (k, l) = choose|k: int, l: int|
            0 <= k < l < s.len() && #[trigger] s[k] == rb.0 && #[trigger] s[l] == rb.1;
        assert(ro.2 <= dist_sq(s[k], s[l]));
    }
}

/// All coordinates of `s` fit in `bits` bits.
pub open spec fn fits_in(s: Seq<Point>, bits: nat) -> bool {
    forall|i: int| 0 <= i < s.len() ==> #[trigger] s[i].x < pow2(bits) && s[i].y < pow2(bits)
}

/// Where no coordinate is truncated, each compared key stands for a point of
/// the input.
proof fn lemma_key_is_input_point(s: Seq<Point>, bits: nat, sk: Seq<u64>, a: u64, b: u64)
    requires
        valid_bits(bits),
        fits_in(s, bits),
        sk.to_multiset() == packed_keys(s, bits).to_multiset(),
        is_pair(sk, a, b),
    ensures
        is_pair(s, key_point(a, bits), key_point(b, bits)),
{
    let keys = packed_keys(s, bits);
    lemma_pair_of_permutation(sk, keys, a, b);
    let (k, l) = choose|k: int, l: int|
        0 <= k < keys.len() && 0 <= l < keys.len() && k != l && #[trigger] keys[k] == a
            && #[trigger] keys[l] == b;
    lemma_key_point_of_fitting(s[k], bits);
    lemma_key_point_of_fitting(s[l], bits);
    assert(s[k] == key_point(a, bits) && s[l] == key_point(b, bits));
}

proof fn lemma_full_width_fits(s: Seq<Point>)
    ensures
        fits_in(s, 32),
{
    lemma2_to64();
}

/// A point whose coordinates fit in `bits` bits is what its key stands for.
proof fn lemma_key_point_of_fitting(p: Point, bits: nat)
    requires
        valid_bits(bits),
        p.x < pow2(bits),
        p.y < pow2(bits),
    ensures
        key_point(packed_key(p.x as nat, p.y as nat, bits) as u64, bits) == p,
        packed_key(p.x as nat, p.y as nat, bits) == p.x * pow2(bits) + p.y,
        packed_key(p.x as nat, p.y as nat, bits) <= 0xffff_ffff_ffff_ffff,
{
    lemma_small_mod(p.x as nat, pow2(bits));
    lemma_small_mod(p.y as nat, pow2(bits));
    lemma_round_trip(p.x as nat, p.y as nat, bits);
    lemma2_to64();
    if bits < 32 {
        vstd::arithmetic::power2::lemma_pow2_strictly_increases(bits, 32);
    }
    assert(packed_key(p.x as nat, p.y as nat, bits) <= 0xffff_ffff_ffff_ffff) by (nonlinear_arith)
        requires
            packed_key(p.x as nat, p.y as nat, bits) == (p.x as nat % pow2(bits)) * pow2(bits) + (
            p.y as nat % pow2(bits)),
            pow2(bits) <= 0x1_0000_0000,
            p.x as nat % pow2(bits) < pow2(bits),
            p.y as nat % pow2(bits) < pow2(bits),
    ;
}

/// With full-width fields the packed-key scan never reports a distance below
/// the true minimum, and on at most 33 points, where every two keys are
/// compared, it reports the true minimum.
pub proof fn lemma_bit_shift_full_width(s: Seq<Point>, r: PairResult, rb: PairResult)
    requires
        bit_shift_result(s, 32, Ok::<PairResult, ClosestPairError>(r)),
        brute_force_result(s, Ok::<PairResult, ClosestPairError>(rb)),
    ensures
        rb.2 <= r.2,
        s.len() <= 33 ==> r.2 == rb.2,
{
    let sk = choose|sk: Seq<u64>|
        #[trigger] is_sorted_keys_of(sk, s, 32) && is_window_closest(sk, 32, r.0, r.1, r.2 as nat);
    let (i, j) = choose|i: int, j: int|
        in_window(sk.len() as int, 32, i, j) && #[trigger] key_point(sk[i], 32) == r.0
            && #[trigger] key_point(sk[j], 32) == r.1;
    assert(is_pair(sk, sk[i], sk[j]));
    lemma_full_width_fits(s);
    lemma_key_is_input_point(s, 32, sk, sk[i], sk[j]);
    let (u, v) = choose|u: int, v: int|
        0 <= u < s.len() && 0 <= v < s.len() && u != v && #[trigger] s[u] == r.0 && #[trigger] s[v]
            == r.1;
    if u < v {
        assert(rb.2 <= dist_sq(s[u], s[v]));
    } else {
        assert(rb.2 <= dist_sq(s[v], s[u]));
    }
    if s.len() <= 33 {
        let keys = packed_keys(s, 32);
        let (k, l) = choose|k: int, l: int|
            0 <= k < l < s.len() && #[trigger] s[k] == rb.0 && #[trigger] s[l] == rb.1;
        assert(is_pair(keys, keys[k], keys[l]));
        lemma_pair_of_permutation(keys, sk, keys[k], keys[l]);
        let (a, b) = choose|a: int, b: int|
            0 <= a < sk.len() && 0 <= b < sk.len() && a != b && #[trigger] sk[a] == keys[k]
                && #[trigger] sk[b] == keys[l];
        lemma2_to64();
        vstd::seq_lib::to_multiset_len(sk);
        vstd::seq_lib::to_multiset_len(keys);
        lemma_key_point_of_fitting(s[k], 32);
        lemma_key_point_of_fitting(s[l], 32);
        if a < b {
            assert(r.2 <= dist_sq(key_point(sk[a], 32), key_point(sk[b], 32)));
        } else {
            assert(r.2 <= dist_sq(key_point(sk[b], 32), key_point(sk[a], 32)));
        }
    }
}

/// With full-width fields the packed-key scan reports the true minimum
/// whenever some closest pair lies within one window of the sorted keys.
pub proof fn lemma_bit_shift_full_width_window(
    s: Seq<Point>,
    sk: Seq<u64>,
    k: int,
    l: int,
    r: PairResult,
    rb: PairResult,
)
    requires
        bit_shift_result(s, 32, Ok::<PairResult, ClosestPairError>(r)),
        brute_force_result(s, Ok::<PairResult, ClosestPairError>(rb)),
        is_sorted_keys_of(sk, s, 32),
        in_window(sk.len() as int, 32, k, l),
        dist_sq(key_point(sk[k], 32), key_point(sk[l], 32)) == rb.2,
    ensures
        r.2 == rb.2,
{
    lemma_bit_shift_full_width(s, r, rb);
    let sk2 = choose|sk2: Seq<u64>|
        #[trigger] is_sorted_keys_of(sk2, s, 32) && is_window_closest(sk2, 32, r.0, r.1, r.2 as nat);
    lemma_sorted_unique(sk, sk2);
    assert(r.2 <= dist_sq(key_point(sk[k], 32), key_point(sk[l], 32)));
}

/// On two points the exhaustive search reports exactly those two, in order,
/// with their distance.
pub proof fn lemma_two_points_brute_force(s: Seq<Point>, rb: PairResult)
    requires
        s.len() == 2,
        brute_force_result(s, Ok::<PairResult, ClosestPairError>(rb)),
    ensures
        rb.0 == s[0],
        rb.1 == s[1],
        rb.2 == dist_sq(s[0], s[1]),
{
}

/// On two points the divide-and-conquer search reports exactly those two,
/// in either order, with their distance.
pub proof fn lemma_two_points_optimized(s: Seq<Point>, ro: PairResult)
    requires
        s.len() == 2,
        optimized_result(s, Ok::<PairResult, ClosestPairError>(ro)),
    ensures
        (ro.0 == s[0] && ro.1 == s[1]) || (ro.0 == s[1] && ro.1 == s[0]),
        ro.2 == dist_sq(s[0], s[1]),
{
}

/// On two points whose coordinates fit in the field width, the packed-key
/// scan reports exactly those two with their distance, the one that comes
/// first in (x, y) order first.
pub proof fn lemma_two_points_bit_shift(s: Seq<Point>, bits: nat, r: PairResult)
    requires
        s.len() == 2,
        valid_bits(bits),
        fits_in(s, bits),
        bit_shift_result(s, bits, Ok::<PairResult, ClosestPairError>(r)),
    ensures
        (r.0 == s[0] && r.1 == s[1]) || (r.0 == s[1] && r.1 == s[0]),
        r.2 == dist_sq(s[0], s[1]),
        r.0.x < r.1.x || (r.0.x == r.1.x && r.0.y <= r.1.y),
{
    let sk = choose|sk: Seq<u64>|
        #[trigger] is_sorted_keys_of(sk, s, bits) && is_window_closest(sk, bits, r.0, r.1, r.2 as nat);
    let (i, j) = choose|i: int, j: int|
        in_window(sk.len() as int, bits, i, j) && #[trigger] key_point(sk[i], bits) == r.0
            && #[trigger] key_point(sk[j], bits) == r.1;
    assert(is_pair(sk, sk[i], sk[j]));
    lemma_key_is_input_point(s, bits, sk, sk[i], sk[j]);
    let keys = packed_keys(s, bits);
    lemma_pair_of_permutation(sk, keys, sk[i], sk[j]);
    let (k, l) = choose|k: int, l: int|
        0 <= k < keys.len() && 0 <= l < keys.len() && k != l && #[trigger] keys[k] == sk[i]
            && #[trigger] keys[l] == sk[j];
    lemma_key_point_of_fitting(s[k], bits);
    lemma_key_point_of_fitting(s[l], bits);
    let a = s[k];
    let b = s[l];
    assert(a == r.0 && b == r.1);
    assert(sk[i] <= sk[j]);
    let p = pow2(bits);
    assert(a.x < b.x || (a.x == b.x && a.y <= b.y)) by (nonlinear_arith)
        requires
            a.x * p + a.y <= b.x * p + b.y,
            a.y < p,
            b.y < p,
    ;
}

/// A point at two positions of the input makes the exhaustive search report
/// distance zero.
pub proof fn lemma_duplicate_brute_force(s: Seq<Point>, p: Point, rb: PairResult)
    requires
        is_pair(s, p, p),
        brute_force_result(s, Ok::<PairResult, ClosestPairError>(rb)),
    ensures
        rb.2 == 0,
{
    let (i, j) = choose|i: int, j: int|
        0 <= i < s.len() && 0 <= j < s.len() && i != j && #[trigger] s[i] == p && #[trigger] s[j]
            == p;
    lemma_dist_sq_zero(p, p);
    if i < j {
        assert(rb.2 <= dist_sq(s[i], s[j]));
    } else {
        assert(rb.2 <= dist_sq(s[j], s[i]));
    }
}

/// A point at two positions of the input makes the divide-and-conquer search
/// report distance zero.
pub proof fn lemma_duplicate_optimized(s: Seq<Point>, p: Point, ro: PairResult)
    requires
        is_pair(s, p, p),
        optimized_result(s, Ok::<PairResult, ClosestPairError>(ro)),
    ensures
        ro.2 == 0,
{
}

/// A point at two positions of the input makes the packed-key scan report
/// distance zero, whatever the field width: equal keys end up side by side.
pub proof fn lemma_duplicate_bit_shift(s: Seq<Point>, bits: nat, p: Point, r: PairResult)
    requires
        valid_bits(bits),
        is_pair(s, p, p),
        bit_shift_result(s, bits, Ok::<PairResult, ClosestPairError>(r)),
    ensures
        r.2 == 0,
{
    let sk = choose|sk: Seq<u64>|
        #[trigger] is_sorted_keys_of(sk, s, bits) && is_window_closest(sk, bits, r.0, r.1, r.2 as nat);
    let keys = packed_keys(s, bits);
    let (i, j) = choose|i: int, j: int|
        0 <= i < s.len() && 0 <= j < s.len() && i != j && #[trigger] s[i] == p && #[trigger] s[j]
            == p;
    assert(keys[i] == keys[j]);
    assert(is_pair(keys, keys[i], keys[i]));
    lemma_pair_of_permutation(keys, sk, keys[i], keys[i]);
    let (u, v) = choose|u: int, v: int|
        0 <= u < sk.len() && 0 <= v < sk.len() && u != v && #[trigger] sk[u] == keys[i]
            && #[trigger] sk[v] == keys[i];
    let lo = if u < v {
        u
    } else {
        v
    };
    let hi = if u < v {
        v
    } else {
        u
    };
    assert(sk[lo] <= sk[lo + 1] <= sk[hi]);
    assert(in_window(sk.len() as int, bits, lo, lo + 1));
    let q = key_point(sk[lo], bits);
    assert(key_point(sk[lo + 1], bits) == q);
    lemma_dist_sq_zero(q, q);
    assert(r.2 <= dist_sq(key_point(sk[lo], bits), key_point(sk[lo + 1], bits)));
}

/// Packing the points of two sequences with the same elements gives keys
/// with the same elements.
proof fn lemma_packed_keys_permutation(s1: Seq<Point>, s2: Seq<Point>, bits: nat)
    requires
        s1.to_multiset() == s2.to_multiset(),
    ensures
        packed_keys(s1, bits).to_multiset() == packed_keys(s2, bits).to_multiset(),
    decreases s1.len(),
{
    broadcast use vstd::seq_lib::group_to_multiset_ensures;
    broadcast use vstd::multiset::group_multiset_axioms;

    assert(s1.len() == s1.to_multiset().len());
    assert(s2.len() == s2.to_multiset().len());
    if s1.len() == 0 {
        assert(packed_keys(s1, bits) =~= Seq::<u64>::empty());
        assert(packed_keys(s2, bits) =~= Seq::<u64>::empty());
    } else {
        let n = s1.len() - 1;
        let x = s1[n];
        let t1 = s1.drop_last();
        assert(s1 =~= t1.push(x));
        vstd::seq_lib::to_multiset_build(t1, x);
        assert(s1.to_multiset().count(x) > 0);
        assert(s2.contains(x));
        let i = choose|i: int| 0 <= i < s2.len() && s2[i] == x;
        let t2 = s2.remove(i);
        vstd::seq_lib::to_multiset_remove(s2, i);
        assert(t1.to_multiset() =~= t2.to_multiset()) by {
            assert forall|y: Point| t1.to_multiset().count(y) == t2.to_multiset().count(y) by {
                assert(s1.to_multiset().count(y) == s2.to_multiset().count(y));
            }
        }
        lemma_packed_keys_permutation(t1, t2, bits);
        let k1 = packed_keys(s1, bits);
        let k2 = packed_keys(s2, bits);
        let kx = k1[n];
        assert(packed_keys(t1, bits).push(kx) =~= k1);
        assert(packed_keys(t2, bits) =~= k2.remove(i));
        assert(k2[i] == kx);
        vstd::seq_lib::to_multiset_build(packed_keys(t1, bits), kx);
        vstd::seq_lib::to_multiset_remove(k2, i);
        assert(k2.to_multiset().count(kx) > 0) by {
            assert(k2.contains(kx));
        }
        assert(k1.to_multiset() =~= k2.to_multiset()) by {
            assert forall|y: u64| k1.to_multiset().count(y) == k2.to_multiset().count(y) by {
                assert(k1.to_multiset().count(y) == packed_keys(t1, bits).to_multiset().count(y)
                    + if y == kx {
                    1int
                } else {
                    0int
                });
                assert(k2.remove(i).to_multiset().count(y) == k2.to_multiset().count(y) - if y
                    == kx {
                    1int
                } else {
                    0int
                });
            }
        }
    }
}

/// The packed-key scan depends on the input's points only, not on their
/// order: reordering the input gives the same result.
pub proof fn lemma_bit_shift_permutation(
    s1: Seq<Point>,
    s2: Seq<Point>,
    bits: nat,
    r1: PairResult,
    r2: PairResult,
)
    requires
        valid_bits(bits),
        s1.to_multiset() == s2.to_multiset(),
        bit_shift_result(s1, bits, Ok::<PairResult, ClosestPairError>(r1)),
        bit_shift_result(s2, bits, Ok::<PairResult, ClosestPairError>(r2)),
    ensures
        r1 == r2,
{
    let sk1 = choose|sk: Seq<u64>|
        #[trigger] is_sorted_keys_of(sk, s1, bits) && is_window_closest(
            sk,
            bits,
            r1.0,
            r1.1,
            r1.2 as nat,
        );
    let sk2 = choose|sk: Seq<u64>|
        #[trigger] is_sorted_keys_of(sk, s2, bits) && is_window_closest(
            sk,
            bits,
            r2.0,
            r2.1,
            r2.2 as nat,
        );
    lemma_packed_keys_permutation(s1, s2, bits);
    lemma_sorted_unique(sk1, sk2);
    lemma_window_closest_unique(sk1, bits, r1, r2);
}

proof fn lemma_window_closest_unique(sk: Seq<u64>, bits: nat, r1: PairResult, r2: PairResult)
    requires
        is_window_closest(sk, bits, r1.0, r1.1, r1.2 as nat),
        is_window_closest(sk, bits, r2.0, r2.1, r2.2 as nat),
    ensures
        r1 == r2,
{
    let (i1, j1) = choose|i: int, j: int|
        in_window(sk.len() as int, bits, i, j) && #[trigger] key_point(sk[i], bits) == r1.0
            && #[trigger] key_point(sk[j], bits) == r1.1 && is_first_in_window(
            sk,
            bits,
            i,
            j,
            r1.2 as nat,
        );
    let (i2, j2) = choose|i: int, j: int|
        in_window(sk.len() as int, bits, i, j) && #[trigger] key_point(sk[i], bits) == r2.0
            && #[trigger] key_point(sk[j], bits) == r2.1 && is_first_in_window(
            sk,
            bits,
            i,
            j,
            r2.2 as nat,
        );
    let d12 = dist_sq(key_point(sk[i2], bits), key_point(sk[j2], bits));
    let d11 = dist_sq(key_point(sk[i1], bits), key_point(sk[j1], bits));
    assert(r1.2 <= d12);
    assert(r2.2 <= d11);
    assert(i1 == i2 && j1 == j2) by {
        reveal(is_first_in_window);
        if i1 < i2 || (i1 == i2 && j1 < j2) {
            assert(r2.2 < d11);
        } else if i2 < i1 || (i2 == i1 && j2 < j1) {
            assert(r1.2 < d12);
        }
    }
}

} // verus!
