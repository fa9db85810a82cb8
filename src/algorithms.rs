use crate::pairs::{
    is_pair, is_sorted, is_subsequence_map, lemma_pair_of_permutation, lemma_pairs_within_trans,
    lemma_subsequence_pairs, pairs_within, sort_keys,
};
use crate::utils::{
    dist_sq, eucid_distance, lemma_dist_sq_zero, lemma_round_trip, pack_numbers, packed_key,
    unpack_numbers, unpacked, valid_bits, Point,
};
use vstd::arithmetic::div_mod::{lemma_div_is_ordered, lemma_fundamental_div_mod, lemma_small_mod};
use vstd::arithmetic::power2::lemma2_to64;
use vstd::seq_lib::group_to_multiset_ensures;
use vstd::prelude::*;

verus! {

/// Why a closest pair could not be computed.
#[derive(Debug, Clone, Copy, PartialEq, Eq, Structural)]
pub enum ClosestPairError {
    /// Fewer than two points were given.
    InvalidInput,
}

/// A pair found by a search: the two points and their squared distance.
pub type PairResult = (Point, Point, u128);

/// `a` stands before `b` in `s`.
pub open spec fn is_ordered_pair(s: Seq<Point>, a: Point, b: Point) -> bool {
    exists|i: int, j: int| 0 <= i < j < s.len() && #[trigger] s[i] == a && #[trigger] s[j] == b
}

/// No two positions of `s` hold points closer than `d` (squared).
pub open spec fn is_min_dist(s: Seq<Point>, d: nat) -> bool {
    forall|i: int, j: int| 0 <= i < j < s.len() ==> d <= #[trigger] dist_sq(s[i], s[j])
}

/// `(a, b)` is a pair of `s` at the smallest squared distance `d`.
pub open spec fn is_closest_pair(s: Seq<Point>, a: Point, b: Point, d: nat) -> bool {
    &&& is_ordered_pair(s, a, b)
    &&& d == dist_sq(a, b)
    &&& is_min_dist(s, d)
}

/// `(a, b)` stands at positions `i < j` of `s` at squared distance `d`, and
/// every pair of positions before `(i, j)`, in lexicographic order, is
/// farther apart than `d`.
pub open spec fn is_first_at_distance(s: Seq<Point>, a: Point, b: Point, d: nat) -> bool {
    exists|i: int, j: int|
        0 <= i < j < s.len() && #[trigger] s[i] == a && #[trigger] s[j] == b && forall|u: int, v: int|
            0 <= u < v < s.len() && (u < i || (u == i && v < j)) ==> d < #[trigger] dist_sq(
                s[u],
                s[v],
            )
}

/// What the exhaustive search returns on `s`: the closest pair, the first
/// one in the order of comparison where several tie.
pub open spec fn brute_force_result(s: Seq<Point>, r: Result<PairResult, ClosestPairError>) -> bool {
    match r {
        Ok((a, b, d)) => {
            &&& s.len() >= 2
            &&& is_closest_pair(s, a, b, d as nat)
            &&& is_first_at_distance(s, a, b, d as nat)
        },
        Err(e) => s.len() < 2 && e == ClosestPairError::InvalidInput,
    }
}

/// The closest pair among `points[lo..hi]`, the first such pair in the order
/// of comparison.
fn closest_in_range(points: &[Point], lo: usize, hi: usize) -> (r: PairResult)
    requires
        lo + 2 <= hi <= points@.len(),
    ensures
        is_closest_pair(points@.subrange(lo as int, hi as int), r.0, r.1, r.2 as nat),
        is_first_at_distance(points@.subrange(lo as int, hi as int), r.0, r.1, r.2 as nat),
{
    let mut best_a: Point = points[lo];
    let mut best_b: Point = points[lo + 1];
    let mut best: u128 = eucid_distance(&points[lo], &points[lo + 1]);
    let ghost mut bi: int = lo as int;
    let ghost mut bj: int = lo + 1;
    let mut i: usize = lo;
    while i < hi
        invariant
            lo + 2 <= hi <= points@.len(),
            lo <= i <= hi,
            lo <= bi < bj < hi,
            points@[bi] == best_a,
            points@[bj] == best_b,
            best == dist_sq(best_a, best_b),
            forall|u: int, v: int|
                lo <= u < i && u < v < hi ==> best <= #[trigger] dist_sq(points@[u], points@[v]),
            bi < i || (i == lo && bi == lo && bj == lo + 1),
            forall|u: int, v: int|
                lo <= u < bi && u < v < hi ==> best < #[trigger] dist_sq(points@[u], points@[v]),
            forall|v: int| bi < v < bj ==> best < #[trigger] dist_sq(points@[bi], points@[v]),
        decreases hi - i,
    {
        let mut j: usize = i + 1;
        while j < hi
            invariant
                lo + 2 <= hi <= points@.len(),
                lo <= i < hi,
                i < j <= hi,
                lo <= bi < bj < hi,
                points@[bi] == best_a,
                points@[bj] == best_b,
                best == dist_sq(best_a, best_b),
                forall|u: int, v: int|
                    lo <= u < i && u < v < hi ==> best <= #[trigger] dist_sq(points@[u], points@[v]),
                forall|v: int| i < v < j ==> best <= #[trigger] dist_sq(points@[i as int], points@[v]),
                bi <= i,
                forall|u: int, v: int|
                    lo <= u < bi && u < v < hi ==> best < #[trigger] dist_sq(points@[u], points@[v]),
                forall|v: int| bi < v < bj ==> best < #[trigger] dist_sq(points@[bi], points@[v]),
                bi < i || bj <= j,
            decreases hi - j,
        {
            let d: u128 = eucid_distance(&points[i], &points[j]);
            if d < best {
                best = d;
                best_a = points[i];
                best_b = points[j];
                proof {
                    bi = i as int;
                    bj = j as int;
                }
            }
            j = j + 1;
        }
        i = i + 1;
    }
    let ghost s = points@.subrange(lo as int, hi as int);
    assert(s[bi - lo] == best_a && s[bj - lo] == best_b);
    assert forall|u: int, v: int| 0 <= u < v < s.len() implies best <= #[trigger] dist_sq(
        s[u],
        s[v],
    ) by {
        assert(s[u] == points@[u + lo] && s[v] == points@[v + lo]);
        assert(best <= dist_sq(points@[u + lo], points@[v + lo]));
    }
    assert forall|u: int, v: int|
        0 <= u < v < s.len() && (u < bi - lo || (u == bi - lo && v < bj - lo)) implies best
        < #[trigger] dist_sq(s[u], s[v]) by {
        assert(s[u] == points@[u + lo] && s[v] == points@[v + lo]);
    }
    (best_a, best_b, best)
}

/// Finds the closest pair by comparing every two positions, each once.
///
/// Of several pairs at the smallest distance, the first one met wins, the
/// positions taken in increasing order.
pub fn closest_pair_brute_force(points: &[Point]) -> (r: Result<PairResult, ClosestPairError>)
    ensures
        brute_force_result(points@, r),
{
    if points.len() < 2 {
        return Err(ClosestPairError::InvalidInput);
    }
    let r = closest_in_range(points, 0, points.len());
    assert(points@.subrange(0, points@.len() as int) =~= points@);
    Ok(r)
}

/// The full-width key that orders points by x (or by y), the other
/// coordinate breaking ties.
pub open spec fn order_key(p: Point, by_y: bool) -> nat {
    if by_y {
        packed_key(p.y as nat, p.x as nat, 32)
    } else {
        packed_key(p.x as nat, p.y as nat, 32)
    }
}

/// The point that a full-width order key stands for.
pub open spec fn order_key_point(k: u64, by_y: bool) -> Point {
    let f = unpacked(k as nat, 32);
    if by_y {
        Point { x: f.1 as u32, y: f.0 as u32 }
    } else {
        Point { x: f.0 as u32, y: f.1 as u32 }
    }
}

/// The coordinate that points are ordered by.
pub open spec fn coord(p: Point, by_y: bool) -> u32 {
    if by_y {
        p.y
    } else {
        p.x
    }
}

proof fn lemma_order_key_inverse(p: Point, k: u64, by_y: bool)
    requires
        k as nat == order_key(p, by_y),
    ensures
        order_key_point(k, by_y) == p,
{
    lemma2_to64();
    if by_y {
        lemma_round_trip(p.y as nat, p.x as nat, 32);
    } else {
        lemma_round_trip(p.x as nat, p.y as nat, 32);
    }
}

proof fn lemma_order_key_monotone(k1: u64, k2: u64, by_y: bool)
    requires
        k1 <= k2,
    ensures
        coord(order_key_point(k1, by_y), by_y) <= coord(order_key_point(k2, by_y), by_y),
{
    lemma2_to64();
    let p: nat = 0x1_0000_0000;
    lemma_div_is_ordered(k1 as int, k2 as int, p as int);
    assert(k1 as nat / p < p);
    assert(k2 as nat / p < p);
    lemma_small_mod(k1 as nat / p, p);
    lemma_small_mod(k2 as nat / p, p);
}

proof fn lemma_order_key_of_point(k: u64, by_y: bool)
    ensures
        order_key(order_key_point(k, by_y), by_y) == k as nat,
{
    lemma2_to64();
    let p: nat = 0x1_0000_0000;
    let hi = k as nat / p;
    let lo = k as nat % p;
    lemma_fundamental_div_mod(k as int, p as int);
    assert(hi < p);
    lemma_small_mod(hi, p);
    lemma_small_mod(lo, p);
}

proof fn lemma_order_key_bound(p: Point, by_y: bool)
    ensures
        order_key(p, by_y) < 0x1_0000_0000_0000_0000,
{
    lemma2_to64();
    let q: nat = 0x1_0000_0000;
    let (a, b) = if by_y {
        (p.y as nat, p.x as nat)
    } else {
        (p.x as nat, p.y as nat)
    };
    lemma_small_mod(a, q);
    lemma_small_mod(b, q);
    assert(a * q + b < 0x1_0000_0000_0000_0000) by (nonlinear_arith)
        requires
            a < q,
            b < q,
            q == 0x1_0000_0000,
    ;
}

/// Points with the same order key are equal.
proof fn lemma_order_key_injective(a: Point, b: Point, by_y: bool)
    requires
        order_key(a, by_y) == order_key(b, by_y),
    ensures
        a == b,
{
    lemma2_to64();
    if by_y {
        lemma_round_trip(a.y as nat, a.x as nat, 32);
        lemma_round_trip(b.y as nat, b.x as nat, 32);
    } else {
        lemma_round_trip(a.x as nat, a.y as nat, 32);
        lemma_round_trip(b.x as nat, b.y as nat, 32);
    }
}

/// A copy of `points` ordered by x, or by y: the same points, each position
/// once, with the ordering coordinate non-decreasing.
fn sorted_copy(points: &Vec<Point>, by_y: bool) -> (r: Vec<Point>)
    ensures
        r@.len() == points@.len(),
        pairs_within(r@, points@),
        pairs_within(points@, r@),
        forall|i: int, j: int|
            0 <= i <= j < r@.len() ==> coord(r@[i], by_y) <= coord(r@[j], by_y),
        forall|i: int, j: int|
            0 <= i <= j < r@.len() ==> order_key(r@[i], by_y) <= order_key(r@[j], by_y),
{
    let n = points.len();
    let mut keys: Vec<u64> = Vec::new();
    let mut i: usize = 0;
    while i < n
        invariant
            n == points@.len(),
            i <= n,
            keys@.len() == i,
            forall|k: int| 0 <= k < i ==> keys@[k] as nat == #[trigger] order_key(points@[k], by_y),
        decreases n - i,
    {
        let p = points[i];
        let k = if by_y {
            pack_numbers(p.y, p.x, 32)
        } else {
            pack_numbers(p.x, p.y, 32)
        };
        keys.push(k);
        i = i + 1;
    }
    let ghost unsorted = keys@;
    sort_keys(&mut keys);
    proof {
        broadcast use group_to_multiset_ensures;

        assert(keys@.len() == keys@.to_multiset().len());
        assert(unsorted.len() == unsorted.to_multiset().len());
    }
    let mut r: Vec<Point> = Vec::new();
    let mut i: usize = 0;
    while i < n
        invariant
            n == points@.len(),
            keys@.len() == n,
            i <= n,
            r@.len() == i,
            forall|k: int| 0 <= k < i ==> r@[k] == #[trigger] order_key_point(keys@[k], by_y),
        decreases n - i,
    {
        let f = unpack_numbers(keys[i], 32);
        let p = if by_y {
            Point { x: f.1, y: f.0 }
        } else {
            Point { x: f.0, y: f.1 }
        };
        r.push(p);
        i = i + 1;
    }
    proof {
        let sk = keys@;
        assert forall|i: int, j: int|
            0 <= i < r@.len() && 0 <= j < r@.len() && i != j implies #[trigger] is_pair(
            points@,
            r@[i],
            r@[j],
        ) by {
            assert(sk[i] == sk[i] && sk[j] == sk[j]);
            assert(is_pair(sk, sk[i], sk[j]));
            lemma_pair_of_permutation(sk, unsorted, sk[i], sk[j]);
            let (k, l) = choose|k: int, l: int|
                0 <= k < unsorted.len() && 0 <= l < unsorted.len() && k != l
                    && #[trigger] unsorted[k] == sk[i] && #[trigger] unsorted[l] == sk[j];
            lemma_order_key_inverse(points@[k], unsorted[k], by_y);
            lemma_order_key_inverse(points@[l], unsorted[l], by_y);
        }
        assert forall|i: int, j: int|
            0 <= i < n && 0 <= j < n && i != j implies #[trigger] is_pair(
            r@,
            points@[i],
            points@[j],
        ) by {
            assert(unsorted[i] == unsorted[i] && unsorted[j] == unsorted[j]);
            assert(is_pair(unsorted, unsorted[i], unsorted[j]));
            lemma_pair_of_permutation(unsorted, sk, unsorted[i], unsorted[j]);
            let (k, l) = choose|k: int, l: int|
                0 <= k < sk.len() && 0 <= l < sk.len() && k != l && #[trigger] sk[k]
                    == unsorted[i] && #[trigger] sk[l] == unsorted[j];
            lemma_order_key_inverse(points@[i], unsorted[i], by_y);
            lemma_order_key_inverse(points@[j], unsorted[j], by_y);
            assert(r@[k] == points@[i] && r@[l] == points@[j]);
        }
        assert forall|i: int, j: int|
            0 <= i <= j < r@.len() implies coord(r@[i], by_y) <= coord(r@[j], by_y) by {
            lemma_order_key_monotone(sk[i], sk[j], by_y);
        }
        assert forall|i: int, j: int|
            0 <= i <= j < r@.len() implies order_key(r@[i], by_y) <= order_key(r@[j], by_y) by {
            lemma_order_key_of_point(sk[i], by_y);
            lemma_order_key_of_point(sk[j], by_y);
        }
    }
    r
}

/// What the divide-and-conquer search returns on `s`: a pair of two of its
/// positions with their squared distance, the closest pair outright when
/// there are at most three points, and distance zero when a point occurs
/// twice.
pub open spec fn optimized_result(s: Seq<Point>, r: Result<PairResult, ClosestPairError>) -> bool {
    match r {
        Ok((a, b, d)) => {
            &&& s.len() >= 2
            &&& is_pair(s, a, b)
            &&& d == dist_sq(a, b)
            &&& s.len() <= 3 ==> is_min_dist(s, d as nat)
            &&& forall|p: Point| #[trigger] is_pair(s, p, p) ==> d == 0
        },
        Err(e) => s.len() < 2 && e == ClosestPairError::InvalidInput,
    }
}

/// The pair reported for a range of the x-ordered points: it stands at two
/// positions of `xs`, or at two positions of `top_y`.
pub open spec fn is_found_pair(
    xs: Seq<Point>,
    top_y: Seq<Point>,
    r: PairResult,
) -> bool {
    &&& r.2 == dist_sq(r.0, r.1)
    &&& is_pair(xs, r.0, r.1) || is_pair(top_y, r.0, r.1)
}

/// `s` is in non-decreasing order of the keys that order points by y.
pub open spec fn is_y_key_sorted(s: Seq<Point>) -> bool {
    forall|i: int, j: int| 0 <= i <= j < s.len() ==> order_key(s[i], true) <= order_key(s[j], true)
}

/// `idx` reaches every position of `top` whose point has its x-order key in
/// `[lowk, highk)`.
pub open spec fn covers_key_range(idx: Seq<int>, top: Seq<Point>, lowk: int, highk: int) -> bool {
    forall|t: int|
        0 <= t < top.len() && lowk <= order_key(#[trigger] top[t], false) < highk ==> exists|u: int|
            0 <= u < idx.len() && #[trigger] idx[u] == t
}

proof fn lemma_sorted_subsequence(sub: Seq<Point>, s: Seq<Point>, idx: Seq<int>)
    requires
        is_subsequence_map(sub, s, idx),
        is_y_key_sorted(s),
    ensures
        is_y_key_sorted(sub),
{
    assert forall|i: int, j: int| 0 <= i <= j < sub.len() implies order_key(sub[i], true)
        <= order_key(sub[j], true) by {
        if i < j {
            assert(idx[i] < idx[j]);
        }
        assert(sub[i] == s[idx[i]] && sub[j] == s[idx[j]]);
    }
}

proof fn lemma_subsequence_compose(a: Seq<Point>, b: Seq<Point>, c: Seq<Point>, ab: Seq<int>, bc: Seq<int>)
    requires
        is_subsequence_map(a, b, ab),
        is_subsequence_map(b, c, bc),
    ensures
        is_subsequence_map(a, c, ab.map_values(|u: int| bc[u])),
{
    let ac = ab.map_values(|u: int| bc[u]);
    assert forall|k: int| 0 <= k < ac.len() implies 0 <= #[trigger] ac[k] < c.len() && a[k]
        == c[ac[k]] by {
        assert(0 <= ab[k] < b.len());
        assert(a[k] == b[ab[k]]);
    }
    assert forall|k: int, l: int| 0 <= k < l < ac.len() implies ac[k] < ac[l] by {
        assert(ab[k] < ab[l]);
        assert(0 <= ab[k] < b.len() && 0 <= ab[l] < b.len());
    }
}

/// Two equal points of a sequence sorted by y-key also stand side by side.
proof fn lemma_adjacent_duplicate(s: Seq<Point>, p: Point) -> (u: int)
    requires
        is_y_key_sorted(s),
        is_pair(s, p, p),
    ensures
        0 <= u,
        u + 1 < s.len(),
        s[u] == p,
        s[u + 1] == p,
{
    let (i, j) = choose|i: int, j: int|
        0 <= i < s.len() && 0 <= j < s.len() && i != j && #[trigger] s[i] == p && #[trigger] s[j]
            == p;
    let u = if i < j {
        i
    } else {
        j
    };
    let v = if i < j {
        j
    } else {
        i
    };
    assert(order_key(s[u], true) <= order_key(s[u + 1], true));
    assert(order_key(s[u + 1], true) <= order_key(s[v], true));
    lemma_order_key_injective(s[u + 1], p, true);
    u
}

/// The recursive step on `xs[lo..hi]`, ordered by x, and `ys`, points of
/// `top_y` ordered by y.
///
/// The range is split at its middle position. Points of `ys` go left when
/// their (x, y) order key is below that of the middle point, so each half of
/// `ys` holds the points of its half of the range; the two can differ only by
/// copies of the middle point, and such a copy already makes the distance
/// zero. After both halves, the points of `ys` that lie within the best
/// distance of the split line, in y order, are each compared with the next
/// six.
///
/// `ys` is a subsequence of `top_y` that keeps every point whose x-order key
/// lies in `[lowk, highk)`; all points of the range have their x-order key in
/// `[lowk, highk]`. A point that occurs twice in the range, with its key in
/// `[lowk, highk)`, makes the result zero.
fn closest_in_halves(
    xs: &Vec<Point>,
    lo: usize,
    hi: usize,
    ys: &Vec<Point>,
    Ghost(top_y): Ghost<Seq<Point>>,
    Ghost(yidx): Ghost<Seq<int>>,
    Ghost(lowk): Ghost<int>,
    Ghost(highk): Ghost<int>,
) -> (r: PairResult)
    requires
        lo + 2 <= hi <= xs@.len(),
        is_subsequence_map(ys@, top_y, yidx),
        covers_key_range(yidx, top_y, lowk, highk),
        is_y_key_sorted(top_y),
        pairs_within(xs@, top_y),
        forall|i: int, j: int|
            0 <= i <= j < xs@.len() ==> order_key(xs@[i], false) <= order_key(xs@[j], false),
        lowk <= order_key(xs@[lo as int], false),
        order_key(xs@[hi - 1], false) <= highk,
    ensures
        is_found_pair(xs@, top_y, r),
        hi - lo <= 3 ==> is_closest_pair(xs@.subrange(lo as int, hi as int), r.0, r.1, r.2 as nat),
        hi - lo <= 3 ==> is_first_at_distance(
            xs@.subrange(lo as int, hi as int),
            r.0,
            r.1,
            r.2 as nat,
        ),
        forall|p: Point|
            #[trigger] is_pair(xs@.subrange(lo as int, hi as int), p, p) && lowk <= order_key(
                p,
                false,
            ) < highk ==> r.2 == 0,
    decreases hi - lo,
{
    proof {
        lemma_subsequence_pairs(ys@, top_y, yidx);
        lemma_sorted_subsequence(ys@, top_y, yidx);
    }
    let n = hi - lo;
    if n <= 3 {
        let r = closest_in_range(xs.as_slice(), lo, hi);
        proof {
            let s = xs@.subrange(lo as int, hi as int);
            let (i, j) = choose|i: int, j: int|
                0 <= i < j < s.len() && #[trigger] s[i] == r.0 && #[trigger] s[j] == r.1;
            assert(xs@[i + lo] == r.0 && xs@[j + lo] == r.1);
            assert forall|p: Point|
                #[trigger] is_pair(s, p, p) && lowk <= order_key(p, false) < highk implies r.2
                == 0 by {
                let (a, b) = choose|a: int, b: int|
                    0 <= a < s.len() && 0 <= b < s.len() && a != b && #[trigger] s[a] == p
                        && #[trigger] s[b] == p;
                lemma_dist_sq_zero(p, p);
                if a < b {
                    assert(r.2 <= dist_sq(s[a], s[b]));
                } else {
                    assert(r.2 <= dist_sq(s[b], s[a]));
                }
            }
        }
        return r;
    }
    let mid = lo + n / 2;
    let midpoint = xs[mid];
    let mid_key = pack_numbers(midpoint.x, midpoint.y, 32);
    let mut ys_left: Vec<Point> = Vec::new();
    let mut ys_right: Vec<Point> = Vec::new();
    let ghost mut li: Seq<int> = Seq::empty();
    let ghost mut ri: Seq<int> = Seq::empty();
    let mut k: usize = 0;
    while k < ys.len()
        invariant
            k <= ys@.len(),
            midpoint == xs@[mid as int],
            mid_key as nat == order_key(midpoint, false),
            is_subsequence_map(ys_left@, ys@, li),
            is_subsequence_map(ys_right@, ys@, ri),
            forall|t: int| 0 <= t < li.len() ==> #[trigger] li[t] < k,
            forall|t: int| 0 <= t < ri.len() ==> #[trigger] ri[t] < k,
            forall|u: int|
                0 <= u < k && order_key(#[trigger] ys@[u], false) < mid_key ==> exists|w: int|
                    0 <= w < li.len() && #[trigger] li[w] == u,
            forall|u: int|
                0 <= u < k && order_key(#[trigger] ys@[u], false) >= mid_key ==> exists|w: int|
                    0 <= w < ri.len() && #[trigger] ri[w] == u,
        decreases ys@.len() - k,
    {
        let p = ys[k];
        let ghost li0 = li;
        let ghost ri0 = ri;
        if pack_numbers(p.x, p.y, 32) < mid_key {
            ys_left.push(p);
            proof {
                li = li.push(k as int);
                assert(li[li.len() - 1] == k);
            }
        } else {
            ys_right.push(p);
            proof {
                ri = ri.push(k as int);
                assert(ri[ri.len() - 1] == k);
            }
        }
        proof {
            assert forall|u: int|
                0 <= u < k + 1 && order_key(#[trigger] ys@[u], false) < mid_key implies exists|w: int|
                0 <= w < li.len() && #[trigger] li[w] == u by {
                if u < k {
                    let w = choose|w: int| 0 <= w < li0.len() && #[trigger] li0[w] == u;
                    assert(li[w] == u);
                } else {
                    assert(li[li.len() - 1] == u);
                }
            }
            assert forall|u: int|
                0 <= u < k + 1 && order_key(#[trigger] ys@[u], false) >= mid_key implies exists|w: int|
                0 <= w < ri.len() && #[trigger] ri[w] == u by {
                if u < k {
                    let w = choose|w: int| 0 <= w < ri0.len() && #[trigger] ri0[w] == u;
                    assert(ri[w] == u);
                } else {
                    assert(ri[ri.len() - 1] == u);
                }
            }
        }
        k = k + 1;
    }
    let ghost lyidx = li.map_values(|u: int| yidx[u]);
    let ghost ryidx = ri.map_values(|u: int| yidx[u]);
    proof {
        lemma_subsequence_compose(ys_left@, ys@, top_y, li, yidx);
        lemma_subsequence_compose(ys_right@, ys@, top_y, ri, yidx);
        assert(order_key(xs@[mid as int], false) <= order_key(xs@[hi - 1], false));
        assert(order_key(xs@[lo as int], false) <= order_key(xs@[mid - 1], false));
        assert(order_key(xs@[mid - 1], false) <= order_key(xs@[mid as int], false));
        assert forall|t: int|
            0 <= t < top_y.len() && lowk <= order_key(#[trigger] top_y[t], false) < mid_key implies exists|w: int|
            0 <= w < lyidx.len() && #[trigger] lyidx[w] == t by {
            let u = choose|u: int| 0 <= u < yidx.len() && #[trigger] yidx[u] == t;
            assert(ys@[u] == top_y[t]);
            assert(order_key(ys@[u], false) < mid_key);
            let w = choose|w: int| 0 <= w < li.len() && #[trigger] li[w] == u;
            assert(lyidx[w] == t);
        }
        assert forall|t: int|
            0 <= t < top_y.len() && mid_key <= order_key(#[trigger] top_y[t], false) < highk implies exists|w: int|
            0 <= w < ryidx.len() && #[trigger] ryidx[w] == t by {
            let u = choose|u: int| 0 <= u < yidx.len() && #[trigger] yidx[u] == t;
            assert(ys@[u] == top_y[t]);
            assert(order_key(ys@[u], false) >= mid_key);
            let w = choose|w: int| 0 <= w < ri.len() && #[trigger] ri[w] == u;
            assert(ryidx[w] == t);
        }
    }
    let left = closest_in_halves(
        xs,
        lo,
        mid,
        &ys_left,
        Ghost(top_y),
        Ghost(lyidx),
        Ghost(lowk),
        Ghost(mid_key as int),
    );
    let right = closest_in_halves(
        xs,
        mid,
        hi,
        &ys_right,
        Ghost(top_y),
        Ghost(ryidx),
        Ghost(mid_key as int),
        Ghost(highk),
    );
    let (mut p1, mut p2, mut delta) = if left.2 < right.2 {
        left
    } else {
        right
    };
    let ghost delta0 = delta;
    // A point lies in the band when its distance to the split line is at
    // most the best distance; squared, no bound can wrap around.
    let mut band: Vec<Point> = Vec::new();
    let ghost mut bi: Seq<int> = Seq::empty();
    let mut k: usize = 0;
    while k < ys.len()
        invariant
            k <= ys@.len(),
            delta == delta0,
            is_subsequence_map(band@, ys@, bi),
            forall|t: int| 0 <= t < bi.len() ==> #[trigger] bi[t] < k,
            forall|u: int|
                0 <= u < k && #[trigger] ys@[u].x == midpoint.x ==> exists|w: int|
                    0 <= w < bi.len() && #[trigger] bi[w] == u,
        decreases ys@.len() - k,
    {
        let p = ys[k];
        let dx: u32 = if p.x >= midpoint.x {
            p.x - midpoint.x
        } else {
            midpoint.x - p.x
        };
        proof {
            assert((dx as u128) * (dx as u128) <= 0xffff_ffff_ffff_ffff) by (nonlinear_arith)
                requires
                    dx <= 0xffff_ffff,
            ;
        }
        let ghost bi0 = bi;
        if (dx as u128) * (dx as u128) <= delta {
            band.push(p);
            proof {
                bi = bi.push(k as int);
                assert(bi[bi.len() - 1] == k);
            }
        }
        proof {
            assert forall|u: int|
                0 <= u < k + 1 && #[trigger] ys@[u].x == midpoint.x implies exists|w: int|
                0 <= w < bi.len() && #[trigger] bi[w] == u by {
                if u < k {
                    let w = choose|w: int| 0 <= w < bi0.len() && #[trigger] bi0[w] == u;
                    assert(bi[w] == u);
                } else {
                    assert(dx == 0);
                    assert((dx as u128) * (dx as u128) == 0) by (nonlinear_arith)
                        requires
                            dx == 0,
                    ;
                    assert(bi[bi.len() - 1] == u);
                }
            }
        }
        k = k + 1;
    }
    proof {
        lemma_subsequence_pairs(band@, ys@, bi);
        lemma_pairs_within_trans(band@, ys@, top_y);
        lemma_sorted_subsequence(band@, ys@, bi);
    }
    let m = band.len();
    let mut i: usize = 0;
    while i < m
        invariant
            m == band@.len(),
            i <= m,
            pairs_within(band@, top_y),
            is_found_pair(xs@, top_y, (p1, p2, delta)),
            delta <= delta0,
            forall|t: int| 0 <= t < i && t + 1 < m ==> delta <= #[trigger] dist_sq(band@[t], band@[t + 1]),
        decreases m - i,
    {
        let end: usize = if m - i > 7 {
            i + 7
        } else {
            m
        };
        let mut j: usize = i + 1;
        while j < end
            invariant
                m == band@.len(),
                i < m,
                end <= m,
                end == m || end == i + 7,
                i < j,
                pairs_within(band@, top_y),
                is_found_pair(xs@, top_y, (p1, p2, delta)),
                delta <= delta0,
                forall|t: int| 0 <= t < i && t + 1 < m ==> delta <= #[trigger] dist_sq(band@[t], band@[t + 1]),
                j > i + 1 ==> delta <= dist_sq(band@[i as int], band@[i + 1]),
            decreases end - j,
        {
            let d = eucid_distance(&band[i], &band[j]);
            if d < delta {
                p1 = band[i];
                p2 = band[j];
                delta = d;
                assert(is_pair(top_y, band@[i as int], band@[j as int]));
            }
            j = j + 1;
        }
        i = i + 1;
    }
    proof {
        let s = xs@.subrange(lo as int, hi as int);
        assert forall|p: Point|
            #[trigger] is_pair(s, p, p) && lowk <= order_key(p, false) < highk implies delta
            == 0 by {
            let (a, b) = choose|a: int, b: int|
                0 <= a < s.len() && 0 <= b < s.len() && a != b && #[trigger] s[a] == p
                    && #[trigger] s[b] == p;
            let sl = xs@.subrange(lo as int, mid as int);
            let sr = xs@.subrange(mid as int, hi as int);
            assert(xs@[a + lo] == p && xs@[b + lo] == p);
            if p != midpoint {
                if order_key(p, false) == order_key(midpoint, false) {
                    lemma_order_key_injective(p, midpoint, false);
                }
                if a + lo < mid {
                    assert(order_key(xs@[a + lo], false) <= order_key(xs@[mid as int], false));
                } else {
                    assert(order_key(xs@[mid as int], false) <= order_key(xs@[a + lo], false));
                }
                if b + lo < mid {
                    assert(order_key(xs@[b + lo], false) <= order_key(xs@[mid as int], false));
                } else {
                    assert(order_key(xs@[mid as int], false) <= order_key(xs@[b + lo], false));
                }
                if a + lo < mid && b + lo < mid {
                    assert(sl[a] == p && sl[b] == p);
                    assert(is_pair(sl, p, p));
                } else {
                    assert(a + lo >= mid && b + lo >= mid);
                    assert(sr[a + lo - mid] == p && sr[b + lo - mid] == p);
                    assert(is_pair(sr, p, p));
                }
            } else {
                assert(is_pair(xs@, p, p));
                assert(is_pair(top_y, p, p));
                let (t1, t2) = choose|t1: int, t2: int|
                    0 <= t1 < top_y.len() && 0 <= t2 < top_y.len() && t1 != t2
                        && #[trigger] top_y[t1] == p && #[trigger] top_y[t2] == p;
                assert(lowk <= order_key(top_y[t1], false) < highk);
                assert(lowk <= order_key(top_y[t2], false) < highk);
                let u1 = choose|u: int| 0 <= u < yidx.len() && #[trigger] yidx[u] == t1;
                let u2 = choose|u: int| 0 <= u < yidx.len() && #[trigger] yidx[u] == t2;
                assert(ys@[u1] == p && ys@[u2] == p);
                let w1 = choose|w: int| 0 <= w < bi.len() && #[trigger] bi[w] == u1;
                let w2 = choose|w: int| 0 <= w < bi.len() && #[trigger] bi[w] == u2;
                assert(band@[w1] == p && band@[w2] == p);
                assert(is_pair(band@, p, p));
                let v = lemma_adjacent_duplicate(band@, p);
                lemma_dist_sq_zero(p, p);
                assert(delta <= dist_sq(band@[v], band@[v + 1]));
            }
        }
    }
    (p1, p2, delta)
}

proof fn lemma_found_pair_of_input(s: Seq<Point>, xs: Seq<Point>, ys: Seq<Point>, r: PairResult)
    requires
        pairs_within(xs, s),
        pairs_within(ys, s),
        is_found_pair(xs, ys, r),
    ensures
        is_pair(s, r.0, r.1),
{
    if is_pair(xs, r.0, r.1) {
        let (i, j) = choose|i: int, j: int|
            0 <= i < xs.len() && 0 <= j < xs.len() && i != j && #[trigger] xs[i] == r.0
                && #[trigger] xs[j] == r.1;
        assert(is_pair(s, xs[i], xs[j]));
    } else {
        let (i, j) = choose|i: int, j: int|
            0 <= i < ys.len() && 0 <= j < ys.len() && i != j && #[trigger] ys[i] == r.0
                && #[trigger] ys[j] == r.1;
        assert(is_pair(s, ys[i], ys[j]));
    }
}

proof fn lemma_min_of_reordering(s: Seq<Point>, t: Seq<Point>, d: nat)
    requires
        pairs_within(s, t),
        is_min_dist(t, d),
    ensures
        is_min_dist(s, d),
{
    assert forall|i: int, j: int| 0 <= i < j < s.len() implies d <= #[trigger] dist_sq(
        s[i],
        s[j],
    ) by {
        assert(is_pair(t, s[i], s[j]));
        let (k, l) = choose|k: int, l: int|
            0 <= k < t.len() && 0 <= l < t.len() && k != l && #[trigger] t[k] == s[i]
                && #[trigger] t[l] == s[j];
        if k < l {
            assert(d <= dist_sq(t[k], t[l]));
        } else {
            assert(d <= dist_sq(t[l], t[k]));
        }
    }
}

/// Searches for the closest pair by divide and conquer, in O(n log n) time.
///
/// The points are first ordered by x and, separately, by y; the search then
/// splits the x-ordered points in halves, solves each, and checks the band
/// around the split line, comparing each band point with the next six.
///
/// What is proved of the result: it is two positions of the input with their
/// distance, the smallest distance when there are at most three points, and
/// zero when a point occurs twice. That it is the smallest distance for more
/// points rests on the geometric bound behind the six comparisons, which is
/// not proved here.
pub fn closest_pair_optimized(points: Vec<Point>) -> (r: Result<PairResult, ClosestPairError>)
    ensures
        optimized_result(points@, r),
{
    if points.len() < 2 {
        return Err(ClosestPairError::InvalidInput);
    }
    let xsorted = sorted_copy(&points, false);
    let ysorted = sorted_copy(&points, true);
    let ghost ident = Seq::new(ysorted@.len(), |t: int| t);
    proof {
        lemma_pairs_within_trans(xsorted@, points@, ysorted@);
        assert forall|t: int|
            0 <= t < ysorted@.len() && 0 <= order_key(#[trigger] ysorted@[t], false)
                < 0x1_0000_0000_0000_0000 implies exists|u: int|
            0 <= u < ident.len() && #[trigger] ident[u] == t by {
            assert(ident[t] == t);
        }
        lemma_order_key_bound(xsorted@[xsorted@.len() - 1], false);
    }
    let r = closest_in_halves(
        &xsorted,
        0,
        xsorted.len(),
        &ysorted,
        Ghost(ysorted@),
        Ghost(ident),
        Ghost(0),
        Ghost(0x1_0000_0000_0000_0000),
    );
    proof {
        lemma_found_pair_of_input(points@, xsorted@, ysorted@, r);
        assert(xsorted@.subrange(0, xsorted@.len() as int) =~= xsorted@);
        assert forall|p: Point| #[trigger] is_pair(points@, p, p) implies r.2 == 0 by {
            assert(is_pair(xsorted@, p, p));
            lemma_order_key_bound(p, false);
        }
        if points@.len() <= 3 {
            lemma_min_of_reordering(points@, xsorted@, r.2 as nat);
        }
    }
    Ok(r)
}

/// The point that a key of two `bits`-wide fields stands for.
pub open spec fn key_point(k: u64, bits: nat) -> Point {
    let f = unpacked(k as nat, bits);
    Point { x: f.0 as u32, y: f.1 as u32 }
}

/// The packed key of each point of `s`, position by position.
pub open spec fn packed_keys(s: Seq<Point>, bits: nat) -> Seq<u64> {
    s.map_values(|p: Point| packed_key(p.x as nat, p.y as nat, bits) as u64)
}

/// Positions `i < j` of `n` sorted keys that the scan compares: `j` is at
/// most `bits` positions after `i`.
pub open spec fn in_window(n: int, bits: nat, i: int, j: int) -> bool {
    0 <= i < j < n && j - i <= bits
}

/// Every compared pair of positions of `sk` that comes before `(i, j)` in the
/// order of comparison is farther apart than `d`.
#[verifier::opaque]
pub open spec fn is_first_in_window(sk: Seq<u64>, bits: nat, i: int, j: int, d: nat) -> bool {
    forall|u: int, v: int|
        in_window(sk.len() as int, bits, u, v) && (u < i || (u == i && v < j)) ==> d
            < #[trigger] dist_sq(key_point(sk[u], bits), key_point(sk[v], bits))
}

/// `(a, b)` is the pair of two compared keys of `sk` at the smallest squared
/// distance `d` among all compared pairs, the first such pair in the order
/// of comparison where several tie.
pub open spec fn is_window_closest(sk: Seq<u64>, bits: nat, a: Point, b: Point, d: nat) -> bool {
    &&& exists|i: int, j: int|
        in_window(sk.len() as int, bits, i, j) && #[trigger] key_point(sk[i], bits) == a
            && #[trigger] key_point(sk[j], bits) == b && is_first_in_window(sk, bits, i, j, d)
    &&& d == dist_sq(a, b)
    &&& forall|i: int, j: int|
        in_window(sk.len() as int, bits, i, j) ==> d <= #[trigger] dist_sq(
            key_point(sk[i], bits),
            key_point(sk[j], bits),
        )
}

/// `sk` is the packed keys of `s` in ascending order.
pub open spec fn is_sorted_keys_of(sk: Seq<u64>, s: Seq<Point>, bits: nat) -> bool {
    is_sorted(sk) && sk.to_multiset() == packed_keys(s, bits).to_multiset()
}

/// What the packed-key scan returns on `s` with fields of `bits` bits.
pub open spec fn bit_shift_result(
    s: Seq<Point>,
    bits: nat,
    r: Result<PairResult, ClosestPairError>,
) -> bool {
    match r {
        Ok(t) => {
            &&& s.len() >= 2
            &&& exists|sk: Seq<u64>|
                #[trigger] is_sorted_keys_of(sk, s, bits) && is_window_closest(
                    sk,
                    bits,
                    t.0,
                    t.1,
                    t.2 as nat,
                )
        },
        Err(e) => s.len() < 2 && e == ClosestPairError::InvalidInput,
    }
}

fn key_to_point(k: u64, bits: u8) -> (p: Point)
    requires
        valid_bits(bits as nat),
    ensures
        p == key_point(k, bits as nat),
{
    let f = unpack_numbers(k, bits);
    Point { x: f.0, y: f.1 }
}

/// Finds a close pair by packing each point into a key with fields of
/// `bits` bits, sorting the keys and comparing each key with the next `bits`
/// keys.
///
/// Sorting keys orders points by x, then y. This is a heuristic: a pair that
/// is closest in the plane need not be near in that order, and with fields
/// narrower than the coordinates the points compared are truncated ones.
pub fn closest_pair_bit_shift(points: Vec<Point>, bits: u8) -> (r: Result<
    PairResult,
    ClosestPairError,
>)
    requires
        valid_bits(bits as nat),
    ensures
        bit_shift_result(points@, bits as nat, r),
{
    let n = points.len();
    if n < 2 {
        return Err(ClosestPairError::InvalidInput);
    }
    let mut keys: Vec<u64> = Vec::new();
    let mut k: usize = 0;
    while k < n
        invariant
            n == points@.len(),
            valid_bits(bits as nat),
            k <= n,
            keys@.len() == k,
            forall|t: int|
                0 <= t < k ==> keys@[t] as nat == #[trigger] packed_key(
                    points@[t].x as nat,
                    points@[t].y as nat,
                    bits as nat,
                ),
        decreases n - k,
    {
        keys.push(pack_numbers(points[k].x, points[k].y, bits));
        k = k + 1;
    }
    assert(keys@ =~= packed_keys(points@, bits as nat));
    let ghost unsorted = keys@;
    sort_keys(&mut keys);
    proof {
        broadcast use group_to_multiset_ensures;

        assert(keys@.len() == keys@.to_multiset().len());
        assert(unsorted.len() == unsorted.to_multiset().len());
    }
    let ghost sk = keys@;
    let ghost b = bits as nat;
    let mut best_a: Point = key_to_point(keys[0], bits);
    let mut best_b: Point = key_to_point(keys[1], bits);
    let mut best: u128 = eucid_distance(&best_a, &best_b);
    let ghost mut bi: int = 0;
    let ghost mut bj: int = 1;
    let mut i: usize = 0;
    while i < n - 1
        invariant
            n == sk.len(),
            n == points@.len(),
            n >= 2,
            keys@ == sk,
            b == bits as nat,
            valid_bits(b),
            i <= n - 1,
            in_window(n as int, b, bi, bj),
            key_point(sk[bi], b) == best_a,
            key_point(sk[bj], b) == best_b,
            best == dist_sq(best_a, best_b),
            forall|u: int, v: int|
                0 <= u < i && in_window(n as int, b, u, v) ==> best <= #[trigger] dist_sq(
                    key_point(sk[u], b),
                    key_point(sk[v], b),
                ),
            bi < i || (i == 0 && bi == 0 && bj == 1),
            forall|u: int, v: int|
                0 <= u < bi && in_window(n as int, b, u, v) ==> best < #[trigger] dist_sq(
                    key_point(sk[u], b),
                    key_point(sk[v], b),
                ),
            forall|v: int|
                bi < v < bj ==> best < #[trigger] dist_sq(key_point(sk[bi], b), key_point(sk[v], b)),
        decreases n - i,
    {
        let p1 = key_to_point(keys[i], bits);
        let end: usize = if n - i > bits as usize + 1 {
            i + bits as usize + 1
        } else {
            n
        };
        let mut j: usize = i + 1;
        while j < end
            invariant
                n == sk.len(),
                keys@ == sk,
                b == bits as nat,
                valid_bits(b),
                i < n - 1,
                i < j,
                end <= n,
                end == n || end == i + b + 1,
                end > i + b || end == n,
                end <= i + b + 1,
                p1 == key_point(sk[i as int], b),
                in_window(n as int, b, bi, bj),
                key_point(sk[bi], b) == best_a,
                key_point(sk[bj], b) == best_b,
                best == dist_sq(best_a, best_b),
                forall|u: int, v: int|
                    0 <= u < i && in_window(n as int, b, u, v) ==> best <= #[trigger] dist_sq(
                        key_point(sk[u], b),
                        key_point(sk[v], b),
                    ),
                forall|v: int|
                    i < v < j ==> best <= #[trigger] dist_sq(p1, key_point(sk[v], b)),
                bi <= i,
                bi < i || bj <= j,
                forall|u: int, v: int|
                    0 <= u < bi && in_window(n as int, b, u, v) ==> best < #[trigger] dist_sq(
                        key_point(sk[u], b),
                        key_point(sk[v], b),
                    ),
                forall|v: int|
                    bi < v < bj ==> best < #[trigger] dist_sq(
                        key_point(sk[bi], b),
                        key_point(sk[v], b),
                    ),
            decreases end - j,
        {
            let p2 = key_to_point(keys[j], bits);
            let d = eucid_distance(&p1, &p2);
            if d < best {
                best = d;
                best_a = p1;
                best_b = p2;
                proof {
                    bi = i as int;
                    bj = j as int;
                }
            }
            j = j + 1;
        }
        assert forall|u: int, v: int|
            0 <= u < i + 1 && in_window(n as int, b, u, v) implies best <= #[trigger] dist_sq(
            key_point(sk[u], b),
            key_point(sk[v], b),
        ) by {
            if u == i {
                assert(i < v < j);
                assert(best <= dist_sq(p1, key_point(sk[v], b)));
            }
        }
        i = i + 1;
    }
    proof {
        reveal(is_first_in_window);
        assert(is_first_in_window(sk, b, bi, bj, best as nat));
    }
    assert(is_window_closest(sk, b, best_a, best_b, best as nat));
    assert(is_sorted_keys_of(sk, points@, b));
    let r: PairResult = (best_a, best_b, best);
    Ok(r)
}

} // verus!
