use vstd::prelude::*;
use vstd::seq_lib::group_to_multiset_ensures;

verus! {

/// `a` and `b` stand at two different positions of `s`.
pub open spec fn is_pair<A>(s: Seq<A>, a: A, b: A) -> bool {
    exists|i: int, j: int|
        0 <= i < s.len() && 0 <= j < s.len() && i != j && #[trigger] s[i] == a && #[trigger] s[j]
            == b
}

/// Every two positions of `sub` hold a pair of `s`.
pub open spec fn pairs_within<A>(sub: Seq<A>, s: Seq<A>) -> bool {
    forall|i: int, j: int|
        0 <= i < sub.len() && 0 <= j < sub.len() && i != j ==> #[trigger] is_pair(
            s,
            sub[i],
            sub[j],
        )
}

/// `s` is in non-decreasing order.
pub open spec fn is_sorted(s: Seq<u64>) -> bool {
    forall|i: int, j: int| 0 <= i <= j < s.len() ==> s[i] <= s[j]
}

/// `idx` maps each position of `sub` to a position of `s` holding the same
/// value, in increasing order: `sub` is a subsequence of `s`.
pub open spec fn is_subsequence_map<A>(sub: Seq<A>, s: Seq<A>, idx: Seq<int>) -> bool {
    &&& idx.len() == sub.len()
    &&& forall|k: int| 0 <= k < idx.len() ==> 0 <= #[trigger] idx[k] < s.len()
    &&& forall|k: int| 0 <= k < idx.len() ==> sub[k] == s[#[trigger] idx[k]]
    &&& forall|k: int, l: int| 0 <= k < l < idx.len() ==> idx[k] < idx[l]
}

/// A value occurs twice in `s` exactly when its count is at least two.
proof fn lemma_dup_count<A>(s: Seq<A>, a: A)
    ensures
        is_pair(s, a, a) <==> s.to_multiset().count(a) >= 2,
    decreases s.len(),
{
    broadcast use group_to_multiset_ensures;

    if s.len() == 0 {
        assert(!is_pair(s, a, a));
    } else {
        let t = s.drop_last();
        let x = s.last();
        assert(s =~= t.push(x));
        lemma_dup_count(t, a);
        let n = s.len() - 1;
        if is_pair(s, a, a) {
            let (i, j) = choose|i: int, j: int|
                0 <= i < s.len() && 0 <= j < s.len() && i != j && #[trigger] s[i] == a
                    && #[trigger] s[j] == a;
            if i < n && j < n {
                assert(t[i] == a && t[j] == a);
                assert(is_pair(t, a, a));
            } else if i == n {
                assert(t[j] == a);
                assert(t.contains(a));
            } else {
                assert(t[i] == a);
                assert(t.contains(a));
            }
        }
        if s.to_multiset().count(a) >= 2 {
            if x == a {
                assert(t.contains(a));
                let k = choose|k: int| 0 <= k < t.len() && t[k] == a;
                assert(s[k] == a && s[n] == a);
            } else {
                let (i, j) = choose|i: int, j: int|
                    0 <= i < t.len() && 0 <= j < t.len() && i != j && #[trigger] t[i] == a
                        && #[trigger] t[j] == a;
                assert(s[i] == a && s[j] == a);
            }
        }
    }
}

/// A pair of one sequence is a pair of every sequence with the same elements.
pub proof fn lemma_pair_of_permutation<A>(s1: Seq<A>, s2: Seq<A>, a: A, b: A)
    requires
        s1.to_multiset() == s2.to_multiset(),
        is_pair(s1, a, b),
    ensures
        is_pair(s2, a, b),
{
    broadcast use group_to_multiset_ensures;

    if a == b {
        lemma_dup_count(s1, a);
        lemma_dup_count(s2, a);
    } else {
        let (i, j) = choose|i: int, j: int|
            0 <= i < s1.len() && 0 <= j < s1.len() && i != j && #[trigger] s1[i] == a
                && #[trigger] s1[j] == b;
        assert(s1.contains(a) && s1.contains(b));
        assert(s1.to_multiset().count(a) > 0 && s1.to_multiset().count(b) > 0);
        assert(s2.to_multiset().count(a) > 0 && s2.to_multiset().count(b) > 0);
        assert(s2.contains(a) && s2.contains(b));
        let k = choose|k: int| 0 <= k < s2.len() && s2[k] == a;
        let l = choose|l: int| 0 <= l < s2.len() && s2[l] == b;
        assert(s2[k] == a && s2[l] == b);
    }
}

/// Pairs carry over along a chain of sequences.
pub proof fn lemma_pairs_within_trans<A>(s1: Seq<A>, s2: Seq<A>, s3: Seq<A>)
    requires
        pairs_within(s1, s2),
        pairs_within(s2, s3),
    ensures
        pairs_within(s1, s3),
{
    assert forall|i: int, j: int|
        0 <= i < s1.len() && 0 <= j < s1.len() && i != j implies #[trigger] is_pair(
        s3,
        s1[i],
        s1[j],
    ) by {
        assert(is_pair(s2, s1[i], s1[j]));
        let (k, l) = choose|k: int, l: int|
            0 <= k < s2.len() && 0 <= l < s2.len() && k != l && #[trigger] s2[k] == s1[i]
                && #[trigger] s2[l] == s1[j];
        assert(is_pair(s3, s2[k], s2[l]));
    }
}

/// A subsequence has only pairs of the whole.
pub proof fn lemma_subsequence_pairs<A>(sub: Seq<A>, s: Seq<A>, idx: Seq<int>)
    requires
        is_subsequence_map(sub, s, idx),
    ensures
        pairs_within(sub, s),
{
    assert forall|i: int, j: int|
        0 <= i < sub.len() && 0 <= j < sub.len() && i != j implies #[trigger] is_pair(
        s,
        sub[i],
        sub[j],
    ) by {
        if i < j {
            assert(idx[i] < idx[j]);
        } else {
            assert(idx[j] < idx[i]);
        }
        assert(s[idx[i]] == sub[i] && s[idx[j]] == sub[j]);
    }
}

/// Two sorted sequences with the same elements are equal.
pub proof fn lemma_sorted_unique(s1: Seq<u64>, s2: Seq<u64>)
    requires
        is_sorted(s1),
        is_sorted(s2),
        s1.to_multiset() == s2.to_multiset(),
    ensures
        s1 == s2,
    decreases s1.len(),
{
    broadcast use group_to_multiset_ensures;
    broadcast use vstd::multiset::group_multiset_axioms;

    assert(s1.len() == s1.to_multiset().len());
    assert(s2.len() == s2.to_multiset().len());
    if s1.len() == 0 {
        assert(s1 =~= s2);
    } else {
        let n = s1.len() - 1;
        let x1 = s1[n];
        let x2 = s2[n];
        assert(s1.to_multiset().count(x1) > 0) by {
            assert(s1.contains(x1));
        }
        assert(s2.contains(x1));
        let k2 = choose|k: int| 0 <= k < s2.len() && s2[k] == x1;
        assert(x1 <= x2);
        assert(s2.to_multiset().count(x2) > 0) by {
            assert(s2.contains(x2));
        }
        assert(s1.contains(x2));
        let k1 = choose|k: int| 0 <= k < s1.len() && s1[k] == x2;
        assert(x2 <= x1);
        let t1 = s1.drop_last();
        let t2 = s2.drop_last();
        assert(s1 =~= t1.push(x1));
        assert(s2 =~= t2.push(x1));
        assert(t1.to_multiset() =~= t2.to_multiset()) by {
            assert forall|y: u64| t1.to_multiset().count(y) == t2.to_multiset().count(y) by {
                vstd::seq_lib::to_multiset_build(t1, x1);
                vstd::seq_lib::to_multiset_build(t2, x1);
                assert(s1.to_multiset() == t1.to_multiset().insert(x1));
                assert(s2.to_multiset() == t2.to_multiset().insert(x1));
                assert(s1.to_multiset().count(y) == s2.to_multiset().count(y));
                assert(t1.to_multiset().insert(x1).count(y) == t1.to_multiset().count(y) + if y
                    == x1 {
                    1int
                } else {
                    0int
                });
                assert(t2.to_multiset().insert(x1).count(y) == t2.to_multiset().count(y) + if y
                    == x1 {
                    1int
                } else {
                    0int
                });
            }
        }
        lemma_sorted_unique(t1, t2);
        assert(s1 =~= s2);
    }
}

/// Sorts keys in ascending order.
///
/// Relies on `slice::sort_unstable`, which reorders the slice into ascending
/// order: the result is a permutation of the input and is sorted.
#[verifier::external_body]
pub(crate) fn sort_keys(v: &mut Vec<u64>)
    ensures
        is_sorted(final(v)@),
        final(v)@.to_multiset() == old(v)@.to_multiset(),
{
    v.sort_unstable();
}

} // verus!
