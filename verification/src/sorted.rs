//! Specification vocabulary for ordered sequences of integer keys.

use vstd::prelude::*;

verus! {

/// `s` is in non-decreasing order.
pub open spec fn sorted(s: Seq<i64>) -> bool {
    forall|i: int, j: int| 0 <= i <= j < s.len() ==> s[i] <= s[j]
}

/// Every element of `s` is strictly below `v`.
pub open spec fn all_lt(s: Seq<i64>, v: i64) -> bool {
    forall|j: int| 0 <= j < s.len() ==> #[trigger] s[j] < v
}

/// Every element of `s` is strictly above `v`.
pub open spec fn all_gt(s: Seq<i64>, v: i64) -> bool {
    forall|j: int| 0 <= j < s.len() ==> #[trigger] s[j] > v
}

/// `c` copies of `v`.
pub open spec fn rep(v: i64, c: usize) -> Seq<i64> {
    Seq::new(c as nat, |j: int| v)
}

/// A run of `c` copies of `v` holds `v` exactly `c` times and nothing else.
pub proof fn lemma_rep_count(v: i64, c: usize, x: i64)
    ensures
        rep(v, c).to_multiset().count(x) == if x == v {
            c as nat
        } else {
            0
        },
    decreases c,
{
    broadcast use vstd::seq_lib::group_to_multiset_ensures;

    if c == 0 {
        assert(rep(v, c) =~= Seq::<i64>::empty());
        assert(!rep(v, c).contains(x));
    } else {
        let d = (c - 1) as usize;
        lemma_rep_count(v, d, x);
        assert(rep(v, c) =~= rep(v, d).push(v));
    }
}

/// Occurrences in `l + rep(v, c) + r` add up part by part.
pub proof fn lemma_count_parts(l: Seq<i64>, v: i64, c: usize, r: Seq<i64>, x: i64)
    ensures
        (l + rep(v, c) + r).to_multiset().count(x) == l.to_multiset().count(x) + (if x == v {
            c as nat
        } else {
            0
        }) + r.to_multiset().count(x),
{
    vstd::seq_lib::lemma_multiset_commutative(l + rep(v, c), r);
    vstd::seq_lib::lemma_multiset_commutative(l, rep(v, c));
    lemma_rep_count(v, c, x);
}

/// A value that does not occur has multiplicity zero.
pub proof fn lemma_absent_count(s: Seq<i64>, x: i64)
    ensures
        s.contains(x) <==> s.to_multiset().count(x) > 0,
{
    broadcast use vstd::seq_lib::group_to_multiset_ensures;

}

/// Joining a sorted left part, a run of one value and a sorted right part
/// that respect the value as a pivot gives a sorted sequence.
pub proof fn lemma_parts_sorted(l: Seq<i64>, v: i64, c: usize, r: Seq<i64>)
    requires
        sorted(l),
        sorted(r),
        all_lt(l, v),
        all_gt(r, v),
    ensures
        sorted(l + rep(v, c) + r),
{
    let s = l + rep(v, c) + r;
    assert forall|i: int, j: int| 0 <= i <= j < s.len() implies s[i] <= s[j] by {
        if i < l.len() {
            assert(s[i] == l[i]);
        } else if i < l.len() + c {
            assert(s[i] == v);
        } else {
            assert(s[i] == r[i - l.len() - c]);
        }
        if j < l.len() {
            assert(s[j] == l[j]);
        } else if j < l.len() + c {
            assert(s[j] == v);
        } else {
            assert(s[j] == r[j - l.len() - c]);
        }
    }
}

/// Two sorted sequences with the same elements are the same sequence.
pub proof fn lemma_sorted_unique(a: Seq<i64>, b: Seq<i64>)
    requires
        sorted(a),
        sorted(b),
        a.to_multiset() == b.to_multiset(),
    ensures
        a == b,
{
    let leq = |x: i64, y: i64| x <= y;
    assert(vstd::relations::sorted_by(a, leq));
    assert(vstd::relations::sorted_by(b, leq));
    assert(vstd::relations::total_ordering(leq));
    vstd::seq_lib::lemma_sorted_unique(a, b, leq);
}

} // verus!
