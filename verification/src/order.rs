//! Sorting by a partial order.

use vstd::prelude::*;
use vstd::std_specs::cmp::PartialOrdIs;
use vstd::std_specs::cmp::PartialOrdSpec;

verus! {

/// Whether `<` on `T` is known to compute the order that `T` specifies.
pub open spec fn order_known<T: PartialOrd>() -> bool {
    T::obeys_partial_cmp_spec()
}

/// `a` is strictly below `b` in the order that `T` specifies.
pub open spec fn below<T: PartialOrd>(a: T, b: T) -> bool {
    a.is_lt(&b)
}

/// `b` may follow `a` in an ascending arrangement: `a` is below `b`, or at
/// least `b` is not below `a`. In a strict order this says that `b` is not
/// below `a`.
pub open spec fn may_follow<T: PartialOrd>(a: T, b: T) -> bool {
    below(a, b) || !below(b, a)
}

/// Every element may follow the one before it.
pub open spec fn ascending<T: PartialOrd>(s: Seq<T>) -> bool {
    forall|i: int| 0 <= i && i + 1 < s.len() ==> may_follow(#[trigger] s[i], s[i + 1])
}

fn is_below<T: PartialOrd>(a: &T, b: &T) -> (r: bool)
    ensures
        order_known::<T>() ==> r == below(*a, *b),
{
    *a < *b
}

/// Swapping two elements keeps the multiset of a sequence.
pub proof fn lemma_swap_keeps_multiset<T>(s: Seq<T>, i: int, j: int)
    requires
        0 <= i < s.len(),
        0 <= j < s.len(),
    ensures
        s.update(i, s[j]).update(j, s[i]).to_multiset() == s.to_multiset(),
{
    broadcast use vstd::seq_lib::group_to_multiset_ensures;
    broadcast use vstd::multiset::group_multiset_axioms;

    let t = s.update(i, s[j]);
    assert(t.to_multiset() == s.to_multiset().insert(s[j]).remove(s[i]));
    assert(t.update(j, s[i]).to_multiset() == t.to_multiset().insert(s[i]).remove(t[j]));
    assert(s.to_multiset().count(s[i]) > 0) by {
        assert(s.contains(s[i]));
    }
    assert(s.to_multiset().count(s[j]) > 0) by {
        assert(s.contains(s[j]));
    }
    assert(t.update(j, s[i]).to_multiset() =~= s.to_multiset());
}

/// Sorts `v` in place by insertion: a stable sort that moves an element
/// left while it is strictly below its left neighbour. The elements stay
/// the same, and where `<` is known the result is ascending.
pub fn insertion_sort<T: PartialOrd + Copy>(v: &mut Vec<T>)
    ensures
        final(v)@.len() == old(v)@.len(),
        final(v)@.to_multiset() == old(v)@.to_multiset(),
        order_known::<T>() ==> ascending(final(v)@),
{
    let n = v.len();
    let mut i: usize = 1;
    while i < n
        invariant
            v@.len() == n,
            1 <= i,
            v@.to_multiset() == old(v)@.to_multiset(),
            order_known::<T>() ==> forall|k: int|
                0 <= k && k + 1 < i && k + 1 < n ==> may_follow(#[trigger] v@[k], v@[k + 1]),
        decreases n - i,
    {
        let mut j: usize = i;
        loop
            invariant
                v@.len() == n,
                j <= i < n,
                v@.to_multiset() == old(v)@.to_multiset(),
                order_known::<T>() ==> forall|k: int|
                    0 <= k && k + 1 <= i && k + 1 != j ==> may_follow(#[trigger] v@[k], v@[k + 1]),
                order_known::<T>() && 0 < j < i ==> may_follow(v@[j - 1], v@[j + 1]),
            ensures
                order_known::<T>() ==> forall|k: int|
                    0 <= k && k + 1 <= i ==> may_follow(#[trigger] v@[k], v@[k + 1]),
            decreases j,
        {
            if j == 0 {
                break ;
            }
            let cur = v[j];
            let prev = v[j - 1];
            if !is_below(&cur, &prev) {
                break ;
            }
            let ghost before = v@;
            v.set(j - 1, cur);
            v.set(j, prev);
            proof {
                lemma_swap_keeps_multiset(before, j - 1, j as int);
                assert(v@ =~= before.update(j - 1, before[j as int]).update(
                    j as int,
                    before[j - 1],
                ));
                if order_known::<T>() {
                    assert forall|k: int|
                        0 <= k && k + 1 <= i && k + 1 != j - 1 implies may_follow(
                        #[trigger] v@[k],
                        v@[k + 1],
                    ) by {
                        if k + 1 == j {
                        } else if k == j {
                        } else {
                            assert(may_follow(before[k], before[k + 1]));
                        }
                    }
                    if 0 < j - 1 {
                        assert(may_follow(before[j - 2], before[j - 1]));
                    }
                }
            }
            j -= 1;
        }
        i += 1;
    }
}

} // verus!
