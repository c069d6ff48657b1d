//! The median of a changing multiset of keys, kept with two heaps and lazy
//! deletion.
//!
//! The lower heap holds the smaller half of the keys with the largest on
//! top, the upper heap the larger half with the smallest on top. A removal
//! only records that one copy of the key is to be discarded; the copy
//! leaves its heap when it reaches the top.

use crate::counts::{count_in, counts_of, CountMap};
use crate::heap::{ahead, Heap};
use crate::sorted::sorted;
use vstd::multiset::Multiset;
use vstd::prelude::*;

verus! {

/// The middle of a multiset of keys: one key for an odd number of keys, the
/// two keys around the middle for an even number.
#[derive(Clone, Copy, Debug, PartialEq, Eq, Structural)]
pub enum Median {
    Single(i64),
    Pair(i64, i64),
}

/// The place where `v` goes into the sorted sequence `s`: before the first
/// key that is not below it.
proof fn lemma_slot(s: Seq<i64>, v: i64) -> (pos: int)
    requires
        sorted(s),
    ensures
        0 <= pos <= s.len(),
        forall|i: int| 0 <= i < pos ==> s[i] < v,
        forall|i: int| pos <= i < s.len() ==> s[i] >= v,
        sorted(s.insert(pos, v)),
    decreases s.len(),
{
    if s.len() == 0 {
        assert(sorted(s.insert(0, v)));
        0
    } else if s.last() < v {
        let pos = s.len() as int;
        let t = s.insert(pos, v);
        assert forall|i: int| 0 <= i < pos implies s[i] < v by {
            assert(s[i] <= s[s.len() - 1]);
        }
        assert forall|i: int, j: int| 0 <= i <= j < t.len() implies t[i] <= t[j] by {
            if j < pos {
                assert(t[i] == s[i] && t[j] == s[j]);
            } else if i < pos {
                assert(t[i] == s[i] && t[j] == v);
                assert(s[i] <= s.last());
            }
        }
        pos
    } else {
        let pos = lemma_slot(s.drop_last(), v);
        let t = s.insert(pos, v);
        assert forall|i: int| 0 <= i < pos implies s[i] < v by {
            assert(s.drop_last()[i] < v);
        }
        assert forall|i: int| pos <= i < s.len() implies s[i] >= v by {
            if i < s.len() - 1 {
                assert(s.drop_last()[i] >= v);
            }
        }
        assert forall|i: int, j: int| 0 <= i <= j < t.len() implies t[i] <= t[j] by {
            let a = if i < pos {
                s[i]
            } else if i == pos {
                v
            } else {
                s[i - 1]
            };
            let b = if j < pos {
                s[j]
            } else if j == pos {
                v
            } else {
                s[j - 1]
            };
            assert(t[i] == a && t[j] == b);
            if i < pos {
                assert(s.drop_last()[i] < v);
            }
        }
        pos
    }
}

/// Removing one element keeps a sorted sequence sorted.
proof fn lemma_remove_sorted(s: Seq<i64>, j: int)
    requires
        sorted(s),
        0 <= j < s.len(),
    ensures
        sorted(s.remove(j)),
{
    let t = s.remove(j);
    assert forall|a: int, b: int| 0 <= a <= b < t.len() implies t[a] <= t[b] by {
        let x = if a < j {
            s[a]
        } else {
            s[a + 1]
        };
        let y = if b < j {
            s[b]
        } else {
            s[b + 1]
        };
        assert(t[a] == x && t[b] == y);
    }
}

/// The multiset of a sequence splits at any index.
proof fn lemma_split(s: Seq<i64>, a: int)
    requires
        0 <= a <= s.len(),
    ensures
        s.to_multiset() == s.take(a).to_multiset().add(s.skip(a).to_multiset()),
{
    assert(s =~= s.take(a) + s.skip(a));
    vstd::seq_lib::lemma_multiset_commutative(s.take(a), s.skip(a));
}

/// The heaps `l` and `u`, the pending removals `p` and the sorted live keys
/// `s` fit together: `l` holds the first `a` live keys and the stale copies
/// `ls`, `u` the other live keys and the stale copies `us`; every key of
/// `l` is at most every key of `u`, and a key that is stale in `u` is above
/// every key of `l`.
spec fn state_ok(
    l: Seq<i64>,
    u: Seq<i64>,
    p: Map<i64, usize>,
    a: int,
    s: Seq<i64>,
    ls: Multiset<i64>,
    us: Multiset<i64>,
) -> bool {
    &&& forall|i: int, j: int|
        0 <= i < l.len() && 0 <= j < u.len() ==> #[trigger] l[i] <= #[trigger] u[j]
    &&& p.dom().finite()
    &&& forall|v: i64| #[trigger] p.contains_key(v) ==> p[v] >= 1
    &&& forall|v: i64| #[trigger] count_in(p, v) == ls.count(v) + us.count(v)
    &&& sorted(s)
    &&& 0 <= a <= s.len()
    &&& s.len() <= usize::MAX
    &&& l.to_multiset() == s.take(a).to_multiset().add(ls)
    &&& u.to_multiset() == s.skip(a).to_multiset().add(us)
    &&& forall|v: i64, i: int|
        #[trigger] us.count(v) > 0 && 0 <= i < l.len() ==> #[trigger] l[i] < v
}

/// The pending removals after one copy of `v` was discarded.
spec fn discarded(p: Map<i64, usize>, v: i64) -> Map<i64, usize> {
    if p[v] == 1 {
        p.remove(v)
    } else {
        p.insert(v, (p[v] - 1) as usize)
    }
}

/// The pending removals after one more copy of `v` was marked.
spec fn marked(p: Map<i64, usize>, v: i64) -> Map<i64, usize> {
    p.insert(v, (count_in(p, v) + 1) as usize)
}

/// A live top of the lower heap is the largest of the first `a` live keys.
proof fn lemma_lower_top(
    l: Seq<i64>,
    u: Seq<i64>,
    p: Map<i64, usize>,
    a: int,
    s: Seq<i64>,
    ls: Multiset<i64>,
    us: Multiset<i64>,
)
    requires
        state_ok(l, u, p, a, s, ls, us),
        crate::heap::heap_ordered(l, true),
        l.len() > 0,
        count_in(p, l[0]) == 0,
    ensures
        a >= 1,
        l[0] == s[a - 1],
{
    broadcast use vstd::seq_lib::group_to_multiset_ensures;
    broadcast use vstd::multiset::group_multiset_axioms;

    let t = l[0];
    assert(l.contains(t));
    assert(l.to_multiset().count(t) > 0);
    assert(count_in(p, t) == ls.count(t) + us.count(t));
    assert(s.take(a).to_multiset().count(t) > 0);
    assert(s.take(a).contains(t));
    let j = choose|j: int| 0 <= j < s.take(a).len() && s.take(a)[j] == t;
    assert(s[j] == t);
    let w = s[a - 1];
    assert(s.take(a)[a - 1] == w);
    assert(s.take(a).contains(w));
    assert(s.take(a).to_multiset().count(w) > 0);
    assert(l.to_multiset().count(w) > 0);
    assert(l.contains(w));
    let k = choose|k: int| 0 <= k < l.len() && l[k] == w;
    crate::heap::lemma_root_ahead(l, true, k);
}

/// A live top of the upper heap is the smallest of the live keys from
/// index `a` on, provided the top of the lower heap is live too.
proof fn lemma_upper_top(
    l: Seq<i64>,
    u: Seq<i64>,
    p: Map<i64, usize>,
    a: int,
    s: Seq<i64>,
    ls: Multiset<i64>,
    us: Multiset<i64>,
)
    requires
        state_ok(l, u, p, a, s, ls, us),
        crate::heap::heap_ordered(u, false),
        u.len() > 0,
        count_in(p, u[0]) == 0,
    ensures
        a < s.len(),
        u[0] == s[a],
{
    broadcast use vstd::seq_lib::group_to_multiset_ensures;
    broadcast use vstd::multiset::group_multiset_axioms;

    let t = u[0];
    assert(u.contains(t));
    assert(u.to_multiset().count(t) > 0);
    assert(count_in(p, t) == ls.count(t) + us.count(t));
    assert(s.skip(a).to_multiset().count(t) > 0);
    assert(s.skip(a).contains(t));
    let j = choose|j: int| 0 <= j < s.skip(a).len() && s.skip(a)[j] == t;
    assert(s[a + j] == t);
    let w = s[a];
    assert(s.skip(a)[0] == w);
    assert(s.skip(a).contains(w));
    assert(s.skip(a).to_multiset().count(w) > 0);
    assert(u.to_multiset().count(w) > 0);
    assert(u.contains(w));
    let k = choose|k: int| 0 <= k < u.len() && u[k] == w;
    crate::heap::lemma_root_ahead(u, false, k);
}

/// Discarding the top of the lower heap, of which a copy is pending.
proof fn lemma_discard_lower(
    l: Seq<i64>,
    l2: Seq<i64>,
    u: Seq<i64>,
    p: Map<i64, usize>,
    a: int,
    s: Seq<i64>,
    ls: Multiset<i64>,
    us: Multiset<i64>,
)
    requires
        state_ok(l, u, p, a, s, ls, us),
        l.len() > 0,
        count_in(p, l[0]) > 0,
        l2.to_multiset() == l.to_multiset().remove(l[0]),
    ensures
        ls.count(l[0]) > 0,
        state_ok(l2, u, discarded(p, l[0]), a, s, ls.remove(l[0]), us),
{
    broadcast use vstd::seq_lib::group_to_multiset_ensures;
    broadcast use vstd::multiset::group_multiset_axioms;

    let v = l[0];
    let next_pending = discarded(p, v);
    let ls2 = ls.remove(v);
    assert(count_in(p, v) == ls.count(v) + us.count(v));
    if us.count(v) > 0 {
        assert(l[0] < v);
    }
    assert(p.contains_key(v));
    assert forall|w: i64| #[trigger] count_in(next_pending, w) == ls2.count(w) + us.count(w) by {
        assert(count_in(p, w) == ls.count(w) + us.count(w));
    }
    assert forall|w: i64| #[trigger] next_pending.contains_key(w) implies next_pending[w] >= 1 by {
        if w != v {
            assert(p.contains_key(w));
        }
    }
    assert(l2.to_multiset() =~= s.take(a).to_multiset().add(ls2));
    assert forall|i: int| 0 <= i < l2.len() implies l.contains(#[trigger] l2[i]) by {
        assert(l2.contains(l2[i]));
        assert(l2.to_multiset().count(l2[i]) > 0);
        assert(l.to_multiset().count(l2[i]) > 0);
    }
    assert forall|i: int, j: int| 0 <= i < l2.len() && 0 <= j < u.len() implies #[trigger] l2[i]
        <= #[trigger] u[j] by {
        assert(l.contains(l2[i]));
        let k = choose|k: int| 0 <= k < l.len() && l[k] == l2[i];
        assert(l[k] <= u[j]);
    }
    assert forall|w: i64, i: int|
        #[trigger] us.count(w) > 0 && 0 <= i < l2.len() implies #[trigger] l2[i] < w by {
        assert(l.contains(l2[i]));
        let k = choose|k: int| 0 <= k < l.len() && l[k] == l2[i];
        assert(l[k] < w);
    }
    assert(next_pending.dom().finite());
}

/// Discarding the top of the upper heap, of which a copy is pending, while
/// the top of the lower heap is live.
proof fn lemma_discard_upper(
    l: Seq<i64>,
    u: Seq<i64>,
    u2: Seq<i64>,
    p: Map<i64, usize>,
    a: int,
    s: Seq<i64>,
    ls: Multiset<i64>,
    us: Multiset<i64>,
)
    requires
        state_ok(l, u, p, a, s, ls, us),
        crate::heap::heap_ordered(l, true),
        l.len() > 0 ==> count_in(p, l[0]) == 0,
        u.len() > 0,
        count_in(p, u[0]) > 0,
        u2.to_multiset() == u.to_multiset().remove(u[0]),
    ensures
        us.count(u[0]) > 0,
        state_ok(l, u2, discarded(p, u[0]), a, s, ls, us.remove(u[0])),
{
    broadcast use vstd::seq_lib::group_to_multiset_ensures;
    broadcast use vstd::multiset::group_multiset_axioms;

    let v = u[0];
    let next_pending = discarded(p, v);
    let us2 = us.remove(v);
    assert(count_in(p, v) == ls.count(v) + us.count(v));
    if us.count(v) == 0 {
        // the pending copy would sit in the lower heap, under a live top
        assert(ls.count(v) > 0);
        assert(l.to_multiset().count(v) > 0);
        assert(l.contains(v));
        let k = choose|k: int| 0 <= k < l.len() && l[k] == v;
        crate::heap::lemma_root_ahead(l, true, k);
        assert(l[0] <= u[0]);
        assert(l[0] == v);
    }
    assert(p.contains_key(v));
    assert forall|w: i64| #[trigger] count_in(next_pending, w) == ls.count(w) + us2.count(w) by {
        assert(count_in(p, w) == ls.count(w) + us.count(w));
    }
    assert forall|w: i64| #[trigger] next_pending.contains_key(w) implies next_pending[w] >= 1 by {
        if w != v {
            assert(p.contains_key(w));
        }
    }
    assert(u2.to_multiset() =~= s.skip(a).to_multiset().add(us2));
    assert forall|i: int, j: int| 0 <= i < l.len() && 0 <= j < u2.len() implies #[trigger] l[i]
        <= #[trigger] u2[j] by {
        assert(u2.contains(u2[j]));
        assert(u2.to_multiset().count(u2[j]) > 0);
        assert(u.to_multiset().count(u2[j]) > 0);
        assert(u.contains(u2[j]));
        let k = choose|k: int| 0 <= k < u.len() && u[k] == u2[j];
        assert(l[i] <= u[k]);
    }
    assert forall|w: i64, i: int|
        #[trigger] us2.count(w) > 0 && 0 <= i < l.len() implies #[trigger] l[i] < w by {
        assert(us.count(w) > 0);
    }
    assert(next_pending.dom().finite());
}

/// Moving the live top of the lower heap to the upper heap.
proof fn lemma_move_up(
    l: Seq<i64>,
    l2: Seq<i64>,
    u: Seq<i64>,
    u2: Seq<i64>,
    p: Map<i64, usize>,
    a: int,
    s: Seq<i64>,
    ls: Multiset<i64>,
    us: Multiset<i64>,
)
    requires
        state_ok(l, u, p, a, s, ls, us),
        crate::heap::heap_ordered(l, true),
        l.len() > 0,
        count_in(p, l[0]) == 0,
        l2.to_multiset() == l.to_multiset().remove(l[0]),
        u2.to_multiset() == u.to_multiset().insert(l[0]),
    ensures
        a >= 1,
        state_ok(l2, u2, p, a - 1, s, ls, us),
{
    broadcast use vstd::seq_lib::group_to_multiset_ensures;
    broadcast use vstd::multiset::group_multiset_axioms;

    let v = l[0];
    lemma_lower_top(l, u, p, a, s, ls, us);
    assert(s.take(a) =~= s.take(a - 1).push(v));
    assert(s.skip(a - 1) =~= seq![v] + s.skip(a));
    vstd::seq_lib::lemma_multiset_commutative(seq![v], s.skip(a));
    assert(seq![v] =~= Seq::<i64>::empty().push(v));
    assert(seq![v].to_multiset() =~= Multiset::<i64>::empty().insert(v));
    assert(l2.to_multiset() =~= s.take(a - 1).to_multiset().add(ls));
    assert(u2.to_multiset() =~= s.skip(a - 1).to_multiset().add(us));
    assert forall|i: int| 0 <= i < l2.len() implies l.contains(#[trigger] l2[i]) by {
        assert(l2.contains(l2[i]));
        assert(l2.to_multiset().count(l2[i]) > 0);
        assert(l.to_multiset().count(l2[i]) > 0);
    }
    assert forall|j: int| 0 <= j < u2.len() implies u.contains(#[trigger] u2[j]) || u2[j]
        == v by {
        assert(u2.contains(u2[j]));
        assert(u2.to_multiset().count(u2[j]) > 0);
        if u2[j] != v {
            assert(u.to_multiset().count(u2[j]) > 0);
        }
    }
    assert forall|i: int, j: int| 0 <= i < l2.len() && 0 <= j < u2.len() implies #[trigger] l2[i]
        <= #[trigger] u2[j] by {
        assert(l.contains(l2[i]));
        let k = choose|k: int| 0 <= k < l.len() && l[k] == l2[i];
        if u.contains(u2[j]) {
            let m = choose|m: int| 0 <= m < u.len() && u[m] == u2[j];
            assert(l[k] <= u[m]);
        } else {
            crate::heap::lemma_root_ahead(l, true, k);
        }
    }
    assert forall|w: i64, i: int|
        #[trigger] us.count(w) > 0 && 0 <= i < l2.len() implies #[trigger] l2[i] < w by {
        assert(l.contains(l2[i]));
        let k = choose|k: int| 0 <= k < l.len() && l[k] == l2[i];
        assert(l[k] < w);
    }
}

/// Moving the live top of the upper heap to the lower heap.
proof fn lemma_move_down(
    l: Seq<i64>,
    l2: Seq<i64>,
    u: Seq<i64>,
    u2: Seq<i64>,
    p: Map<i64, usize>,
    a: int,
    s: Seq<i64>,
    ls: Multiset<i64>,
    us: Multiset<i64>,
)
    requires
        state_ok(l, u, p, a, s, ls, us),
        crate::heap::heap_ordered(u, false),
        u.len() > 0,
        count_in(p, u[0]) == 0,
        u2.to_multiset() == u.to_multiset().remove(u[0]),
        l2.to_multiset() == l.to_multiset().insert(u[0]),
    ensures
        a < s.len(),
        state_ok(l2, u2, p, a + 1, s, ls, us),
        forall|i: int| 0 <= i < l2.len() ==> #[trigger] l2[i] <= u[0],
{
    broadcast use vstd::seq_lib::group_to_multiset_ensures;
    broadcast use vstd::multiset::group_multiset_axioms;

    let v = u[0];
    lemma_upper_top(l, u, p, a, s, ls, us);
    assert(s.take(a + 1) =~= s.take(a).push(v));
    assert(s.skip(a) =~= seq![v] + s.skip(a + 1));
    vstd::seq_lib::lemma_multiset_commutative(seq![v], s.skip(a + 1));
    assert(seq![v] =~= Seq::<i64>::empty().push(v));
    assert(seq![v].to_multiset() =~= Multiset::<i64>::empty().insert(v));
    assert(l2.to_multiset() =~= s.take(a + 1).to_multiset().add(ls));
    assert(u2.to_multiset() =~= s.skip(a + 1).to_multiset().add(us));
    assert forall|j: int| 0 <= j < u2.len() implies u.contains(#[trigger] u2[j]) by {
        assert(u2.contains(u2[j]));
        assert(u2.to_multiset().count(u2[j]) > 0);
        assert(u.to_multiset().count(u2[j]) > 0);
    }
    assert forall|i: int| 0 <= i < l2.len() implies l.contains(#[trigger] l2[i]) || l2[i]
        == v by {
        assert(l2.contains(l2[i]));
        assert(l2.to_multiset().count(l2[i]) > 0);
        if l2[i] != v {
            assert(l.to_multiset().count(l2[i]) > 0);
        }
    }
    assert forall|i: int| 0 <= i < l2.len() implies #[trigger] l2[i] <= u[0] by {
        if l.contains(l2[i]) {
            let k = choose|k: int| 0 <= k < l.len() && l[k] == l2[i];
            assert(l[k] <= u[0]);
        }
    }
    assert forall|i: int, j: int| 0 <= i < l2.len() && 0 <= j < u2.len() implies #[trigger] l2[i]
        <= #[trigger] u2[j] by {
        assert(u.contains(u2[j]));
        let m = choose|m: int| 0 <= m < u.len() && u[m] == u2[j];
        crate::heap::lemma_root_ahead(u, false, m);
        assert(l2[i] <= u[0]);
    }
    assert forall|w: i64, i: int|
        #[trigger] us.count(w) > 0 && 0 <= i < l2.len() implies #[trigger] l2[i] < w by {
        assert(count_in(p, w) == ls.count(w) + us.count(w));
        assert(u.to_multiset().count(w) > 0);
        assert(u.contains(w));
        let m = choose|m: int| 0 <= m < u.len() && u[m] == w;
        crate::heap::lemma_root_ahead(u, false, m);
        assert(l2[i] <= u[0]);
        assert(w != v);
    }
}

/// Adding the key `v` to the lower heap, which is empty or has a live top
/// that is not below `v`.
proof fn lemma_add_lower(
    l: Seq<i64>,
    l2: Seq<i64>,
    u: Seq<i64>,
    p: Map<i64, usize>,
    a: int,
    s: Seq<i64>,
    ls: Multiset<i64>,
    us: Multiset<i64>,
    v: i64,
) -> (s2: Seq<i64>)
    requires
        state_ok(l, u, p, a, s, ls, us),
        crate::heap::heap_ordered(l, true),
        crate::heap::heap_ordered(u, false),
        s.len() < usize::MAX,
        l.len() > 0 ==> count_in(p, l[0]) == 0 && v <= l[0],
        l.len() == 0 ==> u.len() == 0,
        l2.to_multiset() == l.to_multiset().insert(v),
    ensures
        state_ok(l2, u, p, a + 1, s2, ls, us),
        s2.to_multiset() == s.to_multiset().insert(v),
        s2.len() == s.len() + 1,
{
    broadcast use vstd::seq_lib::group_to_multiset_ensures;
    broadcast use vstd::multiset::group_multiset_axioms;

    let pos = lemma_slot(s, v);
    let s2 = s.insert(pos, v);
    if l.len() > 0 {
        lemma_lower_top(l, u, p, a, s, ls, us);
        assert(pos <= a - 1) by {
            if pos > a - 1 {
                assert(s[a - 1] < v);
            }
        }
    } else {
        assert(l.to_multiset().len() == 0);
        assert(s.take(a).to_multiset().len() == 0);
        assert(a == 0);
        assert(u.to_multiset().len() == 0);
        assert(s.skip(a).to_multiset().len() == 0);
        assert(s.len() == 0);
    }
    assert(s2.take(a + 1) =~= s.take(a).insert(pos, v));
    assert(s2.skip(a + 1) =~= s.skip(a));
    assert(l2.to_multiset() =~= s2.take(a + 1).to_multiset().add(ls));
    assert forall|i: int| 0 <= i < l2.len() implies l.contains(#[trigger] l2[i]) || l2[i]
        == v by {
        assert(l2.contains(l2[i]));
        assert(l2.to_multiset().count(l2[i]) > 0);
        if l2[i] != v {
            assert(l.to_multiset().count(l2[i]) > 0);
        }
    }
    assert forall|i: int, j: int| 0 <= i < l2.len() && 0 <= j < u.len() implies #[trigger] l2[i]
        <= #[trigger] u[j] by {
        if l.contains(l2[i]) {
            let k = choose|k: int| 0 <= k < l.len() && l[k] == l2[i];
            assert(l[k] <= u[j]);
        } else {
            assert(l[0] <= u[j]);
        }
    }
    assert forall|w: i64, i: int|
        #[trigger] us.count(w) > 0 && 0 <= i < l2.len() implies #[trigger] l2[i] < w by {
        if l.contains(l2[i]) {
            let k = choose|k: int| 0 <= k < l.len() && l[k] == l2[i];
            assert(l[k] < w);
        } else {
            assert(u.to_multiset().count(w) > 0);
            assert(l[0] < w);
        }
    }
    s2
}

/// Adding the key `v`, which is above the live top of the lower heap, to
/// the upper heap.
proof fn lemma_add_upper(
    l: Seq<i64>,
    u: Seq<i64>,
    u2: Seq<i64>,
    p: Map<i64, usize>,
    a: int,
    s: Seq<i64>,
    ls: Multiset<i64>,
    us: Multiset<i64>,
    v: i64,
) -> (s2: Seq<i64>)
    requires
        state_ok(l, u, p, a, s, ls, us),
        crate::heap::heap_ordered(l, true),
        s.len() < usize::MAX,
        l.len() > 0,
        count_in(p, l[0]) == 0,
        v > l[0],
        u2.to_multiset() == u.to_multiset().insert(v),
    ensures
        state_ok(l, u2, p, a, s2, ls, us),
        s2.to_multiset() == s.to_multiset().insert(v),
        s2.len() == s.len() + 1,
{
    broadcast use vstd::seq_lib::group_to_multiset_ensures;
    broadcast use vstd::multiset::group_multiset_axioms;

    let pos = lemma_slot(s, v);
    let s2 = s.insert(pos, v);
    lemma_lower_top(l, u, p, a, s, ls, us);
    assert(pos >= a) by {
        if pos < a {
            assert(s[pos] >= v);
            assert(s[pos] <= s[a - 1]);
        }
    }
    assert(s2.take(a) =~= s.take(a));
    assert(s2.skip(a) =~= s.skip(a).insert(pos - a, v));
    assert(u2.to_multiset() =~= s2.skip(a).to_multiset().add(us));
    assert forall|i: int, j: int| 0 <= i < l.len() && 0 <= j < u2.len() implies #[trigger] l[i]
        <= #[trigger] u2[j] by {
        assert(u2.contains(u2[j]));
        assert(u2.to_multiset().count(u2[j]) > 0);
        if u2[j] != v {
            assert(u.to_multiset().count(u2[j]) > 0);
            assert(u.contains(u2[j]));
            let m = choose|m: int| 0 <= m < u.len() && u[m] == u2[j];
            assert(l[i] <= u[m]);
        } else {
            crate::heap::lemma_root_ahead(l, true, i);
        }
    }
    s2
}

/// Marking one live copy of `v` for removal. The copy is charged to the
/// lower heap when `v` is at most its live top, else to the upper heap.
proof fn lemma_mark(
    l: Seq<i64>,
    u: Seq<i64>,
    p: Map<i64, usize>,
    a: int,
    s: Seq<i64>,
    ls: Multiset<i64>,
    us: Multiset<i64>,
    v: i64,
) -> (r: (Seq<i64>, bool))
    requires
        state_ok(l, u, p, a, s, ls, us),
        crate::heap::heap_ordered(l, true),
        l.len() > 0 ==> count_in(p, l[0]) == 0,
        l.to_multiset().count(v) + u.to_multiset().count(v) > count_in(p, v),
        count_in(p, v) < usize::MAX,
    ensures
        s.contains(v),
        r.1 == (l.len() > 0 && v <= l[0]),
        r.0.to_multiset() == s.to_multiset().remove(v),
        r.0.len() == s.len() - 1,
        r.1 ==> a >= 1 && state_ok(l, u, marked(p, v), a - 1, r.0, ls.insert(v), us),
        !r.1 ==> a < s.len() && state_ok(l, u, marked(p, v), a, r.0, ls, us.insert(v)),
{
    broadcast use vstd::seq_lib::group_to_multiset_ensures;
    broadcast use vstd::multiset::group_multiset_axioms;

    let next_pending = marked(p, v);
    let low = l.len() > 0 && v <= l[0];
    assert(count_in(p, v) == ls.count(v) + us.count(v));
    assert(s.take(a).to_multiset().count(v) + s.skip(a).to_multiset().count(v) > 0);
    lemma_split(s, a);
    assert forall|w: i64| #[trigger] next_pending.contains_key(w) implies next_pending[w] >= 1 by {
        if w != v {
            assert(p.contains_key(w));
        }
    }
    if low {
        // a live copy sits among the first `a` keys
        if s.take(a).to_multiset().count(v) == 0 {
            assert(s.skip(a).to_multiset().count(v) > 0);
            assert(u.to_multiset().count(v) > 0);
            assert(u.contains(v));
            let m = choose|m: int| 0 <= m < u.len() && u[m] == v;
            assert(l[0] <= u[m]);
            lemma_lower_top(l, u, p, a, s, ls, us);
            assert(s.take(a)[a - 1] == v);
            assert(s.take(a).contains(v));
        }
        assert(s.take(a).contains(v));
        let j = choose|j: int| 0 <= j < s.take(a).len() && s.take(a)[j] == v;
        assert(s[j] == v);
        let s2 = s.remove(j);
        lemma_remove_sorted(s, j);
        assert(s2.take(a - 1) =~= s.take(a).remove(j));
        assert(s2.skip(a - 1) =~= s.skip(a));
        let ls2 = ls.insert(v);
        assert(l.to_multiset() =~= s2.take(a - 1).to_multiset().add(ls2));
        assert forall|w: i64| #[trigger] count_in(next_pending, w) == ls2.count(w) + us.count(w) by {
            assert(count_in(p, w) == ls.count(w) + us.count(w));
        }
        (s2, true)
    } else {
        // no copy sits in the lower heap: a live one is among the other keys
        assert(l.to_multiset().count(v) == 0) by {
            if l.to_multiset().count(v) > 0 {
                assert(l.contains(v));
                let k = choose|k: int| 0 <= k < l.len() && l[k] == v;
                crate::heap::lemma_root_ahead(l, true, k);
            }
        }
        assert(s.take(a).to_multiset().count(v) == 0);
        assert(s.skip(a).contains(v));
        let j = choose|j: int| 0 <= j < s.skip(a).len() && s.skip(a)[j] == v;
        assert(s[a + j] == v);
        let s2 = s.remove(a + j);
        lemma_remove_sorted(s, a + j);
        assert(s2.take(a) =~= s.take(a));
        assert(s2.skip(a) =~= s.skip(a).remove(j));
        let us2 = us.insert(v);
        assert(u.to_multiset() =~= s2.skip(a).to_multiset().add(us2));
        assert forall|w: i64| #[trigger] count_in(next_pending, w) == ls.count(w) + us2.count(w) by {
            assert(count_in(p, w) == ls.count(w) + us.count(w));
        }
        assert forall|w: i64, i: int|
            #[trigger] us2.count(w) > 0 && 0 <= i < l.len() implies #[trigger] l[i] < w by {
            if w == v {
                crate::heap::lemma_root_ahead(l, true, i);
            } else {
                assert(us.count(w) > 0);
            }
        }
        (s2, false)
    }
}

/// A key other than the one at index `i` occurs less often than the
/// sequence is long.
proof fn lemma_count_below_len(s: Seq<i64>, i: int, v: i64)
    requires
        0 <= i < s.len(),
        s[i] != v,
    ensures
        s.to_multiset().count(v) < s.len(),
{
    broadcast use vstd::seq_lib::group_to_multiset_ensures;
    broadcast use vstd::multiset::group_multiset_axioms;

    let t = s.remove(i);
    assert(t.to_multiset() == s.to_multiset().remove(s[i]));
    assert(t.to_multiset().count(v) == s.to_multiset().count(v));
    assert(t.to_multiset().count(v) <= t.to_multiset().len());
}

/// Tracks the median of a multiset of keys under insertions and removals.
pub struct RollingMedian {
    lower_heap: Heap,
    upper_heap: Heap,
    removal_tracker: CountMap,
    element_count: usize,
    lower_count: usize,
    live: Ghost<Seq<i64>>,
    lower_stale: Ghost<Multiset<i64>>,
    upper_stale: Ghost<Multiset<i64>>,
}

impl RollingMedian {
    /// The keys held, in ascending order, duplicates repeated.
    pub closed spec fn view(&self) -> Seq<i64> {
        self.live@
    }

    /// How many copies of `v` wait to be discarded.
    spec fn pending(&self, v: i64) -> nat {
        count_in(counts_of(self.removal_tracker), v)
    }

    /// The structure is consistent: heaps are ordered, every key of the
    /// lower heap is at most every key of the upper heap, and each heap
    /// holds its share of the live keys plus the copies that wait to be
    /// discarded from it.
    spec fn consistent_n(&self, n: int) -> bool {
        &&& self.lower_heap.wf()
        &&& self.lower_heap.descending()
        &&& self.upper_heap.wf()
        &&& !self.upper_heap.descending()
        &&& self.live@.len() == n
        &&& state_ok(
            self.lower_heap@,
            self.upper_heap@,
            counts_of(self.removal_tracker),
            self.lower_count as int,
            self.live@,
            self.lower_stale@,
            self.upper_stale@,
        )
    }

    /// Consistent, with a stored count that is not below the number of
    /// live keys.
    spec fn consistent(&self) -> bool {
        &&& self.consistent_n(self.live@.len() as int)
        &&& self.live@.len() <= self.element_count
    }

    /// How far the stored count is above the number of live keys. Removals
    /// that were only marked, by `mark_for_removal`, raise it.
    pub closed spec fn excess(&self) -> int {
        self.element_count - self.live@.len()
    }

    /// The weaker invariant that `mark_for_removal` keeps: the structure is
    /// consistent, but the stored count may be too large, the tops may wait
    /// to be discarded and the heaps may be out of balance.
    pub closed spec fn valid(&self) -> bool {
        self.consistent()
    }

    /// The top of the lower heap does not wait to be discarded.
    spec fn lower_clean(&self) -> bool {
        self.lower_heap@.len() > 0 ==> self.pending(self.lower_heap@[0]) == 0
    }

    /// The top of the upper heap does not wait to be discarded.
    spec fn upper_clean(&self) -> bool {
        self.upper_heap@.len() > 0 ==> self.pending(self.upper_heap@[0]) == 0
    }

    /// Representation invariant: consistent, with live tops, and with the
    /// lower heap holding the smaller half of the keys (one more than the
    /// upper heap for an odd number).
    pub closed spec fn wf(&self) -> bool {
        &&& self.consistent()
        &&& self.live@.len() == self.element_count
        &&& self.lower_clean()
        &&& self.upper_clean()
        &&& self.lower_count == (self.element_count + 1) / 2
    }

    /// The view of a well-formed tracker is sorted, and its stored count
    /// is exact.
    pub proof fn lemma_sorted(&self)
        requires
            self.wf(),
        ensures
            sorted(self@),
            self.valid(),
            self.excess() == 0,
    {
    }

    /// Sorting the keys held from scratch gives the view: a sorted sequence
    /// with the same keys is the view itself, so its middle is what
    /// `median` returns.
    pub proof fn lemma_view_is_sorted_keys(&self, s: Seq<i64>)
        requires
            self.valid(),
            sorted(s),
            s.to_multiset() == self@.to_multiset(),
        ensures
            s == self@,
    {
        crate::sorted::lemma_sorted_unique(s, self@);
    }

    /// Everything but the pending removals is the same in `self` and `o`.
    spec fn same_but_tracker(&self, o: &RollingMedian) -> bool {
        &&& self.lower_heap == o.lower_heap
        &&& self.upper_heap == o.upper_heap
        &&& self.element_count == o.element_count
        &&& self.lower_count == o.lower_count
        &&& self.live@ == o.live@
        &&& self.lower_stale@ == o.lower_stale@
        &&& self.upper_stale@ == o.upper_stale@
    }

    /// Creates an empty tracker with room for `window_size` keys in each
    /// heap and for as many pending removals. All storage is set aside
    /// here, so `window_size` has to leave room for it in memory.
    pub fn new(window_size: usize) -> (r: Self)
        requires
            window_size <= usize::MAX / 128,
        ensures
            r.wf(),
            r@ == Seq::<i64>::empty(),
    {
        let r = RollingMedian {
            lower_heap: Heap::new(window_size, true),
            upper_heap: Heap::new(window_size, false),
            removal_tracker: CountMap::with_capacity(window_size),
            element_count: 0,
            lower_count: 0,
            live: Ghost(Seq::empty()),
            lower_stale: Ghost(Multiset::empty()),
            upper_stale: Ghost(Multiset::empty()),
        };
        proof {
            broadcast use vstd::seq_lib::group_to_multiset_ensures;
            broadcast use vstd::multiset::group_multiset_axioms;

            let e = Seq::<i64>::empty();
            assert(counts_of(r.removal_tracker).dom() =~= Set::<i64>::empty());
            assert(e.take(0) =~= e);
            assert(e.skip(0) =~= e);
            assert(e.to_multiset() =~= e.to_multiset().add(Multiset::<i64>::empty()));
        }
        r
    }

    /// Adds `value`.
    pub fn push(&mut self, value: i64)
        requires
            old(self).wf(),
            old(self)@.len() < usize::MAX,
        ensures
            final(self).wf(),
            final(self)@.to_multiset() == old(self)@.to_multiset().insert(value),
            final(self)@.len() == old(self)@.len() + 1,
    {
        self.element_count += 1;
        self.add_to_appropriate_heap(value);
        self.rebalance_heaps();
    }

    fn add_to_appropriate_heap(&mut self, value: i64)
        requires
            old(self).consistent_n(old(self).element_count - 1),
            old(self).lower_clean(),
            old(self).upper_clean(),
            old(self).lower_count == old(self).element_count / 2,
            old(self).element_count >= 1,
        ensures
            final(self).consistent(),
            final(self).live@.len() == final(self).element_count,
            final(self).element_count == old(self).element_count,
            final(self).live@.to_multiset() == old(self).live@.to_multiset().insert(value),
    {
        let ghost l = self.lower_heap@;
        let ghost u = self.upper_heap@;
        let ghost p = counts_of(self.removal_tracker);
        let ghost a = self.lower_count as int;
        let ghost s = self.live@;
        let ghost ls = self.lower_stale@;
        let ghost us = self.upper_stale@;
        proof {
            self.lower_heap.lemma_top();
            self.upper_heap.lemma_top();
        }
        if self.should_add_to_lower_heap(value) {
            proof {
                broadcast use vstd::seq_lib::group_to_multiset_ensures;
                broadcast use vstd::multiset::group_multiset_axioms;

                if l.len() == 0 && u.len() > 0 {
                    // an empty lower heap means that no key is live
                    assert(l.to_multiset().len() == 0);
                    assert(s.take(a).to_multiset().len() == 0);
                    assert(a == 0);
                    assert(s.len() == 0);
                    assert(s.skip(a).to_multiset().len() == 0);
                    assert(u.contains(u[0]));
                    assert(u.to_multiset().count(u[0]) > 0);
                    assert(us.count(u[0]) > 0);
                    assert(count_in(p, u[0]) == ls.count(u[0]) + us.count(u[0]));
                }
            }
            self.lower_heap.push(value);
            proof {
                let s2 = lemma_add_lower(l, self.lower_heap@, u, p, a, s, ls, us, value);
                self.live = Ghost(s2);
            }
            self.lower_count += 1;
        } else {
            self.upper_heap.push(value);
            proof {
                let s2 = lemma_add_upper(l, u, self.upper_heap@, p, a, s, ls, us, value);
                self.live = Ghost(s2);
            }
        }
    }

    fn should_add_to_lower_heap(&self, value: i64) -> (r: bool)
        ensures
            r == (self.lower_heap@.len() == 0 || value <= self.lower_heap@[0]),
    {
        match self.lower_heap.peek() {
            Some(top) => value <= top,
            None => true,
        }
    }

    /// Removes one occurrence of `value`. Returns whether the tracker held
    /// one.
    pub fn pop(&mut self, value: i64) -> (r: bool)
        requires
            old(self).wf(),
        ensures
            final(self).wf(),
            r == old(self)@.contains(value),
            r ==> final(self)@.to_multiset() == old(self)@.to_multiset().remove(value)
                && final(self)@.len() == old(self)@.len() - 1,
            !r ==> final(self)@ == old(self)@,
    {
        if self.mark_for_removal(value) {
            self.decrement_element_count();
            self.rebalance_heaps();
            true
        } else {
            self.rebalance_heaps();
            false
        }
    }

    fn decrement_element_count(&mut self)
        ensures
            final(self).same_but_tracker(
                &(RollingMedian {
                    element_count: final(self).element_count,
                    ..*old(self)
                }),
            ),
            final(self).removal_tracker == old(self).removal_tracker,
            final(self).element_count == if old(self).element_count > 0 {
                (old(self).element_count - 1) as usize
            } else {
                0
            },
    {
        if self.element_count > 0 {
            self.element_count -= 1;
        }
    }

    /// Marks one live copy of `value` to be discarded, if there is one, and
    /// tells whether there was one. The stored count stays as it is: `pop`
    /// is the complete removal.
    pub fn mark_for_removal(&mut self, value: i64) -> (r: bool)
        requires
            old(self).valid(),
        ensures
            final(self).valid(),
            r == old(self)@.contains(value),
            !r ==> final(self)@ == old(self)@ && final(self).excess() == old(self).excess(),
            r ==> final(self)@.to_multiset() == old(self)@.to_multiset().remove(value)
                && final(self)@.len() == old(self)@.len() - 1 && final(self).excess() == old(self).excess() + 1,
    {
        self.clean_heap_tops();
        if self.value_exists_in_heaps(value) {
            let low = match self.lower_heap.peek() {
                Some(top) => value <= top,
                None => false,
            };
            let ghost l = self.lower_heap@;
            let ghost u = self.upper_heap@;
            let ghost p = counts_of(self.removal_tracker);
            let ghost a = self.lower_count as int;
            let ghost s = self.live@;
            let ghost ls = self.lower_stale@;
            let ghost us = self.upper_stale@;
            self.increment_removal_count(value);
            proof {
                let r = lemma_mark(l, u, p, a, s, ls, us, value);
                self.live = Ghost(r.0);
                if low {
                    self.lower_stale = Ghost(ls.insert(value));
                } else {
                    self.upper_stale = Ghost(us.insert(value));
                }
            }
            if low {
                self.lower_count -= 1;
            }
            true
        } else {
            false
        }
    }

    /// Whether a live copy of `value` is held: whether the heaps hold more
    /// copies of it than wait to be discarded.
    fn value_exists_in_heaps(&self, value: i64) -> (r: bool)
        requires
            self.consistent(),
            self.lower_clean(),
            self.upper_clean(),
        ensures
            r == self.live@.contains(value),
            r ==> self.lower_heap@.to_multiset().count(value) + self.upper_heap@.to_multiset().count(
                value,
            ) > self.pending(value) && self.pending(value) < usize::MAX,
    {
        let in_lower = self.lower_heap.count(value);
        let in_upper = self.upper_heap.count(value);
        let pending = match self.removal_tracker.get(value) {
            Some(c) => c,
            None => 0,
        };
        let lower_len = self.lower_heap.len();
        let upper_len = self.upper_heap.len();
        proof {
            broadcast use vstd::seq_lib::group_to_multiset_ensures;
            broadcast use vstd::multiset::group_multiset_axioms;

            let s = self.live@;
            let a = self.lower_count as int;
            let l = self.lower_heap@;
            let u = self.upper_heap@;
            let ls = self.lower_stale@;
            let us = self.upper_stale@;
            lemma_split(s, a);
            assert(self.pending(value) == ls.count(value) + us.count(value));
            assert(l.to_multiset().count(value) == s.take(a).to_multiset().count(value)
                + ls.count(value));
            assert(u.to_multiset().count(value) == s.skip(a).to_multiset().count(value)
                + us.count(value));
            assert(s.contains(value) <==> s.to_multiset().count(value) > 0);
            // a pending key is not on top of its heap, so it does not fill it
            if us.count(value) > 0 {
                assert(u.contains(value));
                if l.to_multiset().count(value) > 0 {
                    assert(l.contains(value));
                    let k = choose|k: int| 0 <= k < l.len() && l[k] == value;
                    assert(l[k] < value);
                }
                lemma_count_below_len(u, 0, value);
            } else if ls.count(value) > 0 {
                assert(l.contains(value));
                lemma_count_below_len(l, 0, value);
            }
        }
        in_lower > pending || in_upper > pending - in_lower
    }

    fn increment_removal_count(&mut self, value: i64)
        requires
            count_in(counts_of(old(self).removal_tracker), value) < usize::MAX,
        ensures
            final(self).same_but_tracker(old(self)),
            counts_of(final(self).removal_tracker) == marked(
                counts_of(old(self).removal_tracker),
                value,
            ),
    {
        let current = match self.removal_tracker.get(value) {
            Some(c) => c,
            None => 0,
        };
        self.removal_tracker.insert(value, current + 1);
    }

    /// Brings the heaps to their target sizes and their tops to live keys.
    fn rebalance_heaps(&mut self)
        requires
            old(self).consistent(),
        ensures
            final(self).consistent(),
            final(self).lower_clean(),
            final(self).upper_clean(),
            final(self).live@.len() == final(self).element_count ==> final(self).wf(),
            final(self).live@ == old(self).live@,
            final(self).element_count == old(self).element_count,
    {
        self.clean_heap_tops();
        self.optimize_mem();
        let (target_lower_size, target_upper_size) = self.calculate_target_heap_sizes();
        let lower_size = self.lower_count;
        let upper_size = self.element_count - self.lower_count;
        self.balance_heaps(lower_size, upper_size, target_lower_size, target_upper_size);
        self.clean_heap_tops();
    }

    fn calculate_target_heap_sizes(&self) -> (r: (usize, usize))
        ensures
            r.0 == (self.element_count + 1) / 2,
            r.1 == self.element_count / 2,
    {
        let target_upper_size = self.element_count / 2;
        let target_lower_size = self.element_count - target_upper_size;
        (target_lower_size, target_upper_size)
    }

    fn balance_heaps(
        &mut self,
        lower_size: usize,
        upper_size: usize,
        target_lower_size: usize,
        target_upper_size: usize,
    )
        requires
            old(self).consistent(),
            old(self).lower_clean(),
            old(self).upper_clean(),
            lower_size == old(self).lower_count,
            lower_size + upper_size == old(self).element_count,
            target_lower_size == (old(self).element_count + 1) / 2,
            target_upper_size == old(self).element_count / 2,
        ensures
            final(self).consistent(),
            final(self).live@ == old(self).live@,
            final(self).element_count == old(self).element_count,
            final(self).live@.len() == final(self).element_count ==> final(self).lower_count
                == target_lower_size,
    {
        if lower_size > target_lower_size {
            let elements_to_move = lower_size - target_lower_size;
            self.move_elements_from_lower_to_upper(elements_to_move);
        } else if upper_size > target_upper_size {
            let elements_to_move = upper_size - target_upper_size;
            self.move_elements_from_upper_to_lower(elements_to_move);
        } else if lower_size < target_lower_size && upper_size > 0 {
            let wanted = target_lower_size - lower_size;
            let elements_to_move = if wanted < upper_size {
                wanted
            } else {
                upper_size
            };
            self.move_elements_from_upper_to_lower(elements_to_move);
        } else if upper_size < target_upper_size && lower_size > 0 {
            let wanted = target_upper_size - upper_size;
            let elements_to_move = if wanted < lower_size {
                wanted
            } else {
                lower_size
            };
            self.move_elements_from_lower_to_upper(elements_to_move);
        }
    }

    /// Moves `count` live keys from the top of the lower heap to the upper
    /// heap, discarding the stale copies that come up on the way.
    fn move_elements_from_lower_to_upper(&mut self, count: usize)
        requires
            old(self).consistent(),
        ensures
            final(self).consistent(),
            final(self).live@ == old(self).live@,
            final(self).element_count == old(self).element_count,
            final(self).lower_count <= old(self).lower_count,
            count <= old(self).lower_count ==> final(self).lower_count == old(self).lower_count
                - count,
    {
        let mut moved: usize = 0;
        while moved < count
            invariant
                self.consistent(),
                self.live@ == old(self).live@,
                self.element_count == old(self).element_count,
                moved <= count,
                moved <= old(self).lower_count,
                self.lower_count == old(self).lower_count - moved,
            ensures
                count <= old(self).lower_count ==> moved == count,
            decreases self.lower_heap@.len(),
        {
            let ghost l = self.lower_heap@;
            let ghost u = self.upper_heap@;
            let ghost p = counts_of(self.removal_tracker);
            let ghost a = self.lower_count as int;
            let ghost s = self.live@;
            let ghost ls = self.lower_stale@;
            let ghost us = self.upper_stale@;
            proof {
                broadcast use vstd::seq_lib::group_to_multiset_ensures;
                broadcast use vstd::multiset::group_multiset_axioms;

                // while live keys are left in the lower heap, it is not empty
                if count <= old(self).lower_count {
                    assert(s.take(a).len() > 0);
                    assert(s.take(a).to_multiset().len() > 0);
                    assert(l.to_multiset().len() > 0);
                }
                self.lower_heap.lemma_top();
            }
            if self.lower_heap.is_empty() {
                break ;
            }
            match self.lower_heap.pop() {
                Some(value) => {
                    if self.is_marked_for_removal(value) {
                        self.process_removed_element(value);
                        proof {
                            lemma_discard_lower(l, self.lower_heap@, u, p, a, s, ls, us);
                            self.lower_stale = Ghost(ls.remove(value));
                        }
                        continue ;
                    }
                    self.upper_heap.push(value);
                    proof {
                        lemma_move_up(l, self.lower_heap@, u, self.upper_heap@, p, a, s, ls, us);
                    }
                    self.lower_count -= 1;
                    moved += 1;
                },
                None => {
                    break ;
                },
            }
        }
    }

    /// Moves `count` live keys from the top of the upper heap to the lower
    /// heap, discarding the stale copies that come up on the way.
    fn move_elements_from_upper_to_lower(&mut self, count: usize)
        requires
            old(self).consistent(),
            old(self).lower_clean(),
        ensures
            final(self).consistent(),
            final(self).live@ == old(self).live@,
            final(self).element_count == old(self).element_count,
            final(self).lower_count >= old(self).lower_count,
            count <= old(self).live@.len() - old(self).lower_count ==> final(self).lower_count
                == old(self).lower_count + count,
    {
        let mut moved: usize = 0;
        while moved < count
            invariant
                self.consistent(),
                self.lower_clean(),
                self.live@ == old(self).live@,
                self.element_count == old(self).element_count,
                moved <= count,
                self.lower_count == old(self).lower_count + moved,
            ensures
                count <= old(self).live@.len() - old(self).lower_count ==> moved == count,
            decreases self.upper_heap@.len(),
        {
            let ghost l = self.lower_heap@;
            let ghost u = self.upper_heap@;
            let ghost p = counts_of(self.removal_tracker);
            let ghost a = self.lower_count as int;
            let ghost s = self.live@;
            let ghost ls = self.lower_stale@;
            let ghost us = self.upper_stale@;
            proof {
                broadcast use vstd::seq_lib::group_to_multiset_ensures;
                broadcast use vstd::multiset::group_multiset_axioms;

                // while live keys are left in the upper heap, it is not empty
                if count <= old(self).live@.len() - old(self).lower_count {
                    assert(s.skip(a).len() > 0);
                    assert(s.skip(a).to_multiset().len() > 0);
                    assert(u.to_multiset().len() > 0);
                }
                self.lower_heap.lemma_top();
                self.upper_heap.lemma_top();
            }
            if self.upper_heap.is_empty() {
                break ;
            }
            match self.upper_heap.pop() {
                Some(value) => {
                    if self.is_marked_for_removal(value) {
                        self.process_removed_element(value);
                        proof {
                            lemma_discard_upper(l, u, self.upper_heap@, p, a, s, ls, us);
                            self.upper_stale = Ghost(us.remove(value));
                        }
                        continue ;
                    }
                    self.lower_heap.push(value);
                    proof {
                        lemma_move_down(l, self.lower_heap@, u, self.upper_heap@, p, a, s, ls, us);
                        self.lower_heap.lemma_top();
                        let l2 = self.lower_heap@;
                        assert(l2.to_multiset().count(value) > 0);
                        assert(l2.contains(value));
                        let k = choose|k: int| 0 <= k < l2.len() && l2[k] == value;
                        assert(ahead(true, l2[0], l2[k]));
                        assert(l2[0] <= value);
                    }
                    self.lower_count += 1;
                    moved += 1;
                },
                None => {
                    break ;
                },
            }
        }
    }

    fn is_marked_for_removal(&self, value: i64) -> (r: bool)
        ensures
            r == counts_of(self.removal_tracker).contains_key(value),
    {
        self.removal_tracker.get(value).is_some()
    }

    /// Takes one pending removal of `value` off the books.
    fn process_removed_element(&mut self, value: i64)
        ensures
            final(self).same_but_tracker(old(self)),
            counts_of(final(self).removal_tracker) == if counts_of(
                old(self).removal_tracker,
            ).contains_key(value) && counts_of(old(self).removal_tracker)[value] >= 1 {
                discarded(counts_of(old(self).removal_tracker), value)
            } else {
                counts_of(old(self).removal_tracker)
            },
    {
        match self.removal_tracker.get(value) {
            Some(count) => {
                if count >= 1 {
                    let left = count - 1;
                    if left == 0 {
                        self.removal_tracker.remove(value);
                    } else {
                        self.removal_tracker.insert(value, left);
                    }
                }
            },
            None => {},
        }
    }

    fn clean_heap_tops(&mut self)
        requires
            old(self).consistent(),
        ensures
            final(self).consistent(),
            final(self).lower_clean(),
            final(self).upper_clean(),
            final(self).live@ == old(self).live@,
            final(self).element_count == old(self).element_count,
            final(self).lower_count == old(self).lower_count,
    {
        self.clean_lower_heap_top();
        self.clean_upper_heap_top();
    }

    fn clean_lower_heap_top(&mut self)
        requires
            old(self).consistent(),
        ensures
            final(self).consistent(),
            final(self).lower_clean(),
            final(self).live@ == old(self).live@,
            final(self).element_count == old(self).element_count,
            final(self).lower_count == old(self).lower_count,
    {
        loop
            invariant
                self.consistent(),
                self.live@ == old(self).live@,
                self.element_count == old(self).element_count,
                self.lower_count == old(self).lower_count,
            ensures
                self.lower_clean(),
            decreases self.lower_heap@.len(),
        {
            let top = match self.lower_heap.peek() {
                Some(t) => t,
                None => {
                    break ;
                },
            };
            if self.is_marked_for_removal(top) {
                let ghost l = self.lower_heap@;
                let ghost u = self.upper_heap@;
                let ghost p = counts_of(self.removal_tracker);
                let ghost a = self.lower_count as int;
                let ghost s = self.live@;
                let ghost ls = self.lower_stale@;
                let ghost us = self.upper_stale@;
                match self.lower_heap.pop() {
                    Some(value) => {
                        self.process_removed_element(value);
                        proof {
                            lemma_discard_lower(l, self.lower_heap@, u, p, a, s, ls, us);
                            self.lower_stale = Ghost(ls.remove(value));
                        }
                    },
                    None => {
                        break ;
                    },
                }
            } else {
                break ;
            }
        }
    }

    fn clean_upper_heap_top(&mut self)
        requires
            old(self).consistent(),
            old(self).lower_clean(),
        ensures
            final(self).consistent(),
            final(self).lower_clean(),
            final(self).upper_clean(),
            final(self).live@ == old(self).live@,
            final(self).element_count == old(self).element_count,
            final(self).lower_count == old(self).lower_count,
    {
        loop
            invariant
                self.consistent(),
                self.lower_clean(),
                self.live@ == old(self).live@,
                self.element_count == old(self).element_count,
                self.lower_count == old(self).lower_count,
            ensures
                self.upper_clean(),
            decreases self.upper_heap@.len(),
        {
            let top = match self.upper_heap.peek() {
                Some(t) => t,
                None => {
                    break ;
                },
            };
            if self.is_marked_for_removal(top) {
                let ghost l = self.lower_heap@;
                let ghost u = self.upper_heap@;
                let ghost p = counts_of(self.removal_tracker);
                let ghost a = self.lower_count as int;
                let ghost s = self.live@;
                let ghost ls = self.lower_stale@;
                let ghost us = self.upper_stale@;
                match self.upper_heap.pop() {
                    Some(value) => {
                        self.process_removed_element(value);
                        proof {
                            lemma_discard_upper(l, u, self.upper_heap@, p, a, s, ls, us);
                            self.upper_stale = Ghost(us.remove(value));
                        }
                    },
                    None => {
                        break ;
                    },
                }
            } else {
                break ;
            }
        }
    }

    /// The median of the keys held: the key in the middle for an odd number
    /// of keys, the two keys around the middle for an even number. While
    /// the stored count is too large, only the empty case is decided.
    pub fn median(&mut self) -> (r: Option<Median>)
        requires
            old(self).valid(),
        ensures
            final(self).valid(),
            final(self)@ == old(self)@,
            final(self).excess() == old(self).excess(),
            old(self).excess() == 0 ==> final(self).wf(),
            old(self)@.len() == 0 ==> r.is_none(),
            old(self).excess() == 0 && old(self)@.len() % 2 == 1 ==> r == Some(
                Median::Single(old(self)@[old(self)@.len() as int / 2]),
            ),
            old(self).excess() == 0 && old(self)@.len() > 0 && old(self)@.len() % 2 == 0 ==> r
                == Some(
                Median::Pair(
                    old(self)@[old(self)@.len() as int / 2 - 1],
                    old(self)@[old(self)@.len() as int / 2],
                ),
            ),
    {
        self.rebalance_heaps();
        if self.element_count == 0 {
            return None;
        }
        self.calculate_median()
    }

    fn calculate_median(&self) -> (r: Option<Median>)
        requires
            self.consistent(),
            self.lower_clean(),
            self.upper_clean(),
            self.element_count > 0,
        ensures
            self@.len() == 0 ==> r.is_none(),
            self.wf() && self@.len() % 2 == 1 ==> r == Some(
                Median::Single(self@[self@.len() as int / 2]),
            ),
            self.wf() && self@.len() % 2 == 0 ==> r == Some(
                Median::Pair(self@[self@.len() as int / 2 - 1], self@[self@.len() as int / 2]),
            ),
    {
        let lower_top = self.lower_heap.peek();
        let upper_top = self.upper_heap.peek();
        proof {
            broadcast use vstd::seq_lib::group_to_multiset_ensures;
            broadcast use vstd::multiset::group_multiset_axioms;

            let l = self.lower_heap@;
            let u = self.upper_heap@;
            let p = counts_of(self.removal_tracker);
            let a = self.lower_count as int;
            let s = self.live@;
            let ls = self.lower_stale@;
            let us = self.upper_stale@;
            if s.len() == 0 {
                // with no live key, a heap that held anything had a stale top
                if l.len() > 0 {
                    assert(l.contains(l[0]));
                    assert(l.to_multiset().count(l[0]) > 0);
                    assert(s.take(a).to_multiset().len() == 0);
                    assert(count_in(p, l[0]) == ls.count(l[0]) + us.count(l[0]));
                }
                if u.len() > 0 {
                    assert(u.contains(u[0]));
                    assert(u.to_multiset().count(u[0]) > 0);
                    assert(s.skip(a).to_multiset().len() == 0);
                    assert(count_in(p, u[0]) == ls.count(u[0]) + us.count(u[0]));
                }
            }
            if self.wf() {
                assert(s.take(a).len() > 0);
                assert(s.take(a).to_multiset().len() > 0);
                assert(l.to_multiset().len() > 0);
                lemma_lower_top(l, u, p, a, s, ls, us);
                if u.len() > 0 {
                    lemma_upper_top(l, u, p, a, s, ls, us);
                } else {
                    assert(u.to_multiset().len() == 0);
                    assert(s.skip(a).to_multiset().len() == 0);
                    assert(s.skip(a).len() == 0);
                }
            }
        }
        match (lower_top, upper_top) {
            (Some(lower), Some(upper)) => {
                if self.has_odd_number_of_elements() {
                    Some(Median::Single(lower))
                } else {
                    Some(Median::Pair(lower, upper))
                }
            },
            (Some(lower), None) => Some(Median::Single(lower)),
            (None, Some(upper)) => Some(Median::Single(upper)),
            (None, None) => None,
        }
    }

    fn has_odd_number_of_elements(&self) -> (r: bool)
        ensures
            r == (self.element_count % 2 == 1),
    {
        self.element_count % 2 == 1
    }

    /// Number of keys held.
    pub fn len(&self) -> (r: usize)
        requires
            self.wf(),
        ensures
            r == self@.len(),
    {
        self.element_count
    }

    /// Whether no key is held.
    pub fn is_empty(&self) -> (r: bool)
        requires
            self.wf(),
        ensures
            r == (self@.len() == 0),
    {
        self.element_count == 0
    }

    /// Forgets every key. The heaps and the map of pending removals are
    /// emptied in place and keep their storage.
    pub fn reset(&mut self)
        requires
            old(self).valid(),
        ensures
            final(self).wf(),
            final(self)@ == Seq::<i64>::empty(),
    {
        self.lower_heap.clear();
        self.upper_heap.clear();
        self.removal_tracker.clear();
        self.element_count = 0;
        self.lower_count = 0;
        self.live = Ghost(Seq::empty());
        self.lower_stale = Ghost(Multiset::empty());
        self.upper_stale = Ghost(Multiset::empty());
        proof {
            broadcast use vstd::seq_lib::group_to_multiset_ensures;
            broadcast use vstd::multiset::group_multiset_axioms;

            let e = Seq::<i64>::empty();
            assert(counts_of(self.removal_tracker).dom() =~= Set::<i64>::empty());
            assert(e.take(0) =~= e);
            assert(e.skip(0) =~= e);
            assert(e.to_multiset() =~= e.to_multiset().add(Multiset::<i64>::empty()));
        }
    }

    /// Gives spare memory back once the pending removals outnumber the
    /// live keys two to one. Nothing that is stored changes: both heaps
    /// keep their keys in place, the pending removals and the counters
    /// stay as they are.
    fn optimize_mem(&mut self)
        requires
            old(self).consistent(),
        ensures
            final(self).lower_heap@ == old(self).lower_heap@,
            final(self).upper_heap@ == old(self).upper_heap@,
            final(self).lower_heap.descending() == old(self).lower_heap.descending(),
            final(self).upper_heap.descending() == old(self).upper_heap.descending(),
            counts_of(final(self).removal_tracker) == counts_of(old(self).removal_tracker),
            final(self).live@ == old(self).live@,
            final(self).lower_stale@ == old(self).lower_stale@,
            final(self).upper_stale@ == old(self).upper_stale@,
            final(self).element_count == old(self).element_count,
            final(self).lower_count == old(self).lower_count,
            final(self).consistent(),
            final(self).lower_clean() == old(self).lower_clean(),
            final(self).upper_clean() == old(self).upper_clean(),
    {
        let pending = self.removal_tracker.len();
        if pending / 2 >= self.element_count && pending - self.element_count > self.element_count {
            self.removal_tracker.shrink_to_fit();
            self.lower_heap.shrink_to_fit();
            self.upper_heap.shrink_to_fit();
        }
    }
}

} // verus!
