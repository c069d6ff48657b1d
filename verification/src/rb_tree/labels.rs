//! How the node array carries a search tree: lemmas about links, labels
//! and subtree counts under rotations, insertions and removals.

use super::{
    Labels, Node, bounds_ok, dom_ok, handed, joined, joined_with, label_of, label_ok, lifted,
    links_ok, node_ok, root_ok, rotated, tree_ok,
};
use crate::sorted::{all_gt, all_lt, lemma_parts_sorted, rep, sorted};
use vstd::prelude::*;

verus! {

/// The nodes that a rotation at `x` touches are pairwise distinct and
/// consistent, and their stored subtree counts match their labels.
pub(super) proof fn lemma_around(
    on: Seq<Node>,
    lab: Labels,
    root: usize,
    nil: usize,
    x: usize,
    leftward: bool,
)
    requires
        tree_ok(on, lab, root, nil),
        lab.dom().contains(x),
        lifted(on[x as int], leftward) != nil,
    ensures
        ({
            let xn = on[x as int];
            let y = lifted(xn, leftward);
            let yn = on[y as int];
            let inner = handed(yn, leftward);
            let xp = xn.parent;
            let outer_x = handed(xn, leftward);
            let outer_y = lifted(yn, leftward);
            let new_x = joined_with(lab, nil, xn, xn.left, xn.right, inner, leftward);
            &&& x < nil && y < nil && inner <= nil && xp <= nil && outer_x <= nil && outer_y
                <= nil
            &&& node_ok(on, lab, root, nil, x)
            &&& node_ok(on, lab, root, nil, y)
            &&& inner != nil ==> node_ok(on, lab, root, nil, inner)
            &&& xp != nil ==> node_ok(on, lab, root, nil, xp)
            &&& outer_x != nil ==> node_ok(on, lab, root, nil, outer_x)
            &&& outer_y != nil ==> node_ok(on, lab, root, nil, outer_y)
            &&& x != y && inner != x && inner != y && xp != x && xp != y
            &&& xp != nil ==> xp != inner && xp != outer_x && xp != outer_y
            &&& outer_x != y && outer_x != x && outer_y != x && outer_y != y
            &&& outer_x != nil ==> outer_x != inner && outer_x != outer_y
            &&& inner != nil ==> inner != outer_y
            &&& on[y as int].parent == x
            &&& inner != nil ==> on[inner as int].subtree_count == lab[inner].len()
            &&& outer_x != nil ==> on[outer_x as int].subtree_count == lab[outer_x].len()
            &&& outer_y != nil ==> on[outer_y as int].subtree_count == lab[outer_y].len()
            &&& new_x.len() == label_of(lab, nil, outer_x).len() + xn.count + label_of(
                lab,
                nil,
                inner,
            ).len()
            &&& lab[x].len() == new_x.len() + yn.count + label_of(lab, nil, outer_y).len()
            &&& lab[x].len() == xn.subtree_count
            &&& xn.count >= 1 && yn.count >= 1
            &&& xp != nil ==> on[xp as int].left == x || on[xp as int].right == x
            &&& xp == nil ==> root == x
            &&& xp != nil ==> lab[xp].len() > lab[x].len()
            &&& lab[x].len() > lab[y].len()
            &&& inner != nil ==> lab[y].len() > lab[inner].len()
        }),
{
    let xn = on[x as int];
    let y = lifted(xn, leftward);
    let yn = on[y as int];
    let inner = handed(yn, leftward);
    let xp = xn.parent;
    let outer_x = handed(xn, leftward);
    let outer_y = lifted(yn, leftward);
    assert(node_ok(on, lab, root, nil, x));
    assert(node_ok(on, lab, root, nil, y));
    assert(lab[x].len() == label_of(lab, nil, xn.left).len() + xn.count + label_of(
        lab,
        nil,
        xn.right,
    ).len());
    assert(lab[y].len() == label_of(lab, nil, yn.left).len() + yn.count + label_of(
        lab,
        nil,
        yn.right,
    ).len());
    if inner != nil {
        assert(node_ok(on, lab, root, nil, inner));
    }
    if xp != nil {
        assert(node_ok(on, lab, root, nil, xp));
        let pn = on[xp as int];
        assert(lab[xp].len() == label_of(lab, nil, pn.left).len() + pn.count + label_of(
            lab,
            nil,
            pn.right,
        ).len());
        assert(lab[xp].len() > lab[x].len());
    }
    if outer_x != nil {
        assert(node_ok(on, lab, root, nil, outer_x));
    }
    if outer_y != nil {
        assert(node_ok(on, lab, root, nil, outer_y));
    }
    if outer_x == y {
        assert(lab[y][0] < xn.value && lab[y][0] > xn.value);
    }
    if inner != nil && inner == outer_y {
        assert(lab[inner].len() >= 1);
        assert(lab[inner][0] < yn.value && lab[inner][0] > yn.value);
    }
}

/// Children of a node carry strictly shorter labels and point back at it.
pub(super) proof fn lemma_children(on: Seq<Node>, lab: Labels, root: usize, nil: usize, i: usize)
    requires
        tree_ok(on, lab, root, nil),
        lab.dom().contains(i),
    ensures
        ({
            let n = on[i as int];
            &&& node_ok(on, lab, root, nil, i)
            &&& i < nil
            &&& n.left != nil ==> lab.dom().contains(n.left) && on[n.left as int].parent == i
                && lab[n.left].len() < lab[i].len() && n.left != i
            &&& n.right != nil ==> lab.dom().contains(n.right) && on[n.right as int].parent == i
                && lab[n.right].len() < lab[i].len() && n.right != i
            &&& n.left != nil ==> n.left != n.right
            &&& n.parent != nil ==> lab.dom().contains(n.parent) && lab[i].len()
                < lab[n.parent].len() && n.parent != i
            &&& lab[i].len() >= 1
            &&& n.left <= nil && n.right <= nil && n.parent <= nil
        }),
{
    let n = on[i as int];
    assert(node_ok(on, lab, root, nil, i));
    if n.left != nil {
        assert(node_ok(on, lab, root, nil, n.left));
    }
    if n.right != nil {
        assert(node_ok(on, lab, root, nil, n.right));
    }
    assert(lab[i].len() == label_of(lab, nil, n.left).len() + n.count + label_of(
        lab,
        nil,
        n.right,
    ).len());
    if n.left != nil && n.left == n.right {
        assert(node_ok(on, lab, root, nil, n.left));
        let c = on[n.left as int];
        assert(lab[n.left].len() == label_of(lab, nil, c.left).len() + c.count + label_of(
            lab,
            nil,
            c.right,
        ).len());
        assert(lab[n.left][0] < n.value && lab[n.left][0] > n.value);
    }
    if n.parent != nil {
        assert(node_ok(on, lab, root, nil, n.parent));
        let pn = on[n.parent as int];
        assert(lab[n.parent].len() == label_of(lab, nil, pn.left).len() + pn.count + label_of(
            lab,
            nil,
            pn.right,
        ).len());
    }
}

/// Labels around a left rotation: the lowered node keeps a sorted label
/// below the lifted key, and the lifted node inherits the old label.
pub(super) proof fn lemma_rotate_labels(a: Seq<i64>, xv: i64, xc: usize, b: Seq<i64>, yv: i64, yc: usize, c: Seq<i64>)
    requires
        sorted(a),
        sorted(b),
        sorted(c),
        yc >= 1,
        all_lt(a, xv),
        all_gt(b + rep(yv, yc) + c, xv),
        all_lt(b, yv),
        all_gt(c, yv),
    ensures
        xv < yv,
        all_gt(b, xv),
        all_lt(a + rep(xv, xc) + b, yv),
        sorted(a + rep(xv, xc) + b),
        (a + rep(xv, xc) + b) + rep(yv, yc) + c == a + rep(xv, xc) + (b + rep(yv, yc) + c),
{
    let ly = b + rep(yv, yc) + c;
    let nx = a + rep(xv, xc) + b;
    assert(ly[b.len() as int] == yv);
    assert forall|j: int| 0 <= j < b.len() implies #[trigger] b[j] > xv by {
        assert(ly[j] == b[j]);
    }
    assert forall|j: int| 0 <= j < nx.len() implies #[trigger] nx[j] < yv by {
        if j < a.len() {
            assert(nx[j] == a[j]);
        } else if j < a.len() + xc {
            assert(nx[j] == xv);
        } else {
            assert(nx[j] == b[j - a.len() - xc]);
        }
    }
    lemma_parts_sorted(a, xv, xc, b);
    assert(nx + rep(yv, yc) + c =~= a + rep(xv, xc) + ly);
}

/// Labels around a right rotation, mirroring `lemma_rotate_labels`.
pub(super) proof fn lemma_rotate_labels_mirror(
    a: Seq<i64>,
    xv: i64,
    xc: usize,
    b: Seq<i64>,
    yv: i64,
    yc: usize,
    c: Seq<i64>,
)
    requires
        sorted(a),
        sorted(b),
        sorted(c),
        yc >= 1,
        all_gt(a, xv),
        all_lt(c + rep(yv, yc) + b, xv),
        all_gt(b, yv),
        all_lt(c, yv),
    ensures
        xv > yv,
        all_lt(b, xv),
        all_gt(b + rep(xv, xc) + a, yv),
        sorted(b + rep(xv, xc) + a),
        c + rep(yv, yc) + (b + rep(xv, xc) + a) == (c + rep(yv, yc) + b) + rep(xv, xc) + a,
{
    let ly = c + rep(yv, yc) + b;
    let nx = b + rep(xv, xc) + a;
    assert(ly[c.len() as int] == yv);
    assert forall|j: int| 0 <= j < b.len() implies #[trigger] b[j] < xv by {
        assert(ly[c.len() + yc + j] == b[j]);
    }
    assert forall|j: int| 0 <= j < nx.len() implies #[trigger] nx[j] > yv by {
        if j < b.len() {
            assert(nx[j] == b[j]);
        } else if j < b.len() + xc {
            assert(nx[j] == xv);
        } else {
            assert(nx[j] == a[j - b.len() - xc]);
        }
    }
    lemma_parts_sorted(b, xv, xc, a);
    assert(c + rep(yv, yc) + nx =~= ly + rep(xv, xc) + a);
}

/// After a rotation at `x`, the lowered node `x` and the lifted node `y`
/// are consistent.
pub(super) proof fn lemma_rotate_pair(
    on: Seq<Node>,
    nn: Seq<Node>,
    lab: Labels,
    lab2: Labels,
    root: usize,
    root2: usize,
    nil: usize,
    x: usize,
    leftward: bool,
)
    requires
        tree_ok(on, lab, root, nil),
        lab.dom().contains(x),
        lifted(on[x as int], leftward) != nil,
        rotated(on, nn, lab, lab2, root, root2, nil, x, leftward),
    ensures
        node_ok(nn, lab2, root2, nil, x),
        node_ok(nn, lab2, root2, nil, lifted(on[x as int], leftward)),
{
    let xn = on[x as int];
    let y = lifted(xn, leftward);
    let yn = on[y as int];
    let inner = handed(yn, leftward);
    let xp = xn.parent;
    let outer_x = handed(xn, leftward);
    let outer_y = lifted(yn, leftward);
    lemma_around(on, lab, root, nil, x, leftward);
    let a = label_of(lab, nil, outer_x);
    let b = label_of(lab, nil, inner);
    let c = label_of(lab, nil, outer_y);
    assert(sorted(a) && sorted(b) && sorted(c));
    assert(lab2.dom() =~= lab.dom());
    assert(label_of(lab2, nil, outer_x) == a);
    assert(label_of(lab2, nil, inner) == b);
    assert(label_of(lab2, nil, outer_y) == c);
    if leftward {
        lemma_rotate_labels(a, xn.value, xn.count, b, yn.value, yn.count, c);
    } else {
        lemma_rotate_labels_mirror(a, xn.value, xn.count, b, yn.value, yn.count, c);
    }
    assert(links_ok(nn, lab2.dom(), root2, nil, x));
    assert(bounds_ok(nn, lab2, nil, x));
    assert(label_ok(nn, lab2, nil, x));
    assert(links_ok(nn, lab2.dom(), root2, nil, y));
    assert(bounds_ok(nn, lab2, nil, y));
    assert(label_ok(nn, lab2, nil, y));
}

/// After a rotation at `x`, the parent of `x` and the handed-over child are
/// consistent.
pub(super) proof fn lemma_rotate_rim(
    on: Seq<Node>,
    nn: Seq<Node>,
    lab: Labels,
    lab2: Labels,
    root: usize,
    root2: usize,
    nil: usize,
    x: usize,
    leftward: bool,
)
    requires
        tree_ok(on, lab, root, nil),
        lab.dom().contains(x),
        lifted(on[x as int], leftward) != nil,
        rotated(on, nn, lab, lab2, root, root2, nil, x, leftward),
    ensures
        ({
            let inner = handed(on[lifted(on[x as int], leftward) as int], leftward);
            let xp = on[x as int].parent;
            &&& inner != nil ==> node_ok(nn, lab2, root2, nil, inner)
            &&& xp != nil ==> node_ok(nn, lab2, root2, nil, xp)
        }),
{
    let xn = on[x as int];
    let y = lifted(xn, leftward);
    let yn = on[y as int];
    let inner = handed(yn, leftward);
    let xp = xn.parent;
    lemma_around(on, lab, root, nil, x, leftward);
    lemma_children(on, lab, root, nil, x);
    lemma_children(on, lab, root, nil, y);
    assert(lab2.dom() =~= lab.dom());
    if inner != nil {
        lemma_children(on, lab, root, nil, inner);
        let n = on[inner as int];
        assert(n.left != nil ==> nn[n.left as int] == on[n.left as int]);
        assert(n.right != nil ==> nn[n.right as int] == on[n.right as int]);
        assert(label_of(lab2, nil, n.left) == label_of(lab, nil, n.left));
        assert(label_of(lab2, nil, n.right) == label_of(lab, nil, n.right));
        assert(links_ok(nn, lab2.dom(), root2, nil, inner));
        assert(bounds_ok(nn, lab2, nil, inner));
        assert(label_ok(nn, lab2, nil, inner));
    }
    if xp != nil {
        lemma_children(on, lab, root, nil, xp);
        let n = on[xp as int];
        let m = nn[xp as int];
        assert(lab2[y] == lab[x]);
        if n.left == x {
            assert(m.left == y && m.right == n.right);
            assert(n.right != nil ==> nn[n.right as int] == on[n.right as int]);
            assert(label_of(lab2, nil, m.left) == label_of(lab, nil, n.left));
            assert(label_of(lab2, nil, m.right) == label_of(lab, nil, n.right));
        } else {
            assert(m.right == y && m.left == n.left);
            assert(n.left != nil ==> nn[n.left as int] == on[n.left as int]);
            assert(label_of(lab2, nil, m.left) == label_of(lab, nil, n.left));
            assert(label_of(lab2, nil, m.right) == label_of(lab, nil, n.right));
        }
        assert(n.parent != nil ==> n.parent != x && n.parent != y && n.parent != inner);
        assert(n.parent != nil ==> nn[n.parent as int] == on[n.parent as int]);
        assert(links_ok(nn, lab2.dom(), root2, nil, xp));
        assert(bounds_ok(nn, lab2, nil, xp));
        assert(label_ok(nn, lab2, nil, xp));
    }
}

/// After a rotation at `x`, a node that the rotation did not touch is
/// still consistent.
pub(super) proof fn lemma_rotate_other(
    on: Seq<Node>,
    nn: Seq<Node>,
    lab: Labels,
    lab2: Labels,
    root: usize,
    root2: usize,
    nil: usize,
    x: usize,
    leftward: bool,
    i: usize,
)
    requires
        tree_ok(on, lab, root, nil),
        lab.dom().contains(x),
        lifted(on[x as int], leftward) != nil,
        rotated(on, nn, lab, lab2, root, root2, nil, x, leftward),
        lab.dom().contains(i),
        i != x,
        i != lifted(on[x as int], leftward),
        i != handed(on[lifted(on[x as int], leftward) as int], leftward),
        i != on[x as int].parent,
    ensures
        node_ok(nn, lab2, root2, nil, i),
{
    let xn = on[x as int];
    let y = lifted(xn, leftward);
    let yn = on[y as int];
    let inner = handed(yn, leftward);
    let xp = xn.parent;
    lemma_around(on, lab, root, nil, x, leftward);
    lemma_children(on, lab, root, nil, i);
    assert(lab2.dom() =~= lab.dom());
    let n = on[i as int];
    assert(nn[i as int] == n);
    assert(n.left != x && n.left != y && n.right != x && n.right != y);
    assert(n.left != nil ==> n.left != inner);
    assert(n.right != nil ==> n.right != inner);
    assert(n.left != nil ==> nn[n.left as int].parent == i);
    assert(n.right != nil ==> nn[n.right as int].parent == i);
    assert(label_of(lab2, nil, n.left) == label_of(lab, nil, n.left));
    assert(label_of(lab2, nil, n.right) == label_of(lab, nil, n.right));
    if n.parent != nil {
        let p = n.parent;
        if p == x {
            assert(i == handed(xn, leftward));
        } else if p == y {
            assert(i == lifted(yn, leftward));
        } else if p == xp {
            assert(on[xp as int].left == i || on[xp as int].right == i);
        } else if p == inner {
            assert(nn[p as int].left == on[p as int].left);
            assert(nn[p as int].right == on[p as int].right);
        } else {
            assert(nn[p as int] == on[p as int]);
        }
        assert(nn[p as int].left == i || nn[p as int].right == i);
    }
    assert(links_ok(nn, lab2.dom(), root2, nil, i));
    assert(bounds_ok(nn, lab2, nil, i));
    assert(label_ok(nn, lab2, nil, i));
}

/// A rotation keeps the tree consistent and its keys in place.
pub(super) proof fn lemma_rotate(
    on: Seq<Node>,
    nn: Seq<Node>,
    lab: Labels,
    lab2: Labels,
    root: usize,
    root2: usize,
    nil: usize,
    x: usize,
    leftward: bool,
)
    requires
        tree_ok(on, lab, root, nil),
        lab.dom().contains(x),
        lifted(on[x as int], leftward) != nil,
        rotated(on, nn, lab, lab2, root, root2, nil, x, leftward),
    ensures
        tree_ok(nn, lab2, root2, nil),
        label_of(lab2, nil, root2) == label_of(lab, nil, root),
        lab2.dom() == lab.dom(),
{
    let xn = on[x as int];
    let y = lifted(xn, leftward);
    let inner = handed(on[y as int], leftward);
    let xp = xn.parent;
    lemma_around(on, lab, root, nil, x, leftward);
    lemma_rotate_pair(on, nn, lab, lab2, root, root2, nil, x, leftward);
    lemma_rotate_rim(on, nn, lab, lab2, root, root2, nil, x, leftward);
    assert(lab2.dom() =~= lab.dom());
    assert forall|i: usize| lab2.dom().contains(i) implies #[trigger] node_ok(
        nn,
        lab2,
        root2,
        nil,
        i,
    ) by {
        assert(node_ok(on, lab, root, nil, i));
        if i != x && i != y && i != inner && i != xp {
            lemma_rotate_other(on, nn, lab, lab2, root, root2, nil, x, leftward, i);
        }
    }
    assert(root_ok(nn, lab2.dom(), root2, nil)) by {
        if xp != nil && root != nil {
            assert(node_ok(on, lab, root, nil, root));
            assert(on[root as int].parent == nil);
            assert(root != x && root != y && root != inner);
            assert(nn[root as int].parent == on[root as int].parent);
        }
    }
    assert(label_of(lab2, nil, root2) == label_of(lab, nil, root));
}

/// The sequence `s` after the key `v` went in at `pos`, or after the `n`
/// keys from `pos` on came out.
pub(super) open spec fn edited(ins: bool, n: int, pos: int, v: i64, s: Seq<i64>) -> Seq<i64> {
    if ins {
        s.insert(pos, v)
    } else {
        s.subrange(0, pos) + s.subrange(pos + n, s.len() as int)
    }
}

/// The edit is in range, concerns copies of the key `v` only, and leaves a
/// length that a `usize` can hold.
pub(super) open spec fn edit_fits(ins: bool, n: int, pos: int, v: i64, s: Seq<i64>) -> bool {
    if ins {
        0 <= pos <= s.len() && s.len() < usize::MAX
    } else {
        &&& 0 <= pos
        &&& 1 <= n
        &&& pos + n <= s.len()
        &&& s.len() <= usize::MAX
        &&& forall|j: int| pos <= j < pos + n ==> #[trigger] s[j] == v
    }
}

/// Whether `pos` (and `n`) address a valid edit of `s`.
pub(super) open spec fn edit_in_range(ins: bool, n: int, pos: int, s: Seq<i64>) -> bool {
    if ins {
        0 <= pos <= s.len()
    } else {
        0 <= pos && 1 <= n && pos + n <= s.len()
    }
}

/// An edit inside the left part of `a + b` is an edit of `a`.
pub(super) proof fn lemma_edit_left(ins: bool, n: int, pos: int, v: i64, a: Seq<i64>, b: Seq<i64>)
    requires
        edit_in_range(ins, n, pos, a),
    ensures
        edited(ins, n, pos, v, a + b) == edited(ins, n, pos, v, a) + b,
{
    assert(edited(ins, n, pos, v, a + b) =~= edited(ins, n, pos, v, a) + b);
}

/// An edit inside the right part of `a + b` is an edit of `b`.
pub(super) proof fn lemma_edit_right(ins: bool, n: int, pos: int, v: i64, a: Seq<i64>, b: Seq<i64>)
    requires
        edit_in_range(ins, n, pos, b),
    ensures
        edited(ins, n, a.len() + pos, v, a + b) == a + edited(ins, n, pos, v, b),
{
    assert(edited(ins, n, a.len() + pos, v, a + b) =~= a + edited(ins, n, pos, v, b));
}

/// Every key of an edited sequence was there before or is the key that
/// went in.
pub(super) proof fn lemma_edit_members(ins: bool, n: int, pos: int, v: i64, s: Seq<i64>)
    requires
        edit_in_range(ins, n, pos, s),
    ensures
        forall|j: int|
            0 <= j < edited(ins, n, pos, v, s).len() ==> (#[trigger] edited(ins, n, pos, v, s)[j]
                == v && ins) || s.contains(edited(ins, n, pos, v, s)[j]),
{
    let t = edited(ins, n, pos, v, s);
    assert forall|j: int| 0 <= j < t.len() implies (#[trigger] t[j] == v && ins) || s.contains(
        t[j],
    ) by {
        if ins {
            if j < pos {
                assert(t[j] == s[j]);
            } else if j > pos {
                assert(t[j] == s[j - 1]);
            }
        } else {
            if j < pos {
                assert(t[j] == s[j]);
            } else {
                assert(t[j] == s[j + n]);
            }
        }
    }
}

/// Length of the label of the `j`-th node of a path.
pub(super) open spec fn path_rank(lab: Labels, path: Seq<usize>, j: int) -> nat {
    lab[path[j]].len()
}

/// The `j`-th node of a path is the child of the one before it, on the side
/// where `v` belongs.
pub(super) open spec fn path_step(nodes: Seq<Node>, path: Seq<usize>, v: i64, j: int) -> bool {
    let c = path[j];
    let p = path[j - 1];
    &&& nodes[c as int].parent == p
    &&& (nodes[p as int].left == c ==> v < nodes[p as int].value)
    &&& (nodes[p as int].right == c ==> v > nodes[p as int].value)
}

/// A search path for the key `v`: it starts at a parentless node, each node
/// is the child of the one before it on the side where `v` belongs, and
/// labels shrink along the path.
pub(super) open spec fn path_ok(nodes: Seq<Node>, lab: Labels, nil: usize, path: Seq<usize>, v: i64) -> bool {
    &&& path.len() > 0 ==> path_rank(lab, path, 0) < usize::MAX
    &&& forall|j: int| 0 <= j < path.len() ==> lab.dom().contains(#[trigger] path[j])
    &&& path.len() > 0 ==> nodes[path[0] as int].parent == nil
    &&& forall|j: int| 0 < j < path.len() ==> #[trigger] path_step(nodes, path, v, j)
    &&& forall|i: int, j: int|
        0 <= i < j < path.len() ==> #[trigger] path_rank(lab, path, i) > #[trigger] path_rank(
            lab,
            path,
            j,
        )
}

/// State of a bottom-up refresh of labels and subtree counts that has
/// reached `cur`: every other node is consistent if `cur` still carried
/// the label `old_e`, and the label that `cur` is due is `old_e` after the
/// edit. When `cur` is the sentinel the whole tree is consistent.
pub(super) open spec fn walk_state(
    nodes: Seq<Node>,
    labels: Labels,
    root: usize,
    nil: usize,
    cur: usize,
    ins: bool,
    n: int,
    pos: int,
    v: i64,
    old_e: Seq<i64>,
) -> bool {
    if cur == nil {
        tree_ok(nodes, labels, root, nil)
    } else {
        &&& nodes.len() == nil
        &&& dom_ok(labels.dom(), nil)
        &&& labels.dom().contains(cur)
        &&& nodes[cur as int].left != cur
        &&& nodes[cur as int].right != cur
        &&& nodes[cur as int].parent != cur
        &&& root_ok(nodes, labels.dom(), root, nil)
        &&& forall|i: usize|
            labels.dom().contains(i) && i != cur ==> #[trigger] node_ok(
                nodes,
                labels.insert(cur, old_e),
                root,
                nil,
                i,
            )
        &&& links_ok(nodes, labels.dom(), root, nil, cur)
        &&& bounds_ok(nodes, labels, nil, cur)
        &&& edit_fits(ins, n, pos, v, old_e)
        &&& sorted(old_e)
        &&& joined(nodes, labels, nil, cur) == edited(ins, n, pos, v, old_e)
    }
}

/// Position of the edit in the label of the parent `q` of `cur`.
pub(super) open spec fn lifted_pos(nodes: Seq<Node>, labels: Labels, nil: usize, cur: usize, pos: int) -> int {
    let q = nodes[cur as int].parent;
    if q == nil || nodes[q as int].left == cur {
        pos
    } else {
        label_of(labels, nil, nodes[q as int].left).len() + nodes[q as int].count + pos
    }
}

/// Refresh step, first part: `cur` itself becomes consistent.
pub(super) proof fn lemma_walk_cur(
    n1: Seq<Node>,
    n2: Seq<Node>,
    labels: Labels,
    root: usize,
    nil: usize,
    cur: usize,
    ins: bool,
    n: int,
    pos: int,
    v: i64,
    old_e: Seq<i64>,
)
    requires
        cur != nil,
        walk_state(n1, labels, root, nil, cur, ins, n, pos, v, old_e),
        n2 == n1.update(
            cur as int,
            (Node {
                subtree_count: joined(n1, labels, nil, cur).len() as usize,
                ..n1[cur as int]
            }),
        ),
    ensures
        node_ok(n2, labels.insert(cur, joined(n1, labels, nil, cur)), root, nil, cur),
        joined(n1, labels, nil, cur).len() <= usize::MAX,
{
    let la = labels.insert(cur, old_e);
    let je = joined(n1, labels, nil, cur);
    let labels2 = labels.insert(cur, je);
    let cn = n1[cur as int];
    assert(labels2.dom() =~= labels.dom());
    assert(la.dom() =~= labels.dom());
    let l = label_of(labels, nil, cn.left);
    let r = label_of(labels, nil, cn.right);
    if cn.left != nil {
        assert(node_ok(n1, la, root, nil, cn.left));
    }
    if cn.right != nil {
        assert(node_ok(n1, la, root, nil, cn.right));
    }
    assert(sorted(l) && sorted(r));
    lemma_parts_sorted(l, cn.value, cn.count, r);
    assert(label_of(labels2, nil, cn.left) == l);
    assert(label_of(labels2, nil, cn.right) == r);
    assert(links_ok(n2, labels2.dom(), root, nil, cur));
    assert(bounds_ok(n2, labels2, nil, cur));
    assert(label_ok(n2, labels2, nil, cur));
}

/// Refresh step, second part: the search path without its last node is a
/// search path of the refreshed tree.
pub(super) proof fn lemma_walk_path(
    n1: Seq<Node>,
    n2: Seq<Node>,
    la: Labels,
    labels2: Labels,
    nil: usize,
    cur: usize,
    v: i64,
    path: Seq<usize>,
)
    requires
        cur < n1.len(),
        n1[cur as int].parent != nil,
        path.len() > 0,
        path.last() == cur,
        path_ok(n1, la, nil, path, v),
        n2.len() == n1.len(),
        forall|j: int| 0 <= j < n1.len() && j != cur ==> n2[j] == n1[j],
        labels2.dom() == la.dom(),
        forall|i: usize| la.dom().contains(i) && i != cur ==> labels2[i] == la[i],
        dom_ok(la.dom(), nil),
        n1.len() == nil,
    ensures
        path.len() > 1,
        path.drop_last().last() == n1[cur as int].parent,
        path_ok(n2, labels2, nil, path.drop_last(), v),
{
    let k = path.len() - 1;
    assert(path[k] == cur);
    if k == 0 {
        assert(n1[path[0] as int].parent == nil);
    } else {
        assert(path_step(n1, path, v, k));
    }
    let short = path.drop_last();
    assert forall|j: int| 0 <= j < short.len() implies short[j] != cur && la.dom().contains(
        short[j],
    ) && short[j] == path[j] by {
        assert(path_rank(la, path, j) > path_rank(la, path, k));
        assert(la.dom().contains(path[j]));
    }
    assert forall|j: int| 0 <= j < short.len() implies labels2.dom().contains(
        #[trigger] short[j],
    ) by {}
    assert forall|j: int| 0 < j < short.len() implies #[trigger] path_step(n2, short, v, j) by {
        assert(path_step(n1, path, v, j));
        assert(short[j] == path[j]);
        assert(short[j - 1] == path[j - 1]);
    }
    assert forall|i: int, j: int| 0 <= i < j < short.len() implies #[trigger] path_rank(
        labels2,
        short,
        i,
    ) > #[trigger] path_rank(labels2, short, j) by {
        assert(path_rank(la, path, i) > path_rank(la, path, j));
    }
    assert(path_rank(labels2, short, 0) == path_rank(la, path, 0));
}

/// Refresh step, third part: the parent `q` of `cur` is next in line, and
/// its due label is its old label after the same edit.
pub(super) proof fn lemma_walk_parent(
    n1: Seq<Node>,
    n2: Seq<Node>,
    labels: Labels,
    root: usize,
    nil: usize,
    cur: usize,
    ins: bool,
    n: int,
    pos: int,
    v: i64,
    old_e: Seq<i64>,
    path: Seq<usize>,
)
    requires
        cur != nil,
        n1[cur as int].parent != nil,
        walk_state(n1, labels, root, nil, cur, ins, n, pos, v, old_e),
        ins ==> path.len() > 0 && path.last() == cur && path_ok(
            n1,
            labels.insert(cur, old_e),
            nil,
            path,
            v,
        ),
        n2 == n1.update(
            cur as int,
            (Node {
                subtree_count: joined(n1, labels, nil, cur).len() as usize,
                ..n1[cur as int]
            }),
        ),
    ensures
        ({
            let q = n1[cur as int].parent;
            let labels2 = labels.insert(cur, joined(n1, labels, nil, cur));
            let pos2 = lifted_pos(n1, labels, nil, cur, pos);
            &&& q != cur && root != cur
            &&& labels.dom().contains(q)
            &&& n2[q as int].left != q && n2[q as int].right != q && n2[q as int].parent != q
            &&& links_ok(n2, labels2.dom(), root, nil, q)
            &&& bounds_ok(n2, labels2, nil, q)
            &&& edit_fits(ins, n, pos2, v, labels[q])
            &&& joined(n2, labels2, nil, q) == edited(ins, n, pos2, v, labels[q])
            &&& labels[q].len() > old_e.len()
            &&& labels[q].len() <= usize::MAX
            &&& sorted(labels[q])
        }),
{
    let q = n1[cur as int].parent;
    let la = labels.insert(cur, old_e);
    let je = joined(n1, labels, nil, cur);
    let labels2 = labels.insert(cur, je);
    assert(labels2.dom() =~= labels.dom());
    assert(la.dom() =~= labels.dom());
    lemma_edit_members(ins, n, pos, v, old_e);
    assert(node_ok(n1, la, root, nil, q));
    let qn = n1[q as int];
    let ql = label_of(la, nil, qn.left);
    let qr = label_of(la, nil, qn.right);
    assert(la[q] == ql + rep(qn.value, qn.count) + qr);
    assert(la[q] == labels[q]);
    assert(qn.left == cur || qn.right == cur);
    assert(qn.left != q && qn.right != q && qn.parent != q) by {
        if qn.parent == q {
            assert(qn.left == q || qn.right == q);
        }
    }
    if qn.left != nil && qn.left != cur {
        assert(node_ok(n1, la, root, nil, qn.left));
    }
    if qn.right != nil && qn.right != cur {
        assert(node_ok(n1, la, root, nil, qn.right));
    }
    if qn.parent != nil && qn.parent != cur {
        assert(node_ok(n1, la, root, nil, qn.parent));
    }
    if ins {
        let k = path.len() - 1;
        assert(path[k] == cur);
        if k == 0 {
            assert(n1[path[0] as int].parent == nil);
        }
        assert(path_step(n1, path, v, k));
        assert(path[k - 1] == q);
        if k - 1 > 0 {
            assert(path_rank(la, path, 0) > path_rank(la, path, k - 1));
        }
        assert(path_rank(la, path, k - 1) < usize::MAX);
    }
    let e2 = edited(ins, n, pos, v, old_e);
    if qn.left == cur && qn.right == cur {
        if old_e.len() >= 1 {
            assert(old_e[0] < qn.value && old_e[0] > qn.value);
        } else {
            assert(path_rank(la, path, path.len() - 2) > path_rank(la, path, path.len() - 1));
        }
    }
    if qn.left == cur {
        assert(ql == old_e);
        assert(label_of(labels2, nil, qn.right) == qr);
        lemma_edit_left(ins, n, pos, v, old_e + rep(qn.value, qn.count), qr);
        lemma_edit_left(ins, n, pos, v, old_e, rep(qn.value, qn.count));
        assert forall|j: int| 0 <= j < e2.len() implies #[trigger] e2[j] < qn.value by {
            if old_e.contains(e2[j]) {
                let i = choose|i: int| 0 <= i < old_e.len() && old_e[i] == e2[j];
                assert(old_e[i] < qn.value);
            }
        }
    } else {
        assert(qr == old_e);
        assert(label_of(labels2, nil, qn.left) == ql);
        lemma_edit_right(ins, n, pos, v, ql + rep(qn.value, qn.count), old_e);
        assert forall|j: int| 0 <= j < e2.len() implies #[trigger] e2[j] > qn.value by {
            if old_e.contains(e2[j]) {
                let i = choose|i: int| 0 <= i < old_e.len() && old_e[i] == e2[j];
                assert(old_e[i] > qn.value);
            }
        }
    }
    assert(links_ok(n2, labels2.dom(), root, nil, q));
    assert(bounds_ok(n2, labels2, nil, q));
}

/// One step of the bottom-up refresh: giving `cur` its due label and count
/// moves the pending state to its parent.
pub(super) proof fn lemma_walk_step(
    n1: Seq<Node>,
    n2: Seq<Node>,
    labels: Labels,
    root: usize,
    nil: usize,
    cur: usize,
    ins: bool,
    n: int,
    pos: int,
    v: i64,
    old_e: Seq<i64>,
    path: Seq<usize>,
)
    requires
        cur != nil,
        walk_state(n1, labels, root, nil, cur, ins, n, pos, v, old_e),
        ins ==> path.len() > 0 && path.last() == cur && path_ok(
            n1,
            labels.insert(cur, old_e),
            nil,
            path,
            v,
        ),
        n2 == n1.update(
            cur as int,
            (Node {
                subtree_count: joined(n1, labels, nil, cur).len() as usize,
                ..n1[cur as int]
            }),
        ),
    ensures
        ({
            let q = n1[cur as int].parent;
            let labels2 = labels.insert(cur, joined(n1, labels, nil, cur));
            let pos2 = lifted_pos(n1, labels, nil, cur, pos);
            &&& walk_state(n2, labels2, root, nil, q, ins, n, pos2, v, label_of(labels, nil, q))
            &&& labels2.dom() == labels.dom()
            &&& q == nil ==> root == cur && pos2 == pos
            &&& q != nil ==> root != cur && q != cur && labels[q].len() > old_e.len()
                && labels[q].len() <= usize::MAX && labels2.insert(q, labels[q]) == labels2
            &&& ins && q != nil ==> path.len() > 1 && path.drop_last().last() == q && path_ok(
                n2,
                labels2,
                nil,
                path.drop_last(),
                v,
            )
        }),
{
    let q = n1[cur as int].parent;
    let la = labels.insert(cur, old_e);
    let je = joined(n1, labels, nil, cur);
    let labels2 = labels.insert(cur, je);
    assert(labels2.dom() =~= labels.dom());
    assert(la.dom() =~= labels.dom());
    lemma_walk_cur(n1, n2, labels, root, nil, cur, ins, n, pos, v, old_e);
    if q == nil {
        assert forall|i: usize| labels2.dom().contains(i) implies #[trigger] node_ok(
            n2,
            labels2,
            root,
            nil,
            i,
        ) by {
            if i != cur {
                assert(node_ok(n1, la, root, nil, i));
                lemma_walk_other(n1, n2, labels, root, nil, cur, old_e, i);
            }
        }
        assert(root_ok(n2, labels2.dom(), root, nil));
    } else {
        lemma_walk_parent(n1, n2, labels, root, nil, cur, ins, n, pos, v, old_e, path);
        assert(labels2.insert(q, labels[q]) =~= labels2);
        assert forall|i: usize| labels2.dom().contains(i) && i != q implies #[trigger] node_ok(
            n2,
            labels2.insert(q, labels[q]),
            root,
            nil,
            i,
        ) by {
            if i != cur {
                assert(node_ok(n1, la, root, nil, i));
                lemma_walk_other(n1, n2, labels, root, nil, cur, old_e, i);
            }
        }
        if ins {
            lemma_walk_path(n1, n2, la, labels2, nil, cur, v, path);
        }
        assert(root_ok(n2, labels2.dom(), root, nil));
    }
}

/// During the bottom-up refresh, a node other than `cur` and its parent is
/// not affected by the step at `cur`.
pub(super) proof fn lemma_walk_other(
    n1: Seq<Node>,
    n2: Seq<Node>,
    labels: Labels,
    root: usize,
    nil: usize,
    cur: usize,
    old_e: Seq<i64>,
    i: usize,
)
    requires
        cur != nil,
        labels.dom().contains(cur),
        labels.dom().contains(i),
        i != cur,
        i != n1[cur as int].parent,
        n1.len() == nil,
        dom_ok(labels.dom(), nil),
        links_ok(n1, labels.dom(), root, nil, cur),
        node_ok(n1, labels.insert(cur, old_e), root, nil, i),
        n2.len() == n1.len(),
        forall|j: int| 0 <= j < n1.len() && j != cur ==> n2[j] == n1[j],
        n2[cur as int].value == n1[cur as int].value,
        n2[cur as int].count == n1[cur as int].count,
        n2[cur as int].parent == n1[cur as int].parent,
        n2[cur as int].left == n1[cur as int].left,
        n2[cur as int].right == n1[cur as int].right,
    ensures
        node_ok(n2, labels.insert(cur, joined(n1, labels, nil, cur)), root, nil, i),
{
    let la = labels.insert(cur, old_e);
    let labels2 = labels.insert(cur, joined(n1, labels, nil, cur));
    let n = n1[i as int];
    assert(la.dom() =~= labels.dom());
    assert(labels2.dom() =~= labels.dom());
    assert(n.left != cur && n.right != cur);
    assert(label_of(labels2, nil, n.left) == label_of(la, nil, n.left));
    assert(label_of(labels2, nil, n.right) == label_of(la, nil, n.right));
    assert(labels2[i] == la[i]);
    assert(links_ok(n2, labels2.dom(), root, nil, i));
    assert(bounds_ok(n2, labels2, nil, i));
    assert(label_ok(n2, labels2, nil, i));
}

/// Before the refresh step at `cur`: the stored counts of its children
/// match their labels, and the count that `cur` is due fits a `usize`.
pub(super) proof fn lemma_walk_sum(
    n1: Seq<Node>,
    labels: Labels,
    root: usize,
    nil: usize,
    cur: usize,
    ins: bool,
    n: int,
    pos: int,
    v: i64,
    old_e: Seq<i64>,
)
    requires
        cur != nil,
        walk_state(n1, labels, root, nil, cur, ins, n, pos, v, old_e),
    ensures
        ({
            let cn = n1[cur as int];
            &&& cur < nil
            &&& cn.left <= nil && cn.right <= nil && cn.parent <= nil
            &&& cn.left != nil ==> n1[cn.left as int].subtree_count == labels[cn.left].len()
            &&& cn.right != nil ==> n1[cn.right as int].subtree_count == labels[cn.right].len()
            &&& joined(n1, labels, nil, cur).len() == label_of(labels, nil, cn.left).len()
                + cn.count + label_of(labels, nil, cn.right).len()
            &&& joined(n1, labels, nil, cur).len() <= usize::MAX
        }),
{
    let la = labels.insert(cur, old_e);
    let cn = n1[cur as int];
    assert(la.dom() =~= labels.dom());
    if cn.left != nil {
        assert(node_ok(n1, la, root, nil, cn.left));
    }
    if cn.right != nil {
        assert(node_ok(n1, la, root, nil, cn.right));
    }
}

/// Two nodes that differ at most in colour.
pub(super) open spec fn same_but_color(a: Node, b: Node) -> bool {
    &&& a.value == b.value
    &&& a.count == b.count
    &&& a.parent == b.parent
    &&& a.left == b.left
    &&& a.right == b.right
    &&& a.subtree_count == b.subtree_count
}

/// Recolouring does not disturb the consistency of the tree.
pub(super) proof fn lemma_recolor(n1: Seq<Node>, n2: Seq<Node>, labels: Labels, root: usize, nil: usize)
    requires
        tree_ok(n1, labels, root, nil),
        n2.len() == n1.len(),
        forall|i: int| 0 <= i < n1.len() ==> same_but_color(#[trigger] n1[i], n2[i]),
    ensures
        tree_ok(n2, labels, root, nil),
{
    assert forall|i: usize| labels.dom().contains(i) implies #[trigger] node_ok(
        n2,
        labels,
        root,
        nil,
        i,
    ) by {
        assert(node_ok(n1, labels, root, nil, i));
        let n = n1[i as int];
        assert(same_but_color(n1[i as int], n2[i as int]));
        if n.left != nil {
            assert(same_but_color(n1[n.left as int], n2[n.left as int]));
        }
        if n.right != nil {
            assert(same_but_color(n1[n.right as int], n2[n.right as int]));
        }
        if n.parent != nil {
            assert(same_but_color(n1[n.parent as int], n2[n.parent as int]));
        }
        assert(links_ok(n2, labels.dom(), root, nil, i));
        assert(bounds_ok(n2, labels, nil, i));
        assert(label_ok(n2, labels, nil, i));
    }
    if root != nil {
        assert(same_but_color(n1[root as int], n2[root as int]));
    }
}

/// Raising the duplicate count of `z` leaves the tree ready for a refresh
/// that starts at `z`.
pub(super) proof fn lemma_recount(
    n1: Seq<Node>,
    n2: Seq<Node>,
    labels: Labels,
    root: usize,
    nil: usize,
    z: usize,
    ins: bool,
)
    requires
        tree_ok(n1, labels, root, nil),
        labels.dom().contains(z),
        ins ==> labels[z].len() < usize::MAX,
        !ins ==> n1[z as int].count > 1,
        n2 == n1.update(
            z as int,
            (Node {
                count: if ins {
                    (n1[z as int].count + 1) as usize
                } else {
                    (n1[z as int].count - 1) as usize
                },
                ..n1[z as int]
            }),
        ),
    ensures
        walk_state(
            n2,
            labels,
            root,
            nil,
            z,
            ins,
            1,
            label_of(labels, nil, n1[z as int].left).len() as int,
            n1[z as int].value,
            labels[z],
        ),
        n1[z as int].count <= labels[z].len(),
{
    let zn = n1[z as int];
    let la = labels.insert(z, labels[z]);
    assert(la =~= labels);
    lemma_children(n1, labels, root, nil, z);
    let l = label_of(labels, nil, zn.left);
    let r = label_of(labels, nil, zn.right);
    let pos = l.len() as int;
    assert(labels[z] == l + rep(zn.value, zn.count) + r);
    assert(labels[z][pos] == zn.value);
    assert(joined(n2, labels, nil, z) =~= edited(ins, 1, pos, zn.value, labels[z]));
    assert forall|i: usize| labels.dom().contains(i) && i != z implies #[trigger] node_ok(
        n2,
        la,
        root,
        nil,
        i,
    ) by {
        assert(node_ok(n1, labels, root, nil, i));
        assert(links_ok(n2, la.dom(), root, nil, i));
        assert(bounds_ok(n2, la, nil, i));
        assert(label_ok(n2, la, nil, i));
    }
    assert(links_ok(n2, labels.dom(), root, nil, z));
    assert(bounds_ok(n2, labels, nil, z));
    assert(root_ok(n2, labels.dom(), root, nil));
}

/// Hanging a fresh leaf `c` with key `v` under `par` (or making it the
/// root of an empty tree) leaves the tree ready for a refresh that starts
/// at the leaf.
pub(super) proof fn lemma_link_leaf(
    n1: Seq<Node>,
    n2: Seq<Node>,
    labels: Labels,
    root: usize,
    root2: usize,
    nil: usize,
    c: usize,
    par: usize,
    v: i64,
    path: Seq<usize>,
)
    requires
        tree_ok(n1, labels, root, nil),
        c < nil,
        !labels.dom().contains(c),
        par == nil ==> root == nil && path.len() == 0 && root2 == c,
        par != nil ==> labels.dom().contains(par) && path.len() > 0 && path.last() == par
            && root2 == root && path_ok(n1, labels, nil, path, v) && ((v < n1[par as int].value
            && n1[par as int].left == nil) || (v > n1[par as int].value && n1[par as int].right
            == nil)),
        n2.len() == n1.len(),
        forall|i: int| 0 <= i < n1.len() && i != c && i != par ==> #[trigger] n2[i] == n1[i],
        n2[c as int].value == v,
        n2[c as int].count == 1,
        n2[c as int].parent == par,
        n2[c as int].left == nil,
        n2[c as int].right == nil,
        par != nil ==> n2[par as int] == if v < n1[par as int].value {
            Node { left: c, ..n1[par as int] }
        } else {
            Node { right: c, ..n1[par as int] }
        },
    ensures
        ({
            let labels2 = labels.insert(c, Seq::<i64>::empty());
            &&& walk_state(n2, labels2, root2, nil, c, true, 1, 0, v, Seq::<i64>::empty())
            &&& path_ok(n2, labels2, nil, path.push(c), v)
            &&& label_of(labels2, nil, root2) == label_of(labels, nil, root) || (par == nil
                && label_of(labels, nil, root) == Seq::<i64>::empty())
        }),
{
    let e = Seq::<i64>::empty();
    let labels2 = labels.insert(c, e);
    let la = labels2.insert(c, e);
    assert(la =~= labels2);
    assert(labels2.dom() =~= labels.dom().insert(c));
    assert(joined(n2, labels2, nil, c) =~= e.insert(0, v));
    if par != nil {
        lemma_children(n1, labels, root, nil, par);
    }
    assert forall|i: usize| labels2.dom().contains(i) && i != c implies #[trigger] node_ok(
        n2,
        la,
        root2,
        nil,
        i,
    ) by {
        assert(node_ok(n1, labels, root, nil, i));
        lemma_children(n1, labels, root, nil, i);
        let n = n1[i as int];
        if i == par {
            let m = n2[i as int];
            assert(label_of(la, nil, m.left) == label_of(labels, nil, n.left));
            assert(label_of(la, nil, m.right) == label_of(labels, nil, n.right));
        } else {
            assert(label_of(la, nil, n.left) == label_of(labels, nil, n.left));
            assert(label_of(la, nil, n.right) == label_of(labels, nil, n.right));
        }
        assert(links_ok(n2, la.dom(), root2, nil, i));
        assert(bounds_ok(n2, la, nil, i));
        assert(label_ok(n2, la, nil, i));
    }
    assert(links_ok(n2, labels2.dom(), root2, nil, c));
    assert(bounds_ok(n2, labels2, nil, c));
    assert(root_ok(n2, labels2.dom(), root2, nil));
    let longer = path.push(c);
    let k = path.len() as int;
    assert forall|j: int| 0 <= j < k implies longer[j] == path[j] && path[j] != c
        && labels.dom().contains(path[j]) && path[j] < nil by {}
    assert forall|j: int| 0 <= j < longer.len() implies labels2.dom().contains(#[trigger] longer[j]) by {}
    assert forall|j: int| 0 < j < longer.len() implies #[trigger] path_step(n2, longer, v, j) by {
        if j < k {
            assert(path_step(n1, path, v, j));
            assert(path_rank(labels, path, j - 1) > path_rank(labels, path, j));
            if j < k - 1 {
                assert(path_rank(labels, path, j) > path_rank(labels, path, k - 1));
                assert(path_rank(labels, path, j - 1) > path_rank(labels, path, k - 1));
            } else {
                assert(path_rank(labels, path, j - 1) > path_rank(labels, path, k - 1));
            }
        }
    }
    assert forall|i: int, j: int| 0 <= i < j < longer.len() implies #[trigger] path_rank(
        labels2,
        longer,
        i,
    ) > #[trigger] path_rank(labels2, longer, j) by {
        lemma_children(n1, labels, root, nil, path[i]);
        if j < k {
            assert(path_rank(labels, path, i) > path_rank(labels, path, j));
        }
    }
    if k > 0 {
        assert(path_rank(labels2, longer, 0) == path_rank(labels, path, 0));
    }
}

/// `nn` is `on` after the slot that held `a` under its parent got `b`.
pub(super) open spec fn transplanted(
    on: Seq<Node>,
    nn: Seq<Node>,
    root: usize,
    root2: usize,
    nil: usize,
    a: usize,
    b: usize,
) -> bool {
    let p = on[a as int].parent;
    &&& nn.len() == on.len()
    &&& root2 == if p == nil {
        b
    } else {
        root
    }
    &&& forall|i: int| 0 <= i < on.len() && i != p && i != b ==> #[trigger] nn[i] == on[i]
    &&& p != nil ==> nn[p as int] == if on[p as int].left == a {
        Node { left: b, ..on[p as int] }
    } else {
        Node { right: b, ..on[p as int] }
    }
    &&& b != nil ==> nn[b as int] == Node { parent: p, ..on[b as int] }
}

/// Position of the own keys of `z` inside its label.
pub(super) open spec fn own_pos(nodes: Seq<Node>, labels: Labels, nil: usize, z: usize) -> int {
    label_of(labels, nil, nodes[z as int].left).len() as int
}

/// From `pos` on, every key of `s` is above `w`.
pub(super) open spec fn tail_gt(s: Seq<i64>, pos: int, w: i64) -> bool {
    forall|j: int| pos <= j < s.len() ==> #[trigger] s[j] > w
}

/// Taking a node `z` with at most one child `c` out of the tree, by
/// putting `c` in its place: either the tree is consistent again (when `z`
/// was the root), or the parent of `z` is due a refresh.
pub(super) proof fn lemma_unlink(
    on: Seq<Node>,
    nn: Seq<Node>,
    labels: Labels,
    root: usize,
    root2: usize,
    nil: usize,
    z: usize,
    c: usize,
)
    requires
        tree_ok(on, labels, root, nil),
        labels.dom().contains(z),
        (on[z as int].left == nil && c == on[z as int].right) || (on[z as int].right == nil && c
            == on[z as int].left),
        transplanted(on, nn, root, root2, nil, z, c),
    ensures
        ({
            let labels2 = labels.remove(z);
            let p = on[z as int].parent;
            let n = on[z as int].count as int;
            let v = on[z as int].value;
            let pz = own_pos(on, labels, nil, z);
            let pp = lifted_pos(on, labels, nil, z, pz);
            &&& label_of(labels, nil, c) == edited(false, n, pz, v, labels[z])
            &&& edit_fits(false, n, pz, v, labels[z])
            &&& p == nil ==> root == z && tree_ok(nn, labels2, root2, nil) && label_of(
                labels2,
                nil,
                root2,
            ) == edited(false, n, pz, v, labels[z])
            &&& p != nil ==> root != z && p != z && labels.dom().contains(p) && walk_state(
                nn,
                labels2,
                root2,
                nil,
                p,
                false,
                n,
                pp,
                v,
                labels[p],
            ) && labels2.insert(p, labels[p]) == labels2 && label_of(labels2, nil, root2)
                == label_of(labels, nil, root)
            &&& p != nil && on[p as int].left == z ==> pp == pz
            &&& p != nil && on[p as int].left != z ==> pp == label_of(
                labels2,
                nil,
                nn[p as int].left,
            ).len() + nn[p as int].count + pz
        }),
{
    let labels2 = labels.remove(z);
    let zn = on[z as int];
    let p = zn.parent;
    let n = zn.count as int;
    let v = zn.value;
    let pz = own_pos(on, labels, nil, z);
    let pp = lifted_pos(on, labels, nil, z, pz);
    let lz = labels[z];
    let lc = label_of(labels, nil, c);
    lemma_children(on, labels, root, nil, z);
    assert(lz == label_of(labels, nil, zn.left) + rep(v, zn.count) + label_of(
        labels,
        nil,
        zn.right,
    ));
    assert(lc =~= edited(false, n, pz, v, lz));
    assert forall|j: int| pz <= j < pz + n implies #[trigger] lz[j] == v by {}
    assert(labels2.dom() =~= labels.dom().remove(z));
    if c != nil {
        lemma_children(on, labels, root, nil, c);
    }
    assert forall|j: int| 0 <= j < lc.len() implies lz.contains(#[trigger] lc[j]) by {
        if zn.left == nil {
            assert(lz[n + j] == lc[j]);
        } else {
            assert(lz[j] == lc[j]);
        }
    }
    if p != nil {
        lemma_children(on, labels, root, nil, p);
        let pn = on[p as int];
        let l = label_of(labels, nil, pn.left);
        let r = label_of(labels, nil, pn.right);
        assert(labels[p] == l + rep(pn.value, pn.count) + r);
        assert(labels2.insert(p, labels[p]) =~= labels2);
        assert(root != z) by {
            if root == z {
                assert(on[root as int].parent == nil);
            }
        }
        if pn.left == z {
            assert(label_of(labels2, nil, pn.right) == r);
            lemma_edit_left(false, n, pz, v, lz + rep(pn.value, pn.count), r);
            lemma_edit_left(false, n, pz, v, lz, rep(pn.value, pn.count));
            assert forall|j: int| 0 <= j < lc.len() implies #[trigger] lc[j] < pn.value by {
                let i = choose|i: int| 0 <= i < lz.len() && lz[i] == lc[j];
                assert(lz[i] < pn.value);
            }
            assert forall|j: int| pp <= j < pp + n implies #[trigger] labels[p][j] == v by {
                assert(labels[p][j] == lz[j]);
            }
        } else {
            assert(pn.right == z);
            assert(label_of(labels2, nil, pn.left) == l);
            lemma_edit_right(false, n, pz, v, l + rep(pn.value, pn.count), lz);
            assert forall|j: int| 0 <= j < lc.len() implies #[trigger] lc[j] > pn.value by {
                let i = choose|i: int| 0 <= i < lz.len() && lz[i] == lc[j];
                assert(lz[i] > pn.value);
            }
            assert forall|j: int| pp <= j < pp + n implies #[trigger] labels[p][j] == v by {
                assert(labels[p][j] == lz[j - l.len() - pn.count]);
            }
        }
        assert forall|i: usize| labels2.dom().contains(i) && i != p implies #[trigger] node_ok(
            nn,
            labels2.insert(p, labels[p]),
            root2,
            nil,
            i,
        ) by {
            lemma_unlink_other(on, nn, labels, root, root2, nil, z, c, i);
        }
        assert(links_ok(nn, labels2.dom(), root2, nil, p)) by {
            if pn.parent != nil {
                lemma_children(on, labels, root, nil, pn.parent);
            }
            if pn.left != nil && pn.left != z {
                lemma_children(on, labels, root, nil, pn.left);
            }
            if pn.right != nil && pn.right != z {
                lemma_children(on, labels, root, nil, pn.right);
            }
        }
        assert(bounds_ok(nn, labels2, nil, p));
        assert(root_ok(nn, labels2.dom(), root2, nil)) by {
            if root != nil {
                lemma_children(on, labels, root, nil, root);
            }
        }
    } else {
        assert forall|i: usize| labels2.dom().contains(i) implies #[trigger] node_ok(
            nn,
            labels2,
            root2,
            nil,
            i,
        ) by {
            lemma_unlink_other(on, nn, labels, root, root2, nil, z, c, i);
        }
    }
}

/// When `z` leaves the tree and its only child `c` takes its place, a node
/// other than `z` and the parent of `z` stays consistent.
pub(super) proof fn lemma_unlink_other(
    on: Seq<Node>,
    nn: Seq<Node>,
    labels: Labels,
    root: usize,
    root2: usize,
    nil: usize,
    z: usize,
    c: usize,
    i: usize,
)
    requires
        tree_ok(on, labels, root, nil),
        labels.dom().contains(z),
        (on[z as int].left == nil && c == on[z as int].right) || (on[z as int].right == nil && c
            == on[z as int].left),
        transplanted(on, nn, root, root2, nil, z, c),
        labels.dom().contains(i),
        i != z,
        i != on[z as int].parent,
    ensures
        node_ok(nn, labels.remove(z), root2, nil, i),
{
    let labels2 = labels.remove(z);
    let zn = on[z as int];
    let p = zn.parent;
    lemma_children(on, labels, root, nil, z);
    lemma_children(on, labels, root, nil, i);
    if p != nil {
        lemma_children(on, labels, root, nil, p);
    }
    if c != nil {
        lemma_children(on, labels, root, nil, c);
    }
    assert(labels2.dom() =~= labels.dom().remove(z));
    let n = on[i as int];
    let m = nn[i as int];
    assert(m.left == n.left && m.right == n.right && m.value == n.value && m.count == n.count
        && m.subtree_count == n.subtree_count);
    assert(n.left != z && n.right != z);
    if n.left != nil {
        lemma_children(on, labels, root, nil, n.left);
        assert(nn[n.left as int].parent == i);
    }
    if n.right != nil {
        lemma_children(on, labels, root, nil, n.right);
        assert(nn[n.right as int].parent == i);
    }
    assert(label_of(labels2, nil, n.left) == label_of(labels, nil, n.left));
    assert(label_of(labels2, nil, n.right) == label_of(labels, nil, n.right));
    if i == c {
        assert(m.parent == p);
        if p == nil {
            assert(root2 == c);
        } else {
            assert(nn[p as int].left == c || nn[p as int].right == c);
        }
    } else {
        assert(m.parent == n.parent);
        if n.parent != nil {
            lemma_children(on, labels, root, nil, n.parent);
            assert(n.parent != z);
            assert(nn[n.parent as int].left == i || nn[n.parent as int].right == i);
        } else {
            assert(root == i);
            assert(p != nil);
        }
    }
    assert(links_ok(nn, labels2.dom(), root2, nil, i));
    assert(bounds_ok(nn, labels2, nil, i));
    assert(label_ok(nn, labels2, nil, i));
}

/// The `j`-th node of a left spine is the left child of the one before it.
pub(super) open spec fn spine_step(nodes: Seq<Node>, spine: Seq<usize>, j: int) -> bool {
    nodes[spine[j - 1] as int].left == spine[j] && nodes[spine[j] as int].parent == spine[j - 1]
}

/// A left spine: a chain of left children with shrinking labels.
pub(super) open spec fn spine_ok(nodes: Seq<Node>, lab: Labels, spine: Seq<usize>) -> bool {
    &&& spine.len() >= 1
    &&& forall|j: int| 0 <= j < spine.len() ==> lab.dom().contains(#[trigger] spine[j])
    &&& forall|j: int| 0 < j < spine.len() ==> #[trigger] spine_step(nodes, spine, j)
    &&& forall|i: int, j: int|
        0 <= i < j < spine.len() ==> #[trigger] path_rank(lab, spine, i) > #[trigger] path_rank(
            lab,
            spine,
            j,
        )
}

/// Two nodes that differ at most in their stored subtree count.
pub(super) open spec fn same_but_size(a: Node, b: Node) -> bool {
    &&& a.value == b.value
    &&& a.count == b.count
    &&& a.parent == b.parent
    &&& a.left == b.left
    &&& a.right == b.right
    &&& a.color == b.color
}

/// While copies of the key `w` are being cut out below `cur`, the keys of
/// the due label of its parent from the cut on stay above `w`.
pub(super) proof fn lemma_spine_tail(
    n1: Seq<Node>,
    n2: Seq<Node>,
    labels: Labels,
    root: usize,
    nil: usize,
    cur: usize,
    n: int,
    pos: int,
    w: i64,
    old_e: Seq<i64>,
)
    requires
        cur != nil,
        n1[cur as int].parent != nil,
        walk_state(n1, labels, root, nil, cur, false, n, pos, w, old_e),
        tail_gt(joined(n1, labels, nil, cur), pos, w),
        n1[n1[cur as int].parent as int].left == cur ==> pos == 0,
        n2 == n1.update(
            cur as int,
            (Node {
                subtree_count: joined(n1, labels, nil, cur).len() as usize,
                ..n1[cur as int]
            }),
        ),
    ensures
        ({
            let q = n1[cur as int].parent;
            let labels2 = labels.insert(cur, joined(n1, labels, nil, cur));
            tail_gt(joined(n2, labels2, nil, q), lifted_pos(n1, labels, nil, cur, pos), w)
        }),
{
    let q = n1[cur as int].parent;
    let la = labels.insert(cur, old_e);
    let je = joined(n1, labels, nil, cur);
    let labels2 = labels.insert(cur, je);
    assert(la.dom() =~= labels.dom());
    assert(node_ok(n1, la, root, nil, q));
    let qn = n1[q as int];
    let ql = label_of(la, nil, qn.left);
    let qr = label_of(la, nil, qn.right);
    let due = joined(n2, labels2, nil, q);
    if qn.left == cur && qn.right == cur {
        assert(old_e[pos] < qn.value && old_e[pos] > qn.value);
    }
    if qn.left == cur {
        assert(old_e[0] == w);
        assert(old_e[0] < qn.value);
        assert(label_of(labels2, nil, qn.right) == qr);
        assert(due == je + rep(qn.value, qn.count) + qr);
        assert forall|j: int| 0 <= j < due.len() implies #[trigger] due[j] > w by {
            if j < je.len() {
                assert(due[j] == je[j]);
            } else if j < je.len() + qn.count {
                assert(due[j] == qn.value);
            } else {
                assert(due[j] == qr[j - je.len() - qn.count]);
            }
        }
    } else {
        assert(qn.right == cur);
        assert(label_of(labels2, nil, qn.left) == ql);
        assert(due == ql + rep(qn.value, qn.count) + je);
        let d = ql.len() + qn.count;
        assert forall|j: int| d + pos <= j < due.len() implies #[trigger] due[j] > w by {
            assert(due[j] == je[j - d]);
        }
    }
}

/// `nn` is `on` after the node `s`, which is not in the tree, took over the
/// place, the children and the colour of `z`.
pub(super) open spec fn spliced(
    on: Seq<Node>,
    nn: Seq<Node>,
    root: usize,
    root2: usize,
    nil: usize,
    z: usize,
    s: usize,
) -> bool {
    let zn = on[z as int];
    let p = zn.parent;
    &&& nn.len() == on.len()
    &&& root2 == if p == nil {
        s
    } else {
        root
    }
    &&& forall|i: int|
        0 <= i < on.len() && i != s && i != zn.left && i != zn.right && i != p ==> #[trigger] nn[i]
            == on[i]
    &&& nn[s as int] == Node {
        left: zn.left,
        right: zn.right,
        parent: p,
        color: zn.color,
        ..on[s as int]
    }
    &&& zn.left != nil ==> nn[zn.left as int] == Node { parent: s, ..on[zn.left as int] }
    &&& zn.right != nil ==> nn[zn.right as int] == Node { parent: s, ..on[zn.right as int] }
    &&& p != nil ==> nn[p as int] == if on[p as int].left == z {
        Node { left: s, ..on[p as int] }
    } else {
        Node { right: s, ..on[p as int] }
    }
}

/// After the successor `s` was cut out below `z` and then took the place
/// of `z`, the node `s` is due a refresh that removes the one key of `z`.
pub(super) proof fn lemma_splice(
    on: Seq<Node>,
    nn: Seq<Node>,
    labels: Labels,
    root: usize,
    root2: usize,
    nil: usize,
    z: usize,
    s: usize,
    n: int,
    posz: int,
)
    requires
        walk_state(on, labels, root, nil, z, false, n, posz, on[s as int].value, labels[z]),
        z != nil,
        !labels.dom().contains(s),
        s < nil,
        on[s as int].count == n,
        on[z as int].count == 1,
        on[z as int].left != nil,
        on[z as int].value < on[s as int].value,
        posz == own_pos(on, labels, nil, z) + 1,
        tail_gt(joined(on, labels, nil, z), posz, on[s as int].value),
        spliced(on, nn, root, root2, nil, z, s),
    ensures
        ({
            let labels2 = labels.remove(z).insert(s, labels[z]);
            &&& walk_state(
                nn,
                labels2,
                root2,
                nil,
                s,
                false,
                1,
                own_pos(on, labels, nil, z),
                on[z as int].value,
                labels[z],
            )
            &&& label_of(labels2, nil, root2) == label_of(labels, nil, root)
            &&& labels2.dom() == labels.dom().remove(z).insert(s)
        }),
{
    let zn = on[z as int];
    let sn = on[s as int];
    let p = zn.parent;
    let v = zn.value;
    let w = sn.value;
    let lz = labels[z];
    let labels2 = labels.remove(z).insert(s, lz);
    let la = labels.insert(z, lz);
    assert(la =~= labels);
    assert(labels2.insert(s, lz) =~= labels2);
    assert(labels2.dom() =~= labels.dom().remove(z).insert(s));
    let a = label_of(labels, nil, zn.left);
    let b = label_of(labels, nil, zn.right);
    let pa = a.len() as int;
    let due_z = joined(on, labels, nil, z);
    assert(due_z == a + rep(v, zn.count) + b);
    assert(due_z == lz.subrange(0, posz) + lz.subrange(posz + n, lz.len() as int));
    // the old label of `z` reads: left keys, the key of `z`, `n` copies of
    // the key of `s`, right keys
    assert forall|j: int| 0 <= j < pa implies lz[j] == #[trigger] a[j] by {
        assert(due_z[j] == a[j]);
        assert(due_z[j] == lz.subrange(0, posz)[j]);
    }
    assert(lz[pa] == v) by {
        assert(due_z[pa] == v);
        assert(due_z[pa] == lz.subrange(0, posz)[pa]);
    }
    assert forall|j: int| 0 <= j < b.len() implies lz[posz + n + j] == #[trigger] b[j] by {
        assert(due_z[posz + j] == b[j]);
        assert(due_z[posz + j] == lz.subrange(posz + n, lz.len() as int)[j]);
    }
    let due_s = joined(nn, labels2, nil, s);
    assert(label_of(labels2, nil, zn.left) == a);
    assert(label_of(labels2, nil, zn.right) == b);
    assert(due_s == a + rep(w, sn.count) + b);
    assert(lz.len() == pa + 1 + n + b.len()) by {
        assert(due_z.len() == pa + 1 + b.len());
        assert(due_z.len() == lz.len() - n);
    }
    let cut = edited(false, 1, pa, v, lz);
    assert forall|j: int| 0 <= j < due_s.len() implies due_s[j] == cut[j] by {
        if j < pa {
            assert(due_s[j] == a[j]);
        } else if j < pa + n {
            assert(due_s[j] == w);
            assert(cut[j] == lz[j + 1]);
        } else {
            assert(due_s[j] == b[j - pa - n]);
            assert(cut[j] == lz[j + 1]);
        }
    }
    assert(due_s =~= cut);
    assert(bounds_ok(nn, labels2, nil, s)) by {
        assert forall|j: int| 0 <= j < a.len() implies #[trigger] a[j] < w by {
            assert(a[j] < v);
        }
        assert forall|j: int| 0 <= j < b.len() implies #[trigger] b[j] > w by {
            assert(due_z[posz + j] == b[j]);
        }
    }
    assert forall|i: usize| labels2.dom().contains(i) && i != s implies #[trigger] node_ok(
        nn,
        labels2.insert(s, lz),
        root2,
        nil,
        i,
    ) by {
        assert(node_ok(on, la, root, nil, i));
        let nd = on[i as int];
        let md = nn[i as int];
        assert(md.value == nd.value && md.count == nd.count && md.subtree_count
            == nd.subtree_count);
        assert(nd.left != s && nd.right != s && nd.parent != s);
        if i == p {
            if nd.left == z {
                assert(label_of(labels2, nil, nn[i as int].left) == label_of(la, nil, nd.left));
                assert(nd.right != z) by {
                    if nd.right == z {
                        assert(lz[pa] < nd.value && lz[pa] > nd.value);
                    }
                }
                assert(label_of(labels2, nil, nn[i as int].right) == label_of(la, nil, nd.right));
            } else {
                assert(nd.right == z);
                assert(label_of(labels2, nil, nn[i as int].right) == label_of(la, nil, nd.right));
                assert(label_of(labels2, nil, nn[i as int].left) == label_of(la, nil, nd.left));
            }
            if nd.parent != nil {
                assert(node_ok(on, la, root, nil, nd.parent) || nd.parent == z);
            }
        } else {
            assert(nd.left != z && nd.right != z);
            assert(label_of(labels2, nil, nd.left) == label_of(la, nil, nd.left));
            assert(label_of(labels2, nil, nd.right) == label_of(la, nil, nd.right));
        }
        assert(links_ok(nn, labels2.dom(), root2, nil, i));
        assert(bounds_ok(nn, labels2, nil, i));
        assert(label_ok(nn, labels2, nil, i));
    }
    assert(links_ok(nn, labels2.dom(), root2, nil, s));
    assert(root_ok(nn, labels2.dom(), root2, nil));
    assert(dom_ok(labels2.dom(), nil));
}

/// After the successor `s` of a node `z` with two children was cut out of
/// the right subtree of `z`, the parent of `s` is due a refresh, and the
/// left spine from the right child of `z` down to that parent is intact.
pub(super) proof fn lemma_detached(
    n0: Seq<Node>,
    n1: Seq<Node>,
    lab0: Labels,
    root0: usize,
    root1: usize,
    nil: usize,
    z: usize,
    s: usize,
    spine: Seq<usize>,
)
    requires
        tree_ok(n0, lab0, root0, nil),
        lab0.dom().contains(z),
        n0[z as int].left != nil,
        n0[z as int].right != nil,
        n0[z as int].count == 1,
        spine_ok(n0, lab0, spine),
        spine[0] == n0[z as int].right,
        spine.last() == s,
        n0[s as int].left == nil,
        transplanted(n0, n1, root0, root1, nil, s, n0[s as int].right),
    ensures
        ({
            let sp = n0[s as int].parent;
            let lab1 = lab0.remove(s);
            let pos0 = lifted_pos(n0, lab0, nil, s, 0);
            let w = n0[s as int].value;
            let n = n0[s as int].count as int;
            let short = spine.drop_last();
            &&& sp != nil && s != z && s < nil && z < nil
            &&& n0[z as int].value < w
            &&& lab1.dom().contains(z)
            &&& lab1.dom().contains(sp)
            &&& lab1[z] == lab0[z]
            &&& walk_state(n1, lab1, root1, nil, sp, false, n, pos0, w, lab1[sp])
            &&& tail_gt(joined(n1, lab1, nil, sp), pos0, w)
            &&& sp != z ==> pos0 == 0 && short.len() >= 1 && short.last() == sp && spine_ok(
                n1,
                lab1,
                short,
            ) && n1[short[0] as int].parent == z && n1[z as int].left != short[0] && forall|
                j: int,
            | 0 <= j < short.len() ==> short[j] != z
            &&& sp == z ==> pos0 == own_pos(n1, lab1, nil, z) + 1
            &&& label_of(lab1, nil, root1) == label_of(lab0, nil, root0)
            &&& n1[z as int].left == n0[z as int].left
            &&& n1[z as int].parent == n0[z as int].parent
            &&& n1[z as int].count == n0[z as int].count
            &&& n1[z as int].value == n0[z as int].value
            &&& n1[z as int].color == n0[z as int].color
            &&& n1[s as int] == n0[s as int]
            &&& n0[z as int].left != s && n0[z as int].left < nil
            &&& lab1.dom().contains(n0[z as int].left)
        }),
{
    let zn = n0[z as int];
    let sn = n0[s as int];
    let sp = sn.parent;
    let x = sn.right;
    let lab1 = lab0.remove(s);
    let w = sn.value;
    let v = zn.value;
    let n = sn.count as int;
    let k = spine.len() - 1;
    let short = spine.drop_last();
    let pos0 = lifted_pos(n0, lab0, nil, s, 0);
    lemma_children(n0, lab0, root0, nil, z);
    lemma_children(n0, lab0, root0, nil, zn.right);
    lemma_children(n0, lab0, root0, nil, zn.left);
    assert(lab0.dom().contains(spine[k]));
    lemma_children(n0, lab0, root0, nil, s);
    if x != nil {
        lemma_children(n0, lab0, root0, nil, x);
    }
    if k > 0 {
        assert(spine_step(n0, spine, k));
        assert(path_rank(lab0, spine, 0) > path_rank(lab0, spine, k));
        assert(lab0.dom().contains(spine[k - 1]));
    }
    assert(sp != nil);
    lemma_children(n0, lab0, root0, nil, sp);
    lemma_unlink(n0, n1, lab0, root0, root1, nil, s, x);
    assert(lab1.insert(sp, lab0[sp]) =~= lab1);
    assert(lab1.dom() =~= lab0.dom().remove(s));
    // the least key of the right subtree is the successor's key
    assert(v < w) by {
        lemma_min_of_spine(n0, lab0, root0, nil, spine, k);
        assert(lab0[zn.right][0] > v);
    }
    let due = joined(n1, lab1, nil, sp);
    let lx = label_of(lab0, nil, x);
    let pn = n0[sp as int];
    assert(lab0[s] == rep(w, sn.count) + lx);
    if pn.left == s {
        let pr = label_of(lab0, nil, pn.right);
        assert(due == lx + rep(pn.value, pn.count) + pr);
        assert(lab0[s][0] < pn.value);
        assert forall|j: int| 0 <= j < due.len() implies #[trigger] due[j] > w by {
            if j < lx.len() {
                assert(due[j] == lx[j]);
            } else if j < lx.len() + pn.count {
                assert(due[j] == pn.value);
            } else {
                assert(due[j] == pr[j - lx.len() - pn.count]);
            }
        }
    } else {
        let pl = label_of(lab0, nil, pn.left);
        assert(due == pl + rep(pn.value, pn.count) + lx);
        assert forall|j: int| pos0 <= j < due.len() implies #[trigger] due[j] > w by {
            assert(due[j] == lx[j - pl.len() - pn.count]);
        }
    }
    if sp != z {
        assert(k > 0) by {
            if k == 0 {
                assert(s == zn.right);
            }
        }
        assert forall|j: int| 0 <= j < short.len() implies lab1.dom().contains(
            #[trigger] short[j],
        ) && short[j] != z && short[j] == spine[j] && short[j] != s by {
            assert(path_rank(lab0, spine, j) > path_rank(lab0, spine, k));
            assert(lab0.dom().contains(spine[j]));
            if j > 0 {
                assert(path_rank(lab0, spine, 0) > path_rank(lab0, spine, j));
            }
        }
        assert forall|j: int| 0 < j < short.len() implies #[trigger] spine_step(n1, short, j) by {
            assert(spine_step(n0, spine, j));
            assert(short[j] == spine[j] && short[j - 1] == spine[j - 1]);
            assert(path_rank(lab0, spine, j - 1) > path_rank(lab0, spine, j));
            if j < k - 1 {
                assert(path_rank(lab0, spine, j) > path_rank(lab0, spine, k - 1));
                assert(path_rank(lab0, spine, j - 1) > path_rank(lab0, spine, k - 1));
            }
            assert(lab0.dom().contains(spine[j]));
            assert(lab0.dom().contains(spine[j - 1]));
            lemma_children(n0, lab0, root0, nil, spine[j]);
            lemma_children(n0, lab0, root0, nil, spine[j - 1]);
        }
        assert forall|i: int, j: int| 0 <= i < j < short.len() implies #[trigger] path_rank(
            lab1,
            short,
            i,
        ) > #[trigger] path_rank(lab1, short, j) by {
            assert(path_rank(lab0, spine, i) > path_rank(lab0, spine, j));
        }
        assert(short.last() == sp);
        assert(pn.left == s);
        assert(short[0] == zn.right);
        if k - 1 > 0 {
            assert(path_rank(lab0, spine, 0) > path_rank(lab0, spine, k - 1));
        }
        assert(n1[zn.right as int].parent == z);
    } else {
        assert(k == 0) by {
            if k > 0 {
                assert(path_rank(lab0, spine, 0) > path_rank(lab0, spine, k - 1));
            }
        }
    }
}

/// The least key under the top of a left spine is the least key under
/// each node of the spine.
pub(super) proof fn lemma_min_of_spine(
    nodes: Seq<Node>,
    lab: Labels,
    root: usize,
    nil: usize,
    spine: Seq<usize>,
    j: int,
)
    requires
        tree_ok(nodes, lab, root, nil),
        spine_ok(nodes, lab, spine),
        0 <= j < spine.len(),
    ensures
        lab[spine[j]].len() > 0,
        lab[spine[0]].len() > 0,
        lab[spine[j]][0] == lab[spine[0]][0],
    decreases j,
{
    assert(lab.dom().contains(spine[j]));
    lemma_children(nodes, lab, root, nil, spine[j]);
    assert(lab.dom().contains(spine[0]));
    lemma_children(nodes, lab, root, nil, spine[0]);
    if j > 0 {
        lemma_min_of_spine(nodes, lab, root, nil, spine, j - 1);
        assert(spine_step(nodes, spine, j));
        assert(lab.dom().contains(spine[j - 1]));
        lemma_children(nodes, lab, root, nil, spine[j - 1]);
        let pn = nodes[spine[j - 1] as int];
        assert(lab[spine[j - 1]] == lab[spine[j]] + rep(pn.value, pn.count) + label_of(
            lab,
            nil,
            pn.right,
        ));
        assert(lab[spine[j - 1]][0] == lab[spine[j]][0]);
    }
}

} // verus!
