//! The red-black rules and their repair after insertions and removals.

use super::labels::{
    lemma_around, lemma_children, lemma_recolor, same_but_color, spliced, transplanted,
    walk_state,
};
use super::{
    Color, Labels, Node, handed, joined, label_of, lifted, node_ok, root_ok, rotated, tree_ok,
};
use crate::sorted::rep;
use vstd::prelude::*;

verus! {

/// Black heights: for every node, the number of black nodes on each
/// path from the node down to a missing child, the node included.
pub(super) type Ranks = Map<usize, nat>;

/// Whether `i` counts as black: a black node or a missing child.
pub(super) open spec fn black_at(nodes: Seq<Node>, nil: usize, i: usize) -> bool {
    i == nil || nodes[i as int].color == Color::Black
}

/// The black height of `i`, zero for a missing child.
pub(super) open spec fn rank_of(ranks: Ranks, nil: usize, i: usize) -> nat {
    if i == nil {
        0
    } else {
        ranks[i]
    }
}

/// What a node adds to the black height of the paths through it.
pub(super) open spec fn weight(n: Node) -> nat {
    if n.color == Color::Black {
        1
    } else {
        0
    }
}

/// The children of `i` have the same black height, and `i` has that
/// height plus its own weight.
pub(super) open spec fn level_ok(nodes: Seq<Node>, ranks: Ranks, nil: usize, i: usize) -> bool {
    let n = nodes[i as int];
    &&& rank_of(ranks, nil, n.left) == rank_of(ranks, nil, n.right)
    &&& ranks[i] == rank_of(ranks, nil, n.left) + weight(n)
}

/// A red node has no red child.
pub(super) open spec fn red_ok(nodes: Seq<Node>, nil: usize, i: usize) -> bool {
    let n = nodes[i as int];
    n.color == Color::Red ==> black_at(nodes, nil, n.left) && black_at(nodes, nil, n.right)
}

/// The red-black rules at the node `i`.
pub(super) open spec fn paint_ok(nodes: Seq<Node>, ranks: Ranks, nil: usize, i: usize) -> bool {
    level_ok(nodes, ranks, nil, i) && red_ok(nodes, nil, i)
}

/// The red-black rules: the root is black, no red node has a red child,
/// and all paths from a node down to a missing child hold the same number
/// of black nodes.
pub(super) open spec fn painted(nodes: Seq<Node>, dom: Set<usize>, ranks: Ranks, root: usize, nil: usize) -> bool {
    &&& black_at(nodes, nil, root)
    &&& forall|i: usize| dom.contains(i) ==> #[trigger] paint_ok(nodes, ranks, nil, i)
}

/// Two nodes with the same links and the same colour.
pub(super) open spec fn same_paint(a: Node, b: Node) -> bool {
    &&& a.parent == b.parent
    &&& a.left == b.left
    &&& a.right == b.right
    &&& a.color == b.color
}

/// Every slot has the same links and the same colour in `a` and `b`.
pub(super) open spec fn paint_kept(a: Seq<Node>, b: Seq<Node>) -> bool {
    &&& a.len() == b.len()
    &&& forall|i: int| 0 <= i < a.len() ==> same_paint(#[trigger] a[i], b[i])
}

/// The links and colours of `nn` are those of `on` after a rotation at
/// `x`.
pub(super) open spec fn turned(
    on: Seq<Node>,
    nn: Seq<Node>,
    root: usize,
    root2: usize,
    nil: usize,
    x: usize,
    leftward: bool,
) -> bool {
    let xn = on[x as int];
    let y = lifted(xn, leftward);
    let yn = on[y as int];
    let inner = handed(yn, leftward);
    let xp = xn.parent;
    &&& nn.len() == on.len()
    &&& forall|i: int|
        0 <= i < on.len() && i != x && i != y && i != inner && i != xp ==> same_paint(
            #[trigger] nn[i],
            on[i],
        )
    &&& nn[x as int].color == xn.color
    &&& nn[x as int].parent == y
    &&& handed(nn[x as int], leftward) == handed(xn, leftward)
    &&& lifted(nn[x as int], leftward) == inner
    &&& nn[y as int].color == yn.color
    &&& nn[y as int].parent == xp
    &&& handed(nn[y as int], leftward) == x
    &&& lifted(nn[y as int], leftward) == lifted(yn, leftward)
    &&& inner != nil ==> nn[inner as int].color == on[inner as int].color && nn[inner as int].left
        == on[inner as int].left && nn[inner as int].right == on[inner as int].right
        && nn[inner as int].parent == x
    &&& xp != nil ==> nn[xp as int].color == on[xp as int].color && nn[xp as int].parent
        == on[xp as int].parent && (if on[xp as int].left == x {
        nn[xp as int].left == y && nn[xp as int].right == on[xp as int].right
    } else {
        nn[xp as int].right == y && nn[xp as int].left == on[xp as int].left
    })
    &&& root2 == if xp == nil {
        y
    } else {
        root
    }
}

/// A rotation as the labels see it is a rotation as the colours see it.
pub(super) proof fn lemma_rotated_turned(
    on: Seq<Node>,
    nn: Seq<Node>,
    lab: Labels,
    lab2: Labels,
    root: usize,
    root2: usize,
    nil: usize,
    x: usize,
    leftward: bool,
)
    requires
        tree_ok(on, lab, root, nil),
        lab.dom().contains(x),
        lifted(on[x as int], leftward) != nil,
        rotated(on, nn, lab, lab2, root, root2, nil, x, leftward),
    ensures
        turned(on, nn, root, root2, nil, x, leftward),
{
    lemma_around(on, lab, root, nil, x, leftward);
}

/// The child of `n` other than `c`.
pub(super) open spec fn other_child(n: Node, c: usize) -> usize {
    if n.left == c {
        n.right
    } else {
        n.left
    }
}

/// State of the repair after an insertion, with the red node `node` in
/// hand: black heights are in order everywhere, and the only red node that
/// may have a red child is the parent of `node`, whose other child is
/// black. The root is black unless it is `node`.
pub(super) open spec fn grow_pending(
    nodes: Seq<Node>,
    dom: Set<usize>,
    ranks: Ranks,
    root: usize,
    nil: usize,
    node: usize,
) -> bool {
    let p = nodes[node as int].parent;
    &&& dom.contains(node)
    &&& nodes[node as int].color == Color::Red
    &&& (root == node || black_at(nodes, nil, root))
    &&& forall|i: usize| dom.contains(i) ==> #[trigger] level_ok(nodes, ranks, nil, i)
    &&& forall|i: usize| dom.contains(i) && i != p ==> #[trigger] red_ok(nodes, nil, i)
    &&& p != nil && nodes[p as int].color == Color::Red ==> black_at(
        nodes,
        nil,
        other_child(nodes[p as int], node),
    )
}

/// A change that keeps links, colours and black heights keeps the
/// red-black rules and the state of a repair.
#[verifier::spinoff_prover]
#[verifier::rlimit(60)]
pub(super) proof fn lemma_paint_kept(
    n1: Seq<Node>,
    n2: Seq<Node>,
    lab: Labels,
    ranks: Ranks,
    root: usize,
    nil: usize,
    node: usize,
)
    requires
        paint_kept(n2, n1),
        tree_ok(n1, lab, root, nil),
    ensures
        painted(n1, lab.dom(), ranks, root, nil) == painted(n2, lab.dom(), ranks, root, nil),
        lab.dom().contains(node) ==> grow_pending(n1, lab.dom(), ranks, root, nil, node)
            == grow_pending(n2, lab.dom(), ranks, root, nil, node),
{
    let dom = lab.dom();
    assert forall|i: usize| dom.contains(i) implies (level_ok(n2, ranks, nil, i) == level_ok(
        n1,
        ranks,
        nil,
        i,
    )) && (red_ok(n2, nil, i) == red_ok(n1, nil, i)) by {
        lemma_children(n1, lab, root, nil, i);
        assert(same_paint(n2[i as int], n1[i as int]));
        let n = n1[i as int];
        if n.left != nil {
            assert(same_paint(n2[n.left as int], n1[n.left as int]));
        }
        if n.right != nil {
            assert(same_paint(n2[n.right as int], n1[n.right as int]));
        }
    }
    if root != nil {
        lemma_children(n1, lab, root, nil, root);
        assert(same_paint(n2[root as int], n1[root as int]));
    }
    if painted(n1, dom, ranks, root, nil) {
        assert forall|i: usize| dom.contains(i) implies #[trigger] paint_ok(n2, ranks, nil, i) by {
            assert(paint_ok(n1, ranks, nil, i));
        }
    }
    if painted(n2, dom, ranks, root, nil) {
        assert forall|i: usize| dom.contains(i) implies #[trigger] paint_ok(n1, ranks, nil, i) by {
            assert(paint_ok(n2, ranks, nil, i));
        }
    }
    if dom.contains(node) {
        lemma_children(n1, lab, root, nil, node);
        assert(same_paint(n2[node as int], n1[node as int]));
        let p = n1[node as int].parent;
        if p != nil {
            lemma_children(n1, lab, root, nil, p);
            assert(same_paint(n2[p as int], n1[p as int]));
            let o = other_child(n1[p as int], node);
            if o != nil {
                assert(same_paint(n2[o as int], n1[o as int]));
            }
        }
        if grow_pending(n1, dom, ranks, root, nil, node) {
            assert forall|i: usize| dom.contains(i) implies #[trigger] level_ok(
                n2,
                ranks,
                nil,
                i,
            ) by {
                assert(level_ok(n1, ranks, nil, i));
            }
            assert forall|i: usize| dom.contains(i) && i != p implies #[trigger] red_ok(
                n2,
                nil,
                i,
            ) by {
                assert(red_ok(n1, nil, i));
            }
        }
        if grow_pending(n2, dom, ranks, root, nil, node) {
            assert forall|i: usize| dom.contains(i) implies #[trigger] level_ok(
                n1,
                ranks,
                nil,
                i,
            ) by {
                assert(level_ok(n2, ranks, nil, i));
            }
            assert forall|i: usize| dom.contains(i) && i != p implies #[trigger] red_ok(
                n1,
                nil,
                i,
            ) by {
                assert(red_ok(n2, nil, i));
            }
        }
    }
}

/// The relatives of a red node `node` with a red parent, during the repair
/// after an insertion: the parent `p` is not the root, the grandparent `g`
/// is black, and black heights line up around them.
#[verifier::spinoff_prover]
#[verifier::rlimit(60)]
pub(super) proof fn lemma_grow_family(
    n0: Seq<Node>,
    lab: Labels,
    ranks: Ranks,
    root: usize,
    nil: usize,
    node: usize,
)
    requires
        tree_ok(n0, lab, root, nil),
        grow_pending(n0, lab.dom(), ranks, root, nil, node),
        node != root,
        n0[node as int].parent != nil ==> n0[n0[node as int].parent as int].color == Color::Red,
    ensures
        ({
            let p = n0[node as int].parent;
            let g = n0[p as int].parent;
            let u = other_child(n0[g as int], p);
            let s = other_child(n0[p as int], node);
            &&& p != nil && g != nil && p < nil && g < nil && node < nil
            &&& lab.dom().contains(p) && lab.dom().contains(g)
            &&& n0[p as int].color == Color::Red
            &&& n0[g as int].color == Color::Black
            &&& node != p && node != g && p != g && u != p && u != g && u != node
            &&& s != node && s != p && s != g
            &&& (u == nil || (lab.dom().contains(u) && u < nil && n0[u as int].parent == g))
            &&& (s == nil || (lab.dom().contains(s) && s < nil && n0[s as int].parent == p))
            &&& (s != nil ==> s != u)
            &&& (n0[p as int].left == node || n0[p as int].right == node)
            &&& (n0[g as int].left == p || n0[g as int].right == p)
            &&& (n0[g as int].left == p ==> n0[g as int].right == u)
            &&& (n0[g as int].left != p ==> n0[g as int].left == u)
            &&& (n0[p as int].left == node ==> n0[p as int].right == s)
            &&& (n0[p as int].left != node ==> n0[p as int].left == s)
            &&& black_at(n0, nil, s)
            &&& root != p && root != node
            &&& black_at(n0, nil, root)
            &&& rank_of(ranks, nil, s) == ranks[node]
            &&& ranks[p] == ranks[node]
            &&& rank_of(ranks, nil, u) == ranks[p]
            &&& ranks[g] == ranks[p] + 1
            &&& n0[g as int].parent != p && n0[g as int].parent != node && n0[g as int].parent != g
            &&& (n0[g as int].parent == nil ==> root == g)
            &&& (n0[g as int].parent != nil ==> lab.dom().contains(n0[g as int].parent)
                && n0[g as int].parent < nil && n0[g as int].parent != u && n0[g as int].parent
                != s && root != g)
        }),
{
    let dom = lab.dom();
    let p = n0[node as int].parent;
    lemma_children(n0, lab, root, nil, node);
    assert(node_ok(n0, lab, root, nil, node));
    assert(p != nil);
    lemma_children(n0, lab, root, nil, p);
    let g = n0[p as int].parent;
    if root != nil {
        lemma_children(n0, lab, root, nil, root);
    }
    assert(root != p);
    assert(g != nil) by {
        assert(node_ok(n0, lab, root, nil, p));
    }
    lemma_children(n0, lab, root, nil, g);
    assert(red_ok(n0, nil, g));
    assert(level_ok(n0, ranks, nil, p));
    assert(level_ok(n0, ranks, nil, g));
    assert(level_ok(n0, ranks, nil, node));
    let u = other_child(n0[g as int], p);
    let s = other_child(n0[p as int], node);
    if u != nil {
        lemma_children(n0, lab, root, nil, u);
    }
    if s != nil {
        lemma_children(n0, lab, root, nil, s);
    }
    let gp = n0[g as int].parent;
    if gp != nil {
        lemma_children(n0, lab, root, nil, gp);
    }
}

/// `n` with the colour `c`.
pub(super) open spec fn tinted(n: Node, c: Color) -> Node {
    Node { color: c, ..n }
}

/// Repair after an insertion, red uncle: parent and uncle turn black, the
/// grandparent turns red and takes over as the node in hand.
#[verifier::spinoff_prover]
#[verifier::rlimit(60)]
pub(super) proof fn lemma_grow_recolor(
    n0: Seq<Node>,
    n3: Seq<Node>,
    lab: Labels,
    ranks: Ranks,
    root: usize,
    nil: usize,
    node: usize,
)
    requires
        tree_ok(n0, lab, root, nil),
        grow_pending(n0, lab.dom(), ranks, root, nil, node),
        node != root,
        n0[n0[node as int].parent as int].color == Color::Red,
        ({
            let p = n0[node as int].parent;
            let g = n0[p as int].parent;
            let u = other_child(n0[g as int], p);
            &&& u != nil
            &&& n0[u as int].color == Color::Red
            &&& n3 == n0.update(p as int, tinted(n0[p as int], Color::Black)).update(
                u as int,
                tinted(n0[u as int], Color::Black),
            ).update(g as int, tinted(n0[g as int], Color::Red))
        }),
    ensures
        ({
            let p = n0[node as int].parent;
            let g = n0[p as int].parent;
            let u = other_child(n0[g as int], p);
            let ranks2 = ranks.insert(p, ranks[p] + 1).insert(u, ranks[u] + 1);
            &&& g != nil
            &&& lab.dom().contains(g)
            &&& lab[g].len() > lab[node].len()
            &&& grow_pending(n3, lab.dom(), ranks2, root, nil, g)
        }),
{
    let dom = lab.dom();
    let p = n0[node as int].parent;
    let g = n0[p as int].parent;
    let u = other_child(n0[g as int], p);
    let gp = n0[g as int].parent;
    let ranks2 = ranks.insert(p, ranks[p] + 1).insert(u, ranks[u] + 1);
    lemma_grow_family(n0, lab, ranks, root, nil, node);
    lemma_children(n0, lab, root, nil, node);
    lemma_children(n0, lab, root, nil, p);
    lemma_children(n0, lab, root, nil, u);
    assert(level_ok(n0, ranks, nil, u));
    assert forall|i: usize| dom.contains(i) implies #[trigger] level_ok(n3, ranks2, nil, i) by {
        assert(level_ok(n0, ranks, nil, i));
        lemma_children(n0, lab, root, nil, i);
        let n = n0[i as int];
        if i != g {
            assert(n.left != p && n.left != u && n.right != p && n.right != u);
        }
    }
    assert forall|i: usize| dom.contains(i) && i != gp implies #[trigger] red_ok(n3, nil, i) by {
        lemma_children(n0, lab, root, nil, i);
        if i != p && i != u && i != g {
            assert(red_ok(n0, nil, i));
            let n = n0[i as int];
            assert(n.left != g && n.right != g);
        }
    }
    if gp != nil && n3[gp as int].color == Color::Red {
        lemma_children(n0, lab, root, nil, gp);
        assert(red_ok(n0, nil, gp));
        let o = other_child(n0[gp as int], g);
        assert(o != p && o != u);
    }
}

/// Repair after an insertion, node on the inner side of its red parent: a
/// rotation at the parent lifts the node, and the former parent is the node
/// in hand.
#[verifier::spinoff_prover]
#[verifier::rlimit(60)]
pub(super) proof fn lemma_grow_twist(
    n0: Seq<Node>,
    n1: Seq<Node>,
    lab: Labels,
    ranks: Ranks,
    root: usize,
    root1: usize,
    nil: usize,
    node: usize,
    leftward: bool,
)
    requires
        tree_ok(n0, lab, root, nil),
        grow_pending(n0, lab.dom(), ranks, root, nil, node),
        node != root,
        n0[n0[node as int].parent as int].color == Color::Red,
        node == lifted(n0[n0[node as int].parent as int], leftward),
        turned(n0, n1, root, root1, nil, n0[node as int].parent, leftward),
    ensures
        ({
            let p = n0[node as int].parent;
            let g = n0[p as int].parent;
            &&& grow_pending(n1, lab.dom(), ranks, root1, nil, p)
            &&& root1 == root
            &&& p != root1
            &&& n1[p as int].parent == node
            &&& n1[node as int].parent == g
            &&& n1[node as int].color == Color::Red
            &&& handed(n1[node as int], leftward) == p
            &&& p == lifted(n1[n1[p as int].parent as int], !leftward)
            &&& n1[g as int].parent == n0[g as int].parent
            &&& n1[g as int].color == n0[g as int].color
            &&& (n1[g as int].left == node) == (n0[g as int].left == p)
            &&& other_child(n1[g as int], node) == other_child(n0[g as int], p)
            &&& black_at(n1, nil, other_child(n1[g as int], node)) == black_at(
                n0,
                nil,
                other_child(n0[g as int], p),
            )
        }),
{
    let dom = lab.dom();
    let p = n0[node as int].parent;
    let g = n0[p as int].parent;
    let u = other_child(n0[g as int], p);
    let s = other_child(n0[p as int], node);
    let inner = handed(n0[node as int], leftward);
    lemma_grow_family(n0, lab, ranks, root, nil, node);
    lemma_children(n0, lab, root, nil, node);
    lemma_children(n0, lab, root, nil, p);
    lemma_children(n0, lab, root, nil, g);
    assert(level_ok(n0, ranks, nil, node));
    assert(level_ok(n0, ranks, nil, p));
    assert(red_ok(n0, nil, node));
    if inner != nil {
        lemma_children(n0, lab, root, nil, inner);
    }
    if u != nil {
        lemma_children(n0, lab, root, nil, u);
    }
    assert forall|i: usize| dom.contains(i) implies #[trigger] level_ok(n1, ranks, nil, i) by {
        assert(level_ok(n0, ranks, nil, i));
        lemma_children(n0, lab, root, nil, i);
        if i != p && i != node && i != inner && i != g {
            assert(same_paint(n1[i as int], n0[i as int]));
        }
    }
    assert forall|i: usize| dom.contains(i) && i != node implies #[trigger] red_ok(n1, nil, i) by {
        lemma_children(n0, lab, root, nil, i);
        let n = n0[i as int];
        if i == p {
        } else if i == g {
        } else {
            assert(red_ok(n0, nil, i));
            if i != inner {
                assert(same_paint(n1[i as int], n0[i as int]));
            }
            if n.left != nil {
                lemma_children(n0, lab, root, nil, n.left);
                assert(n1[n.left as int].color == n0[n.left as int].color) by {
                    if n.left != p && n.left != node && n.left != inner && n.left != g {
                        assert(same_paint(n1[n.left as int], n0[n.left as int]));
                    }
                }
            }
            if n.right != nil {
                lemma_children(n0, lab, root, nil, n.right);
                assert(n1[n.right as int].color == n0[n.right as int].color) by {
                    if n.right != p && n.right != node && n.right != inner && n.right != g {
                        assert(same_paint(n1[n.right as int], n0[n.right as int]));
                    }
                }
            }
        }
    }
    if root != nil && root != g {
        lemma_children(n0, lab, root, nil, root);
        assert(root != inner);
        assert(same_paint(n1[root as int], n0[root as int]));
    }
    if u != nil {
        assert(u != inner);
        assert(same_paint(n1[u as int], n0[u as int]));
    }
    let far = lifted(n0[node as int], leftward);
    if far != nil {
        lemma_children(n0, lab, root, nil, far);
        assert(same_paint(n1[far as int], n0[far as int]));
    }
    if s != nil {
        assert(s != inner);
        assert(same_paint(n1[s as int], n0[s as int]));
    }
}

/// What the last step of the repair after an insertion starts from: the
/// node on the outer side of its red parent `p`, a black uncle, `p` turned
/// black and the grandparent `g` turned red, then a rotation at `g`.
pub(super) open spec fn grow_finish_pre(
    n0: Seq<Node>,
    n3: Seq<Node>,
    lab: Labels,
    ranks: Ranks,
    root: usize,
    root3: usize,
    nil: usize,
    node: usize,
    leftward: bool,
) -> bool {
    let p = n0[node as int].parent;
    let g = n0[p as int].parent;
    &&& tree_ok(n0, lab, root, nil)
    &&& grow_pending(n0, lab.dom(), ranks, root, nil, node)
    &&& node != root
    &&& n0[p as int].color == Color::Red
    &&& node == lifted(n0[p as int], leftward)
    &&& p == lifted(n0[g as int], leftward)
    &&& black_at(n0, nil, handed(n0[g as int], leftward))
    &&& turned(
        n0.update(p as int, tinted(n0[p as int], Color::Black)).update(
            g as int,
            tinted(n0[g as int], Color::Red),
        ),
        n3,
        root,
        root3,
        nil,
        g,
        leftward,
    )
}

/// The last step of the repair after an insertion leaves the rules intact
/// at the node `i`.
#[verifier::spinoff_prover]
#[verifier::rlimit(60)]
pub(super) proof fn lemma_grow_finish_at(
    n0: Seq<Node>,
    n3: Seq<Node>,
    lab: Labels,
    ranks: Ranks,
    root: usize,
    root3: usize,
    nil: usize,
    node: usize,
    leftward: bool,
    i: usize,
)
    requires
        grow_finish_pre(n0, n3, lab, ranks, root, root3, nil, node, leftward),
        lab.dom().contains(i),
    ensures
        ({
            let p = n0[node as int].parent;
            let g = n0[p as int].parent;
            paint_ok(n3, ranks.insert(p, ranks[p] + 1).insert(g, ranks[p]), nil, i)
        }),
{
    let p = n0[node as int].parent;
    let g = n0[p as int].parent;
    let u = other_child(n0[g as int], p);
    let s = other_child(n0[p as int], node);
    let gp = n0[g as int].parent;
    let n2 = n0.update(p as int, tinted(n0[p as int], Color::Black)).update(
        g as int,
        tinted(n0[g as int], Color::Red),
    );
    let ranks2 = ranks.insert(p, ranks[p] + 1).insert(g, ranks[p]);
    lemma_grow_family(n0, lab, ranks, root, nil, node);
    lemma_children(n0, lab, root, nil, node);
    lemma_children(n0, lab, root, nil, p);
    lemma_children(n0, lab, root, nil, g);
    lemma_children(n0, lab, root, nil, i);
    assert(u == handed(n0[g as int], leftward));
    assert(s == handed(n0[p as int], leftward));
    assert(lifted(n2[g as int], leftward) == p);
    assert(handed(n2[p as int], leftward) == s);
    assert(n2[g as int].parent == gp);
    assert(level_ok(n0, ranks, nil, i));
    let n = n0[i as int];
    if n.left != nil {
        lemma_children(n0, lab, root, nil, n.left);
    }
    if n.right != nil {
        lemma_children(n0, lab, root, nil, n.right);
    }
    if i == g {
        if u != nil {
            assert(same_paint(n3[u as int], n2[u as int]));
        }
        assert(level_ok(n3, ranks2, nil, i));
        assert(red_ok(n3, nil, i));
    } else if i == p {
        assert(same_paint(n3[node as int], n2[node as int]));
        assert(level_ok(n3, ranks2, nil, i));
        assert(red_ok(n3, nil, i));
    } else if i == gp {
        assert(red_ok(n0, nil, gp));
        let o = other_child(n0[gp as int], g);
        if o != nil {
            lemma_children(n0, lab, root, nil, o);
            assert(o != s);
            assert(same_paint(n3[o as int], n2[o as int]));
        }
        assert(level_ok(n3, ranks2, nil, i));
        assert(red_ok(n3, nil, i));
    } else if i == s {
        assert(red_ok(n0, nil, i));
        if n.left != nil {
            assert(same_paint(n3[n.left as int], n2[n.left as int]));
        }
        if n.right != nil {
            assert(same_paint(n3[n.right as int], n2[n.right as int]));
        }
        assert(level_ok(n3, ranks2, nil, i));
        assert(red_ok(n3, nil, i));
    } else {
        assert(red_ok(n0, nil, i));
        assert(same_paint(n3[i as int], n2[i as int]));
        assert(n.left != p && n.left != g && n.right != p && n.right != g);
        if n.left != nil {
            assert(n3[n.left as int].color == n0[n.left as int].color) by {
                if n.left != s && n.left != gp {
                    assert(same_paint(n3[n.left as int], n2[n.left as int]));
                }
            }
        }
        if n.right != nil {
            assert(n3[n.right as int].color == n0[n.right as int].color) by {
                if n.right != s && n.right != gp {
                    assert(same_paint(n3[n.right as int], n2[n.right as int]));
                }
            }
        }
        assert(level_ok(n3, ranks2, nil, i));
        assert(red_ok(n3, nil, i));
    }
}

/// Repair after an insertion, node on the outer side of its red parent,
/// black uncle: the parent turns black, the grandparent turns red, and a
/// rotation at the grandparent lifts the parent. The rules hold again.
pub(super) proof fn lemma_grow_finish(
    n0: Seq<Node>,
    n3: Seq<Node>,
    lab: Labels,
    ranks: Ranks,
    root: usize,
    root3: usize,
    nil: usize,
    node: usize,
    leftward: bool,
)
    requires
        grow_finish_pre(n0, n3, lab, ranks, root, root3, nil, node, leftward),
    ensures
        ({
            let p = n0[node as int].parent;
            let g = n0[p as int].parent;
            painted(n3, lab.dom(), ranks.insert(p, ranks[p] + 1).insert(g, ranks[p]), root3, nil)
        }),
{
    let dom = lab.dom();
    let p = n0[node as int].parent;
    let g = n0[p as int].parent;
    let s = other_child(n0[p as int], node);
    let gp = n0[g as int].parent;
    let n2 = n0.update(p as int, tinted(n0[p as int], Color::Black)).update(
        g as int,
        tinted(n0[g as int], Color::Red),
    );
    let ranks2 = ranks.insert(p, ranks[p] + 1).insert(g, ranks[p]);
    lemma_grow_family(n0, lab, ranks, root, nil, node);
    assert forall|i: usize| dom.contains(i) implies #[trigger] paint_ok(n3, ranks2, nil, i) by {
        lemma_grow_finish_at(n0, n3, lab, ranks, root, root3, nil, node, leftward, i);
    }
    assert(n2[g as int].parent == gp);
    if gp != nil {
        if root != nil && root != gp {
            lemma_children(n0, lab, root, nil, root);
            assert(root != g && root != p && root != s);
            assert(same_paint(n3[root as int], n2[root as int]));
        }
    }
}

/// End of the repair after an insertion: once the node in hand is the root
/// or has a black parent, blackening the root restores the rules.
pub(super) proof fn lemma_grow_settle(
    n0: Seq<Node>,
    n1: Seq<Node>,
    lab: Labels,
    ranks: Ranks,
    root: usize,
    nil: usize,
    node: usize,
) -> (ranks2: Ranks)
    requires
        tree_ok(n0, lab, root, nil),
        grow_pending(n0, lab.dom(), ranks, root, nil, node),
        node == root || n0[n0[node as int].parent as int].color == Color::Black,
        root == nil ==> n1 == n0,
        root != nil ==> n1 == n0.update(root as int, tinted(n0[root as int], Color::Black)),
    ensures
        painted(n1, lab.dom(), ranks2, root, nil),
{
    let dom = lab.dom();
    lemma_children(n0, lab, root, nil, node);
    let p = n0[node as int].parent;
    if root != nil {
        lemma_children(n0, lab, root, nil, root);
    }
    if node != root {
        assert(n1 =~= n0);
        assert forall|i: usize| dom.contains(i) implies #[trigger] paint_ok(n1, ranks, nil, i) by {
            assert(level_ok(n0, ranks, nil, i));
            if i != p {
                assert(red_ok(n0, nil, i));
            }
        }
        ranks
    } else {
        let ranks2 = ranks.insert(root, ranks[root] + 1);
        assert forall|i: usize| dom.contains(i) implies #[trigger] paint_ok(n1, ranks2, nil, i) by {
            assert(level_ok(n0, ranks, nil, i));
            assert(red_ok(n0, nil, i));
            lemma_children(n0, lab, root, nil, i);
            let n = n0[i as int];
            assert(n.left != root && n.right != root);
        }
        ranks2
    }
}

/// Start of the repair after an insertion: a fresh red leaf `c` under
/// `par` leaves black heights in order, and only `par` may have a red
/// child that it should not have.
#[verifier::spinoff_prover]
#[verifier::rlimit(60)]
pub(super) proof fn lemma_grow_start(
    n0: Seq<Node>,
    n2: Seq<Node>,
    lab: Labels,
    ranks: Ranks,
    root: usize,
    root2: usize,
    nil: usize,
    c: usize,
    par: usize,
)
    requires
        tree_ok(n0, lab, root, nil),
        painted(n0, lab.dom(), ranks, root, nil),
        c < nil,
        !lab.dom().contains(c),
        par == nil ==> root == nil && root2 == c,
        par != nil ==> lab.dom().contains(par) && root2 == root && ((n2[par as int]
            == Node { left: c, ..n0[par as int] } && n0[par as int].left == nil) || (
        n2[par as int] == Node { right: c, ..n0[par as int] } && n0[par as int].right == nil)),
        n2.len() == n0.len(),
        forall|i: int| 0 <= i < n0.len() && i != c && i != par ==> #[trigger] n2[i] == n0[i],
        n2[c as int].color == Color::Red,
        n2[c as int].parent == par,
        n2[c as int].left == nil,
        n2[c as int].right == nil,
    ensures
        grow_pending(n2, lab.dom().insert(c), ranks.insert(c, 0), root2, nil, c),
{
    let dom = lab.dom();
    let dom2 = dom.insert(c);
    let ranks2 = ranks.insert(c, 0);
    if par != nil {
        lemma_children(n0, lab, root, nil, par);
        assert(paint_ok(n0, ranks, nil, par));
    }
    if root != nil {
        lemma_children(n0, lab, root, nil, root);
    }
    assert forall|i: usize| dom2.contains(i) implies #[trigger] level_ok(n2, ranks2, nil, i) by {
        if i != c {
            assert(paint_ok(n0, ranks, nil, i));
            lemma_children(n0, lab, root, nil, i);
        }
    }
    assert forall|i: usize| dom2.contains(i) && i != par implies #[trigger] red_ok(n2, nil, i) by {
        if i != c {
            assert(paint_ok(n0, ranks, nil, i));
            lemma_children(n0, lab, root, nil, i);
            let n = n0[i as int];
            if n.left != nil && n.left != par {
                assert(n2[n.left as int] == n0[n.left as int]);
            }
            if n.right != nil && n.right != par {
                assert(n2[n.right as int] == n0[n.right as int]);
            }
        }
    }
    if par != nil && n2[par as int].color == Color::Red {
        let o = other_child(n2[par as int], c);
        if o != nil {
            lemma_children(n0, lab, root, nil, o);
            assert(n2[o as int] == n0[o as int]);
        }
    }
}

/// State of the repair after a removal, with the node `x` (possibly
/// missing) in hand under the parent `xp`: the paths through `x` are one
/// black node short, which shows at `xp` only. If `x` is red, `x` and `xp`
/// may be red nodes with a red child; blackening `x` then settles
/// everything. Without a parent, `x` is the root and nothing is short.
pub(super) open spec fn shrink_pending(
    nodes: Seq<Node>,
    dom: Set<usize>,
    ranks: Ranks,
    root: usize,
    nil: usize,
    x: usize,
    xp: usize,
) -> bool {
    let sib = other_child(nodes[xp as int], x);
    &&& (root == x || black_at(nodes, nil, root))
    &&& (x == nil || (dom.contains(x) && nodes[x as int].parent == xp))
    &&& (xp == nil ==> root == x)
    &&& (xp != nil ==> root != nil && dom.contains(xp) && (nodes[xp as int].left == x
        || nodes[xp as int].right == x))
    &&& forall|i: usize| dom.contains(i) && i != xp ==> #[trigger] level_ok(nodes, ranks, nil, i)
    &&& (xp != nil ==> rank_of(ranks, nil, x) + 1 == rank_of(ranks, nil, sib) && ranks[xp]
        == rank_of(ranks, nil, sib) + weight(nodes[xp as int]))
    &&& (xp != nil && nodes[xp as int].color == Color::Red ==> black_at(nodes, nil, sib))
    &&& forall|i: usize|
        dom.contains(i) && (black_at(nodes, nil, x) || (i != x && i != xp)) ==> #[trigger] red_ok(
            nodes,
            nil,
            i,
        )
}

/// What the removal of a node `z` with at most one child `c` starts from.
pub(super) open spec fn unlink_pre(
    n0: Seq<Node>,
    n1: Seq<Node>,
    lab: Labels,
    ranks: Ranks,
    root: usize,
    root1: usize,
    nil: usize,
    z: usize,
    c: usize,
) -> bool {
    &&& tree_ok(n0, lab, root, nil)
    &&& painted(n0, lab.dom(), ranks, root, nil)
    &&& lab.dom().contains(z)
    &&& ((n0[z as int].left == nil && c == n0[z as int].right) || (n0[z as int].right == nil && c
        == n0[z as int].left))
    &&& transplanted(n0, n1, root, root1, nil, z, c)
    &&& root != nil
}

/// When `z` leaves the tree, a node other than `z` and its parent keeps
/// its links and colour, and so do its children.
#[verifier::spinoff_prover]
#[verifier::rlimit(60)]
pub(super) proof fn lemma_shrink_unlink_other(
    n0: Seq<Node>,
    n1: Seq<Node>,
    lab: Labels,
    ranks: Ranks,
    root: usize,
    root1: usize,
    nil: usize,
    z: usize,
    c: usize,
    i: usize,
)
    requires
        unlink_pre(n0, n1, lab, ranks, root, root1, nil, z, c),
        lab.dom().contains(i),
        i != z,
        i != n0[z as int].parent,
    ensures
        level_ok(n1, ranks, nil, i),
        red_ok(n1, nil, i),
        n1[i as int].color == n0[i as int].color,
        n1[i as int].left == n0[i as int].left,
        n1[i as int].right == n0[i as int].right,
        i < nil,
        i != c ==> n1[i as int].parent == n0[i as int].parent,
        i == c ==> n1[i as int].parent == n0[z as int].parent,
{
    let p = n0[z as int].parent;
    lemma_children(n0, lab, root, nil, z);
    lemma_children(n0, lab, root, nil, i);
    assert(paint_ok(n0, ranks, nil, i));
    let n = n0[i as int];
    if i == c {
        assert(n1[i as int] == Node { parent: p, ..n });
    } else {
        assert(n1[i as int] == n);
    }
    assert(n.left != z && n.right != z);
    if n.left != nil {
        lemma_children(n0, lab, root, nil, n.left);
        if n.left == c {
            assert(n1[n.left as int] == Node { parent: p, ..n0[n.left as int] });
        } else if n.left == p {
            assert(n1[p as int].color == n0[p as int].color);
        } else {
            assert(n1[n.left as int] == n0[n.left as int]);
        }
    }
    if n.right != nil {
        lemma_children(n0, lab, root, nil, n.right);
        if n.right == c {
            assert(n1[n.right as int] == Node { parent: p, ..n0[n.right as int] });
        } else if n.right == p {
            assert(n1[p as int].color == n0[p as int].color);
        } else {
            assert(n1[n.right as int] == n0[n.right as int]);
        }
    }
}

/// When `z` leaves the tree, its parent `p` gets `c` in its place and
/// keeps its other child, its colour and its own parent.
#[verifier::spinoff_prover]
#[verifier::rlimit(60)]
pub(super) proof fn lemma_shrink_unlink_parent(
    n0: Seq<Node>,
    n1: Seq<Node>,
    lab: Labels,
    ranks: Ranks,
    root: usize,
    root1: usize,
    nil: usize,
    z: usize,
    c: usize,
)
    requires
        unlink_pre(n0, n1, lab, ranks, root, root1, nil, z, c),
        n0[z as int].parent != nil,
    ensures
        ({
            let p = n0[z as int].parent;
            let o = other_child(n0[p as int], z);
            &&& lab.dom().contains(p) && p != z && p < nil && p != c
            &&& root1 == root && root != z
            &&& n1[p as int].color == n0[p as int].color
            &&& n1[p as int].parent == n0[p as int].parent
            &&& (n1[p as int].left == c || n1[p as int].right == c)
            &&& (n0[p as int].left == z ==> n1[p as int].left == c && n1[p as int].right == o)
            &&& (n0[p as int].left != z ==> n1[p as int].right == c && n1[p as int].left == o)
            &&& o != z && o != c || o == nil
            &&& (o != nil ==> lab.dom().contains(o) && n1[o as int].color == n0[o as int].color)
            &&& rank_of(ranks, nil, o) == ranks[z]
            &&& ranks[p] == ranks[z] + weight(n0[p as int])
            &&& (n0[p as int].color == Color::Red ==> n0[z as int].color == Color::Black
                && black_at(n0, nil, o))
            &&& rank_of(ranks, nil, c) + weight(n0[z as int]) == ranks[z]
            &&& (c != nil ==> lab.dom().contains(c) && n1[c as int].color == n0[c as int].color
                && n1[c as int].parent == p)
            &&& (n0[z as int].color == Color::Red ==> black_at(n0, nil, c))
            &&& black_at(n1, nil, root1)
        }),
{
    let zn = n0[z as int];
    let p = zn.parent;
    let o = other_child(n0[p as int], z);
    lemma_children(n0, lab, root, nil, z);
    lemma_children(n0, lab, root, nil, p);
    lemma_children(n0, lab, root, nil, root);
    assert(paint_ok(n0, ranks, nil, z));
    assert(paint_ok(n0, ranks, nil, p));
    if c != nil {
        lemma_children(n0, lab, root, nil, c);
        assert(n1[c as int] == Node { parent: p, ..n0[c as int] });
    }
    if o != nil {
        lemma_children(n0, lab, root, nil, o);
        assert(o != c);
        assert(n1[o as int] == n0[o as int]);
    }
    assert(root != z);
    if root != p {
        assert(root != c) by {
            if c != nil {
            }
        }
        assert(n1[root as int] == n0[root as int]);
    }
}

/// Taking a node `z` with at most one child `c` out of a tree that obeys
/// the red-black rules: a red `z` is a leaf and leaves the rules intact, a
/// black `z` leaves the paths through `c` one black node short.
#[verifier::spinoff_prover]
#[verifier::rlimit(60)]
pub(super) proof fn lemma_shrink_unlink(
    n0: Seq<Node>,
    n1: Seq<Node>,
    lab: Labels,
    ranks: Ranks,
    root: usize,
    root1: usize,
    nil: usize,
    z: usize,
    c: usize,
)
    requires
        unlink_pre(n0, n1, lab, ranks, root, root1, nil, z, c),
    ensures
        n0[z as int].color == Color::Red ==> c == nil && painted(
            n1,
            lab.dom().remove(z),
            ranks,
            root1,
            nil,
        ),
        n0[z as int].color == Color::Black ==> shrink_pending(
            n1,
            lab.dom().remove(z),
            ranks,
            root1,
            nil,
            c,
            n0[z as int].parent,
        ),
{
    let dom = lab.dom();
    let dom1 = dom.remove(z);
    let zn = n0[z as int];
    let p = zn.parent;
    lemma_children(n0, lab, root, nil, z);
    assert(paint_ok(n0, ranks, nil, z));
    assert forall|i: usize| dom1.contains(i) && i != p implies #[trigger] level_ok(
        n1,
        ranks,
        nil,
        i,
    ) by {
        lemma_shrink_unlink_other(n0, n1, lab, ranks, root, root1, nil, z, c, i);
    }
    assert forall|i: usize| dom1.contains(i) && i != p implies #[trigger] red_ok(n1, nil, i) by {
        lemma_shrink_unlink_other(n0, n1, lab, ranks, root, root1, nil, z, c, i);
    }
    if c != nil {
        lemma_shrink_unlink_other(n0, n1, lab, ranks, root, root1, nil, z, c, c);
        assert(paint_ok(n0, ranks, nil, c));
    }
    if p != nil {
        lemma_shrink_unlink_parent(n0, n1, lab, ranks, root, root1, nil, z, c);
        if zn.color == Color::Red {
            assert(c == nil) by {
                if c != nil {
                    assert(ranks[c] == 0);
                }
            }
            assert(level_ok(n1, ranks, nil, p));
            assert(red_ok(n1, nil, p));
            assert forall|i: usize| dom1.contains(i) implies #[trigger] paint_ok(
                n1,
                ranks,
                nil,
                i,
            ) by {
                if i != p {
                    assert(level_ok(n1, ranks, nil, i) && red_ok(n1, nil, i));
                }
            }
        } else {
            let o = other_child(n0[p as int], z);
            assert(other_child(n1[p as int], c) == o);
            assert forall|i: usize|
                dom1.contains(i) && (black_at(n1, nil, c) || (i != c && i != p))
                    implies #[trigger] red_ok(n1, nil, i) by {
                if i != p {
                    assert(red_ok(n1, nil, i));
                }
            }
        }
    } else {
        // `z` was the root: `c` is the root now
        lemma_children(n0, lab, root, nil, root);
        assert(root == z);
        assert(root1 == c);
        if zn.color == Color::Red {
            assert(black_at(n0, nil, root));
        }
        assert forall|i: usize| dom1.contains(i) implies #[trigger] paint_ok(n1, ranks, nil, i) by {
            assert(level_ok(n1, ranks, nil, i) && red_ok(n1, nil, i));
        }
    }
}

/// The children of `i` are nodes of the tree or missing.
pub(super) open spec fn kin_ok(nodes: Seq<Node>, dom: Set<usize>, nil: usize, i: usize) -> bool {
    let n = nodes[i as int];
    &&& i < nil
    &&& (n.left == nil || (dom.contains(n.left) && n.left < nil))
    &&& (n.right == nil || (dom.contains(n.right) && n.right < nil))
}

/// Child links stay inside the tree.
pub(super) open spec fn kin_closed(nodes: Seq<Node>, dom: Set<usize>, nil: usize) -> bool {
    &&& nodes.len() == nil
    &&& forall|i: usize| dom.contains(i) ==> #[trigger] kin_ok(nodes, dom, nil, i)
}

/// In a consistent tree child links stay inside the tree.
pub(super) proof fn lemma_tree_kin(nodes: Seq<Node>, lab: Labels, root: usize, nil: usize)
    requires
        tree_ok(nodes, lab, root, nil),
    ensures
        kin_closed(nodes, lab.dom(), nil),
{
    assert forall|i: usize| lab.dom().contains(i) implies #[trigger] kin_ok(
        nodes,
        lab.dom(),
        nil,
        i,
    ) by {
        lemma_children(nodes, lab, root, nil, i);
    }
}

/// While labels are being refreshed child links stay inside the tree.
pub(super) proof fn lemma_walk_kin(
    nodes: Seq<Node>,
    lab: Labels,
    root: usize,
    nil: usize,
    cur: usize,
    ins: bool,
    n: int,
    pos: int,
    v: i64,
    old_e: Seq<i64>,
)
    requires
        cur != nil,
        walk_state(nodes, lab, root, nil, cur, ins, n, pos, v, old_e),
    ensures
        kin_closed(nodes, lab.dom(), nil),
{
    let la = lab.insert(cur, old_e);
    assert(la.dom() =~= lab.dom());
    assert forall|i: usize| lab.dom().contains(i) implies #[trigger] kin_ok(
        nodes,
        lab.dom(),
        nil,
        i,
    ) by {
        if i != cur {
            assert(node_ok(nodes, la, root, nil, i));
        }
    }
}

/// A change that keeps links and colours keeps the red-black rules and the
/// state of a repair after a removal.
#[verifier::spinoff_prover]
#[verifier::rlimit(60)]
pub(super) proof fn lemma_shrink_kept(
    n1: Seq<Node>,
    n2: Seq<Node>,
    dom: Set<usize>,
    ranks: Ranks,
    root: usize,
    nil: usize,
    x: usize,
    xp: usize,
)
    requires
        paint_kept(n2, n1),
        kin_closed(n1, dom, nil),
        root == nil || dom.contains(root),
        x == nil || dom.contains(x),
        xp == nil || dom.contains(xp),
    ensures
        painted(n1, dom, ranks, root, nil) == painted(n2, dom, ranks, root, nil),
        shrink_pending(n1, dom, ranks, root, nil, x, xp) == shrink_pending(
            n2,
            dom,
            ranks,
            root,
            nil,
            x,
            xp,
        ),
{
    assert forall|i: usize| dom.contains(i) implies (level_ok(n2, ranks, nil, i) == level_ok(
        n1,
        ranks,
        nil,
        i,
    )) && (red_ok(n2, nil, i) == red_ok(n1, nil, i)) && same_paint(
        n2[i as int],
        n1[i as int],
    ) by {
        assert(kin_ok(n1, dom, nil, i));
        assert(same_paint(n2[i as int], n1[i as int]));
        let n = n1[i as int];
        if n.left != nil {
            assert(same_paint(n2[n.left as int], n1[n.left as int]));
        }
        if n.right != nil {
            assert(same_paint(n2[n.right as int], n1[n.right as int]));
        }
    }
    if root != nil {
        assert(kin_ok(n1, dom, nil, root));
        assert(same_paint(n2[root as int], n1[root as int]));
    }
    if painted(n1, dom, ranks, root, nil) {
        assert forall|i: usize| dom.contains(i) implies #[trigger] paint_ok(n2, ranks, nil, i) by {
            assert(paint_ok(n1, ranks, nil, i));
        }
    }
    if painted(n2, dom, ranks, root, nil) {
        assert forall|i: usize| dom.contains(i) implies #[trigger] paint_ok(n1, ranks, nil, i) by {
            assert(paint_ok(n2, ranks, nil, i));
        }
    }
    if x != nil {
        assert(kin_ok(n1, dom, nil, x));
        assert(same_paint(n2[x as int], n1[x as int]));
    }
    if xp != nil {
        assert(kin_ok(n1, dom, nil, xp));
        assert(same_paint(n2[xp as int], n1[xp as int]));
        let sib = other_child(n1[xp as int], x);
        if sib != nil {
            assert(same_paint(n2[sib as int], n1[sib as int]));
        }
    }
    if shrink_pending(n1, dom, ranks, root, nil, x, xp) {
        assert forall|i: usize| dom.contains(i) && i != xp implies #[trigger] level_ok(
            n2,
            ranks,
            nil,
            i,
        ) by {
            assert(level_ok(n1, ranks, nil, i));
        }
        assert forall|i: usize|
            dom.contains(i) && (black_at(n2, nil, x) || (i != x && i != xp))
                implies #[trigger] red_ok(n2, nil, i) by {
            assert(red_ok(n1, nil, i));
        }
    }
    if shrink_pending(n2, dom, ranks, root, nil, x, xp) {
        assert forall|i: usize| dom.contains(i) && i != xp implies #[trigger] level_ok(
            n1,
            ranks,
            nil,
            i,
        ) by {
            assert(level_ok(n2, ranks, nil, i));
        }
        assert forall|i: usize|
            dom.contains(i) && (black_at(n1, nil, x) || (i != x && i != xp))
                implies #[trigger] red_ok(n1, nil, i) by {
            assert(red_ok(n2, nil, i));
        }
    }
}

/// The node that stands for `i` once `s` has taken the place of `z`.
pub(super) open spec fn renamed(i: usize, z: usize, s: usize) -> usize {
    if i == z {
        s
    } else {
        i
    }
}

/// What the replacement of `z` by the detached node `s` starts from.
pub(super) open spec fn rename_pre(
    n2: Seq<Node>,
    n3: Seq<Node>,
    dom: Set<usize>,
    root: usize,
    root3: usize,
    nil: usize,
    z: usize,
    s: usize,
) -> bool {
    let zn = n2[z as int];
    &&& kin_closed(n2, dom, nil)
    &&& dom.contains(z)
    &&& !dom.contains(s)
    &&& s < nil
    &&& (root == nil || dom.contains(root))
    &&& (zn.parent == nil ==> root == z)
    &&& (zn.parent != nil ==> root != z && dom.contains(zn.parent) && zn.parent < nil && (
    n2[zn.parent as int].left == z || n2[zn.parent as int].right == z)
        && n2[zn.parent as int].left != n2[zn.parent as int].right)
    &&& zn.left != z && zn.right != z && zn.left != nil && zn.left != zn.right && zn.parent != z
    &&& zn.parent != zn.left && (zn.parent != zn.right || zn.parent == nil)
    &&& n2[zn.left as int].parent == z
    &&& (zn.right != nil ==> n2[zn.right as int].parent == z)
    &&& (forall|i: usize|
        dom.contains(i) && (#[trigger] n2[i as int].left == z || n2[i as int].right == z) ==> i
            == zn.parent)
    &&& (forall|i: usize|
        dom.contains(i) && (#[trigger] n2[i as int].parent == z) ==> i == zn.left || i
            == zn.right)
    &&& spliced(n2, n3, root, root3, nil, z, s)
}

/// Once `s` stands for `z`, the node `i` of the new tree has the colour
/// and, up to the renaming, the children of the node it stands for.
#[verifier::spinoff_prover]
pub(super) proof fn lemma_rename_at(
    n2: Seq<Node>,
    n3: Seq<Node>,
    dom: Set<usize>,
    root: usize,
    root3: usize,
    nil: usize,
    z: usize,
    s: usize,
    i: usize,
)
    requires
        rename_pre(n2, n3, dom, root, root3, nil, z, s),
        dom.remove(z).insert(s).contains(i),
    ensures
        ({
            let j = if i == s {
                z
            } else {
                i
            };
            &&& dom.contains(j)
            &&& i < nil && j < nil
            &&& n3[i as int].color == n2[j as int].color
            &&& n3[i as int].left == renamed(n2[j as int].left, z, s)
            &&& n3[i as int].right == renamed(n2[j as int].right, z, s)
            &&& n3[i as int].parent == renamed(n2[j as int].parent, z, s)
        }),
{
    let zn = n2[z as int];
    let p = zn.parent;
    let j = if i == s {
        z
    } else {
        i
    };
    assert(kin_ok(n2, dom, nil, z));
    assert(kin_ok(n2, dom, nil, j));
    if i != s {
        let n = n2[i as int];
        if i == p {
        } else if i == zn.left {
        } else if i == zn.right {
        } else {
            assert(n3[i as int] == n2[i as int]);
            assert(n.left != z && n.right != z && n.parent != z);
        }
    }
}

/// When the node `s`, which is not in the tree, takes over the place, the
/// children and the colour of `z`, the red-black rules and the state of a
/// repair carry over, with `s` standing for `z`.
#[verifier::spinoff_prover]
#[verifier::rlimit(60)]
pub(super) proof fn lemma_shrink_rename(
    n2: Seq<Node>,
    n3: Seq<Node>,
    dom: Set<usize>,
    ranks: Ranks,
    root: usize,
    root3: usize,
    nil: usize,
    z: usize,
    s: usize,
    x: usize,
    xp: usize,
)
    requires
        rename_pre(n2, n3, dom, root, root3, nil, z, s),
        x != z,
    ensures
        ({
            let dom3 = dom.remove(z).insert(s);
            let ranks3 = ranks.insert(s, ranks[z]);
            &&& painted(n2, dom, ranks, root, nil) ==> painted(n3, dom3, ranks3, root3, nil)
            &&& shrink_pending(n2, dom, ranks, root, nil, x, xp) ==> shrink_pending(
                n3,
                dom3,
                ranks3,
                root3,
                nil,
                x,
                renamed(xp, z, s),
            )
        }),
{
    let dom3 = dom.remove(z).insert(s);
    let ranks3 = ranks.insert(s, ranks[z]);
    let zn = n2[z as int];
    let p = zn.parent;
    assert(kin_ok(n2, dom, nil, z));
    // a node of the new tree sees what the node it stands for saw
    assert forall|i: usize| dom3.contains(i) implies ({
        let j = if i == s {
            z
        } else {
            i
        };
        &&& dom.contains(j)
        &&& #[trigger] level_ok(n3, ranks3, nil, i) == level_ok(n2, ranks, nil, j)
        &&& red_ok(n3, nil, i) == red_ok(n2, nil, j)
    }) by {
        let j = if i == s {
            z
        } else {
            i
        };
        lemma_rename_at(n2, n3, dom, root, root3, nil, z, s, i);
        assert(kin_ok(n2, dom, nil, j));
        let n = n2[j as int];
        if n.left != nil {
            lemma_rename_at(n2, n3, dom, root, root3, nil, z, s, renamed(n.left, z, s));
        }
        if n.right != nil {
            lemma_rename_at(n2, n3, dom, root, root3, nil, z, s, renamed(n.right, z, s));
        }
    }
    if root != nil {
        lemma_rename_at(n2, n3, dom, root, root3, nil, z, s, renamed(root, z, s));
    }
    assert(root3 == renamed(root, z, s));
    if painted(n2, dom, ranks, root, nil) {
        assert forall|i: usize| dom3.contains(i) implies #[trigger] paint_ok(n3, ranks3, nil, i) by {
            let j = if i == s {
                z
            } else {
                i
            };
            assert(paint_ok(n2, ranks, nil, j));
            assert(level_ok(n3, ranks3, nil, i) == level_ok(n2, ranks, nil, j));
        }
    }
    if shrink_pending(n2, dom, ranks, root, nil, x, xp) {
        let xp3 = renamed(xp, z, s);
        if x != nil {
            lemma_rename_at(n2, n3, dom, root, root3, nil, z, s, x);
        }
        assert forall|i: usize| dom3.contains(i) && i != xp3 implies #[trigger] level_ok(
            n3,
            ranks3,
            nil,
            i,
        ) by {
            let j = if i == s {
                z
            } else {
                i
            };
            assert(level_ok(n2, ranks, nil, j));
            assert(level_ok(n3, ranks3, nil, i) == level_ok(n2, ranks, nil, j));
        }
        assert forall|i: usize|
            dom3.contains(i) && (black_at(n3, nil, x) || (i != x && i != xp3))
                implies #[trigger] red_ok(n3, nil, i) by {
            let j = if i == s {
                z
            } else {
                i
            };
            assert(level_ok(n3, ranks3, nil, i) == level_ok(n2, ranks, nil, j));
            assert(red_ok(n2, nil, j));
        }
        if xp != nil {
            lemma_rename_at(n2, n3, dom, root, root3, nil, z, s, xp3);
            assert(kin_ok(n2, dom, nil, xp));
            let sib = other_child(n2[xp as int], x);
            if sib != nil {
                lemma_rename_at(n2, n3, dom, root, root3, nil, z, s, renamed(sib, z, s));
            }
            assert(other_child(n3[xp3 as int], x) == renamed(sib, z, s));
        }
    }
}

/// What a round of the repair after a removal starts from: the black node
/// `x` in hand, not the root, on the side of its parent `xp` that a
/// rotation at `xp` in direction `leftward` hands down.
pub(super) open spec fn shrink_round(
    n0: Seq<Node>,
    lab: Labels,
    ranks: Ranks,
    root: usize,
    nil: usize,
    x: usize,
    xp: usize,
    leftward: bool,
) -> bool {
    &&& tree_ok(n0, lab, root, nil)
    &&& shrink_pending(n0, lab.dom(), ranks, root, nil, x, xp)
    &&& x != root
    &&& black_at(n0, nil, x)
    &&& xp != nil
    &&& handed(n0[xp as int], leftward) == x
    &&& (leftward || n0[xp as int].left != x)
}

/// The relatives of the node in hand during the repair after a removal:
/// the sibling `w` exists, and black heights line up around it.
#[verifier::spinoff_prover]
#[verifier::rlimit(60)]
pub(super) proof fn lemma_shrink_family(
    n0: Seq<Node>,
    lab: Labels,
    ranks: Ranks,
    root: usize,
    nil: usize,
    x: usize,
    xp: usize,
    leftward: bool,
)
    requires
        shrink_round(n0, lab, ranks, root, nil, x, xp, leftward),
    ensures
        ({
            let w = lifted(n0[xp as int], leftward);
            let near = handed(n0[w as int], leftward);
            let far = lifted(n0[w as int], leftward);
            let gp = n0[xp as int].parent;
            &&& w == other_child(n0[xp as int], x)
            &&& w != nil && lab.dom().contains(w) && w < nil && xp < nil
            &&& w != x && w != xp && n0[w as int].parent == xp
            &&& (x == nil || (lab.dom().contains(x) && x < nil && n0[x as int].parent == xp))
            &&& (near == nil || (lab.dom().contains(near) && near < nil && n0[near as int].parent
                == w))
            &&& (far == nil || (lab.dom().contains(far) && far < nil && n0[far as int].parent
                == w))
            &&& near != xp && near != w && far != xp && far != w
            &&& (near != nil ==> near != far && near != x)
            &&& (far != nil ==> far != x)
            &&& (gp == nil ==> root == xp)
            &&& (gp != nil ==> root != xp && lab.dom().contains(gp) && gp < nil && (
            n0[gp as int].left == xp || n0[gp as int].right == xp) && gp != x && gp != w && gp
                != near && gp != far && gp != xp)
            &&& root != nil && root != x && root != w && root != near && root != far
            &&& lab.dom().contains(root)
            &&& black_at(n0, nil, root)
            &&& ranks[w] == rank_of(ranks, nil, x) + 1
            &&& rank_of(ranks, nil, near) == rank_of(ranks, nil, far)
            &&& ranks[w] == rank_of(ranks, nil, near) + weight(n0[w as int])
            &&& ranks[xp] == ranks[w] + weight(n0[xp as int])
            &&& (n0[xp as int].color == Color::Red ==> n0[w as int].color == Color::Black)
            &&& (n0[w as int].color == Color::Red ==> black_at(n0, nil, near) && black_at(
                n0,
                nil,
                far,
            ) && near != nil && far != nil)
            &&& (forall|i: usize| lab.dom().contains(i) ==> #[trigger] red_ok(n0, nil, i))
            &&& (forall|i: usize|
                lab.dom().contains(i) && i != xp ==> #[trigger] level_ok(n0, ranks, nil, i))
        }),
{
    let dom = lab.dom();
    let w = lifted(n0[xp as int], leftward);
    lemma_children(n0, lab, root, nil, xp);
    assert(w != nil) by {
        if w == nil {
            assert(rank_of(ranks, nil, other_child(n0[xp as int], x)) == 0);
        }
    }
    lemma_children(n0, lab, root, nil, w);
    assert(level_ok(n0, ranks, nil, w));
    assert(red_ok(n0, nil, w));
    assert(red_ok(n0, nil, xp));
    let near = handed(n0[w as int], leftward);
    let far = lifted(n0[w as int], leftward);
    if near != nil {
        lemma_children(n0, lab, root, nil, near);
        assert(level_ok(n0, ranks, nil, near));
    }
    if far != nil {
        lemma_children(n0, lab, root, nil, far);
        assert(level_ok(n0, ranks, nil, far));
    }
    if x != nil {
        lemma_children(n0, lab, root, nil, x);
    }
    let gp = n0[xp as int].parent;
    if gp != nil {
        lemma_children(n0, lab, root, nil, gp);
    }
    lemma_children(n0, lab, root, nil, root);
    assert forall|i: usize| dom.contains(i) implies #[trigger] red_ok(n0, nil, i) by {}
}

/// Repair after a removal, black sibling with two black children: the
/// sibling turns red, and the parent is the node in hand.
#[verifier::spinoff_prover]
#[verifier::rlimit(60)]
pub(super) proof fn lemma_shrink_lift(
    n0: Seq<Node>,
    n1: Seq<Node>,
    lab: Labels,
    ranks: Ranks,
    root: usize,
    nil: usize,
    x: usize,
    xp: usize,
    leftward: bool,
)
    requires
        shrink_round(n0, lab, ranks, root, nil, x, xp, leftward),
        ({
            let w = lifted(n0[xp as int], leftward);
            &&& n0[w as int].color == Color::Black
            &&& black_at(n0, nil, n0[w as int].left)
            &&& black_at(n0, nil, n0[w as int].right)
            &&& n1 == n0.update(w as int, tinted(n0[w as int], Color::Red))
        }),
    ensures
        ({
            let w = lifted(n0[xp as int], leftward);
            let ranks2 = ranks.insert(w, (ranks[w] - 1) as nat).insert(
                xp,
                (ranks[xp] - 1) as nat,
            );
            shrink_pending(n1, lab.dom(), ranks2, root, nil, xp, n0[xp as int].parent)
        }),
{
    let dom = lab.dom();
    let w = lifted(n0[xp as int], leftward);
    let gp = n0[xp as int].parent;
    let ranks2 = ranks.insert(w, (ranks[w] - 1) as nat).insert(xp, (ranks[xp] - 1) as nat);
    lemma_shrink_family(n0, lab, ranks, root, nil, x, xp, leftward);
    lemma_children(n0, lab, root, nil, xp);
    lemma_children(n0, lab, root, nil, w);
    if gp != nil {
        lemma_children(n0, lab, root, nil, gp);
        assert(level_ok(n0, ranks, nil, gp));
        assert(red_ok(n0, nil, gp));
        let o = other_child(n0[gp as int], xp);
        assert(n1[gp as int] == n0[gp as int]);
        if o != nil {
            lemma_children(n0, lab, root, nil, o);
            assert(o != w && o != xp);
            assert(n1[o as int] == n0[o as int]);
        }
        assert(other_child(n1[gp as int], xp) == o);
    }
    assert forall|i: usize| dom.contains(i) && i != gp implies #[trigger] level_ok(
        n1,
        ranks2,
        nil,
        i,
    ) by {
        lemma_children(n0, lab, root, nil, i);
        if i != xp && i != w {
            assert(level_ok(n0, ranks, nil, i));
            let n = n0[i as int];
            assert(n.left != w && n.right != w && n.left != xp && n.right != xp);
        }
    }
    assert forall|i: usize|
        dom.contains(i) && (black_at(n1, nil, xp) || (i != xp && i != gp))
            implies #[trigger] red_ok(n1, nil, i) by {
        lemma_children(n0, lab, root, nil, i);
        assert(red_ok(n0, nil, i));
        if i != xp && i != w {
            let n = n0[i as int];
            assert(n.left != w && n.right != w);
        }
    }
}

/// End of the repair after a removal: the node in hand is the root or is
/// red; blackening it, and the root, restores the rules.
#[verifier::spinoff_prover]
#[verifier::rlimit(60)]
pub(super) proof fn lemma_shrink_settle(
    n0: Seq<Node>,
    n2: Seq<Node>,
    lab: Labels,
    ranks: Ranks,
    root: usize,
    nil: usize,
    x: usize,
    xp: usize,
) -> (ranks2: Ranks)
    requires
        tree_ok(n0, lab, root, nil),
        shrink_pending(n0, lab.dom(), ranks, root, nil, x, xp),
        x == root || !black_at(n0, nil, x),
        ({
            let n1 = if x == nil {
                n0
            } else {
                n0.update(x as int, tinted(n0[x as int], Color::Black))
            };
            n2 == if root == nil {
                n1
            } else {
                n1.update(root as int, tinted(n1[root as int], Color::Black))
            }
        }),
    ensures
        painted(n2, lab.dom(), ranks2, root, nil),
{
    let dom = lab.dom();
    if root != nil {
        lemma_children(n0, lab, root, nil, root);
    }
    if x != nil {
        lemma_children(n0, lab, root, nil, x);
    }
    if xp != nil {
        lemma_children(n0, lab, root, nil, xp);
    }
    if black_at(n0, nil, x) {
        // the node in hand is the root: nothing is short
        assert(xp == nil);
        assert(n2 =~= n0);
        assert forall|i: usize| dom.contains(i) implies #[trigger] paint_ok(n2, ranks, nil, i) by {
            assert(level_ok(n0, ranks, nil, i));
            assert(red_ok(n0, nil, i));
        }
        ranks
    } else {
        let n1 = n0.update(x as int, tinted(n0[x as int], Color::Black));
        assert(n2 =~= n1);
        let ranks2 = ranks.insert(x, ranks[x] + 1);
        assert(level_ok(n0, ranks, nil, x));
        assert forall|i: usize| dom.contains(i) implies #[trigger] paint_ok(n2, ranks2, nil, i) by {
            lemma_children(n0, lab, root, nil, i);
            let n = n0[i as int];
            if i == x {
            } else if i == xp {
            } else {
                assert(level_ok(n0, ranks, nil, i));
                assert(red_ok(n0, nil, i));
                assert(n.left != x && n.right != x);
            }
        }
        ranks2
    }
}

/// A rotation keeps every colour, and the children of every node but the
/// rotated pair and their parent.
#[verifier::spinoff_prover]
#[verifier::rlimit(60)]
pub(super) proof fn lemma_turned_facts(
    n2: Seq<Node>,
    n3: Seq<Node>,
    lab: Labels,
    root: usize,
    root3: usize,
    nil: usize,
    xr: usize,
    leftward: bool,
)
    requires
        tree_ok(n2, lab, root, nil),
        lab.dom().contains(xr),
        lifted(n2[xr as int], leftward) != nil,
        turned(n2, n3, root, root3, nil, xr, leftward),
    ensures
        forall|i: usize| #[trigger] lab.dom().contains(i) ==> n3[i as int].color == n2[i as int].color,
        forall|i: usize|
            #[trigger] lab.dom().contains(i) && i != xr && i != lifted(n2[xr as int], leftward)
                && i != n2[xr as int].parent ==> n3[i as int].left == n2[i as int].left
                && n3[i as int].right == n2[i as int].right,
{
    lemma_around(n2, lab, root, nil, xr, leftward);
    let y = lifted(n2[xr as int], leftward);
    let inner = handed(n2[y as int], leftward);
    let xp = n2[xr as int].parent;
    assert forall|i: usize| #[trigger] lab.dom().contains(i) implies n3[i as int].color
        == n2[i as int].color by {
        if i != xr && i != y && i != inner && i != xp {
            assert(same_paint(n3[i as int], n2[i as int]));
        }
    }
    assert forall|i: usize|
        #[trigger] lab.dom().contains(i) && i != xr && i != y && i != xp implies n3[i as int].left
        == n2[i as int].left && n3[i as int].right == n2[i as int].right by {
        if i != inner {
            assert(same_paint(n3[i as int], n2[i as int]));
        }
    }
}

/// What the first case of the repair after a removal starts from: a red
/// sibling `w`; `w` turned black and the parent `xp` red, then a rotation
/// at `xp`.
pub(super) open spec fn shrink_turn_pre(
    n0: Seq<Node>,
    n3: Seq<Node>,
    lab: Labels,
    ranks: Ranks,
    root: usize,
    root3: usize,
    nil: usize,
    x: usize,
    xp: usize,
    leftward: bool,
) -> bool {
    let w = lifted(n0[xp as int], leftward);
    &&& shrink_round(n0, lab, ranks, root, nil, x, xp, leftward)
    &&& n0[w as int].color == Color::Red
    &&& turned(
        n0.update(w as int, tinted(n0[w as int], Color::Black)).update(
            xp as int,
            tinted(n0[xp as int], Color::Red),
        ),
        n3,
        root,
        root3,
        nil,
        xp,
        leftward,
    )
}

/// The links and colours around the node in hand after the first case of
/// the repair after a removal.
#[verifier::spinoff_prover]
#[verifier::rlimit(60)]
pub(super) proof fn lemma_shrink_turn_shape(
    n0: Seq<Node>,
    n3: Seq<Node>,
    lab: Labels,
    ranks: Ranks,
    root: usize,
    root3: usize,
    nil: usize,
    x: usize,
    xp: usize,
    leftward: bool,
)
    requires
        shrink_turn_pre(n0, n3, lab, ranks, root, root3, nil, x, xp, leftward),
    ensures
        ({
            let w = lifted(n0[xp as int], leftward);
            let near = handed(n0[w as int], leftward);
            let far = lifted(n0[w as int], leftward);
            let gp = n0[xp as int].parent;
            &&& n0[xp as int].color == Color::Black
            &&& n3[xp as int].color == Color::Red
            &&& n3[xp as int].parent == w
            &&& handed(n3[xp as int], leftward) == x
            &&& lifted(n3[xp as int], leftward) == near
            &&& n3[w as int].color == Color::Black
            &&& n3[w as int].parent == gp
            &&& handed(n3[w as int], leftward) == xp
            &&& lifted(n3[w as int], leftward) == far
            &&& near != nil && far != nil
            &&& n3[near as int].color == Color::Black
            &&& n3[far as int].color == Color::Black
            &&& n3[near as int].left == n0[near as int].left
            &&& n3[near as int].right == n0[near as int].right
            &&& n3[near as int].parent == xp
            &&& (x != nil ==> same_paint(n3[x as int], n0[x as int]))
            &&& (gp != nil ==> n3[gp as int].color == n0[gp as int].color && (if n0[gp as int].left
                == xp {
                n3[gp as int].left == w && n3[gp as int].right == n0[gp as int].right
            } else {
                n3[gp as int].right == w && n3[gp as int].left == n0[gp as int].left
            }))
            &&& root3 == (if gp == nil {
                w
            } else {
                root
            })
            &&& x != root3
            &&& (forall|i: usize|
                #[trigger] lab.dom().contains(i) ==> (i == w || i == xp || n3[i as int].color
                    == n0[i as int].color))
            &&& (forall|i: usize|
                #[trigger] lab.dom().contains(i) && i != xp && i != w && i != gp
                    ==> n3[i as int].left == n0[i as int].left && n3[i as int].right
                    == n0[i as int].right)
        }),
{
    let w = lifted(n0[xp as int], leftward);
    let n1 = n0.update(w as int, tinted(n0[w as int], Color::Black));
    let n2 = n1.update(xp as int, tinted(n0[xp as int], Color::Red));
    lemma_shrink_family(n0, lab, ranks, root, nil, x, xp, leftward);
    assert(n2[xp as int] == tinted(n0[xp as int], Color::Red));
    assert(n2[w as int] == tinted(n0[w as int], Color::Black));
    assert forall|i: int| 0 <= i < n0.len() implies same_but_color(#[trigger] n0[i], n2[i]) by {}
    lemma_recolor(n0, n2, lab, root, nil);
    lemma_turned_facts(n2, n3, lab, root, root3, nil, xp, leftward);
    lemma_around(n2, lab, root, nil, xp, leftward);
    assert forall|i: usize|
        #[trigger] lab.dom().contains(i) implies (i == w || i == xp || n3[i as int].color
        == n0[i as int].color) by {
        assert(n3[i as int].color == n2[i as int].color);
    }
    let near = handed(n0[w as int], leftward);
    let gp = n0[xp as int].parent;
    if x != nil {
        assert(x != near && x != gp && x != w && x != xp);
        assert(same_paint(n3[x as int], n2[x as int]));
    }
}

/// Repair after a removal, red sibling: the sibling turns black, the
/// parent red, and a rotation at the parent lifts the sibling. The node in
/// hand keeps its parent and gets a black sibling.
#[verifier::spinoff_prover]
#[verifier::rlimit(60)]
pub(super) proof fn lemma_shrink_turn(
    n0: Seq<Node>,
    n3: Seq<Node>,
    lab: Labels,
    ranks: Ranks,
    root: usize,
    root3: usize,
    nil: usize,
    x: usize,
    xp: usize,
    leftward: bool,
)
    requires
        shrink_turn_pre(n0, n3, lab, ranks, root, root3, nil, x, xp, leftward),
    ensures
        ({
            let w = lifted(n0[xp as int], leftward);
            let ranks2 = ranks.insert(xp, (ranks[xp] - 1) as nat).insert(w, ranks[w] + 1);
            &&& shrink_pending(n3, lab.dom(), ranks2, root3, nil, x, xp)
            &&& x != root3
            &&& black_at(n3, nil, x)
            &&& handed(n3[xp as int], leftward) == x
            &&& (leftward || n3[xp as int].left != x)
            &&& lifted(n3[xp as int], leftward) != nil
            &&& n3[lifted(n3[xp as int], leftward) as int].color == Color::Black
            &&& n3[xp as int].color == Color::Red
        }),
{
    let dom = lab.dom();
    let w = lifted(n0[xp as int], leftward);
    let near = handed(n0[w as int], leftward);
    let far = lifted(n0[w as int], leftward);
    let gp = n0[xp as int].parent;
    let ranks2 = ranks.insert(xp, (ranks[xp] - 1) as nat).insert(w, ranks[w] + 1);
    lemma_shrink_family(n0, lab, ranks, root, nil, x, xp, leftward);
    lemma_shrink_turn_shape(n0, n3, lab, ranks, root, root3, nil, x, xp, leftward);
    assert(level_ok(n0, ranks, nil, near));
    assert(level_ok(n0, ranks, nil, far));
    if gp != nil {
        assert(level_ok(n0, ranks, nil, gp));
    }
    assert forall|i: usize| dom.contains(i) && i != xp implies #[trigger] level_ok(
        n3,
        ranks2,
        nil,
        i,
    ) by {
        lemma_children(n0, lab, root, nil, i);
        if i != w && i != gp {
            assert(level_ok(n0, ranks, nil, i));
            let n = n0[i as int];
            assert(n.left != xp && n.left != w && n.right != xp && n.right != w);
        }
    }
    assert forall|i: usize| dom.contains(i) implies #[trigger] red_ok(n3, nil, i) by {
        lemma_children(n0, lab, root, nil, i);
        assert(red_ok(n0, nil, i));
        let n = n0[i as int];
        if i != w && i != xp && i != gp {
            assert(n.left != xp && n.right != xp);
            if n.left != nil {
                assert(dom.contains(n.left));
            }
            if n.right != nil {
                assert(dom.contains(n.right));
            }
        } else if i == gp {
            let o = other_child(n0[gp as int], xp);
            if o != nil {
                lemma_children(n0, lab, root, nil, o);
                assert(dom.contains(o));
            }
        }
    }
    assert(other_child(n3[xp as int], x) == near);
    if gp != nil {
        assert(dom.contains(root));
    }
}

/// What the third case of the repair after a removal starts from: a
/// black sibling `w` with a black far child and a red near child; the near
/// child turned black and `w` red, then a rotation at `w` away from the
/// node in hand.
pub(super) open spec fn shrink_prepare_pre(
    n0: Seq<Node>,
    n3: Seq<Node>,
    lab: Labels,
    ranks: Ranks,
    root: usize,
    root3: usize,
    nil: usize,
    x: usize,
    xp: usize,
    leftward: bool,
) -> bool {
    let w = lifted(n0[xp as int], leftward);
    let near = handed(n0[w as int], leftward);
    let far = lifted(n0[w as int], leftward);
    &&& shrink_round(n0, lab, ranks, root, nil, x, xp, leftward)
    &&& n0[w as int].color == Color::Black
    &&& black_at(n0, nil, far)
    &&& !black_at(n0, nil, near)
    &&& turned(
        n0.update(near as int, tinted(n0[near as int], Color::Black)).update(
            w as int,
            tinted(n0[w as int], Color::Red),
        ),
        n3,
        root,
        root3,
        nil,
        w,
        !leftward,
    )
}

/// The links and colours around the node in hand after the third case of
/// the repair after a removal.
#[verifier::spinoff_prover]
#[verifier::rlimit(60)]
pub(super) proof fn lemma_shrink_prepare_shape(
    n0: Seq<Node>,
    n3: Seq<Node>,
    lab: Labels,
    ranks: Ranks,
    root: usize,
    root3: usize,
    nil: usize,
    x: usize,
    xp: usize,
    leftward: bool,
)
    requires
        shrink_prepare_pre(n0, n3, lab, ranks, root, root3, nil, x, xp, leftward),
    ensures
        ({
            let w = lifted(n0[xp as int], leftward);
            let near = handed(n0[w as int], leftward);
            let far = lifted(n0[w as int], leftward);
            let nn = handed(n0[near as int], leftward);
            let nf = lifted(n0[near as int], leftward);
            &&& near != nil && lab.dom().contains(near)
            &&& (nn == nil || (lab.dom().contains(nn) && nn != x && nn != xp && nn != w && nn
                != far && nn != near))
            &&& (nf == nil || (lab.dom().contains(nf) && nf != x && nf != xp && nf != w && nf
                != far && nf != near && nf != nn))
            &&& black_at(n0, nil, nn) && black_at(n0, nil, nf)
            &&& rank_of(ranks, nil, nn) == ranks[near]
            &&& rank_of(ranks, nil, nf) == ranks[near]
            &&& ranks[near] + 1 == ranks[w]
            &&& rank_of(ranks, nil, far) == ranks[near]
            &&& root3 == root
            &&& n3[xp as int].color == n0[xp as int].color
            &&& n3[xp as int].parent == n0[xp as int].parent
            &&& handed(n3[xp as int], leftward) == x
            &&& lifted(n3[xp as int], leftward) == near
            &&& n3[near as int].color == Color::Black
            &&& n3[near as int].parent == xp
            &&& handed(n3[near as int], leftward) == nn
            &&& lifted(n3[near as int], leftward) == w
            &&& n3[w as int].color == Color::Red
            &&& n3[w as int].parent == near
            &&& handed(n3[w as int], leftward) == nf
            &&& lifted(n3[w as int], leftward) == far
            &&& (x != nil ==> same_paint(n3[x as int], n0[x as int]))
            &&& (forall|i: usize|
                #[trigger] lab.dom().contains(i) ==> (i == w || i == near || n3[i as int].color
                    == n0[i as int].color))
            &&& (forall|i: usize|
                #[trigger] lab.dom().contains(i) && i != xp && i != w && i != near
                    ==> n3[i as int].left == n0[i as int].left && n3[i as int].right
                    == n0[i as int].right)
        }),
{
    let w = lifted(n0[xp as int], leftward);
    let near = handed(n0[w as int], leftward);
    let far = lifted(n0[w as int], leftward);
    let n1 = n0.update(near as int, tinted(n0[near as int], Color::Black));
    let n2 = n1.update(w as int, tinted(n0[w as int], Color::Red));
    lemma_shrink_family(n0, lab, ranks, root, nil, x, xp, leftward);
    lemma_children(n0, lab, root, nil, near);
    lemma_children(n0, lab, root, nil, w);
    assert(level_ok(n0, ranks, nil, near));
    assert(red_ok(n0, nil, near));
    let nn = handed(n0[near as int], leftward);
    let nf = lifted(n0[near as int], leftward);
    if nn != nil {
        lemma_children(n0, lab, root, nil, nn);
    }
    if nf != nil {
        lemma_children(n0, lab, root, nil, nf);
    }
    if far != nil {
        lemma_children(n0, lab, root, nil, far);
    }
    if x != nil {
        lemma_children(n0, lab, root, nil, x);
    }
    assert(n2[near as int] == tinted(n0[near as int], Color::Black));
    assert(n2[w as int] == tinted(n0[w as int], Color::Red));
    assert forall|i: int| 0 <= i < n0.len() implies same_but_color(#[trigger] n0[i], n2[i]) by {}
    lemma_recolor(n0, n2, lab, root, nil);
    lemma_turned_facts(n2, n3, lab, root, root3, nil, w, !leftward);
    lemma_around(n2, lab, root, nil, w, !leftward);
    assert forall|i: usize|
        #[trigger] lab.dom().contains(i) implies (i == w || i == near || n3[i as int].color
        == n0[i as int].color) by {
        assert(n3[i as int].color == n2[i as int].color);
    }
    assert(n2[xp as int] == n0[xp as int]);
    if x != nil {
        assert(x != nf && x != near && x != w && x != xp);
        assert(same_paint(n3[x as int], n2[x as int]));
    }
}

/// Repair after a removal, black sibling with a red near child and a
/// black far child: the near child turns black, the sibling red, and a
/// rotation at the sibling lifts the near child. The node in hand gets a
/// black sibling with a red far child.
#[verifier::spinoff_prover]
#[verifier::rlimit(60)]
pub(super) proof fn lemma_shrink_prepare(
    n0: Seq<Node>,
    n3: Seq<Node>,
    lab: Labels,
    ranks: Ranks,
    root: usize,
    root3: usize,
    nil: usize,
    x: usize,
    xp: usize,
    leftward: bool,
)
    requires
        shrink_prepare_pre(n0, n3, lab, ranks, root, root3, nil, x, xp, leftward),
    ensures
        ({
            let w = lifted(n0[xp as int], leftward);
            let near = handed(n0[w as int], leftward);
            let ranks2 = ranks.insert(near, ranks[near] + 1).insert(w, (ranks[w] - 1) as nat);
            &&& shrink_pending(n3, lab.dom(), ranks2, root3, nil, x, xp)
            &&& x != root3
            &&& black_at(n3, nil, x)
            &&& handed(n3[xp as int], leftward) == x
            &&& (leftward || n3[xp as int].left != x)
            &&& lifted(n3[xp as int], leftward) == near
            &&& near != nil
            &&& n3[near as int].color == Color::Black
            &&& lifted(n3[near as int], leftward) == w
            &&& n3[w as int].color == Color::Red
            &&& n3[xp as int].color == n0[xp as int].color
        }),
{
    let dom = lab.dom();
    let w = lifted(n0[xp as int], leftward);
    let near = handed(n0[w as int], leftward);
    let far = lifted(n0[w as int], leftward);
    let nn = handed(n0[near as int], leftward);
    let nf = lifted(n0[near as int], leftward);
    let ranks2 = ranks.insert(near, ranks[near] + 1).insert(w, (ranks[w] - 1) as nat);
    lemma_shrink_family(n0, lab, ranks, root, nil, x, xp, leftward);
    lemma_shrink_prepare_shape(n0, n3, lab, ranks, root, root3, nil, x, xp, leftward);
    assert forall|i: usize| dom.contains(i) && i != xp implies #[trigger] level_ok(
        n3,
        ranks2,
        nil,
        i,
    ) by {
        lemma_children(n0, lab, root, nil, i);
        if i != w && i != near {
            assert(level_ok(n0, ranks, nil, i));
            let n = n0[i as int];
            assert(n.left != near && n.left != w && n.right != near && n.right != w);
        }
    }
    assert forall|i: usize| dom.contains(i) implies #[trigger] red_ok(n3, nil, i) by {
        lemma_children(n0, lab, root, nil, i);
        assert(red_ok(n0, nil, i));
        let n = n0[i as int];
        if i != w && i != near && i != xp {
            assert(n.left != w && n.right != w);
            if n.left != nil {
                assert(dom.contains(n.left));
            }
            if n.right != nil {
                assert(dom.contains(n.right));
            }
        }
    }
    assert(other_child(n3[xp as int], x) == near);
    assert(dom.contains(root));
}

/// What the last case of the repair after a removal starts from: a black
/// sibling `w` with a red far child; `w` took the colour of the parent
/// `xp`, `xp` and the far child turned black, then a rotation at `xp`.
pub(super) open spec fn shrink_finish_pre(
    n0: Seq<Node>,
    n4: Seq<Node>,
    lab: Labels,
    ranks: Ranks,
    root: usize,
    root4: usize,
    nil: usize,
    x: usize,
    xp: usize,
    leftward: bool,
) -> bool {
    let w = lifted(n0[xp as int], leftward);
    let far = lifted(n0[w as int], leftward);
    &&& shrink_round(n0, lab, ranks, root, nil, x, xp, leftward)
    &&& n0[w as int].color == Color::Black
    &&& !black_at(n0, nil, far)
    &&& turned(
        n0.update(w as int, tinted(n0[w as int], n0[xp as int].color)).update(
            xp as int,
            tinted(n0[xp as int], Color::Black),
        ).update(far as int, tinted(n0[far as int], Color::Black)),
        n4,
        root,
        root4,
        nil,
        xp,
        leftward,
    )
}

/// The links and colours around the node in hand after the last case of
/// the repair after a removal.
#[verifier::spinoff_prover]
#[verifier::rlimit(60)]
pub(super) proof fn lemma_shrink_finish_shape(
    n0: Seq<Node>,
    n4: Seq<Node>,
    lab: Labels,
    ranks: Ranks,
    root: usize,
    root4: usize,
    nil: usize,
    x: usize,
    xp: usize,
    leftward: bool,
)
    requires
        shrink_finish_pre(n0, n4, lab, ranks, root, root4, nil, x, xp, leftward),
    ensures
        ({
            let w = lifted(n0[xp as int], leftward);
            let near = handed(n0[w as int], leftward);
            let far = lifted(n0[w as int], leftward);
            let gp = n0[xp as int].parent;
            &&& far != nil && lab.dom().contains(far)
            &&& n4[xp as int].color == Color::Black
            &&& handed(n4[xp as int], leftward) == x
            &&& lifted(n4[xp as int], leftward) == near
            &&& n4[w as int].color == n0[xp as int].color
            &&& handed(n4[w as int], leftward) == xp
            &&& lifted(n4[w as int], leftward) == far
            &&& n4[far as int].color == Color::Black
            &&& n4[far as int].left == n0[far as int].left
            &&& n4[far as int].right == n0[far as int].right
            &&& (gp != nil ==> n4[gp as int].color == n0[gp as int].color && (if n0[gp as int].left
                == xp {
                n4[gp as int].left == w && n4[gp as int].right == n0[gp as int].right
            } else {
                n4[gp as int].right == w && n4[gp as int].left == n0[gp as int].left
            }))
            &&& root4 == (if gp == nil {
                w
            } else {
                root
            })
            &&& (forall|i: usize|
                #[trigger] lab.dom().contains(i) ==> (i == w || i == xp || i == far
                    || n4[i as int].color == n0[i as int].color))
            &&& (forall|i: usize|
                #[trigger] lab.dom().contains(i) && i != xp && i != w && i != gp
                    ==> n4[i as int].left == n0[i as int].left && n4[i as int].right
                    == n0[i as int].right)
        }),
{
    let w = lifted(n0[xp as int], leftward);
    let far = lifted(n0[w as int], leftward);
    let n1 = n0.update(w as int, tinted(n0[w as int], n0[xp as int].color));
    let n2 = n1.update(xp as int, tinted(n0[xp as int], Color::Black));
    let n3 = n2.update(far as int, tinted(n0[far as int], Color::Black));
    lemma_shrink_family(n0, lab, ranks, root, nil, x, xp, leftward);
    lemma_children(n0, lab, root, nil, far);
    assert(n3[xp as int] == tinted(n0[xp as int], Color::Black));
    assert(n3[w as int] == tinted(n0[w as int], n0[xp as int].color));
    assert(n3[far as int] == tinted(n0[far as int], Color::Black));
    assert forall|i: int| 0 <= i < n0.len() implies same_but_color(#[trigger] n0[i], n3[i]) by {}
    lemma_recolor(n0, n3, lab, root, nil);
    lemma_turned_facts(n3, n4, lab, root, root4, nil, xp, leftward);
    lemma_around(n3, lab, root, nil, xp, leftward);
    assert forall|i: usize|
        #[trigger] lab.dom().contains(i) implies (i == w || i == xp || i == far
        || n4[i as int].color == n0[i as int].color) by {
        assert(n4[i as int].color == n3[i as int].color);
    }
}

/// Repair after a removal, black sibling with a red far child: the
/// sibling takes the colour of the parent, parent and far child turn
/// black, and a rotation at the parent lifts the sibling. The rules hold
/// again.
#[verifier::spinoff_prover]
#[verifier::rlimit(60)]
pub(super) proof fn lemma_shrink_finish(
    n0: Seq<Node>,
    n4: Seq<Node>,
    lab: Labels,
    ranks: Ranks,
    root: usize,
    root4: usize,
    nil: usize,
    x: usize,
    xp: usize,
    leftward: bool,
)
    requires
        shrink_finish_pre(n0, n4, lab, ranks, root, root4, nil, x, xp, leftward),
    ensures
        ({
            let w = lifted(n0[xp as int], leftward);
            let far = lifted(n0[w as int], leftward);
            let ranks2 = ranks.insert(w, ranks[xp]).insert(
                xp,
                rank_of(ranks, nil, x) + 1,
            ).insert(far, ranks[far] + 1);
            painted(n4, lab.dom(), ranks2, root4, nil)
        }),
{
    let dom = lab.dom();
    let w = lifted(n0[xp as int], leftward);
    let near = handed(n0[w as int], leftward);
    let far = lifted(n0[w as int], leftward);
    let gp = n0[xp as int].parent;
    let ranks2 = ranks.insert(w, ranks[xp]).insert(xp, rank_of(ranks, nil, x) + 1).insert(
        far,
        ranks[far] + 1,
    );
    lemma_shrink_family(n0, lab, ranks, root, nil, x, xp, leftward);
    lemma_shrink_finish_shape(n0, n4, lab, ranks, root, root4, nil, x, xp, leftward);
    lemma_children(n0, lab, root, nil, far);
    assert(level_ok(n0, ranks, nil, far));
    assert(red_ok(n0, nil, far));
    if gp != nil {
        assert(level_ok(n0, ranks, nil, gp));
        assert(red_ok(n0, nil, gp));
    }
    assert forall|i: usize| dom.contains(i) implies #[trigger] paint_ok(n4, ranks2, nil, i) by {
        lemma_children(n0, lab, root, nil, i);
        assert(red_ok(n0, nil, i));
        let n = n0[i as int];
        if i == xp {
            if near != nil {
                assert(dom.contains(near));
            }
            if x != nil {
                assert(dom.contains(x));
            }
        } else if i == w {
        } else if i == far {
            if n.left != nil {
                assert(dom.contains(n.left));
            }
            if n.right != nil {
                assert(dom.contains(n.right));
            }
        } else if i == gp {
            let o = other_child(n0[gp as int], xp);
            if o != nil {
                lemma_children(n0, lab, root, nil, o);
                assert(dom.contains(o));
            }
        } else {
            assert(level_ok(n0, ranks, nil, i));
            assert(n.left != xp && n.left != w && n.right != xp && n.right != w);
            assert(n.left != far && n.right != far);
            if n.left != nil {
                assert(dom.contains(n.left));
            }
            if n.right != nil {
                assert(dom.contains(n.right));
            }
        }
    }
    if gp != nil {
        assert(dom.contains(root));
        assert(root != far) by {
            lemma_children(n0, lab, root, nil, root);
        }
    }
}

/// Before the successor `s` takes the place of `z`, the links around `z`
/// are as the replacement needs them.
#[verifier::spinoff_prover]
#[verifier::rlimit(60)]
pub(super) proof fn lemma_splice_kin(
    n2: Seq<Node>,
    n3: Seq<Node>,
    lab: Labels,
    root: usize,
    root3: usize,
    nil: usize,
    z: usize,
    s: usize,
    n: int,
    pos: int,
    w: i64,
)
    requires
        z != nil,
        walk_state(n2, lab, root, nil, z, false, n, pos, w, lab[z]),
        !lab.dom().contains(s),
        s < nil,
        n2[z as int].left != nil,
        n2[z as int].count >= 1,
        spliced(n2, n3, root, root3, nil, z, s),
    ensures
        rename_pre(n2, n3, lab.dom(), root, root3, nil, z, s),
{
    let dom = lab.dom();
    let zn = n2[z as int];
    let la = lab.insert(z, lab[z]);
    assert(la =~= lab);
    lemma_walk_kin(n2, lab, root, nil, z, false, n, pos, w, lab[z]);
    let zl = zn.left;
    let zr = zn.right;
    let p = zn.parent;
    assert(node_ok(n2, la, root, nil, zl));
    let due = joined(n2, lab, nil, z);
    assert(due.len() == label_of(lab, nil, zl).len() + zn.count + label_of(lab, nil, zr).len());
    assert(due.len() + n == lab[z].len());
    if zr != nil {
        assert(node_ok(n2, la, root, nil, zr));
        if zl == zr {
            assert(lab[zl].len() >= 1) by {
                let c = n2[zl as int];
                assert(lab[zl] == label_of(lab, nil, c.left) + rep(c.value, c.count) + label_of(
                    lab,
                    nil,
                    c.right,
                ));
            }
            assert(lab[zl][0] < zn.value && lab[zl][0] > zn.value);
        }
    }
    if p != nil {
        assert(node_ok(n2, la, root, nil, p));
        let pn = n2[p as int];
        assert(lab[p] == label_of(lab, nil, pn.left) + rep(pn.value, pn.count) + label_of(
            lab,
            nil,
            pn.right,
        ));
        assert(lab[p].len() > lab[z].len());
        if pn.left == pn.right {
            assert(lab[z].len() >= 1);
            assert(lab[z][0] < pn.value && lab[z][0] > pn.value);
        }
        assert(p != zl) by {
            if p == zl {
                assert(lab[zl].len() < due.len());
            }
        }
        assert(p != zr || zr == nil) by {
            if p == zr && zr != nil {
                assert(lab[zr].len() < due.len());
            }
        }
        assert(root != z) by {
            if root == z {
                assert(n2[root as int].parent == nil);
            }
        }
    }
    assert forall|i: usize|
        dom.contains(i) && (#[trigger] n2[i as int].left == z || n2[i as int].right
            == z) implies i == p by {
        if i != z {
            assert(node_ok(n2, la, root, nil, i));
        }
    }
    assert forall|i: usize| dom.contains(i) && (#[trigger] n2[i as int].parent == z) implies i
        == zl || i == zr by {
        if i != z {
            assert(node_ok(n2, la, root, nil, i));
        }
    }
}

/// Removing a node `z` with two children from a tree that obeys the
/// red-black rules, by way of its successor `s`: `s` is cut out below `z`
/// and then takes the place and the colour of `z`. A red `s` leaves the
/// rules intact; a black `s` leaves the paths through its former right
/// child one black node short.
#[verifier::spinoff_prover]
#[verifier::rlimit(60)]
pub(super) proof fn lemma_shrink_splice(
    n0: Seq<Node>,
    n1: Seq<Node>,
    n2: Seq<Node>,
    n3: Seq<Node>,
    lab0: Labels,
    lab2: Labels,
    ranks: Ranks,
    root0: usize,
    root1: usize,
    root3: usize,
    nil: usize,
    z: usize,
    s: usize,
    n: int,
    pos: int,
    w: i64,
)
    requires
        tree_ok(n0, lab0, root0, nil),
        painted(n0, lab0.dom(), ranks, root0, nil),
        root0 != nil,
        z != nil,
        s != z,
        lab0.dom().contains(z),
        lab0.dom().contains(s),
        n0[s as int].left == nil,
        n0[s as int].right != z,
        transplanted(n0, n1, root0, root1, nil, s, n0[s as int].right),
        paint_kept(n2, n1),
        walk_state(n2, lab2, root1, nil, z, false, n, pos, w, lab2[z]),
        lab2.dom() == lab0.dom().remove(s),
        n2[z as int].left != nil,
        n2[z as int].count >= 1,
        spliced(n2, n3, root1, root3, nil, z, s),
    ensures
        ({
            let dom3 = lab0.dom().remove(z);
            let ranks3 = ranks.insert(s, ranks[z]);
            let x = n0[s as int].right;
            let xp = renamed(n0[s as int].parent, z, s);
            &&& n0[s as int].color == Color::Red ==> painted(n3, dom3, ranks3, root3, nil)
            &&& n0[s as int].color == Color::Black ==> shrink_pending(
                n3,
                dom3,
                ranks3,
                root3,
                nil,
                x,
                xp,
            )
        }),
{
    let dom1 = lab0.dom().remove(s);
    let x = n0[s as int].right;
    let sp = n0[s as int].parent;
    lemma_children(n0, lab0, root0, nil, s);
    lemma_children(n0, lab0, root0, nil, z);
    lemma_shrink_unlink(n0, n1, lab0, ranks, root0, root1, nil, s, x);
    lemma_walk_kin(n2, lab2, root1, nil, z, false, n, pos, w, lab2[z]);
    assert(root1 == nil || dom1.contains(root1)) by {
        assert(root_ok(n2, lab2.dom(), root1, nil));
    }
    if sp != nil {
        lemma_children(n0, lab0, root0, nil, sp);
    }
    assert forall|i: int| 0 <= i < n1.len() implies same_paint(#[trigger] n1[i], n2[i]) by {
        assert(same_paint(n2[i], n1[i]));
    }
    lemma_shrink_kept(n2, n1, dom1, ranks, root1, nil, x, sp);
    lemma_splice_kin(n2, n3, lab2, root1, root3, nil, z, s, n, pos, w);
    lemma_shrink_rename(n2, n3, dom1, ranks, root1, root3, nil, z, s, x, sp);
    assert(dom1.remove(z).insert(s) =~= lab0.dom().remove(z));
}

} // verus!
