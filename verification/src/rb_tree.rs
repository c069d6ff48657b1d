//! An order-statistics red-black tree over a fixed arena of nodes.
//!
//! Keys are `i64` values; a key may be stored several times. All nodes live
//! in an array sized at construction, and a free-list stack hands slots out
//! and takes them back, so nothing is allocated after `new`.

use crate::sorted::{
    all_gt, all_lt, lemma_absent_count, lemma_count_parts, lemma_parts_sorted, rep, sorted,
};
use vstd::prelude::*;

mod colors;
mod labels;

use colors::{
    Ranks, black_at, grow_pending, lemma_grow_family, lemma_grow_finish, lemma_grow_recolor,
    lemma_grow_settle, lemma_grow_start, lemma_grow_twist, lemma_paint_kept,
    lemma_rotated_turned, lemma_shrink_family, lemma_shrink_finish, lemma_shrink_kept,
    lemma_shrink_lift, lemma_shrink_prepare, lemma_shrink_settle, lemma_shrink_splice,
    lemma_shrink_turn, lemma_shrink_unlink, lemma_tree_kin, paint_kept, paint_ok, painted,
    rank_of, same_paint, shrink_pending, shrink_round, turned,
};
use labels::{
    edit_fits, edited, lemma_around, lemma_children, lemma_detached, lemma_link_leaf,
    lemma_recolor, lemma_recount, lemma_rotate, lemma_spine_tail, lemma_splice, lemma_unlink,
    lemma_walk_step, lemma_walk_sum, lifted_pos, own_pos, path_ok, path_rank, path_step,
    same_but_size, spine_ok, spine_step, spliced, tail_gt, transplanted, walk_state,
};

verus! {

/// Node colour used for balancing.
#[derive(Clone, Copy, Debug, PartialEq, Eq, Structural)]
enum Color {
    Red,
    Black,
}

/// One arena slot.
#[derive(Clone, Copy, Debug)]
struct Node {
    value: i64,
    count: usize,
    parent: usize,
    left: usize,
    right: usize,
    color: Color,
    subtree_count: usize,
}

/// Ghost labelling: for every node in the tree, the sorted run of keys
/// (duplicates repeated) stored in its subtree.
type Labels = Map<usize, Seq<i64>>;

/// The label of `i`, or the empty run for the sentinel.
spec fn label_of(labels: Labels, nil: usize, i: usize) -> Seq<i64> {
    if i == nil {
        Seq::empty()
    } else {
        labels[i]
    }
}

/// What the label of `i` must be, given the labels of its children.
spec fn joined(nodes: Seq<Node>, labels: Labels, nil: usize, i: usize) -> Seq<i64> {
    let n = nodes[i as int];
    label_of(labels, nil, n.left) + rep(n.value, n.count) + label_of(labels, nil, n.right)
}

/// Parent and child indices of `i` agree with its neighbours.
spec fn links_ok(
    nodes: Seq<Node>,
    dom: Set<usize>,
    root: usize,
    nil: usize,
    i: usize,
) -> bool {
    let n = nodes[i as int];
    &&& i < nil
    &&& n.count >= 1
    &&& (n.left == nil || (dom.contains(n.left) && nodes[n.left as int].parent == i))
    &&& (n.right == nil || (dom.contains(n.right) && nodes[n.right as int].parent == i))
    &&& (n.parent == nil ==> root == i)
    &&& (n.parent != nil ==> dom.contains(n.parent) && (nodes[n.parent as int].left == i
        || nodes[n.parent as int].right == i))
}

/// Search-tree order at `i`: left keys below, right keys above.
spec fn bounds_ok(nodes: Seq<Node>, labels: Labels, nil: usize, i: usize) -> bool {
    let n = nodes[i as int];
    &&& all_lt(label_of(labels, nil, n.left), n.value)
    &&& all_gt(label_of(labels, nil, n.right), n.value)
}

/// The label and the stored subtree count of `i` are up to date.
spec fn label_ok(nodes: Seq<Node>, labels: Labels, nil: usize, i: usize) -> bool {
    &&& labels[i] == joined(nodes, labels, nil, i)
    &&& nodes[i as int].subtree_count == labels[i].len()
    &&& sorted(labels[i])
}

/// Everything that must hold of a node in a consistent tree.
spec fn node_ok(
    nodes: Seq<Node>,
    labels: Labels,
    root: usize,
    nil: usize,
    i: usize,
) -> bool {
    &&& links_ok(nodes, labels.dom(), root, nil, i)
    &&& bounds_ok(nodes, labels, nil, i)
    &&& label_ok(nodes, labels, nil, i)
}

/// The root is the sentinel or a parentless node.
spec fn root_ok(nodes: Seq<Node>, dom: Set<usize>, root: usize, nil: usize) -> bool {
    root == nil || (dom.contains(root) && nodes[root as int].parent == nil)
}

/// Every node index is a slot of the arena.
spec fn dom_ok(dom: Set<usize>, nil: usize) -> bool {
    forall|i: usize| #[trigger] dom.contains(i) ==> i < nil
}

/// All nodes of the tree are consistent.
spec fn tree_ok(nodes: Seq<Node>, labels: Labels, root: usize, nil: usize) -> bool {
    &&& nodes.len() == nil
    &&& dom_ok(labels.dom(), nil)
    &&& root_ok(nodes, labels.dom(), root, nil)
    &&& forall|i: usize|
        labels.dom().contains(i) ==> #[trigger] node_ok(nodes, labels, root, nil, i)
}

/// The label of a node `n` whose child on the rotation side is replaced by
/// `inner`: `left + run + inner` when rotating left, `inner + run + right`
/// when rotating right.
spec fn joined_with(
    labels: Labels,
    nil: usize,
    n: Node,
    left: usize,
    right: usize,
    inner: usize,
    leftward: bool,
) -> Seq<i64> {
    if leftward {
        label_of(labels, nil, left) + rep(n.value, n.count) + label_of(labels, nil, inner)
    } else {
        label_of(labels, nil, inner) + rep(n.value, n.count) + label_of(labels, nil, right)
    }
}

/// Child of `n` on the side that a rotation lifts: the right child when
/// rotating left, the left child when rotating right.
spec fn lifted(n: Node, leftward: bool) -> usize {
    if leftward {
        n.right
    } else {
        n.left
    }
}

/// Child of `n` on the side that a rotation hands over to the lowered node.
spec fn handed(n: Node, leftward: bool) -> usize {
    if leftward {
        n.left
    } else {
        n.right
    }
}

/// `nn` is `on` after rotating at `x`: `y`, the lifted child of `x`, takes
/// the place of `x`, `x` becomes the child of `y` on the other side and
/// adopts the inner child of `y`.
spec fn rotated(
    on: Seq<Node>,
    nn: Seq<Node>,
    lab: Labels,
    lab2: Labels,
    root: usize,
    root2: usize,
    nil: usize,
    x: usize,
    leftward: bool,
) -> bool {
    let xn = on[x as int];
    let y = lifted(xn, leftward);
    let yn = on[y as int];
    let inner = handed(yn, leftward);
    let xp = xn.parent;
    let new_x = joined_with(lab, nil, xn, xn.left, xn.right, inner, leftward);
    &&& nn.len() == on.len()
    &&& forall|i: int|
        0 <= i < on.len() && i != x && i != y && i != inner && i != xp ==> #[trigger] nn[i]
            == on[i]
    &&& nn[x as int] == if leftward {
        Node { right: inner, parent: y, subtree_count: new_x.len() as usize, ..xn }
    } else {
        Node { left: inner, parent: y, subtree_count: new_x.len() as usize, ..xn }
    }
    &&& nn[y as int] == if leftward {
        Node { left: x, parent: xp, subtree_count: lab[x].len() as usize, ..yn }
    } else {
        Node { right: x, parent: xp, subtree_count: lab[x].len() as usize, ..yn }
    }
    &&& inner != nil ==> nn[inner as int] == Node { parent: x, ..on[inner as int] }
    &&& xp != nil ==> nn[xp as int] == if on[xp as int].left == x {
        Node { left: y, ..on[xp as int] }
    } else {
        Node { right: y, ..on[xp as int] }
    }
    &&& root2 == if xp == nil {
        y
    } else {
        root
    }
    &&& lab2 == lab.insert(x, new_x).insert(y, lab[x])
}

/// A red-black tree with duplicate counts and subtree sizes, stored in a
/// fixed arena.
pub struct RbTree {
    nodes: Vec<Node>,
    free_list: Vec<usize>,
    free_top: usize,
    len: usize,
    total_count: usize,
    capacity: usize,
    root: usize,
    nil: usize,
    labels: Ghost<Labels>,
    keys: Ghost<Set<i64>>,
    ranks: Ghost<Ranks>,
}

impl RbTree {
    /// The stored keys in ascending order, duplicates repeated.
    pub closed spec fn view(&self) -> Seq<i64> {
        label_of(self.labels@, self.nil, self.root)
    }

    /// The arena size fixed at construction.
    pub closed spec fn cap(&self) -> nat {
        self.capacity as nat
    }

    /// Number of arena slots on the free list.
    pub closed spec fn free_slots(&self) -> nat {
        self.free_top as nat
    }

    /// Number of arena slots holding a node.
    pub closed spec fn used_slots(&self) -> nat {
        self.len as nat
    }

    /// Sizes of the arena and of its free list.
    spec fn arena_ok(&self) -> bool {
        &&& 0 < self.capacity <= usize::MAX / 2
        &&& self.nil == self.capacity
        &&& self.nodes@.len() == self.capacity
        &&& self.free_list@.len() == self.capacity
        &&& self.free_top <= self.capacity
        &&& forall|j: int|
            0 <= j < self.free_top ==> (#[trigger] self.free_list@[j]) < self.capacity
                && !self.labels@.dom().contains(self.free_list@[j])
        &&& forall|j: int, k: int|
            0 <= j < k < self.free_top ==> self.free_list@[j] != self.free_list@[k]
    }

    /// Arena and tree structure are consistent.
    spec fn inv(&self) -> bool {
        &&& self.arena_ok()
        &&& tree_ok(self.nodes@, self.labels@, self.root, self.nil)
    }

    /// Representation invariant.
    pub closed spec fn wf(&self) -> bool {
        &&& self.inv()
        &&& self.balanced()
        &&& self.len + self.free_top == self.capacity
        &&& self.total_count == self@.len()
        &&& self.keys@.finite()
        &&& self.keys@.len() == self.len
        &&& forall|x: i64| self.keys@.contains(x) <==> self@.contains(x)
    }

    /// Whether `i` is a node of the tree.
    pub closed spec fn has(&self, i: usize) -> bool {
        self.labels@.dom().contains(i)
    }

    /// The red-black rules hold: the root is black, no red node has a red
    /// child, and all paths from a node down to a missing child hold the
    /// same number of black nodes.
    pub closed spec fn balanced(&self) -> bool {
        painted(self.nodes@, self.labels@.dom(), self.ranks@, self.root, self.nil)
    }

    /// A well-formed tree is sorted, its sizes add up and it never holds
    /// more nodes than the arena has slots.
    pub proof fn lemma_wf(&self)
        requires
            self.wf(),
        ensures
            sorted(self@),
            self.used_slots() + self.free_slots() == self.cap(),
            self.used_slots() == self@.to_set().len(),
            self@.len() == 0 <==> self.used_slots() == 0,
    {
        if self.root != self.nil {
            assert(node_ok(self.nodes@, self.labels@, self.root, self.nil, self.root));
        }
        assert(self.keys@ =~= self@.to_set());
        if self@.len() == 0 {
            assert(self.keys@ =~= Set::<i64>::empty());
        } else {
            assert(self@.contains(self@[0]));
            assert(self.keys@.contains(self@[0]));
            if self.keys@.len() == 0 {
                self.keys@.lemma_len0_is_empty();
            }
        }
    }

    /// Sorting the stored keys from scratch gives the view: a sorted
    /// sequence with the same keys is the view itself, so the key of rank
    /// `k` is the `k`-th smallest key.
    pub proof fn lemma_view_is_sorted_keys(&self, s: Seq<i64>)
        requires
            self.wf(),
            sorted(s),
            s.to_multiset() == self@.to_multiset(),
        ensures
            s == self@,
    {
        self.lemma_wf();
        crate::sorted::lemma_sorted_unique(s, self@);
    }

    /// Once every key is removed again, every arena slot is back on the
    /// free list.
    pub proof fn lemma_empty_is_free(&self)
        requires
            self.wf(),
            self@.len() == 0,
        ensures
            self.used_slots() == 0,
            self.free_slots() == self.cap(),
    {
        self.lemma_wf();
    }

    /// Whether slot `i` holds a red node.
    pub closed spec fn is_red_at(&self, i: usize) -> bool {
        self.has(i) && self.nodes@[i as int].color == Color::Red
    }

    /// The left child of the node in slot `i`, if it has one.
    pub closed spec fn left_of(&self, i: usize) -> Option<usize> {
        if self.nodes@[i as int].left == self.nil {
            None
        } else {
            Some(self.nodes@[i as int].left)
        }
    }

    /// The right child of the node in slot `i`, if it has one.
    pub closed spec fn right_of(&self, i: usize) -> Option<usize> {
        if self.nodes@[i as int].right == self.nil {
            None
        } else {
            Some(self.nodes@[i as int].right)
        }
    }

    /// The root slot, if the tree is not empty.
    pub closed spec fn root_slot(&self) -> Option<usize> {
        if self.root == self.nil {
            None
        } else {
            Some(self.root)
        }
    }

    /// The number of black nodes on every path from the node in slot `i`
    /// down to a missing child, the node itself included; zero for a
    /// missing child.
    pub closed spec fn black_height(&self, i: Option<usize>) -> nat {
        match i {
            Some(j) => self.ranks@[j],
            None => 0,
        }
    }

    /// A well-formed tree obeys the red-black rules: the root is black, a
    /// red node has no red child, and the two children of a node have the
    /// same black height, which the node passes on, raised by one if it is
    /// black.
    pub proof fn lemma_red_black(&self, i: usize)
        requires
            self.wf(),
            self.has(i),
        ensures
            self.root_slot().is_some() ==> !self.is_red_at(self.root_slot().unwrap()),
            self.left_of(i).is_some() ==> self.has(self.left_of(i).unwrap()),
            self.right_of(i).is_some() ==> self.has(self.right_of(i).unwrap()),
            self.is_red_at(i) && self.left_of(i).is_some() ==> !self.is_red_at(
                self.left_of(i).unwrap(),
            ),
            self.is_red_at(i) && self.right_of(i).is_some() ==> !self.is_red_at(
                self.right_of(i).unwrap(),
            ),
            self.black_height(self.left_of(i)) == self.black_height(self.right_of(i)),
            self.black_height(Some(i)) == self.black_height(self.left_of(i)) + if self.is_red_at(
                i,
            ) {
                0nat
            } else {
                1nat
            },
    {
        self.lemma_node(i);
        lemma_children(self.nodes@, self.labels@, self.root, self.nil, i);
        assert(paint_ok(self.nodes@, self.ranks@, self.nil, i));
        if self.root != self.nil {
            self.lemma_node(self.root);
        }
    }

    /// Creates an empty tree whose arena has `capacity` slots.
    pub fn new(capacity: usize) -> (r: Self)
        requires
            0 < capacity <= usize::MAX / 2,
        ensures
            r.wf(),
            r@ == Seq::<i64>::empty(),
            r.cap() == capacity,
            r.free_slots() == capacity,
    {
        let mut nodes: Vec<Node> = Vec::with_capacity(capacity);
        let mut free_list: Vec<usize> = Vec::with_capacity(capacity);
        let mut i: usize = 0;
        while i < capacity
            invariant
                i <= capacity,
                nodes@.len() == i,
                free_list@.len() == i,
                forall|j: int| 0 <= j < i ==> free_list@[j] == j,
            decreases capacity - i,
        {
            nodes.push(
                Node {
                    value: 0,
                    count: 0,
                    parent: capacity,
                    left: capacity,
                    right: capacity,
                    color: Color::Black,
                    subtree_count: 0,
                },
            );
            free_list.push(i);
            i += 1;
        }
        let r = RbTree {
            nodes,
            free_list,
            free_top: capacity,
            len: 0,
            total_count: 0,
            capacity,
            root: capacity,
            nil: capacity,
            labels: Ghost(Map::empty()),
            keys: Ghost(Set::empty()),
            ranks: Ghost(Map::empty()),
        };
        assert(r@ =~= Seq::<i64>::empty());
        r
    }

    /// Number of distinct keys.
    pub fn len(&self) -> (r: usize)
        requires
            self.wf(),
        ensures
            r == self@.to_set().len(),
            r == self.used_slots(),
    {
        proof {
            self.lemma_wf();
        }
        self.len
    }

    /// Number of stored keys, duplicates included.
    pub fn total_count(&self) -> (r: usize)
        requires
            self.wf(),
        ensures
            r == self@.len(),
    {
        self.total_count
    }

    /// The arena size.
    pub fn capacity(&self) -> (r: usize)
        ensures
            r == self.cap(),
    {
        self.capacity
    }

    /// Whether the tree holds no key.
    pub fn is_empty(&self) -> (r: bool)
        requires
            self.wf(),
        ensures
            r == (self@.len() == 0),
    {
        proof {
            self.lemma_wf();
        }
        self.len == 0
    }

    /// Number of free arena slots.
    pub fn remaining_capacity(&self) -> (r: usize)
        requires
            self.wf(),
        ensures
            r == self.free_slots(),
            r == self.cap() - self@.to_set().len(),
    {
        proof {
            self.lemma_wf();
        }
        self.capacity - self.len
    }

    fn get_subtree_count(&self, node_idx: usize) -> (r: usize)
        requires
            self.inv(),
            node_idx == self.nil || self.has(node_idx),
        ensures
            r == label_of(self.labels@, self.nil, node_idx).len(),
    {
        if node_idx == self.nil {
            0
        } else {
            proof {
                assert(node_ok(self.nodes@, self.labels@, self.root, self.nil, node_idx));
            }
            self.nodes[node_idx].subtree_count
        }
    }

    /// Whether slot `i` holds the node of the key `v`.
    pub closed spec fn holds_at(&self, i: usize, v: i64) -> bool {
        self.has(i) && self.nodes@[i as int].value == v
    }

    /// The duplicate count stored in slot `i`.
    pub closed spec fn count_at(&self, i: usize) -> nat {
        self.nodes@[i as int].count as nat
    }

    /// The arena slot of the node that holds `value`, if there is one.
    pub fn find_node(&self, value: i64) -> (r: Option<usize>)
        requires
            self.wf(),
        ensures
            r.is_some() == self@.contains(value),
            r.is_some() ==> r.unwrap() < self.cap() && self.has(r.unwrap()) && self.holds_at(
                r.unwrap(),
                value,
            ) && self.count_at(r.unwrap()) == self@.to_multiset().count(value),
    {
        let mut current = self.root;
        while current != self.nil
            invariant
                self.inv(),
                current == self.nil || self.has(current),
                self@.to_multiset().count(value) == label_of(
                    self.labels@,
                    self.nil,
                    current,
                ).to_multiset().count(value),
            decreases label_of(self.labels@, self.nil, current).len(),
        {
            let node = self.nodes[current];
            proof {
                assert(node_ok(self.nodes@, self.labels@, self.root, self.nil, current));
                let l = label_of(self.labels@, self.nil, node.left);
                let r = label_of(self.labels@, self.nil, node.right);
                lemma_count_parts(l, node.value, node.count, r, value);
                lemma_absent_count(l, value);
                lemma_absent_count(r, value);
                lemma_absent_count(self@, value);
                if value <= node.value {
                    assert(!r.contains(value)) by {
                        if r.contains(value) {
                            let j = choose|j: int| 0 <= j < r.len() && r[j] == value;
                            assert(r[j] > node.value);
                        }
                    }
                }
                if value >= node.value {
                    assert(!l.contains(value)) by {
                        if l.contains(value) {
                            let j = choose|j: int| 0 <= j < l.len() && l[j] == value;
                            assert(l[j] < node.value);
                        }
                    }
                }
            }
            if value == node.value {
                return Some(current);
            } else if value < node.value {
                current = node.left;
            } else {
                current = node.right;
            }
        }
        proof {
            lemma_absent_count(self@, value);
            lemma_absent_count(Seq::<i64>::empty(), value);
        }
        None
    }

    /// Facts about a node of a consistent tree.
    proof fn lemma_node(&self, i: usize)
        requires
            self.inv(),
            self.has(i),
        ensures
            node_ok(self.nodes@, self.labels@, self.root, self.nil, i),
            i < self.nodes@.len(),
            i != self.nil,
            self.labels@[i].len() >= 1,
            self.labels@[i].len() == label_of(
                self.labels@,
                self.nil,
                self.nodes@[i as int].left,
            ).len() + self.nodes@[i as int].count + label_of(
                self.labels@,
                self.nil,
                self.nodes@[i as int].right,
            ).len(),
    {
        assert(node_ok(self.nodes@, self.labels@, self.root, self.nil, i));
    }

    fn find_minimum(&self, node: usize) -> (r: (usize, Ghost<Seq<usize>>))
        requires
            self.inv(),
            self.has(node),
        ensures
            self.has(r.0),
            r.0 < self.nil,
            self.nodes@[r.0 as int].left == self.nil,
            self.labels@[node].len() > 0,
            self.nodes@[r.0 as int].value == self.labels@[node][0],
            spine_ok(self.nodes@, self.labels@, r.1@),
            r.1@[0] == node,
            r.1@.last() == r.0,
    {
        let mut cur = node;
        let ghost mut spine: Seq<usize> = seq![node];
        proof {
            self.lemma_node(node);
        }
        loop
            invariant
                self.inv(),
                self.has(cur),
                self.labels@[node].len() > 0,
                self.labels@[cur].len() > 0,
                self.labels@[cur][0] == self.labels@[node][0],
                spine_ok(self.nodes@, self.labels@, spine),
                spine[0] == node,
                spine.last() == cur,
            decreases self.labels@[cur].len(),
        {
            proof {
                self.lemma_node(cur);
                lemma_children(self.nodes@, self.labels@, self.root, self.nil, cur);
            }
            let left = self.nodes[cur].left;
            if left == self.nil {
                proof {
                    let n = self.nodes@[cur as int];
                    assert(self.labels@[cur][0] == rep(n.value, n.count)[0]);
                }
                return (cur, Ghost(spine));
            }
            proof {
                self.lemma_node(left);
                assert(self.labels@[cur][0] == self.labels@[left][0]);
                let sp2 = spine.push(left);
                let k = spine.len() as int;
                assert forall|j: int| 0 <= j < sp2.len() implies self.labels@.dom().contains(
                    #[trigger] sp2[j],
                ) by {
                    if j < k {
                        assert(sp2[j] == spine[j]);
                    }
                }
                assert forall|j: int| 0 < j < sp2.len() implies #[trigger] spine_step(
                    self.nodes@,
                    sp2,
                    j,
                ) by {
                    if j < k {
                        assert(spine_step(self.nodes@, spine, j));
                        assert(sp2[j] == spine[j] && sp2[j - 1] == spine[j - 1]);
                    }
                }
                assert forall|i: int, j: int| 0 <= i < j < sp2.len() implies #[trigger] path_rank(
                    self.labels@,
                    sp2,
                    i,
                ) > #[trigger] path_rank(self.labels@, sp2, j) by {
                    if j < k {
                        assert(path_rank(self.labels@, spine, i) > path_rank(
                            self.labels@,
                            spine,
                            j,
                        ));
                    } else if i < k - 1 {
                        assert(path_rank(self.labels@, spine, i) > path_rank(
                            self.labels@,
                            spine,
                            k - 1,
                        ));
                    } else {
                        assert(path_rank(self.labels@, spine, k - 1) == self.labels@[cur].len());
                    }
                }
                spine = sp2;
            }
            cur = left;
        }
    }

    fn find_maximum(&self, node: usize) -> (r: usize)
        requires
            self.inv(),
            self.has(node),
        ensures
            self.has(r),
            r < self.nil,
            self.nodes@[r as int].right == self.nil,
            self.labels@[node].len() > 0,
            self.nodes@[r as int].value == self.labels@[node].last(),
    {
        let mut cur = node;
        proof {
            self.lemma_node(node);
        }
        loop
            invariant
                self.inv(),
                self.has(cur),
                self.labels@[node].len() > 0,
                self.labels@[cur].len() > 0,
                self.labels@[cur].last() == self.labels@[node].last(),
            decreases self.labels@[cur].len(),
        {
            proof {
                self.lemma_node(cur);
            }
            let right = self.nodes[cur].right;
            if right == self.nil {
                proof {
                    let n = self.nodes@[cur as int];
                    assert(self.labels@[cur].last() == rep(n.value, n.count)[n.count - 1]);
                }
                return cur;
            }
            proof {
                self.lemma_node(right);
                assert(self.labels@[cur].last() == self.labels@[right].last());
            }
            cur = right;
        }
    }

    /// The smallest key, if any.
    pub fn min(&self) -> (r: Option<i64>)
        requires
            self.wf(),
        ensures
            self@.len() == 0 ==> r.is_none(),
            self@.len() > 0 ==> r == Some(self@[0]),
    {
        if self.root == self.nil {
            return None;
        }
        let (m, _spine) = self.find_minimum(self.root);
        Some(self.nodes[m].value)
    }

    /// The largest key, if any.
    pub fn max(&self) -> (r: Option<i64>)
        requires
            self.wf(),
        ensures
            self@.len() == 0 ==> r.is_none(),
            self@.len() > 0 ==> r == Some(self@.last()),
    {
        if self.root == self.nil {
            return None;
        }
        let m = self.find_maximum(self.root);
        Some(self.nodes[m].value)
    }

    /// How often the key in slot `node_idx` is stored.
    pub fn node_count(&self, node_idx: usize) -> (r: usize)
        requires
            self.wf(),
            self.has(node_idx),
        ensures
            r == self.count_at(node_idx),
            r >= 1,
    {
        proof {
            self.lemma_node(node_idx);
        }
        self.nodes[node_idx].count
    }

    /// The key of rank `k` (zero-based) in ascending order.
    pub fn find_kth_element(&self, k: usize) -> (r: Option<i64>)
        requires
            self.wf(),
        ensures
            k < self@.len() ==> r == Some(self@[k as int]),
            k >= self@.len() ==> r.is_none(),
    {
        if k >= self.total_count || self.root == self.nil {
            return None;
        }
        let mut current = self.root;
        let mut remaining_rank = k;
        let ghost mut off: int = 0;
        proof {
            assert(self.labels@[current] =~= self@.subrange(0, self@.len() as int));
        }
        loop
            invariant
                self.wf(),
                self.has(current),
                k < self@.len(),
                off + remaining_rank == k,
                0 <= off,
                off + self.labels@[current].len() <= self@.len(),
                remaining_rank < self.labels@[current].len(),
                self.labels@[current] == self@.subrange(
                    off,
                    off + self.labels@[current].len(),
                ),
            decreases self.labels@[current].len(),
        {
            proof {
                self.lemma_node(current);
            }
            let node = self.nodes[current];
            let left_count = self.get_subtree_count(node.left);
            let ghost l = label_of(self.labels@, self.nil, node.left);
            let ghost e = self.labels@[current];
            if remaining_rank < left_count {
                proof {
                    assert forall|j: int| 0 <= j < l.len() implies l[j] == self@[off + j] by {
                        assert(e[j] == l[j]);
                        assert(e[j] == self@.subrange(off, off + e.len())[j]);
                    }
                    assert(l =~= self@.subrange(off, off + l.len()));
                }
                current = node.left;
            } else if remaining_rank - left_count < node.count {
                proof {
                    assert(e[remaining_rank as int] == node.value);
                }
                return Some(node.value);
            } else {
                proof {
                    let r = label_of(self.labels@, self.nil, node.right);
                    let d = l.len() + node.count;
                    assert forall|j: int| 0 <= j < r.len() implies r[j] == self@[off + d + j] by {
                        assert(e[d + j] == r[j]);
                        assert(e[d + j] == self@.subrange(off, off + e.len())[d + j]);
                    }
                    assert(r =~= self@.subrange(off + d, off + d + r.len()));
                    off = off + d;
                }
                remaining_rank = remaining_rank - left_count - node.count;
                current = node.right;
            }
        }
    }

    /// Everything but the node array is the same in `self` and `o`.
    spec fn rest_eq(&self, o: &RbTree) -> bool {
        &&& self.free_list@ == o.free_list@
        &&& self.free_top == o.free_top
        &&& self.len == o.len
        &&& self.total_count == o.total_count
        &&& self.capacity == o.capacity
        &&& self.root == o.root
        &&& self.nil == o.nil
        &&& self.labels@ == o.labels@
        &&& self.keys@ == o.keys@
        &&& self.ranks@ == o.ranks@
        &&& self.nodes@.len() == o.nodes@.len()
    }

    /// The arena bookkeeping is the same in `self` and `o`; nodes, root and
    /// labels may differ.
    spec fn arena_eq(&self, o: &RbTree) -> bool {
        &&& self.free_list@ == o.free_list@
        &&& self.free_top == o.free_top
        &&& self.len == o.len
        &&& self.total_count == o.total_count
        &&& self.capacity == o.capacity
        &&& self.nil == o.nil
        &&& self.keys@ == o.keys@
        &&& self.nodes@.len() == o.nodes@.len()
        &&& self.labels@.dom() == o.labels@.dom()
    }

    /// Every slot holds the same key in `self` and `o`.
    spec fn values_eq(&self, o: &RbTree) -> bool {
        forall|i: int|
            0 <= i < self.nodes@.len() ==> (#[trigger] self.nodes@[i]).value == o.nodes@[i].value
    }

    fn set_left(&mut self, i: usize, v: usize)
        requires
            i < old(self).nodes@.len(),
        ensures
            final(self).rest_eq(old(self)),
            final(self).nodes@ == old(self).nodes@.update(
                i as int,
                (Node { left: v, ..old(self).nodes@[i as int] }),
            ),
    {
        let mut n = self.nodes[i];
        n.left = v;
        self.nodes.set(i, n);
    }

    fn set_right(&mut self, i: usize, v: usize)
        requires
            i < old(self).nodes@.len(),
        ensures
            final(self).rest_eq(old(self)),
            final(self).nodes@ == old(self).nodes@.update(
                i as int,
                (Node { right: v, ..old(self).nodes@[i as int] }),
            ),
    {
        let mut n = self.nodes[i];
        n.right = v;
        self.nodes.set(i, n);
    }

    fn set_parent(&mut self, i: usize, v: usize)
        requires
            i < old(self).nodes@.len(),
        ensures
            final(self).rest_eq(old(self)),
            final(self).nodes@ == old(self).nodes@.update(
                i as int,
                (Node { parent: v, ..old(self).nodes@[i as int] }),
            ),
    {
        let mut n = self.nodes[i];
        n.parent = v;
        self.nodes.set(i, n);
    }

    /// Stored subtree count of `i`, zero for the sentinel.
    spec fn raw_count(&self, i: usize) -> int {
        if i == self.nil {
            0
        } else {
            self.nodes@[i as int].subtree_count as int
        }
    }

    fn recalculate_subtree_count(&mut self, i: usize)
        requires
            old(self).nil == old(self).nodes@.len(),
            i == old(self).nil || i < old(self).nodes@.len(),
            i != old(self).nil ==> {
                let n = old(self).nodes@[i as int];
                &&& n.left <= old(self).nil
                &&& n.right <= old(self).nil
                &&& old(self).raw_count(n.left) + n.count + old(self).raw_count(n.right)
                    <= usize::MAX
            },
        ensures
            final(self).rest_eq(old(self)),
            i == old(self).nil ==> final(self).nodes@ == old(self).nodes@,
            i != old(self).nil ==> {
                let n = old(self).nodes@[i as int];
                final(self).nodes@ == old(self).nodes@.update(
                    i as int,
                    (Node {
                        subtree_count: (old(self).raw_count(n.left) + n.count + old(self).raw_count(n.right)) as usize,
                        ..n
                    }),
                )
            },
    {
        if i == self.nil {
            return ;
        }
        let mut n = self.nodes[i];
        let left_count = if n.left == self.nil {
            0
        } else {
            self.nodes[n.left].subtree_count
        };
        let right_count = if n.right == self.nil {
            0
        } else {
            self.nodes[n.right].subtree_count
        };
        n.subtree_count = n.count + left_count + right_count;
        self.nodes.set(i, n);
    }

    #[verifier::spinoff_prover]
    #[verifier::rlimit(40)]
    fn rotate_left(&mut self, x: usize)
        requires
            old(self).inv(),
            x == old(self).nil || old(self).has(x),
        ensures
            final(self).values_eq(old(self)),
            final(self).inv(),
            final(self).arena_eq(old(self)),
            final(self)@ == old(self)@,
            x != old(self).nil && lifted(old(self).nodes@[x as int], true) != old(self).nil
                ==> turned(
                old(self).nodes@,
                final(self).nodes@,
                old(self).root,
                final(self).root,
                old(self).nil,
                x,
                true,
            ),
            x == old(self).nil || lifted(old(self).nodes@[x as int], true) == old(self).nil
                ==> final(self).nodes@ == old(self).nodes@ && final(self).root == old(self).root
                && final(self).labels@ == old(self).labels@,
    {
        if x == self.nil {
            return ;
        }
        proof {
            self.lemma_node(x);
        }
        let y = self.nodes[x].right;
        if y == self.nil {
            return ;
        }
        proof {
            self.lemma_node(y);
        }
        let y_left = self.nodes[y].left;
        let x_parent = self.nodes[x].parent;
        let ghost lab = self.labels@;
        let ghost nil = self.nil;
        let ghost xn = self.nodes@[x as int];
        let ghost yn = self.nodes@[y as int];
        let ghost inner = label_of(lab, nil, y_left);
        let ghost new_x = joined_with(lab, nil, xn, xn.left, xn.right, y_left, true);
        proof {
            lemma_around(self.nodes@, lab, self.root, nil, x, true);
        }
        self.set_right(x, y_left);
        if y_left != self.nil {
            self.set_parent(y_left, x);
        }
        self.set_parent(y, x_parent);
        if x_parent == self.nil {
            self.root = y;
        } else if x == self.nodes[x_parent].left {
            self.set_left(x_parent, y);
        } else {
            self.set_right(x_parent, y);
        }
        self.set_left(y, x);
        self.set_parent(x, y);
        self.recalculate_subtree_count(x);
        self.recalculate_subtree_count(y);
        proof {
            let lab2 = lab.insert(x, new_x).insert(y, lab[x]);
            self.labels = Ghost(lab2);
            lemma_rotate(
                old(self).nodes@,
                self.nodes@,
                lab,
                lab2,
                old(self).root,
                self.root,
                nil,
                x,
                true,
            );
            lemma_rotated_turned(
                old(self).nodes@,
                self.nodes@,
                lab,
                lab2,
                old(self).root,
                self.root,
                nil,
                x,
                true,
            );
        }
    }

    #[verifier::spinoff_prover]
    #[verifier::rlimit(40)]
    fn rotate_right(&mut self, x: usize)
        requires
            old(self).inv(),
            x == old(self).nil || old(self).has(x),
        ensures
            final(self).values_eq(old(self)),
            final(self).inv(),
            final(self).arena_eq(old(self)),
            final(self)@ == old(self)@,
            x != old(self).nil && lifted(old(self).nodes@[x as int], false) != old(self).nil
                ==> turned(
                old(self).nodes@,
                final(self).nodes@,
                old(self).root,
                final(self).root,
                old(self).nil,
                x,
                false,
            ),
            x == old(self).nil || lifted(old(self).nodes@[x as int], false) == old(self).nil
                ==> final(self).nodes@ == old(self).nodes@ && final(self).root == old(self).root
                && final(self).labels@ == old(self).labels@,
    {
        if x == self.nil {
            return ;
        }
        proof {
            self.lemma_node(x);
        }
        let y = self.nodes[x].left;
        if y == self.nil {
            return ;
        }
        proof {
            self.lemma_node(y);
        }
        let y_right = self.nodes[y].right;
        let x_parent = self.nodes[x].parent;
        let ghost lab = self.labels@;
        let ghost nil = self.nil;
        let ghost xn = self.nodes@[x as int];
        let ghost yn = self.nodes@[y as int];
        let ghost inner = label_of(lab, nil, y_right);
        let ghost new_x = joined_with(lab, nil, xn, xn.left, xn.right, y_right, false);
        proof {
            lemma_around(self.nodes@, lab, self.root, nil, x, false);
        }
        self.set_left(x, y_right);
        if y_right != self.nil {
            self.set_parent(y_right, x);
        }
        self.set_parent(y, x_parent);
        if x_parent == self.nil {
            self.root = y;
        } else if x == self.nodes[x_parent].left {
            self.set_left(x_parent, y);
        } else {
            self.set_right(x_parent, y);
        }
        self.set_right(y, x);
        self.set_parent(x, y);
        self.recalculate_subtree_count(x);
        self.recalculate_subtree_count(y);
        proof {
            let lab2 = lab.insert(x, new_x).insert(y, lab[x]);
            self.labels = Ghost(lab2);
            lemma_rotate(
                old(self).nodes@,
                self.nodes@,
                lab,
                lab2,
                old(self).root,
                self.root,
                nil,
                x,
                false,
            );
            lemma_rotated_turned(
                old(self).nodes@,
                self.nodes@,
                lab,
                lab2,
                old(self).root,
                self.root,
                nil,
                x,
                false,
            );
        }
    }

    fn get_parent(&self, node: usize) -> (r: usize)
        requires
            self.inv(),
            node == self.nil || self.has(node),
        ensures
            r == self.nil || self.has(r),
            node == self.nil ==> r == self.nil,
            node != self.nil ==> r == self.nodes@[node as int].parent,
    {
        if node == self.nil {
            self.nil
        } else {
            proof {
                self.lemma_node(node);
            }
            self.nodes[node].parent
        }
    }

    fn get_left(&self, node: usize) -> (r: usize)
        requires
            self.inv(),
            node == self.nil || self.has(node),
        ensures
            r == self.nil || self.has(r),
            node == self.nil ==> r == self.nil,
            node != self.nil ==> r == self.nodes@[node as int].left,
    {
        if node == self.nil {
            self.nil
        } else {
            proof {
                self.lemma_node(node);
            }
            self.nodes[node].left
        }
    }

    fn get_right(&self, node: usize) -> (r: usize)
        requires
            self.inv(),
            node == self.nil || self.has(node),
        ensures
            r == self.nil || self.has(r),
            node == self.nil ==> r == self.nil,
            node != self.nil ==> r == self.nodes@[node as int].right,
    {
        if node == self.nil {
            self.nil
        } else {
            proof {
                self.lemma_node(node);
            }
            self.nodes[node].right
        }
    }

    /// Colour of `i`; the sentinel counts as black.
    spec fn color_of(&self, i: usize) -> Color {
        if i == self.nil {
            Color::Black
        } else {
            self.nodes@[i as int].color
        }
    }

    fn get_color(&self, node_idx: usize) -> (r: Color)
        requires
            self.inv(),
            node_idx == self.nil || self.has(node_idx),
        ensures
            r == self.color_of(node_idx),
    {
        if node_idx == self.nil {
            Color::Black
        } else {
            proof {
                self.lemma_node(node_idx);
            }
            self.nodes[node_idx].color
        }
    }

    fn set_color(&mut self, node_idx: usize, color: Color)
        requires
            old(self).inv(),
            node_idx == old(self).nil || old(self).has(node_idx),
        ensures
            final(self).values_eq(old(self)),
            final(self).inv(),
            final(self).rest_eq(old(self)),
            final(self)@ == old(self)@,
            node_idx == old(self).nil ==> final(self).nodes@ == old(self).nodes@,
            node_idx != old(self).nil ==> final(self).nodes@ == old(self).nodes@.update(
                node_idx as int,
                (Node { color, ..old(self).nodes@[node_idx as int] }),
            ),
    {
        if node_idx != self.nil {
            proof {
                self.lemma_node(node_idx);
            }
            let mut n = self.nodes[node_idx];
            n.color = color;
            self.nodes.set(node_idx, n);
            proof {
                lemma_recolor(old(self).nodes@, self.nodes@, self.labels@, self.root, self.nil);
            }
        }
    }

    fn is_red(&self, node_idx: usize) -> (r: bool)
        requires
            self.inv(),
            node_idx == self.nil || self.has(node_idx),
        ensures
            r == (self.color_of(node_idx) == Color::Red),
            r ==> node_idx != self.nil,
    {
        self.get_color(node_idx) == Color::Red
    }

    fn is_black(&self, node_idx: usize) -> (r: bool)
        requires
            self.inv(),
            node_idx == self.nil || self.has(node_idx),
        ensures
            r == (self.color_of(node_idx) == Color::Black),
    {
        self.get_color(node_idx) == Color::Black
    }

    /// Walks the whole tree and tests the red-black rules on it: a black
    /// root, no red node with a red child, and the same number of black
    /// nodes on every way down. A well-formed tree always passes.
    pub fn verify_rb_invariants(&self) -> (r: bool)
        requires
            self.wf(),
        ensures
            r,
    {
        if self.root == self.nil {
            return true;
        }
        if !self.is_black(self.root) {
            return false;
        }
        self.verify_black_height(self.root).is_some()
    }

    /// Walks the subtree at `node` and counts the black nodes on the ways
    /// down from it, a missing child counting as one. The answer is `None`
    /// where a red node has a red child or two ways down differ; below a
    /// node of a balanced tree it is the black height of that node plus
    /// one.
    fn verify_black_height(&self, node: usize) -> (r: Option<usize>)
        requires
            self.inv(),
            self.balanced(),
            node == self.nil || self.has(node),
        ensures
            r == Some((rank_of(self.ranks@, self.nil, node) + 1) as usize),
            2 * rank_of(self.ranks@, self.nil, node) <= label_of(
                self.labels@,
                self.nil,
                node,
            ).len() + 1,
            label_of(self.labels@, self.nil, node).len() <= usize::MAX,
        decreases label_of(self.labels@, self.nil, node).len(),
    {
        if node == self.nil {
            return Some(1);
        }
        proof {
            self.lemma_node(node);
            lemma_children(self.nodes@, self.labels@, self.root, self.nil, node);
            assert(paint_ok(self.nodes@, self.ranks@, self.nil, node));
        }
        let left: usize = self.nodes[node].left;
        let right: usize = self.nodes[node].right;
        if self.is_red(node) {
            if !self.is_black(left) || !self.is_black(right) {
                return None;
            }
        }
        let left_height: usize = match self.verify_black_height(left) {
            Some(h) => h,
            None => {
                return None;
            },
        };
        let right_height: usize = match self.verify_black_height(right) {
            Some(h) => h,
            None => {
                return None;
            },
        };
        if left_height != right_height {
            return None;
        }
        if self.is_black(node) {
            Some(left_height + 1)
        } else {
            Some(left_height)
        }
    }

    fn allocate_node(&mut self) -> (r: Option<usize>)
        requires
            old(self).arena_ok(),
        ensures
            final(self).arena_ok(),
            final(self).nodes@ == old(self).nodes@,
            final(self).free_list@ == old(self).free_list@,
            final(self).len == old(self).len,
            final(self).total_count == old(self).total_count,
            final(self).capacity == old(self).capacity,
            final(self).root == old(self).root,
            final(self).nil == old(self).nil,
            final(self).labels@ == old(self).labels@,
            final(self).keys@ == old(self).keys@,
            final(self).ranks@ == old(self).ranks@,
            old(self).free_top == 0 ==> r.is_none() && final(self).free_top == 0,
            old(self).free_top > 0 ==> r == Some(
                old(self).free_list@[old(self).free_top - 1],
            ) && final(self).free_top == old(self).free_top - 1 && !old(self).has(r.unwrap())
                && r.unwrap() < old(self).nil,
    {
        if self.free_top == 0 {
            None
        } else {
            self.free_top -= 1;
            Some(self.free_list[self.free_top])
        }
    }

    fn deallocate_node(&mut self, node_idx: usize)
        requires
            old(self).free_top < old(self).capacity,
            old(self).capacity == old(self).free_list@.len(),
            node_idx < old(self).capacity,
        ensures
            final(self).ranks@ == old(self).ranks@,
            final(self).nodes@ == old(self).nodes@,
            final(self).free_list@ == old(self).free_list@.update(
                old(self).free_top as int,
                node_idx,
            ),
            final(self).free_top == old(self).free_top + 1,
            final(self).len == old(self).len,
            final(self).total_count == old(self).total_count,
            final(self).capacity == old(self).capacity,
            final(self).root == old(self).root,
            final(self).nil == old(self).nil,
            final(self).labels@ == old(self).labels@,
            final(self).keys@ == old(self).keys@,
    {
        self.free_list.set(self.free_top, node_idx);
        self.free_top += 1;
    }

    fn create_node(&mut self, idx: usize, value: i64, parent: usize)
        requires
            idx < old(self).nodes@.len(),
        ensures
            final(self).rest_eq(old(self)),
            final(self).nodes@ == old(self).nodes@.update(
                idx as int,
                (Node {
                    value,
                    count: 1,
                    parent,
                    left: old(self).nil,
                    right: old(self).nil,
                    color: Color::Red,
                    subtree_count: 1,
                }),
            ),
    {
        let node = Node {
            value,
            count: 1,
            parent,
            left: self.nil,
            right: self.nil,
            color: Color::Red,
            subtree_count: 1,
        };
        self.nodes.set(idx, node);
    }

    fn link_to_parent(&mut self, node_idx: usize, parent_idx: usize, value: i64)
        requires
            parent_idx == old(self).nil || parent_idx < old(self).nodes@.len(),
        ensures
            final(self).free_list@ == old(self).free_list@,
            final(self).free_top == old(self).free_top,
            final(self).len == old(self).len,
            final(self).total_count == old(self).total_count,
            final(self).capacity == old(self).capacity,
            final(self).nil == old(self).nil,
            final(self).labels@ == old(self).labels@,
            final(self).keys@ == old(self).keys@,
            final(self).ranks@ == old(self).ranks@,
            parent_idx == old(self).nil ==> final(self).root == node_idx && final(self).nodes@
                == old(self).nodes@,
            parent_idx != old(self).nil ==> final(self).root == old(self).root && final(self).nodes@ == old(self).nodes@.update(
                parent_idx as int,
                if value < old(self).nodes@[parent_idx as int].value {
                    Node { left: node_idx, ..old(self).nodes@[parent_idx as int] }
                } else {
                    Node { right: node_idx, ..old(self).nodes@[parent_idx as int] }
                },
            ),
    {
        if parent_idx == self.nil {
            self.root = node_idx;
        } else if value < self.nodes[parent_idx].value {
            self.set_left(parent_idx, node_idx);
        } else {
            self.set_right(parent_idx, node_idx);
        }
    }

    /// Searches for `value` from the root. Returns the node that holds it
    /// (the sentinel if none does), the last node visited before it, and the
    /// nodes visited, in order.
    fn descend(&self, value: i64) -> (r: (usize, usize, Ghost<Seq<usize>>))
        requires
            self.inv(),
            self@.len() < usize::MAX,
        ensures
            path_ok(self.nodes@, self.labels@, self.nil, r.2@, value),
            r.0 != self.nil ==> self.has(r.0) && self.nodes@[r.0 as int].value == value
                && self@.to_multiset().count(value) == self.nodes@[r.0 as int].count
                && self@.contains(value) && r.2@.len() > 0 && r.2@.last() == r.0,
            r.0 == self.nil ==> !self@.contains(value) && (r.1 == self.nil ==> self.root
                == self.nil && r.2@.len() == 0) && (r.1 != self.nil ==> self.has(r.1) && r.2@.len()
                > 0 && r.2@.last() == r.1 && ((value < self.nodes@[r.1 as int].value
                && self.nodes@[r.1 as int].left == self.nil) || (value > self.nodes@[r.1 as int].value
                && self.nodes@[r.1 as int].right == self.nil))),
    {
        let mut current = self.root;
        let mut parent = self.nil;
        let ghost mut path: Seq<usize> = Seq::empty();
        while current != self.nil
            invariant
                self.inv(),
                self@.len() < usize::MAX,
                current == self.nil || self.has(current),
                self@.to_multiset().count(value) == label_of(
                    self.labels@,
                    self.nil,
                    current,
                ).to_multiset().count(value),
                path_ok(self.nodes@, self.labels@, self.nil, path, value),
                path.len() == 0 ==> current == self.root && parent == self.nil,
                path.len() > 0 ==> parent == path.last() && self.has(parent) && ((value
                    < self.nodes@[parent as int].value && self.nodes@[parent as int].left
                    == current) || (value > self.nodes@[parent as int].value
                    && self.nodes@[parent as int].right == current)),
                current != self.nil ==> forall|j: int|
                    0 <= j < path.len() ==> #[trigger] path_rank(self.labels@, path, j)
                        > self.labels@[current].len(),
            decreases label_of(self.labels@, self.nil, current).len(),
        {
            proof {
                self.lemma_node(current);
                lemma_children(self.nodes@, self.labels@, self.root, self.nil, current);
            }
            let node = self.nodes[current];
            let ghost path2 = path.push(current);
            proof {
                let l = label_of(self.labels@, self.nil, node.left);
                let r = label_of(self.labels@, self.nil, node.right);
                lemma_count_parts(l, node.value, node.count, r, value);
                lemma_absent_count(l, value);
                lemma_absent_count(r, value);
                lemma_absent_count(self@, value);
                if value <= node.value {
                    assert(!r.contains(value)) by {
                        if r.contains(value) {
                            let j = choose|j: int| 0 <= j < r.len() && r[j] == value;
                            assert(r[j] > node.value);
                        }
                    }
                }
                if value >= node.value {
                    assert(!l.contains(value)) by {
                        if l.contains(value) {
                            let j = choose|j: int| 0 <= j < l.len() && l[j] == value;
                            assert(l[j] < node.value);
                        }
                    }
                }
                // the path extended by `current` is still a search path
                let k = path.len() as int;
                assert forall|j: int| 0 <= j < path2.len() implies self.labels@.dom().contains(
                    #[trigger] path2[j],
                ) by {
                    if j < k {
                        assert(path2[j] == path[j]);
                    }
                }
                assert forall|j: int| 0 < j < path2.len() implies #[trigger] path_step(
                    self.nodes@,
                    path2,
                    value,
                    j,
                ) by {
                    if j < k {
                        assert(path_step(self.nodes@, path, value, j));
                        assert(path2[j] == path[j] && path2[j - 1] == path[j - 1]);
                    } else {
                        assert(path2[j - 1] == parent);
                        lemma_children(self.nodes@, self.labels@, self.root, self.nil, parent);
                    }
                }
                assert forall|i: int, j: int| 0 <= i < j < path2.len() implies #[trigger] path_rank(
                    self.labels@,
                    path2,
                    i,
                ) > #[trigger] path_rank(self.labels@, path2, j) by {
                    if j < k {
                        assert(path_rank(self.labels@, path, i) > path_rank(self.labels@, path, j));
                    } else {
                        assert(path_rank(self.labels@, path, i) > self.labels@[current].len());
                    }
                }
                if k > 0 {
                    assert(path_rank(self.labels@, path2, 0) == path_rank(self.labels@, path, 0));
                }
                assert(path_ok(self.nodes@, self.labels@, self.nil, path2, value));
            }
            if value == node.value {
                return (current, parent, Ghost(path2));
            }
            parent = current;
            let next = if value < node.value {
                node.left
            } else {
                node.right
            };
            proof {
                if next != self.nil {
                    assert forall|j: int| 0 <= j < path2.len() implies #[trigger] path_rank(
                        self.labels@,
                        path2,
                        j,
                    ) > self.labels@[next].len() by {
                        if j < path.len() {
                            assert(path_rank(self.labels@, path, j) > self.labels@[current].len());
                        }
                    }
                }
                path = path2;
            }
            current = next;
        }
        proof {
            lemma_absent_count(self@, value);
            lemma_absent_count(Seq::<i64>::empty(), value);
        }
        (self.nil, parent, Ghost(path))
    }

    fn find_insertion_parent(&self, value: i64) -> (r: (usize, Ghost<Seq<usize>>))
        requires
            self.inv(),
            self@.len() < usize::MAX,
            !self@.contains(value),
        ensures
            path_ok(self.nodes@, self.labels@, self.nil, r.1@, value),
            r.0 == self.nil ==> self.root == self.nil && r.1@.len() == 0,
            r.0 != self.nil ==> self.has(r.0) && r.1@.len() > 0 && r.1@.last() == r.0 && ((value
                < self.nodes@[r.0 as int].value && self.nodes@[r.0 as int].left == self.nil) || (
            value > self.nodes@[r.0 as int].value && self.nodes@[r.0 as int].right == self.nil)),
    {
        let (_found, parent, path) = self.descend(value);
        (parent, path)
    }

    /// Refreshes labels and subtree counts from `node` up to the root.
    fn update_subtree_counts_to_root(
        &mut self,
        node: usize,
        Ghost(ins): Ghost<bool>,
        Ghost(n): Ghost<int>,
        Ghost(pos): Ghost<int>,
        Ghost(v): Ghost<i64>,
        Ghost(old_e): Ghost<Seq<i64>>,
        Ghost(path): Ghost<Seq<usize>>,
    ) -> (top: Ghost<int>)
        requires
            old(self).arena_ok(),
            node != old(self).nil,
            walk_state(
                old(self).nodes@,
                old(self).labels@,
                old(self).root,
                old(self).nil,
                node,
                ins,
                n,
                pos,
                v,
                old_e,
            ),
            ins ==> path.len() > 0 && path.last() == node && path_ok(
                old(self).nodes@,
                old(self).labels@.insert(node, old_e),
                old(self).nil,
                path,
                v,
            ),
        ensures
            final(self).values_eq(old(self)),
            paint_kept(final(self).nodes@, old(self).nodes@),
            final(self).ranks@ == old(self).ranks@,
            final(self).inv(),
            final(self).arena_eq(old(self)),
            final(self).root == old(self).root,
            final(self)@ == edited(
                ins,
                n,
                top@,
                v,
                label_of(old(self).labels@.insert(node, old_e), old(self).nil, old(self).root),
            ),
            edit_fits(
                ins,
                n,
                top@,
                v,
                label_of(old(self).labels@.insert(node, old_e), old(self).nil, old(self).root),
            ),
    {
        let mut cur = node;
        let ghost mut p = pos;
        let ghost mut oe = old_e;
        let ghost mut pth = path;
        let ghost top0 = label_of(self.labels@.insert(node, old_e), self.nil, self.root);
        while cur != self.nil
            invariant
                self.arena_ok(),
                self.arena_eq(old(self)),
                self.values_eq(old(self)),
                paint_kept(self.nodes@, old(self).nodes@),
                self.ranks@ == old(self).ranks@,
                self.root == old(self).root,
                walk_state(self.nodes@, self.labels@, self.root, self.nil, cur, ins, n, p, v, oe),
                cur != self.nil && ins ==> pth.len() > 0 && pth.last() == cur && path_ok(
                    self.nodes@,
                    self.labels@.insert(cur, oe),
                    self.nil,
                    pth,
                    v,
                ),
                cur != self.nil ==> label_of(self.labels@.insert(cur, oe), self.nil, self.root)
                    == top0 && oe.len() <= usize::MAX,
                cur == self.nil ==> self@ == edited(ins, n, p, v, top0) && edit_fits(ins, n, p, v, top0),
            decreases
                    (if cur == self.nil {
                        0
                    } else {
                        usize::MAX + 1 - oe.len()
                    }),
        {
            let ghost n1 = self.nodes@;
            let ghost lab1 = self.labels@;
            proof {
                lemma_walk_sum(n1, lab1, self.root, self.nil, cur, ins, n, p, v, oe);
            }
            self.recalculate_subtree_count(cur);
            let next = self.nodes[cur].parent;
            proof {
                let je = joined(n1, lab1, self.nil, cur);
                lemma_walk_step(n1, self.nodes@, lab1, self.root, self.nil, cur, ins, n, p, v, oe, pth);
                self.labels = Ghost(lab1.insert(cur, je));
                p = lifted_pos(n1, lab1, self.nil, cur, p);
                oe = label_of(lab1, self.nil, next);
                if ins && next != self.nil {
                    pth = pth.drop_last();
                }
            }
            cur = next;
        }
        Ghost(p)
    }

    fn increment_count(&mut self, node_idx: usize, Ghost(path): Ghost<Seq<usize>>)
        requires
            old(self).inv(),
            old(self).has(node_idx),
            old(self)@.len() < usize::MAX,
            old(self).total_count == old(self)@.len(),
            path.len() > 0,
            path.last() == node_idx,
            path_ok(
                old(self).nodes@,
                old(self).labels@,
                old(self).nil,
                path,
                old(self).nodes@[node_idx as int].value,
            ),
        ensures
            final(self)@.len() == old(self)@.len() + 1,
            paint_kept(final(self).nodes@, old(self).nodes@),
            final(self).ranks@ == old(self).ranks@,
            final(self).root == old(self).root,
            final(self).labels@.dom() == old(self).labels@.dom(),
            final(self).values_eq(old(self)),
            final(self).inv(),
            final(self).free_list@ == old(self).free_list@,
            final(self).free_top == old(self).free_top,
            final(self).len == old(self).len,
            final(self).capacity == old(self).capacity,
            final(self).keys@ == old(self).keys@,
            final(self).total_count == final(self)@.len(),
            final(self)@.to_multiset() == old(self)@.to_multiset().insert(
                old(self).nodes@[node_idx as int].value,
            ),
    {
        proof {
            self.lemma_node(node_idx);
            if path.len() > 1 {
                assert(path_rank(self.labels@, path, 0) > path_rank(
                    self.labels@,
                    path,
                    path.len() - 1,
                ));
            }
            assert(path_rank(self.labels@, path, path.len() - 1) < usize::MAX);
        }
        let ghost zn = self.nodes@[node_idx as int];
        let ghost lab = self.labels@;
        let mut n = self.nodes[node_idx];
        n.count = n.count + 1;
        self.nodes.set(node_idx, n);
        self.total_count += 1;
        proof {
            lemma_recount(old(self).nodes@, self.nodes@, lab, self.root, self.nil, node_idx, true);
            assert(lab.insert(node_idx, lab[node_idx]) =~= lab);
            assert forall|j: int| 0 < j < path.len() implies #[trigger] path_step(
                self.nodes@,
                path,
                zn.value,
                j,
            ) by {
                assert(path_step(old(self).nodes@, path, zn.value, j));
                assert(self.labels@.dom().contains(path[j]));
                assert(self.labels@.dom().contains(path[j - 1]));
            }
            assert(self.labels@.dom().contains(path[0]));
        }
        let top = self.update_subtree_counts_to_root(
            node_idx,
            Ghost(true),
            Ghost(1),
            Ghost(label_of(lab, self.nil, zn.left).len() as int),
            Ghost(zn.value),
            Ghost(lab[node_idx]),
            Ghost(path),
        );
        proof {
            broadcast use vstd::seq_lib::group_to_multiset_ensures;

            assert(self@.len() == old(self)@.len() + 1);
        }
    }

    fn decrement_count(&mut self, node_idx: usize)
        requires
            old(self).inv(),
            old(self).has(node_idx),
            old(self).nodes@[node_idx as int].count > 1,
            old(self).total_count == old(self)@.len(),
        ensures
            final(self)@.len() == old(self)@.len() - 1,
            paint_kept(final(self).nodes@, old(self).nodes@),
            final(self).ranks@ == old(self).ranks@,
            final(self).root == old(self).root,
            final(self).labels@.dom() == old(self).labels@.dom(),
            final(self).inv(),
            final(self).free_list@ == old(self).free_list@,
            final(self).free_top == old(self).free_top,
            final(self).len == old(self).len,
            final(self).capacity == old(self).capacity,
            final(self).keys@ == old(self).keys@,
            final(self).total_count == final(self)@.len(),
            final(self)@.to_multiset() == old(self)@.to_multiset().remove(
                old(self).nodes@[node_idx as int].value,
            ),
    {
        proof {
            self.lemma_node(node_idx);
        }
        let ghost zn = self.nodes@[node_idx as int];
        let ghost lab = self.labels@;
        let mut n = self.nodes[node_idx];
        n.count = n.count - 1;
        self.nodes.set(node_idx, n);
        proof {
            lemma_recount(old(self).nodes@, self.nodes@, lab, self.root, self.nil, node_idx, false);
            assert(lab.insert(node_idx, lab[node_idx]) =~= lab);
            if self.root != self.nil {
                lemma_children(old(self).nodes@, lab, self.root, self.nil, self.root);
            }
        }
        let top = self.update_subtree_counts_to_root(
            node_idx,
            Ghost(false),
            Ghost(1),
            Ghost(label_of(lab, self.nil, zn.left).len() as int),
            Ghost(zn.value),
            Ghost(lab[node_idx]),
            Ghost(Seq::empty()),
        );
        proof {
            broadcast use vstd::seq_lib::group_to_multiset_ensures;

            assert(self@ =~= old(self)@.remove(top@));
            assert(self@.len() == old(self)@.len() - 1);
        }
        self.total_count -= 1;
    }

    /// One round of repair for a red node whose red parent is the left
    /// child of the grandparent. Returns the node to go on with and whether
    /// the repair is over.
    fn fix_insertion_left(&mut self, node: usize, parent: usize, grandparent: usize) -> (r: (
        usize,
        bool,
    ))
        requires
            old(self).inv(),
            grow_pending(
                old(self).nodes@,
                old(self).labels@.dom(),
                old(self).ranks@,
                old(self).root,
                old(self).nil,
                node,
            ),
            node != old(self).root,
            parent == old(self).nodes@[node as int].parent,
            old(self).nodes@[parent as int].color == Color::Red,
            grandparent == old(self).nodes@[parent as int].parent,
            parent == old(self).nodes@[grandparent as int].left,
        ensures
            final(self).values_eq(old(self)),
            final(self).inv(),
            final(self).arena_eq(old(self)),
            final(self)@ == old(self)@,
            final(self).has(r.0),
            r.1 ==> final(self).balanced(),
            !r.1 ==> final(self).has(r.0) && final(self).labels@ == old(self).labels@
                && final(self).labels@[r.0].len() > final(self).labels@[node].len()
                && grow_pending(
                final(self).nodes@,
                final(self).labels@.dom(),
                final(self).ranks@,
                final(self).root,
                final(self).nil,
                r.0,
            ),
    {
        let ghost n0 = self.nodes@;
        let ghost lab0 = self.labels@;
        let ghost ranks0 = self.ranks@;
        proof {
            lemma_grow_family(n0, lab0, ranks0, self.root, self.nil, node);
        }
        let uncle = self.get_right(grandparent);
        if self.is_red(uncle) {
            self.set_color(parent, Color::Black);
            self.set_color(uncle, Color::Black);
            self.set_color(grandparent, Color::Red);
            proof {
                lemma_grow_recolor(n0, self.nodes@, lab0, ranks0, self.root, self.nil, node);
                self.ranks = Ghost(
                    ranks0.insert(parent, ranks0[parent] + 1).insert(uncle, ranks0[uncle] + 1),
                );
            }
            (grandparent, false)
        } else {
            let mut node = node;
            if node == self.get_right(parent) {
                node = parent;
                self.rotate_left(node);
                proof {
                    lemma_grow_twist(
                        n0,
                        self.nodes@,
                        lab0,
                        ranks0,
                        old(self).root,
                        self.root,
                        self.nil,
                        self.nodes@[parent as int].parent,
                        true,
                    );
                }
            }
            let ghost n1 = self.nodes@;
            let ghost lab1 = self.labels@;
            let ghost root1 = self.root;
            let updated_parent = self.get_parent(node);
            let updated_grandparent = self.get_parent(updated_parent);
            proof {
                lemma_grow_family(n1, lab1, ranks0, root1, self.nil, node);
            }
            self.set_color(updated_parent, Color::Black);
            self.set_color(updated_grandparent, Color::Red);
            self.rotate_right(updated_grandparent);
            proof {
                lemma_grow_finish(
                    n1,
                    self.nodes@,
                    lab1,
                    ranks0,
                    root1,
                    self.root,
                    self.nil,
                    node,
                    false,
                );
                self.ranks = Ghost(
                    ranks0.insert(updated_parent, ranks0[updated_parent] + 1).insert(
                        updated_grandparent,
                        ranks0[updated_parent],
                    ),
                );
            }
            (node, true)
        }
    }

    /// One round of repair for a red node whose red parent is the right
    /// child of the grandparent. Returns the node to go on with and whether
    /// the repair is over.
    fn fix_insertion_right(&mut self, node: usize, parent: usize, grandparent: usize) -> (r: (
        usize,
        bool,
    ))
        requires
            old(self).inv(),
            grow_pending(
                old(self).nodes@,
                old(self).labels@.dom(),
                old(self).ranks@,
                old(self).root,
                old(self).nil,
                node,
            ),
            node != old(self).root,
            parent == old(self).nodes@[node as int].parent,
            old(self).nodes@[parent as int].color == Color::Red,
            grandparent == old(self).nodes@[parent as int].parent,
            parent == old(self).nodes@[grandparent as int].right,
        ensures
            final(self).values_eq(old(self)),
            final(self).inv(),
            final(self).arena_eq(old(self)),
            final(self)@ == old(self)@,
            final(self).has(r.0),
            r.1 ==> final(self).balanced(),
            !r.1 ==> final(self).has(r.0) && final(self).labels@ == old(self).labels@
                && final(self).labels@[r.0].len() > final(self).labels@[node].len()
                && grow_pending(
                final(self).nodes@,
                final(self).labels@.dom(),
                final(self).ranks@,
                final(self).root,
                final(self).nil,
                r.0,
            ),
    {
        let ghost n0 = self.nodes@;
        let ghost lab0 = self.labels@;
        let ghost ranks0 = self.ranks@;
        proof {
            lemma_grow_family(n0, lab0, ranks0, self.root, self.nil, node);
        }
        let uncle = self.get_left(grandparent);
        if self.is_red(uncle) {
            self.set_color(parent, Color::Black);
            self.set_color(uncle, Color::Black);
            self.set_color(grandparent, Color::Red);
            proof {
                lemma_grow_recolor(n0, self.nodes@, lab0, ranks0, self.root, self.nil, node);
                self.ranks = Ghost(
                    ranks0.insert(parent, ranks0[parent] + 1).insert(uncle, ranks0[uncle] + 1),
                );
            }
            (grandparent, false)
        } else {
            let mut node = node;
            if node == self.get_left(parent) {
                node = parent;
                self.rotate_right(node);
                proof {
                    lemma_grow_twist(
                        n0,
                        self.nodes@,
                        lab0,
                        ranks0,
                        old(self).root,
                        self.root,
                        self.nil,
                        self.nodes@[parent as int].parent,
                        false,
                    );
                }
            }
            let ghost n1 = self.nodes@;
            let ghost lab1 = self.labels@;
            let ghost root1 = self.root;
            let updated_parent = self.get_parent(node);
            let updated_grandparent = self.get_parent(updated_parent);
            proof {
                lemma_grow_family(n1, lab1, ranks0, root1, self.nil, node);
            }
            self.set_color(updated_parent, Color::Black);
            self.set_color(updated_grandparent, Color::Red);
            self.rotate_left(updated_grandparent);
            proof {
                lemma_grow_finish(
                    n1,
                    self.nodes@,
                    lab1,
                    ranks0,
                    root1,
                    self.root,
                    self.nil,
                    node,
                    true,
                );
                self.ranks = Ghost(
                    ranks0.insert(updated_parent, ranks0[updated_parent] + 1).insert(
                        updated_grandparent,
                        ranks0[updated_parent],
                    ),
                );
            }
            (node, true)
        }
    }

    fn fix_insertion_violations(&mut self, node: usize)
        requires
            old(self).inv(),
            old(self).has(node),
            grow_pending(
                old(self).nodes@,
                old(self).labels@.dom(),
                old(self).ranks@,
                old(self).root,
                old(self).nil,
                node,
            ),
        ensures
            final(self).values_eq(old(self)),
            final(self).inv(),
            final(self).arena_eq(old(self)),
            final(self)@ == old(self)@,
            final(self).balanced(),
    {
        let mut node = node;
        while node != self.root && self.is_red(self.get_parent(node))
            invariant_except_break
                grow_pending(
                    self.nodes@,
                    self.labels@.dom(),
                    self.ranks@,
                    self.root,
                    self.nil,
                    node,
                ),
            invariant
                self.inv(),
                self.arena_eq(old(self)),
                self.values_eq(old(self)),
                self@ == old(self)@,
                self.has(node),
            ensures
                self.balanced() || (grow_pending(
                    self.nodes@,
                    self.labels@.dom(),
                    self.ranks@,
                    self.root,
                    self.nil,
                    node,
                ) && (node == self.root || self.nodes@[self.nodes@[node as int].parent as int].color
                    == Color::Black)),
            decreases usize::MAX + 1 - self.labels@[node].len(),
        {
            let parent = self.get_parent(node);
            let grandparent = self.get_parent(parent);
            proof {
                lemma_grow_family(
                    self.nodes@,
                    self.labels@,
                    self.ranks@,
                    self.root,
                    self.nil,
                    node,
                );
                self.lemma_node(node);
            }
            let (next, finished) = if parent == self.get_left(grandparent) {
                self.fix_insertion_left(node, parent, grandparent)
            } else {
                self.fix_insertion_right(node, parent, grandparent)
            };
            node = next;
            proof {
                self.lemma_node(node);
            }
            if finished {
                break ;
            }
        }
        let ghost n0 = self.nodes@;
        let ghost was_balanced = self.balanced();
        proof {
            if self.root != self.nil {
                self.lemma_node(self.root);
            }
            self.lemma_node(node);
        }
        self.set_color(self.root, Color::Black);
        proof {
            if was_balanced {
                assert(self.nodes@ =~= n0);
            } else {
                let ranks2 = lemma_grow_settle(
                    n0,
                    self.nodes@,
                    self.labels@,
                    self.ranks@,
                    self.root,
                    self.nil,
                    node,
                );
                self.ranks = Ghost(ranks2);
            }
        }
    }

    /// Adds one occurrence of `value`. Returns the arena slot that holds
    /// the key, or `None` when the key is new and no slot is free; the
    /// tree is then unchanged. A new key takes one slot, a key that is
    /// already held takes none, so the tree never holds more keys than
    /// the arena has slots.
    pub fn insert(&mut self, value: i64) -> (r: Option<usize>)
        requires
            old(self).wf(),
            old(self)@.len() < usize::MAX,
        ensures
            final(self).wf(),
            final(self).cap() == old(self).cap(),
            r.is_none() <==> !old(self)@.contains(value) && old(self).free_slots() == 0,
            r.is_none() ==> final(self)@ == old(self)@,
            r.is_some() ==> final(self)@.to_multiset() == old(self)@.to_multiset().insert(value),
            r.is_some() ==> final(self)@.len() == old(self)@.len() + 1,
            final(self).free_slots() == if r.is_some() && !old(self)@.contains(value) {
                (old(self).free_slots() - 1) as nat
            } else {
                old(self).free_slots()
            },
            r.is_none() <==> !old(self)@.contains(value) && old(self).used_slots() == old(self).cap(),
            final(self).used_slots() == if r.is_some() && !old(self)@.contains(value) {
                old(self).used_slots() + 1
            } else {
                old(self).used_slots()
            },
            final(self).used_slots() <= final(self).cap(),
            r.is_some() ==> r.unwrap() < final(self).cap(),
            r.is_some() ==> final(self).has(r.unwrap()) && final(self).holds_at(r.unwrap(), value),
    {
        let (found, _parent, path) = self.descend(value);
        if found != self.nil {
            proof {
                self.lemma_node(found);
            }
            self.increment_count(found, path);
            proof {
                lemma_paint_kept(
                    self.nodes@,
                    old(self).nodes@,
                    self.labels@,
                    self.ranks@,
                    self.root,
                    self.nil,
                    found,
                );
            }
            proof {
                broadcast use vstd::seq_lib::group_to_multiset_ensures;

                assert forall|x: i64| self.keys@.contains(x) <==> self@.contains(x) by {
                    lemma_absent_count(self@, x);
                    lemma_absent_count(old(self)@, x);
                }
            }
            return Some(found);
        }
        let new_idx = match self.allocate_node() {
            Some(i) => i,
            None => {
                return None;
            },
        };
        let (parent_idx, path) = self.find_insertion_parent(value);
        let ghost n0 = self.nodes@;
        let ghost lab0 = self.labels@;
        let ghost root0 = self.root;
        proof {
            if parent_idx != self.nil {
                self.lemma_node(parent_idx);
            }
        }
        self.create_node(new_idx, value, parent_idx);
        self.link_to_parent(new_idx, parent_idx, value);
        self.len += 1;
        self.total_count += 1;
        proof {
            let e = Seq::<i64>::empty();
            self.labels = Ghost(lab0.insert(new_idx, e));
            self.keys = Ghost(self.keys@.insert(value));
            lemma_grow_start(
                n0,
                self.nodes@,
                lab0,
                self.ranks@,
                root0,
                self.root,
                self.nil,
                new_idx,
                parent_idx,
            );
            self.ranks = Ghost(self.ranks@.insert(new_idx, 0));
            lemma_link_leaf(
                n0,
                self.nodes@,
                lab0,
                root0,
                self.root,
                self.nil,
                new_idx,
                parent_idx,
                value,
                path@,
            );
            assert(self.labels@.insert(new_idx, e) =~= self.labels@);
            assert(self.arena_ok());
        }
        let ghost before_walk = self.nodes@;
        let top = self.update_subtree_counts_to_root(
            new_idx,
            Ghost(true),
            Ghost(1),
            Ghost(0),
            Ghost(value),
            Ghost(Seq::empty()),
            Ghost(path@.push(new_idx)),
        );
        proof {
            lemma_paint_kept(
                self.nodes@,
                before_walk,
                self.labels@,
                self.ranks@,
                self.root,
                self.nil,
                new_idx,
            );
        }
        self.fix_insertion_violations(new_idx);
        proof {
            broadcast use vstd::seq_lib::group_to_multiset_ensures;

            assert(self@.to_multiset() == old(self)@.to_multiset().insert(value));
            assert forall|x: i64| self.keys@.contains(x) <==> self@.contains(x) by {
                lemma_absent_count(self@, x);
                lemma_absent_count(old(self)@, x);
            }
        }
        Some(new_idx)
    }

    fn transplant(&mut self, old_node: usize, new_node: usize)
        requires
            old(self).nil == old(self).nodes@.len(),
            old_node < old(self).nodes@.len(),
            old(self).nodes@[old_node as int].parent <= old(self).nil,
            new_node <= old(self).nil,
            new_node != old(self).nil ==> new_node != old(self).nodes@[old_node as int].parent,
        ensures
            final(self).ranks@ == old(self).ranks@,
            final(self).free_list@ == old(self).free_list@,
            final(self).free_top == old(self).free_top,
            final(self).len == old(self).len,
            final(self).total_count == old(self).total_count,
            final(self).capacity == old(self).capacity,
            final(self).nil == old(self).nil,
            final(self).labels@ == old(self).labels@,
            final(self).keys@ == old(self).keys@,
            transplanted(
                old(self).nodes@,
                final(self).nodes@,
                old(self).root,
                final(self).root,
                old(self).nil,
                old_node,
                new_node,
            ),
    {
        let parent = self.nodes[old_node].parent;
        if parent == self.nil {
            self.root = new_node;
        } else if old_node == self.nodes[parent].left {
            self.set_left(parent, new_node);
        } else {
            self.set_right(parent, new_node);
        }
        if new_node != self.nil {
            self.set_parent(new_node, parent);
        }
    }

    /// Refreshes labels and subtree counts from `from` up to, but not
    /// including, `stop`, while `n` copies of the key `w` are cut out.
    fn refresh_spine(
        &mut self,
        from: usize,
        stop: usize,
        Ghost(n): Ghost<int>,
        Ghost(pos0): Ghost<int>,
        Ghost(w): Ghost<i64>,
        Ghost(spine): Ghost<Seq<usize>>,
    ) -> (pos: Ghost<int>)
        requires
            old(self).arena_ok(),
            from != old(self).nil,
            stop != old(self).nil,
            old(self).has(stop),
            walk_state(
                old(self).nodes@,
                old(self).labels@,
                old(self).root,
                old(self).nil,
                from,
                false,
                n,
                pos0,
                w,
                old(self).labels@[from],
            ),
            tail_gt(joined(old(self).nodes@, old(self).labels@, old(self).nil, from), pos0, w),
            from != stop ==> pos0 == 0 && spine.len() >= 1 && spine.last() == from && spine_ok(
                old(self).nodes@,
                old(self).labels@,
                spine,
            ) && old(self).nodes@[spine[0] as int].parent == stop
                && old(self).nodes@[stop as int].left != spine[0] && forall|j: int|
                0 <= j < spine.len() ==> spine[j] != stop,
        ensures
            final(self).ranks@ == old(self).ranks@,
            final(self).arena_ok(),
            final(self).arena_eq(old(self)),
            final(self).root == old(self).root,
            final(self).labels@[stop] == old(self).labels@[stop],
            forall|i: int|
                0 <= i < final(self).nodes@.len() ==> same_but_size(
                    #[trigger] final(self).nodes@[i],
                    old(self).nodes@[i],
                ),
            final(self).nodes@[stop as int] == old(self).nodes@[stop as int],
            walk_state(
                final(self).nodes@,
                final(self).labels@,
                final(self).root,
                final(self).nil,
                stop,
                false,
                n,
                pos@,
                w,
                final(self).labels@[stop],
            ),
            tail_gt(
                joined(final(self).nodes@, final(self).labels@, final(self).nil, stop),
                pos@,
                w,
            ),
            from == stop ==> pos@ == pos0 && final(self).labels@ == old(self).labels@,
            from != stop ==> pos@ == own_pos(
                final(self).nodes@,
                final(self).labels@,
                final(self).nil,
                stop,
            ) + final(self).nodes@[stop as int].count,
            final(self)@ == old(self)@,
    {
        let mut cur = from;
        let ghost mut p = pos0;
        let ghost mut j: int = spine.len() - 1;
        proof {
            assert(self.labels@.insert(from, self.labels@[from]) =~= self.labels@);
        }
        while cur != stop
            invariant
                self.arena_ok(),
                self.arena_eq(old(self)),
                self.ranks@ == old(self).ranks@,
                self.root == old(self).root,
                cur != self.nil,
                stop != self.nil,
                self.has(stop),
                self.labels@[stop] == old(self).labels@[stop],
                self.nodes@[stop as int] == old(self).nodes@[stop as int],
                forall|i: int|
                    0 <= i < self.nodes@.len() ==> same_but_size(
                        #[trigger] self.nodes@[i],
                        old(self).nodes@[i],
                    ),
                walk_state(
                    self.nodes@,
                    self.labels@,
                    self.root,
                    self.nil,
                    cur,
                    false,
                    n,
                    p,
                    w,
                    self.labels@[cur],
                ),
                tail_gt(joined(self.nodes@, self.labels@, self.nil, cur), p, w),
                from != stop ==> spine.len() >= 1 && spine_ok(old(self).nodes@, old(self).labels@, spine)
                    && old(self).nodes@[spine[0] as int].parent == stop
                    && old(self).nodes@[stop as int].left != spine[0] && forall|i: int|
                    0 <= i < spine.len() ==> spine[i] != stop,
                cur != stop ==> from != stop,
                from == stop ==> self.labels@ == old(self).labels@,
                cur != stop ==> 0 <= j < spine.len() && cur == spine[j] && p == 0,
                cur != stop ==> forall|i: int|
                    0 <= i <= j ==> self.labels@[#[trigger] spine[i]] == old(self).labels@[spine[i]],
                cur == stop ==> p == if from == stop {
                    pos0
                } else {
                    own_pos(self.nodes@, self.labels@, self.nil, stop)
                        + self.nodes@[stop as int].count
                },
                self@ == old(self)@,
            decreases
                    (if cur == stop {
                        0
                    } else {
                        j + 1
                    }),
        {
            let ghost n1 = self.nodes@;
            let ghost lab1 = self.labels@;
            let ghost oe = lab1[cur];
            proof {
                assert(lab1.insert(cur, oe) =~= lab1);
                lemma_walk_sum(n1, lab1, self.root, self.nil, cur, false, n, p, w, oe);
                assert(same_but_size(n1[cur as int], old(self).nodes@[cur as int]));
                if j > 0 {
                    assert(spine_step(old(self).nodes@, spine, j));
                    assert(same_but_size(n1[spine[j - 1] as int], old(self).nodes@[spine[j - 1] as int]));
                }
                assert(same_but_size(n1[stop as int], old(self).nodes@[stop as int]));
            }
            self.recalculate_subtree_count(cur);
            let next = self.nodes[cur].parent;
            proof {
                let je = joined(n1, lab1, self.nil, cur);
                lemma_walk_step(
                    n1,
                    self.nodes@,
                    lab1,
                    self.root,
                    self.nil,
                    cur,
                    false,
                    n,
                    p,
                    w,
                    oe,
                    Seq::empty(),
                );
                lemma_spine_tail(n1, self.nodes@, lab1, self.root, self.nil, cur, n, p, w, oe);
                self.labels = Ghost(lab1.insert(cur, je));
                assert(self.labels@.insert(next, self.labels@[next]) =~= self.labels@);
                p = lifted_pos(n1, lab1, self.nil, cur, p);
                if j > 0 {
                    assert forall|i: int| 0 <= i <= j - 1 implies self.labels@[#[trigger] spine[i]]
                        == old(self).labels@[spine[i]] by {
                        assert(path_rank(old(self).labels@, spine, i) > path_rank(
                            old(self).labels@,
                            spine,
                            j,
                        ));
                        assert(lab1[spine[i]] == old(self).labels@[spine[i]]);
                        assert(lab1[spine[j]] == old(self).labels@[spine[j]]);
                    }
                }
                j = j - 1;
                assert forall|i: int| 0 <= i < self.nodes@.len() implies same_but_size(
                    #[trigger] self.nodes@[i],
                    old(self).nodes@[i],
                ) by {
                    assert(same_but_size(n1[i], old(self).nodes@[i]));
                }
            }
            cur = next;
        }
        Ghost(p)
    }

    /// Takes `node`, which holds a single key, out of the tree structure.
    /// Returns the colour that left the tree, the node that moved into the
    /// vacated place and its parent, and the node from which labels and
    /// subtree counts are to be refreshed up to the root.
    #[verifier::spinoff_prover]
    #[verifier::rlimit(60)]
    fn perform_deletion(&mut self, node: usize) -> (r: (Color, usize, usize, usize, Ghost<int>))
        requires
            old(self).inv(),
            old(self).balanced(),
            old(self).root != old(self).nil,
            old(self).has(node),
            old(self).nodes@[node as int].count == 1,
        ensures
            r.0 == Color::Red ==> final(self).balanced(),
            r.0 == Color::Black ==> shrink_pending(
                final(self).nodes@,
                final(self).labels@.dom(),
                final(self).ranks@,
                final(self).root,
                final(self).nil,
                r.1,
                r.2,
            ),
            final(self).arena_ok(),
            final(self).free_list@ == old(self).free_list@,
            final(self).free_top == old(self).free_top,
            final(self).len == old(self).len,
            final(self).total_count == old(self).total_count,
            final(self).capacity == old(self).capacity,
            final(self).nil == old(self).nil,
            final(self).keys@ == old(self).keys@,
            final(self).labels@.dom() == old(self).labels@.dom().remove(node),
            r.1 == final(self).nil || final(self).has(r.1),
            r.2 == final(self).nil || final(self).has(r.2),
            r.3 == final(self).nil ==> final(self).inv() && final(self)@ == edited(
                false,
                1,
                r.4@,
                old(self).nodes@[node as int].value,
                old(self)@,
            ) && edit_fits(false, 1, r.4@, old(self).nodes@[node as int].value, old(self)@),
            r.3 != final(self).nil ==> final(self)@ == old(self)@ && walk_state(
                final(self).nodes@,
                final(self).labels@,
                final(self).root,
                final(self).nil,
                r.3,
                false,
                1,
                r.4@,
                old(self).nodes@[node as int].value,
                final(self).labels@[r.3],
            ),
    {
        proof {
            self.lemma_node(node);
            lemma_children(self.nodes@, self.labels@, self.root, self.nil, node);
        }
        let removed_color = self.nodes[node].color;
        let left = self.nodes[node].left;
        let right = self.nodes[node].right;
        let parent = self.nodes[node].parent;
        let ghost n0 = self.nodes@;
        let ghost lab0 = self.labels@;
        let ghost root0 = self.root;
        let ghost v = n0[node as int].value;
        if left == self.nil || right == self.nil {
            let child = if left == self.nil {
                right
            } else {
                left
            };
            proof {
                if child != self.nil {
                    lemma_children(n0, lab0, root0, self.nil, child);
                }
                if parent != self.nil {
                    self.lemma_node(parent);
                }
            }
            self.transplant(node, child);
            proof {
                lemma_unlink(n0, self.nodes@, lab0, root0, self.root, self.nil, node, child);
                lemma_shrink_unlink(
                    n0,
                    self.nodes@,
                    lab0,
                    self.ranks@,
                    root0,
                    self.root,
                    self.nil,
                    node,
                    child,
                );
                self.labels = Ghost(lab0.remove(node));
            }
            let ghost pos = lifted_pos(n0, lab0, self.nil, node, own_pos(n0, lab0, self.nil, node));
            proof {
                if parent != self.nil {
                    assert(self.labels@.insert(parent, lab0[parent]) =~= self.labels@);
                    assert(self.labels@[parent] == lab0[parent]);
                }
            }
            return (removed_color, child, parent, parent, Ghost(pos));
        }
        let (successor, spine) = self.find_minimum(right);
        proof {
            self.lemma_node(successor);
            lemma_children(n0, lab0, root0, self.nil, successor);
        }
        let successor_color = self.nodes[successor].color;
        let fixup_node = self.nodes[successor].right;
        let successor_parent = self.nodes[successor].parent;
        let ghost w = n0[successor as int].value;
        let ghost n = n0[successor as int].count as int;
        proof {
            if fixup_node != self.nil {
                lemma_children(n0, lab0, root0, self.nil, fixup_node);
            }
            lemma_children(n0, lab0, root0, self.nil, right);
            let k = spine@.len() - 1;
            if k > 0 {
                assert(path_rank(lab0, spine@, 0) > path_rank(lab0, spine@, k));
            }
            assert(lab0[successor].len() <= lab0[right].len());
            assert(fixup_node != node);
        }
        self.transplant(successor, fixup_node);
        let ghost n1 = self.nodes@;
        let ghost lab1 = lab0.remove(successor);
        proof {
            lemma_detached(n0, n1, lab0, root0, self.root, self.nil, node, successor, spine@);
            self.labels = Ghost(lab1);
        }
        let pos = self.refresh_spine(
            successor_parent,
            node,
            Ghost(n),
            Ghost(lifted_pos(n0, lab0, self.nil, successor, 0)),
            Ghost(w),
            Ghost(spine@.drop_last()),
        );
        let ghost n2 = self.nodes@;
        let ghost lab2 = self.labels@;
        let ghost root2 = self.root;
        proof {
            assert forall|i: int| 0 <= i < n2.len() implies same_paint(#[trigger] n2[i], n1[i]) by {
                assert(same_but_size(n2[i], n1[i]));
            }
            lemma_walk_sum(n2, lab2, root2, self.nil, node, false, n, pos@, w, lab2[node]);
            assert(same_but_size(n2[successor as int], n1[successor as int]));
            assert(same_but_size(n2[left as int], n1[left as int]));
            assert(n2[node as int].left == left);
            assert(pos@ == own_pos(n2, lab2, self.nil, node) + 1);
        }
        self.replace_node(node, successor);
        proof {
            lemma_splice(
                n2,
                self.nodes@,
                lab2,
                root2,
                self.root,
                self.nil,
                node,
                successor,
                n,
                pos@,
            );
            self.labels = Ghost(lab2.remove(node).insert(successor, lab2[node]));
            assert(self.labels@.dom() =~= lab0.dom().remove(node));
            lemma_shrink_splice(
                n0,
                n1,
                n2,
                self.nodes@,
                lab0,
                lab2,
                self.ranks@,
                root0,
                root2,
                self.root,
                self.nil,
                node,
                successor,
                n,
                pos@,
                w,
            );
            self.ranks = Ghost(self.ranks@.insert(successor, self.ranks@[node]));
        }
        let fixup_parent = if successor_parent == node {
            successor
        } else {
            successor_parent
        };
        (
            successor_color,
            fixup_node,
            fixup_parent,
            successor,
            Ghost(own_pos(n2, lab2, self.nil, node)),
        )
    }

    /// Puts the detached node `s` in the place of `z`: `s` takes over the
    /// parent, the children and the colour of `z`.
    fn replace_node(&mut self, z: usize, s: usize)
        requires
            old(self).nil == old(self).nodes@.len(),
            z < old(self).nil,
            s < old(self).nil,
            s != z,
            ({
                let zn = old(self).nodes@[z as int];
                &&& zn.left < old(self).nil
                &&& zn.right <= old(self).nil
                &&& zn.parent <= old(self).nil
                &&& zn.left != zn.right
                &&& zn.left != s && zn.right != s && zn.parent != s
                &&& zn.left != z && zn.right != z && zn.parent != z
                &&& zn.parent != old(self).nil ==> zn.parent != zn.left && zn.parent != zn.right
            }),
        ensures
            final(self).ranks@ == old(self).ranks@,
            final(self).free_list@ == old(self).free_list@,
            final(self).free_top == old(self).free_top,
            final(self).len == old(self).len,
            final(self).total_count == old(self).total_count,
            final(self).capacity == old(self).capacity,
            final(self).nil == old(self).nil,
            final(self).labels@ == old(self).labels@,
            final(self).keys@ == old(self).keys@,
            spliced(
                old(self).nodes@,
                final(self).nodes@,
                old(self).root,
                final(self).root,
                old(self).nil,
                z,
                s,
            ),
    {
        let left = self.nodes[z].left;
        let right = self.nodes[z].right;
        let color = self.nodes[z].color;
        self.set_right(s, right);
        if right != self.nil {
            self.set_parent(right, s);
        }
        self.transplant(z, s);
        self.set_left(s, left);
        self.set_parent(left, s);
        let mut sn = self.nodes[s];
        sn.color = color;
        self.nodes.set(s, sn);
    }

    /// Repair after a removal, red sibling on the right: recolours and
    /// rotates so that the node in hand, the left child of `fixup_parent`,
    /// gets a black sibling under a red parent.
    #[verifier::spinoff_prover]
    #[verifier::rlimit(60)]
    fn fix_deletion_left_red_sibling(&mut self, fixup_node: usize, fixup_parent: usize)
        requires
            old(self).inv(),
            shrink_round(
                old(self).nodes@,
                old(self).labels@,
                old(self).ranks@,
                old(self).root,
                old(self).nil,
                fixup_node,
                fixup_parent,
                true,
            ),
            !black_at(
                old(self).nodes@,
                old(self).nil,
                lifted(old(self).nodes@[fixup_parent as int], true),
            ),
        ensures
            final(self).inv(),
            final(self).arena_eq(old(self)),
            final(self)@ == old(self)@,
            shrink_round(
                final(self).nodes@,
                final(self).labels@,
                final(self).ranks@,
                final(self).root,
                final(self).nil,
                fixup_node,
                fixup_parent,
                true,
            ),
            black_at(
                final(self).nodes@,
                final(self).nil,
                lifted(final(self).nodes@[fixup_parent as int], true),
            ),
            final(self).nodes@[fixup_parent as int].color == Color::Red,
    {
        let ghost n0 = self.nodes@;
        let ghost lab0 = self.labels@;
        let ghost ranks0 = self.ranks@;
        let ghost root0 = self.root;
        proof {
            lemma_shrink_family(n0, lab0, ranks0, root0, self.nil, fixup_node, fixup_parent, true);
        }
        let sibling = self.get_right(fixup_parent);
        self.set_color(sibling, Color::Black);
        self.set_color(fixup_parent, Color::Red);
        self.rotate_left(fixup_parent);
        proof {
            lemma_shrink_turn(
                n0,
                self.nodes@,
                lab0,
                ranks0,
                root0,
                self.root,
                self.nil,
                fixup_node,
                fixup_parent,
                true,
            );
            self.ranks = Ghost(
                ranks0.insert(fixup_parent, (ranks0[fixup_parent] - 1) as nat).insert(
                    sibling,
                    ranks0[sibling] + 1,
                ),
            );
        }
    }

    /// Repair after a removal, black sibling on the right with a red
    /// child: recolours and rotates so that the rules hold again.
    #[verifier::spinoff_prover]
    #[verifier::rlimit(60)]
    fn fix_deletion_left_red_nephew(&mut self, fixup_node: usize, fixup_parent: usize)
        requires
            old(self).inv(),
            shrink_round(
                old(self).nodes@,
                old(self).labels@,
                old(self).ranks@,
                old(self).root,
                old(self).nil,
                fixup_node,
                fixup_parent,
                true,
            ),
            ({
                let w = lifted(old(self).nodes@[fixup_parent as int], true);
                &&& black_at(old(self).nodes@, old(self).nil, w)
                &&& !(black_at(old(self).nodes@, old(self).nil, old(self).nodes@[w as int].left)
                    && black_at(old(self).nodes@, old(self).nil, old(self).nodes@[w as int].right))
            }),
        ensures
            final(self).inv(),
            final(self).arena_eq(old(self)),
            final(self)@ == old(self)@,
            final(self).balanced(),
            final(self).root != final(self).nil,
    {
        let mut fixup_parent = fixup_parent;
        let ghost n1 = self.nodes@;
        let ghost lab1 = self.labels@;
        let ghost ranks1 = self.ranks@;
        let ghost root1 = self.root;
        proof {
            lemma_shrink_family(n1, lab1, ranks1, root1, self.nil, fixup_node, fixup_parent, true);
        }
        let mut sibling = self.get_right(fixup_parent);
        proof {
            self.lemma_node(sibling);
        }
        if self.is_black(self.get_right(sibling)) {
            let near = self.get_left(sibling);
            self.set_color(near, Color::Black);
            self.set_color(sibling, Color::Red);
            self.rotate_right(sibling);
            proof {
                lemma_shrink_prepare(
                    n1,
                    self.nodes@,
                    lab1,
                    ranks1,
                    root1,
                    self.root,
                    self.nil,
                    fixup_node,
                    fixup_parent,
                    true,
                );
                self.ranks = Ghost(
                    ranks1.insert(near, ranks1[near] + 1).insert(
                        sibling,
                        (ranks1[sibling] - 1) as nat,
                    ),
                );
            }
            if fixup_node != self.nil {
                fixup_parent = self.get_parent(fixup_node);
            }
            sibling = self.get_right(fixup_parent);
        }
        let ghost n2 = self.nodes@;
        let ghost lab2 = self.labels@;
        let ghost ranks2 = self.ranks@;
        let ghost root2 = self.root;
        proof {
            lemma_shrink_family(n2, lab2, ranks2, root2, self.nil, fixup_node, fixup_parent, true);
            self.lemma_node(sibling);
        }
        let parent_color = self.get_color(fixup_parent);
        self.set_color(sibling, parent_color);
        self.set_color(fixup_parent, Color::Black);
        let far = self.get_right(sibling);
        self.set_color(far, Color::Black);
        self.rotate_left(fixup_parent);
        proof {
            lemma_shrink_finish(
                n2,
                self.nodes@,
                lab2,
                ranks2,
                root2,
                self.root,
                self.nil,
                fixup_node,
                fixup_parent,
                true,
            );
            self.ranks = Ghost(
                ranks2.insert(sibling, ranks2[fixup_parent]).insert(
                    fixup_parent,
                    rank_of(ranks2, self.nil, fixup_node) + 1,
                ).insert(far, ranks2[far] + 1),
            );
        }
    }

    /// One round of repair for a node that is short of one black and is
    /// the left child of `fixup_parent`. Returns the node to go on with and
    /// whether the repair is over.
    #[verifier::spinoff_prover]
    #[verifier::rlimit(60)]
    fn fix_deletion_left(&mut self, fixup_node: usize, fixup_parent: usize) -> (r: (usize, bool))
        requires
            old(self).inv(),
            shrink_round(
                old(self).nodes@,
                old(self).labels@,
                old(self).ranks@,
                old(self).root,
                old(self).nil,
                fixup_node,
                fixup_parent,
                true,
            ),
        ensures
            final(self).inv(),
            final(self).arena_eq(old(self)),
            final(self)@ == old(self)@,
            final(self).has(r.0),
            !r.1 ==> r.0 == fixup_parent && final(self).labels@ == old(self).labels@,
            (final(self).balanced() && r.0 == final(self).root && r.1) || (shrink_pending(
                final(self).nodes@,
                final(self).labels@.dom(),
                final(self).ranks@,
                final(self).root,
                final(self).nil,
                r.0,
                final(self).nodes@[r.0 as int].parent,
            ) && (r.1 ==> !black_at(final(self).nodes@, final(self).nil, r.0))),
    {
        proof {
            lemma_shrink_family(
                self.nodes@,
                self.labels@,
                self.ranks@,
                self.root,
                self.nil,
                fixup_node,
                fixup_parent,
                true,
            );
        }
        let mut sibling = self.get_right(fixup_parent);
        let mut parent_reddened = false;
        if self.is_red(sibling) {
            self.fix_deletion_left_red_sibling(fixup_node, fixup_parent);
            sibling = self.get_right(fixup_parent);
            parent_reddened = true;
        }
        let ghost n1 = self.nodes@;
        let ghost lab1 = self.labels@;
        let ghost ranks1 = self.ranks@;
        let ghost root1 = self.root;
        proof {
            lemma_shrink_family(n1, lab1, ranks1, root1, self.nil, fixup_node, fixup_parent, true);
            self.lemma_node(sibling);
        }
        if self.is_black(self.get_left(sibling)) && self.is_black(self.get_right(sibling)) {
            self.set_color(sibling, Color::Red);
            proof {
                lemma_shrink_lift(
                    n1,
                    self.nodes@,
                    lab1,
                    ranks1,
                    root1,
                    self.nil,
                    fixup_node,
                    fixup_parent,
                    true,
                );
                self.ranks = Ghost(
                    ranks1.insert(sibling, (ranks1[sibling] - 1) as nat).insert(
                        fixup_parent,
                        (ranks1[fixup_parent] - 1) as nat,
                    ),
                );
            }
            // a parent that was coloured red just above ends the repair
            (fixup_parent, parent_reddened)
        } else {
            self.fix_deletion_left_red_nephew(fixup_node, fixup_parent);
            proof {
                self.lemma_node(self.root);
            }
            (self.root, true)
        }
    }

    /// Repair after a removal, red sibling on the left: recolours and
    /// rotates so that the node in hand, the right child of `fixup_parent`,
    /// gets a black sibling under a red parent.
    #[verifier::spinoff_prover]
    #[verifier::rlimit(60)]
    fn fix_deletion_right_red_sibling(&mut self, fixup_node: usize, fixup_parent: usize)
        requires
            old(self).inv(),
            shrink_round(
                old(self).nodes@,
                old(self).labels@,
                old(self).ranks@,
                old(self).root,
                old(self).nil,
                fixup_node,
                fixup_parent,
                false,
            ),
            !black_at(
                old(self).nodes@,
                old(self).nil,
                lifted(old(self).nodes@[fixup_parent as int], false),
            ),
        ensures
            final(self).inv(),
            final(self).arena_eq(old(self)),
            final(self)@ == old(self)@,
            shrink_round(
                final(self).nodes@,
                final(self).labels@,
                final(self).ranks@,
                final(self).root,
                final(self).nil,
                fixup_node,
                fixup_parent,
                false,
            ),
            black_at(
                final(self).nodes@,
                final(self).nil,
                lifted(final(self).nodes@[fixup_parent as int], false),
            ),
            final(self).nodes@[fixup_parent as int].color == Color::Red,
    {
        let ghost n0 = self.nodes@;
        let ghost lab0 = self.labels@;
        let ghost ranks0 = self.ranks@;
        let ghost root0 = self.root;
        proof {
            lemma_shrink_family(n0, lab0, ranks0, root0, self.nil, fixup_node, fixup_parent, false);
        }
        let sibling = self.get_left(fixup_parent);
        self.set_color(sibling, Color::Black);
        self.set_color(fixup_parent, Color::Red);
        self.rotate_right(fixup_parent);
        proof {
            lemma_shrink_turn(
                n0,
                self.nodes@,
                lab0,
                ranks0,
                root0,
                self.root,
                self.nil,
                fixup_node,
                fixup_parent,
                false,
            );
            self.ranks = Ghost(
                ranks0.insert(fixup_parent, (ranks0[fixup_parent] - 1) as nat).insert(
                    sibling,
                    ranks0[sibling] + 1,
                ),
            );
        }
    }

    /// Repair after a removal, black sibling on the left with a red
    /// child: recolours and rotates so that the rules hold again.
    #[verifier::spinoff_prover]
    #[verifier::rlimit(60)]
    fn fix_deletion_right_red_nephew(&mut self, fixup_node: usize, fixup_parent: usize)
        requires
            old(self).inv(),
            shrink_round(
                old(self).nodes@,
                old(self).labels@,
                old(self).ranks@,
                old(self).root,
                old(self).nil,
                fixup_node,
                fixup_parent,
                false,
            ),
            ({
                let w = lifted(old(self).nodes@[fixup_parent as int], false);
                &&& black_at(old(self).nodes@, old(self).nil, w)
                &&& !(black_at(old(self).nodes@, old(self).nil, old(self).nodes@[w as int].left)
                    && black_at(old(self).nodes@, old(self).nil, old(self).nodes@[w as int].right))
            }),
        ensures
            final(self).inv(),
            final(self).arena_eq(old(self)),
            final(self)@ == old(self)@,
            final(self).balanced(),
            final(self).root != final(self).nil,
    {
        let mut fixup_parent = fixup_parent;
        let ghost n1 = self.nodes@;
        let ghost lab1 = self.labels@;
        let ghost ranks1 = self.ranks@;
        let ghost root1 = self.root;
        proof {
            lemma_shrink_family(n1, lab1, ranks1, root1, self.nil, fixup_node, fixup_parent, false);
        }
        let mut sibling = self.get_left(fixup_parent);
        proof {
            self.lemma_node(sibling);
        }
        if self.is_black(self.get_left(sibling)) {
            let near = self.get_right(sibling);
            self.set_color(near, Color::Black);
            self.set_color(sibling, Color::Red);
            self.rotate_left(sibling);
            proof {
                lemma_shrink_prepare(
                    n1,
                    self.nodes@,
                    lab1,
                    ranks1,
                    root1,
                    self.root,
                    self.nil,
                    fixup_node,
                    fixup_parent,
                    false,
                );
                self.ranks = Ghost(
                    ranks1.insert(near, ranks1[near] + 1).insert(
                        sibling,
                        (ranks1[sibling] - 1) as nat,
                    ),
                );
            }
            if fixup_node != self.nil {
                fixup_parent = self.get_parent(fixup_node);
            }
            sibling = self.get_left(fixup_parent);
        }
        let ghost n2 = self.nodes@;
        let ghost lab2 = self.labels@;
        let ghost ranks2 = self.ranks@;
        let ghost root2 = self.root;
        proof {
            lemma_shrink_family(n2, lab2, ranks2, root2, self.nil, fixup_node, fixup_parent, false);
            self.lemma_node(sibling);
        }
        let parent_color = self.get_color(fixup_parent);
        self.set_color(sibling, parent_color);
        self.set_color(fixup_parent, Color::Black);
        let far = self.get_left(sibling);
        self.set_color(far, Color::Black);
        self.rotate_right(fixup_parent);
        proof {
            lemma_shrink_finish(
                n2,
                self.nodes@,
                lab2,
                ranks2,
                root2,
                self.root,
                self.nil,
                fixup_node,
                fixup_parent,
                false,
            );
            self.ranks = Ghost(
                ranks2.insert(sibling, ranks2[fixup_parent]).insert(
                    fixup_parent,
                    rank_of(ranks2, self.nil, fixup_node) + 1,
                ).insert(far, ranks2[far] + 1),
            );
        }
    }

    /// One round of repair for a node that is short of one black and is
    /// the right child of `fixup_parent`. Returns the node to go on with and
    /// whether the repair is over.
    #[verifier::spinoff_prover]
    #[verifier::rlimit(60)]
    fn fix_deletion_right(&mut self, fixup_node: usize, fixup_parent: usize) -> (r: (usize, bool))
        requires
            old(self).inv(),
            shrink_round(
                old(self).nodes@,
                old(self).labels@,
                old(self).ranks@,
                old(self).root,
                old(self).nil,
                fixup_node,
                fixup_parent,
                false,
            ),
        ensures
            final(self).inv(),
            final(self).arena_eq(old(self)),
            final(self)@ == old(self)@,
            final(self).has(r.0),
            !r.1 ==> r.0 == fixup_parent && final(self).labels@ == old(self).labels@,
            (final(self).balanced() && r.0 == final(self).root && r.1) || (shrink_pending(
                final(self).nodes@,
                final(self).labels@.dom(),
                final(self).ranks@,
                final(self).root,
                final(self).nil,
                r.0,
                final(self).nodes@[r.0 as int].parent,
            ) && (r.1 ==> !black_at(final(self).nodes@, final(self).nil, r.0))),
    {
        proof {
            lemma_shrink_family(
                self.nodes@,
                self.labels@,
                self.ranks@,
                self.root,
                self.nil,
                fixup_node,
                fixup_parent,
                false,
            );
        }
        let mut sibling = self.get_left(fixup_parent);
        let mut parent_reddened = false;
        if self.is_red(sibling) {
            self.fix_deletion_right_red_sibling(fixup_node, fixup_parent);
            sibling = self.get_left(fixup_parent);
            parent_reddened = true;
        }
        let ghost n1 = self.nodes@;
        let ghost lab1 = self.labels@;
        let ghost ranks1 = self.ranks@;
        let ghost root1 = self.root;
        proof {
            lemma_shrink_family(n1, lab1, ranks1, root1, self.nil, fixup_node, fixup_parent, false);
            self.lemma_node(sibling);
        }
        if self.is_black(self.get_right(sibling)) && self.is_black(self.get_left(sibling)) {
            self.set_color(sibling, Color::Red);
            proof {
                lemma_shrink_lift(
                    n1,
                    self.nodes@,
                    lab1,
                    ranks1,
                    root1,
                    self.nil,
                    fixup_node,
                    fixup_parent,
                    false,
                );
                self.ranks = Ghost(
                    ranks1.insert(sibling, (ranks1[sibling] - 1) as nat).insert(
                        fixup_parent,
                        (ranks1[fixup_parent] - 1) as nat,
                    ),
                );
            }
            // a parent that was coloured red just above ends the repair
            (fixup_parent, parent_reddened)
        } else {
            self.fix_deletion_right_red_nephew(fixup_node, fixup_parent);
            proof {
                self.lemma_node(self.root);
            }
            (self.root, true)
        }
    }

    fn fix_deletion_violations(&mut self, fixup_node: usize, fixup_parent: usize)
        requires
            old(self).inv(),
            shrink_pending(
                old(self).nodes@,
                old(self).labels@.dom(),
                old(self).ranks@,
                old(self).root,
                old(self).nil,
                fixup_node,
                fixup_parent,
            ),
        ensures
            final(self).inv(),
            final(self).arena_eq(old(self)),
            final(self)@ == old(self)@,
            final(self).balanced(),
    {
        let mut fixup_node = fixup_node;
        let mut fixup_parent = fixup_parent;
        while fixup_node != self.root && self.is_black(fixup_node)
            invariant_except_break
                shrink_pending(
                    self.nodes@,
                    self.labels@.dom(),
                    self.ranks@,
                    self.root,
                    self.nil,
                    fixup_node,
                    fixup_parent,
                ),
            invariant
                self.inv(),
                self.arena_eq(old(self)),
                self@ == old(self)@,
                fixup_node == self.nil || self.has(fixup_node),
                fixup_parent == self.nil || self.has(fixup_parent),
            ensures
                (self.balanced() && fixup_node == self.root) || (shrink_pending(
                    self.nodes@,
                    self.labels@.dom(),
                    self.ranks@,
                    self.root,
                    self.nil,
                    fixup_node,
                    fixup_parent,
                ) && (fixup_node == self.root || !black_at(self.nodes@, self.nil, fixup_node))),
            decreases
                    (if fixup_node == self.nil {
                        usize::MAX + 2
                    } else {
                        usize::MAX + 1 - self.labels@[fixup_node].len()
                    }),
        {
            if fixup_node != self.nil {
                fixup_parent = self.get_parent(fixup_node);
                proof {
                    lemma_children(self.nodes@, self.labels@, self.root, self.nil, fixup_node);
                }
            }
            if fixup_parent == self.nil {
                break ;
            }
            proof {
                self.lemma_node(fixup_parent);
            }
            let (next, finished) = if fixup_node == self.get_left(fixup_parent) {
                self.fix_deletion_left(fixup_node, fixup_parent)
            } else {
                self.fix_deletion_right(fixup_node, fixup_parent)
            };
            fixup_node = next;
            proof {
                self.lemma_node(fixup_node);
            }
            fixup_parent = self.get_parent(fixup_node);
            if finished {
                break ;
            }
        }
        let ghost n0 = self.nodes@;
        let ghost was_balanced = self.balanced() && fixup_node == self.root;
        proof {
            if self.root != self.nil {
                self.lemma_node(self.root);
            }
        }
        self.set_color(fixup_node, Color::Black);
        if self.root != self.nil {
            self.set_color(self.root, Color::Black);
        }
        proof {
            if was_balanced {
                assert(self.nodes@ =~= n0);
            } else {
                let ranks2 = lemma_shrink_settle(
                    n0,
                    self.nodes@,
                    self.labels@,
                    self.ranks@,
                    self.root,
                    self.nil,
                    fixup_node,
                    fixup_parent,
                );
                self.ranks = Ghost(ranks2);
            }
        }
    }

    fn delete_node(&mut self, node_to_delete: usize)
        requires
            old(self).inv(),
            old(self).balanced(),
            old(self).root != old(self).nil,
            old(self).has(node_to_delete),
            old(self).nodes@[node_to_delete as int].count == 1,
            old(self).free_top < old(self).capacity,
        ensures
            final(self).inv(),
            final(self).balanced(),
            final(self).free_top == old(self).free_top + 1,
            final(self).len == old(self).len,
            final(self).total_count == old(self).total_count,
            final(self).capacity == old(self).capacity,
            final(self).keys@ == old(self).keys@,
            final(self)@.len() == old(self)@.len() - 1,
            final(self)@.to_multiset() == old(self)@.to_multiset().remove(
                old(self).nodes@[node_to_delete as int].value,
            ),
    {
        proof {
            self.lemma_node(node_to_delete);
        }
        let ghost v = self.nodes@[node_to_delete as int].value;
        let (removed_color, fixup_node, fixup_parent, refresh_from, pos) = self.perform_deletion(
            node_to_delete,
        );
        let ghost mut top = pos@;
        let ghost before_walk = self.nodes@;
        if refresh_from != self.nil {
            proof {
                assert(self.labels@.insert(refresh_from, self.labels@[refresh_from])
                    =~= self.labels@);
            }
            let t = self.update_subtree_counts_to_root(
                refresh_from,
                Ghost(false),
                Ghost(1),
                Ghost(pos@),
                Ghost(v),
                Ghost(self.labels@[refresh_from]),
                Ghost(Seq::empty()),
            );
            proof {
                top = t@;
            }
        }
        proof {
            broadcast use vstd::seq_lib::group_to_multiset_ensures;

            assert(self@ =~= old(self)@.remove(top));
            lemma_tree_kin(self.nodes@, self.labels@, self.root, self.nil);
            assert(self.root == self.nil || self.has(self.root));
            assert forall|i: int| 0 <= i < before_walk.len() implies same_paint(
                #[trigger] before_walk[i],
                self.nodes@[i],
            ) by {
                assert(same_paint(self.nodes@[i], before_walk[i]));
            }
            lemma_shrink_kept(
                self.nodes@,
                before_walk,
                self.labels@.dom(),
                self.ranks@,
                self.root,
                self.nil,
                fixup_node,
                fixup_parent,
            );
        }
        if removed_color == Color::Black {
            self.fix_deletion_violations(fixup_node, fixup_parent);
        }
        self.deallocate_node(node_to_delete);
        proof {
            assert(tree_ok(self.nodes@, self.labels@, self.root, self.nil));
        }
    }

    /// Removes one occurrence of `value`. Returns the key, or `None` when
    /// the tree does not hold it.
    pub fn remove(&mut self, value: i64) -> (r: Option<i64>)
        requires
            old(self).wf(),
        ensures
            final(self).wf(),
            final(self).cap() == old(self).cap(),
            r.is_some() <==> old(self)@.contains(value),
            r.is_some() ==> r == Some(value),
            r.is_some() ==> final(self)@.to_multiset() == old(self)@.to_multiset().remove(value),
            r.is_some() ==> final(self)@.len() == old(self)@.len() - 1,
            final(self).free_slots() == if old(self)@.to_multiset().count(value) == 1 {
                old(self).free_slots() + 1
            } else {
                old(self).free_slots()
            },
            final(self).used_slots() == if old(self)@.to_multiset().count(value) == 1 {
                (old(self).used_slots() - 1) as nat
            } else {
                old(self).used_slots()
            },
            r.is_none() ==> final(self)@ == old(self)@,
    {
        let node_idx = match self.find_node(value) {
            Some(i) => i,
            None => {
                proof {
                    lemma_absent_count(self@, value);
                }
                return None;
            },
        };
        proof {
            self.lemma_node(node_idx);
            if self.keys@.len() == 0 {
                self.keys@.lemma_len0_is_empty();
            }
        }
        if self.nodes[node_idx].count > 1 {
            self.decrement_count(node_idx);
            proof {
                lemma_paint_kept(
                    self.nodes@,
                    old(self).nodes@,
                    self.labels@,
                    self.ranks@,
                    self.root,
                    self.nil,
                    node_idx,
                );
            }
            proof {
                assert forall|x: i64| self.keys@.contains(x) <==> self@.contains(x) by {
                    lemma_absent_count(self@, x);
                    lemma_absent_count(old(self)@, x);
                }
            }
        } else {
            self.delete_node(node_idx);
            self.len -= 1;
            self.total_count -= 1;
            proof {
                self.keys = Ghost(self.keys@.remove(value));
                assert forall|x: i64| self.keys@.contains(x) <==> self@.contains(x) by {
                    lemma_absent_count(self@, x);
                    lemma_absent_count(old(self)@, x);
                }
            }
        }
        Some(value)
    }

    /// Empties the tree and returns every arena slot to the free list.
    pub fn reset(&mut self)
        requires
            old(self).wf(),
        ensures
            final(self).wf(),
            final(self).cap() == old(self).cap(),
            final(self)@ == Seq::<i64>::empty(),
            final(self).free_slots() == final(self).cap(),
    {
        self.len = 0;
        self.total_count = 0;
        self.root = self.nil;
        let mut i: usize = 0;
        while i < self.capacity
            invariant
                i <= self.capacity,
                self.capacity == old(self).capacity,
                self.nil == old(self).nil,
                self.root == self.nil,
                self.len == 0,
                self.total_count == 0,
                self.nodes@ == old(self).nodes@,
                self.free_list@.len() == self.capacity,
                forall|j: int| 0 <= j < i ==> self.free_list@[j] == j,
            decreases self.capacity - i,
        {
            self.free_list.set(i, i);
            i += 1;
        }
        self.free_top = self.capacity;
        proof {
            self.labels = Ghost(Map::empty());
            self.keys = Ghost(Set::empty());
            self.ranks = Ghost(Map::empty());
            assert(self@ =~= Seq::<i64>::empty());
        }
    }

    /// The lower median: the key of rank `(n - 1) / 2` among `n` stored keys.
    pub fn median(&self) -> (r: Option<i64>)
        requires
            self.wf(),
        ensures
            self@.len() == 0 ==> r.is_none(),
            self@.len() > 0 ==> r == Some(self@[(self@.len() - 1) / 2]),
    {
        if self.total_count == 0 {
            return None;
        }
        self.find_kth_element((self.total_count - 1) / 2)
    }

    /// Appends the keys below `node` to `out` in ascending order, each as
    /// often as it is stored.
    fn collect_keys(&self, node: usize, out: &mut Vec<i64>)
        requires
            self.inv(),
            node == self.nil || self.has(node),
        ensures
            final(out)@ == old(out)@ + label_of(self.labels@, self.nil, node),
        decreases label_of(self.labels@, self.nil, node).len(),
    {
        if node == self.nil {
            assert(out@ =~= out@ + Seq::<i64>::empty());
            return ;
        }
        proof {
            self.lemma_node(node);
            lemma_children(self.nodes@, self.labels@, self.root, self.nil, node);
        }
        let left: usize = self.nodes[node].left;
        let right: usize = self.nodes[node].right;
        let value: i64 = self.nodes[node].value;
        let count: usize = self.nodes[node].count;
        let ghost start = out@;
        let ghost below = label_of(self.labels@, self.nil, left);
        self.collect_keys(left, out);
        let mut done: usize = 0;
        assert(out@ =~= start + below + rep(value, done));
        while done < count
            invariant
                done <= count,
                out@ == start + below + rep(value, done),
            decreases count - done,
        {
            out.push(value);
            done += 1;
            assert(out@ =~= start + below + rep(value, done));
        }
        let ghost middle = out@;
        self.collect_keys(right, out);
        assert(out@ =~= start + self.labels@[node]) by {
            assert(self.labels@[node] == joined(self.nodes@, self.labels@, self.nil, node));
            assert(out@ == middle + label_of(self.labels@, self.nil, right));
        }
    }

    /// The stored keys in ascending order, duplicates repeated.
    pub fn to_vec(&self) -> (r: Vec<i64>)
        requires
            self.wf(),
        ensures
            r@ == self@,
    {
        let mut out: Vec<i64> = Vec::new();
        self.collect_keys(self.root, &mut out);
        assert(out@ =~= self@);
        out
    }
}

} // verus!
