//! Bounding-volume hierarchy: construction by random-axis median split, and
//! the pruned nearest-hit query.
use crate::aabb::{
    is_hull, lemma_contains_box_trans, lemma_hull_single, lemma_hull_union, lemma_hull_unique,
    lemma_surrounding_box_contains, lemma_union_seq_hull, union_seq, AABB,
};

use crate::hittable_list::{
    is_nearest, leaf_deterministic, leaf_outcome, lemma_leaf_result, lemma_nearest_join,
};
use crate::random::random_index;
use vstd::prelude::*;

verus! {

broadcast use vstd::seq_lib::group_to_multiset_ensures, vstd::multiset::group_multiset_axioms;

/// One side of a tree node: a leaf (an index into the leaf boxes) or
/// another node (an index into the node arena).
#[derive(Clone, Copy, Debug, PartialEq, Eq, Structural)]
pub enum Child {
    Leaf(usize),
    Node(usize),
}

/// An interior node: two children and the box that surrounds both.
#[derive(Clone, Copy, Debug, PartialEq, Eq, Structural)]
pub struct BvhBranch {
    pub left: Child,
    pub right: Child,
    pub aabb_box: AABB,
}

/// A hierarchy over `boxes.len()` leaves. Nodes are stored children first;
/// the last node is the root.
pub struct BvhNode {
    pub boxes: Vec<AABB>,
    pub nodes: Vec<BvhBranch>,
}

/// The leaves reachable from child `c` of node `k`.
pub open spec fn child_leaves(nodes: Seq<BvhBranch>, c: Child, k: int) -> Set<usize>
    decreases k, 0int,
{
    match c {
        Child::Leaf(j) => set![j],
        Child::Node(m) => if 0 <= m < k {
            node_leaves(nodes, m as int)
        } else {
            Set::empty()
        },
    }
}

/// The leaves reachable from node `k`.
pub open spec fn node_leaves(nodes: Seq<BvhBranch>, k: int) -> Set<usize>
    decreases k, 1int,
{
    if 0 <= k < nodes.len() {
        child_leaves(nodes, nodes[k].left, k).union(child_leaves(nodes, nodes[k].right, k))
    } else {
        Set::empty()
    }
}

/// A child of node `k` names an existing leaf or an earlier node.
pub open spec fn child_ok(c: Child, k: int, n_leaves: int) -> bool {
    match c {
        Child::Leaf(j) => j < n_leaves,
        Child::Node(m) => m < k,
    }
}

pub open spec fn child_box(boxes: Seq<AABB>, nodes: Seq<BvhBranch>, c: Child) -> AABB {
    match c {
        Child::Leaf(j) => boxes[j as int],
        Child::Node(m) => nodes[m as int].aabb_box,
    }
}

/// Node `k` has valid children and caches the union of their boxes.
pub open spec fn branch_ok(boxes: Seq<AABB>, nodes: Seq<BvhBranch>, k: int) -> bool {
    &&& child_ok(nodes[k].left, k, boxes.len() as int)
    &&& child_ok(nodes[k].right, k, boxes.len() as int)
    &&& nodes[k].aabb_box == child_box(boxes, nodes, nodes[k].left).union_spec(
        child_box(boxes, nodes, nodes[k].right),
    )
}

pub open spec fn nodes_ok(boxes: Seq<AABB>, nodes: Seq<BvhBranch>) -> bool {
    forall|k: int| 0 <= k < nodes.len() ==> #[trigger] branch_ok(boxes, nodes, k)
}

/// The leaf indices `0..n`.
pub open spec fn all_leaves(n: int) -> Set<usize> {
    Set::new(|j: usize| j < n)
}

/// Minimum coordinate of leaf `j`'s box along `axis`: the sort key.
pub open spec fn leaf_key(boxes: Seq<AABB>, j: usize, axis: int) -> i64 {
    boxes[j as int].min.coord(axis)
}

pub open spec fn sorted_by_key(boxes: Seq<AABB>, s: Seq<usize>, axis: int) -> bool {
    forall|a: int, b: int|
        0 <= a < b < s.len() ==> leaf_key(boxes, #[trigger] s[a], axis) <= leaf_key(
            boxes,
            #[trigger] s[b],
            axis,
        )
}

/// The leaves whose key along `axis` is `v`.
pub open spec fn key_is(boxes: Seq<AABB>, axis: int, v: i64) -> spec_fn(usize) -> bool {
    |x: usize| leaf_key(boxes, x, axis) == v
}

/// Leaves of equal key come in the same order in `r` as in `s`.
pub open spec fn same_order_within_keys(boxes: Seq<AABB>, axis: int, r: Seq<usize>, s: Seq<usize>) -> bool {
    forall|v: i64| #[trigger] r.filter(key_is(boxes, axis, v)) == s.filter(key_is(boxes, axis, v))
}

/// Along `axis`, no leaf below the left child of node `k` has a larger key
/// than a leaf below its right child.
pub open spec fn split_along(boxes: Seq<AABB>, nodes: Seq<BvhBranch>, k: int, axis: int) -> bool {
    forall|a: usize, b: usize|
        #[trigger] child_leaves(nodes, nodes[k].left, k).contains(a) && #[trigger] child_leaves(
            nodes,
            nodes[k].right,
            k,
        ).contains(b) ==> leaf_key(boxes, a, axis) <= leaf_key(boxes, b, axis)
}

/// Node `k` separates its leaves along some axis.
pub open spec fn split_ok(boxes: Seq<AABB>, nodes: Seq<BvhBranch>, k: int) -> bool {
    exists|axis: int| 0 <= axis < 3 && #[trigger] split_along(boxes, nodes, k, axis)
}

/// Node `k` splits its leaves at the middle. Over one leaf it has that
/// leaf on both sides; over two leaves, one leaf on each side; over
/// `m >= 3` leaves, two subtrees, the left over `m / 2` of the leaves and the
/// right over the others.
pub open spec fn split_even(nodes: Seq<BvhBranch>, k: int) -> bool {
    let m = node_leaves(nodes, k).len();
    let l = child_leaves(nodes, nodes[k].left, k);
    let r = child_leaves(nodes, nodes[k].right, k);
    &&& node_leaves(nodes, k).finite()
    &&& m == 1 ==> nodes[k].left == nodes[k].right && nodes[k].left is Leaf
    &&& m == 2 ==> nodes[k].left is Leaf && nodes[k].right is Leaf && nodes[k].left != nodes[k].right
    &&& m >= 3 ==> {
        &&& nodes[k].left is Node
        &&& nodes[k].right is Node
        &&& l.disjoint(r)
        &&& l.len() == m / 2
        &&& r.len() == m - m / 2
    }
}

pub open spec fn nodes_even(nodes: Seq<BvhBranch>) -> bool {
    forall|k: int| 0 <= k < nodes.len() ==> #[trigger] split_even(nodes, k)
}

pub open spec fn nodes_split(boxes: Seq<AABB>, nodes: Seq<BvhBranch>) -> bool {
    forall|k: int| 0 <= k < nodes.len() ==> #[trigger] split_ok(boxes, nodes, k)
}

/// The leaves of a node depend only on the nodes up to it, so appending
/// nodes leaves them unchanged.
proof fn lemma_node_leaves_prefix(nodes: Seq<BvhBranch>, longer: Seq<BvhBranch>, k: int)
    requires
        nodes.len() <= longer.len(),
        longer.subrange(0, nodes.len() as int) == nodes,
        0 <= k < nodes.len(),
    ensures
        node_leaves(longer, k) == node_leaves(nodes, k),
    decreases k,
{
    assert(longer[k] == nodes[k]);
    match nodes[k].left {
        Child::Node(m) => if 0 <= m < k {
            lemma_node_leaves_prefix(nodes, longer, m as int);
        },
        _ => {},
    }
    match nodes[k].right {
        Child::Node(m) => if 0 <= m < k {
            lemma_node_leaves_prefix(nodes, longer, m as int);
        },
        _ => {},
    }
}

/// Well-formedness of the nodes survives appending well-formed nodes.
proof fn lemma_nodes_ok_prefix(boxes: Seq<AABB>, nodes: Seq<BvhBranch>, longer: Seq<BvhBranch>)
    requires
        nodes.len() <= longer.len(),
        longer.subrange(0, nodes.len() as int) == nodes,
        nodes_ok(boxes, nodes),
    ensures
        forall|k: int| 0 <= k < nodes.len() ==> #[trigger] branch_ok(boxes, longer, k),
{
    assert forall|k: int| 0 <= k < nodes.len() implies #[trigger] branch_ok(boxes, longer, k) by {
        assert(branch_ok(boxes, nodes, k));
        assert(longer[k] == nodes[k]);
        match nodes[k].left {
            Child::Node(m) => assert(longer[m as int] == nodes[m as int]),
            _ => {},
        }
        match nodes[k].right {
            Child::Node(m) => assert(longer[m as int] == nodes[m as int]),
            _ => {},
        }
    }
}

/// How the nodes separate their leaves survives appending nodes.
proof fn lemma_split_prefix(boxes: Seq<AABB>, nodes: Seq<BvhBranch>, longer: Seq<BvhBranch>)
    requires
        nodes.len() <= longer.len(),
        longer.subrange(0, nodes.len() as int) == nodes,
        nodes_split(boxes, nodes),
    ensures
        forall|k: int| 0 <= k < nodes.len() ==> #[trigger] split_ok(boxes, longer, k),
{
    assert forall|k: int| 0 <= k < nodes.len() implies #[trigger] split_ok(boxes, longer, k) by {
        assert(split_ok(boxes, nodes, k));
        let axis = choose|axis: int| 0 <= axis < 3 && #[trigger] split_along(boxes, nodes, k, axis);
        assert(longer[k] == nodes[k]);
        match nodes[k].left {
            Child::Node(m) => if 0 <= m < k {
                lemma_node_leaves_prefix(nodes, longer, m as int);
            },
            _ => {},
        }
        match nodes[k].right {
            Child::Node(m) => if 0 <= m < k {
                lemma_node_leaves_prefix(nodes, longer, m as int);
            },
            _ => {},
        }
        assert(child_leaves(longer, longer[k].left, k) == child_leaves(nodes, nodes[k].left, k));
        assert(child_leaves(longer, longer[k].right, k) == child_leaves(nodes, nodes[k].right, k));
        assert(split_along(boxes, longer, k, axis));
    }
}

/// Middle splits survive appending nodes.
proof fn lemma_even_prefix(nodes: Seq<BvhBranch>, longer: Seq<BvhBranch>)
    requires
        nodes.len() <= longer.len(),
        longer.subrange(0, nodes.len() as int) == nodes,
        nodes_even(nodes),
    ensures
        forall|k: int| 0 <= k < nodes.len() ==> #[trigger] split_even(longer, k),
{
    assert forall|k: int| 0 <= k < nodes.len() implies #[trigger] split_even(longer, k) by {
        assert(split_even(nodes, k));
        assert(longer[k] == nodes[k]);
        lemma_node_leaves_prefix(nodes, longer, k);
        match nodes[k].left {
            Child::Node(m) => if 0 <= m < k {
                lemma_node_leaves_prefix(nodes, longer, m as int);
            },
            _ => {},
        }
        match nodes[k].right {
            Child::Node(m) => if 0 <= m < k {
                lemma_node_leaves_prefix(nodes, longer, m as int);
            },
            _ => {},
        }
        assert(child_leaves(longer, longer[k].left, k) == child_leaves(nodes, nodes[k].left, k));
        assert(child_leaves(longer, longer[k].right, k) == child_leaves(nodes, nodes[k].right, k));
    }
}

/// Every leaf below a node is a valid leaf index, and the node's box holds
/// the leaf's box.
pub proof fn lemma_node_box_holds_leaves(boxes: Seq<AABB>, nodes: Seq<BvhBranch>, k: int)
    requires
        nodes_ok(boxes, nodes),
        0 <= k < nodes.len(),
    ensures
        forall|j: usize| #[trigger] node_leaves(nodes, k).contains(j) ==> j < boxes.len()
            && nodes[k].aabb_box.contains_box(boxes[j as int]),
    decreases k,
{
    assert(branch_ok(boxes, nodes, k));
    let l = nodes[k].left;
    let r = nodes[k].right;
    let lb = child_box(boxes, nodes, l);
    let rb = child_box(boxes, nodes, r);
    lemma_surrounding_box_contains(lb, rb);
    match l {
        Child::Node(m) => lemma_node_box_holds_leaves(boxes, nodes, m as int),
        _ => {},
    }
    match r {
        Child::Node(m) => lemma_node_box_holds_leaves(boxes, nodes, m as int),
        _ => {},
    }
    assert forall|j: usize| #[trigger] node_leaves(nodes, k).contains(j) implies j < boxes.len()
        && nodes[k].aabb_box.contains_box(boxes[j as int]) by {
        if child_leaves(nodes, l, k).contains(j) {
            match l {
                Child::Node(m) => {
                    assert(node_leaves(nodes, m as int).contains(j));
                    lemma_contains_box_trans(nodes[k].aabb_box, lb, boxes[j as int]);
                },
                _ => {},
            }
        } else {
            match r {
                Child::Node(m) => {
                    assert(node_leaves(nodes, m as int).contains(j));
                    lemma_contains_box_trans(nodes[k].aabb_box, rb, boxes[j as int]);
                },
                _ => {},
            }
        }
    }
}

/// A node's box is the smallest box around the boxes of its leaves.
pub proof fn lemma_node_box_is_hull(boxes: Seq<AABB>, nodes: Seq<BvhBranch>, k: int)
    requires
        nodes_ok(boxes, nodes),
        0 <= k < nodes.len(),
    ensures
        is_hull(boxes, node_leaves(nodes, k), nodes[k].aabb_box),
    decreases k,
{
    assert(branch_ok(boxes, nodes, k));
    let l = nodes[k].left;
    let r = nodes[k].right;
    match l {
        Child::Node(m) => lemma_node_box_is_hull(boxes, nodes, m as int),
        Child::Leaf(j) => lemma_hull_single(boxes, j),
    }
    match r {
        Child::Node(m) => lemma_node_box_is_hull(boxes, nodes, m as int),
        Child::Leaf(j) => lemma_hull_single(boxes, j),
    }
    lemma_hull_union(
        boxes,
        child_leaves(nodes, l, k),
        child_leaves(nodes, r, k),
        child_box(boxes, nodes, l),
        child_box(boxes, nodes, r),
    );
}

proof fn lemma_to_set_concat(a: Seq<usize>, b: Seq<usize>)
    ensures
        (a + b).to_set() == a.to_set().union(b.to_set()),
{
    assert forall|x: usize| (a + b).to_set().contains(x) <==> a.to_set().union(
        b.to_set(),
    ).contains(x) by {
        if (a + b).contains(x) {
            let i = choose|i: int| 0 <= i < (a + b).len() && (a + b)[i] == x;
            if i < a.len() {
                assert(a[i] == x);
            } else {
                assert(b[i - a.len()] == x);
            }
        }
        if a.contains(x) {
            let i = choose|i: int| 0 <= i < a.len() && a[i] == x;
            assert((a + b)[i] == x);
        }
        if b.contains(x) {
            let i = choose|i: int| 0 <= i < b.len() && b[i] == x;
            assert((a + b)[i + a.len()] == x);
        }
    }
    assert((a + b).to_set() =~= a.to_set().union(b.to_set()));
}

proof fn lemma_same_multiset_same_set(a: Seq<usize>, b: Seq<usize>)
    requires
        a.to_multiset() == b.to_multiset(),
    ensures
        a.to_set() == b.to_set(),
{
    assert forall|x: usize| a.to_set().contains(x) <==> b.to_set().contains(x) by {
        assert(a.contains(x) <==> a.to_multiset().count(x) > 0);
        assert(b.contains(x) <==> b.to_multiset().count(x) > 0);
    }
    assert(a.to_set() =~= b.to_set());
}

/// Inserting `x` in front of every entry of larger key appends it to the
/// entries of its own key and leaves the other keys' entries alone.
proof fn lemma_insert_keeps_key_order(boxes: Seq<AABB>, axis: int, r: Seq<usize>, p: int, x: usize, v: i64)
    requires
        0 <= p <= r.len(),
        forall|q: int| 0 <= q < r.len() ==> r[q] < boxes.len(),
        forall|q: int| p <= q < r.len() ==> leaf_key(boxes, x, axis) < leaf_key(boxes, #[trigger] r[q], axis),
    ensures
        r.insert(p, x).filter(key_is(boxes, axis, v)) == if leaf_key(boxes, x, axis) == v {
            r.filter(key_is(boxes, axis, v)).push(x)
        } else {
            r.filter(key_is(boxes, axis, v))
        },
{
    let f = key_is(boxes, axis, v);
    let a = r.subrange(0, p);
    let b = r.subrange(p, r.len() as int);
    assert(r == a + b);
    assert(r.insert(p, x) == a.push(x) + b);
    Seq::filter_distributes_over_add(a, b, f);
    Seq::filter_distributes_over_add(a.push(x), b, f);
    a.lemma_filter_push(x, f);
    if leaf_key(boxes, x, axis) == v {
        assert(b.all(|y: usize| !f(y))) by {
            assert forall|q: int| 0 <= q < b.len() implies !f(#[trigger] b[q]) by {
                assert(b[q] == r[q + p]);
            }
        }
        b.lemma_all_neg_filter_empty(f);
        assert(b.filter(f) =~= Seq::<usize>::empty());
        assert(a.filter(f) + b.filter(f) =~= a.filter(f));
        assert(a.filter(f).push(x) + b.filter(f) =~= a.filter(f).push(x));
    }
}

/// Insertion sort of leaf indices by their key along `axis`; it is stable:
/// leaves of equal key keep their input order.
fn sort_by_key(boxes: &Vec<AABB>, items: &Vec<usize>, axis: usize) -> (r: Vec<usize>)
    requires
        axis < 3,
        forall|i: int| 0 <= i < items.len() ==> items[i] < boxes.len(),
    ensures
        r.len() == items.len(),
        r@.to_multiset() == items@.to_multiset(),
        sorted_by_key(boxes@, r@, axis as int),
        same_order_within_keys(boxes@, axis as int, r@, items@),
        forall|i: int| 0 <= i < r.len() ==> r[i] < boxes.len(),
{
    let mut r: Vec<usize> = Vec::new();
    let mut i: usize = 0;
    proof {
        assert forall|v: i64| #[trigger] r@.filter(key_is(boxes@, axis as int, v))
            == items@.subrange(0, 0).filter(key_is(boxes@, axis as int, v)) by {
            r@.lemma_all_neg_filter_empty(key_is(boxes@, axis as int, v));
            items@.subrange(0, 0).lemma_all_neg_filter_empty(key_is(boxes@, axis as int, v));
            assert(r@.filter(key_is(boxes@, axis as int, v)) =~= items@.subrange(0, 0).filter(
                key_is(boxes@, axis as int, v),
            ));
        }
    }
    while i < items.len()
        invariant
            axis < 3,
            i <= items.len(),
            r.len() == i,
            forall|q: int| 0 <= q < items.len() ==> items[q] < boxes.len(),
            r@.to_multiset() == items@.subrange(0, i as int).to_multiset(),
            sorted_by_key(boxes@, r@, axis as int),
            same_order_within_keys(boxes@, axis as int, r@, items@.subrange(0, i as int)),
            forall|q: int| 0 <= q < r.len() ==> r[q] < boxes.len(),
        decreases items.len() - i,
    {
        let x = items[i];
        let kx = boxes[x].min.axis(axis);
        let mut p: usize = 0;
        while p < r.len() && boxes[r[p]].min.axis(axis) <= kx
            invariant
                axis < 3,
                p <= r.len(),
                forall|q: int| 0 <= q < r.len() ==> r[q] < boxes.len(),
                forall|q: int| 0 <= q < p ==> leaf_key(boxes@, #[trigger] r[q], axis as int) <= kx,
            decreases r.len() - p,
        {
            p = p + 1;
        }
        proof {
            if p < r.len() {
                assert forall|q: int| p <= q < r.len() implies kx < leaf_key(
                    boxes@,
                    #[trigger] r[q],
                    axis as int,
                ) by {
                    if q > p {
                        assert(leaf_key(boxes@, r[p as int], axis as int) <= leaf_key(
                            boxes@,
                            r[q],
                            axis as int,
                        ));
                    }
                }
            }
        }
        let ghost before = r@;
        r.insert(p, x);
        proof {
            assert(items@.subrange(0, i + 1) == items@.subrange(0, i as int).push(x));
            assert(r@ == before.insert(p as int, x));
            assert forall|a: int, b: int| 0 <= a < b < r.len() implies leaf_key(
                boxes@,
                #[trigger] r@[a],
                axis as int,
            ) <= leaf_key(boxes@, #[trigger] r@[b], axis as int) by {
                if b < p {
                } else if b == p {
                } else if a < p {
                    assert(r@[b] == before[b - 1]);
                } else if a == p {
                    assert(r@[b] == before[b - 1]);
                } else {
                    assert(r@[a] == before[a - 1]);
                    assert(r@[b] == before[b - 1]);
                }
            }
            assert forall|q: int| 0 <= q < r.len() implies r[q] < boxes.len() by {
                if q > p {
                    assert(r@[q] == before[q - 1]);
                }
            }
            assert forall|v: i64| #[trigger] r@.filter(key_is(boxes@, axis as int, v))
                == items@.subrange(0, i + 1).filter(key_is(boxes@, axis as int, v)) by {
                lemma_insert_keeps_key_order(boxes@, axis as int, before, p as int, x, v);
                items@.subrange(0, i as int).lemma_filter_push(x, key_is(boxes@, axis as int, v));
                assert(before.filter(key_is(boxes@, axis as int, v)) == items@.subrange(0, i as int).filter(
                    key_is(boxes@, axis as int, v),
                ));
            }
        }
        i = i + 1;
    }
    assert(items@.subrange(0, i as int) == items@);
    r
}

fn push_branch(boxes: &Vec<AABB>, nodes: &mut Vec<BvhBranch>, left: Child, right: Child) -> (k: usize)
    requires
        nodes_ok(boxes@, old(nodes)@),
        old(nodes).len() < usize::MAX,
        child_ok(left, old(nodes).len() as int, boxes.len() as int),
        child_ok(right, old(nodes).len() as int, boxes.len() as int),
    ensures
        k == old(nodes).len(),
        final(nodes)@ == old(nodes)@.push(final(nodes)@[k as int]),
        final(nodes)@[k as int].left == left,
        final(nodes)@[k as int].right == right,
        nodes_ok(boxes@, final(nodes)@),
{
    let lb = match left {
        Child::Leaf(j) => boxes[j],
        Child::Node(m) => nodes[m].aabb_box,
    };
    let rb = match right {
        Child::Leaf(j) => boxes[j],
        Child::Node(m) => nodes[m].aabb_box,
    };
    let bx = AABB::surrounding_box(&lb, &rb);
    let ghost before = nodes@;
    nodes.push(BvhBranch { left, right, aabb_box: bx });
    proof {
        assert(nodes@.subrange(0, before.len() as int) == before);
        lemma_nodes_ok_prefix(boxes@, before, nodes@);
        assert(branch_ok(boxes@, nodes@, before.len() as int));
    }
    nodes.len() - 1
}

/// Builds the subtree over `items` (leaf indices) and returns its root.
fn build(boxes: &Vec<AABB>, nodes: &mut Vec<BvhBranch>, items: Vec<usize>) -> (k: usize)
    requires
        items.len() >= 1,
        forall|i: int| 0 <= i < items.len() ==> items[i] < boxes.len(),
        nodes_ok(boxes@, old(nodes)@),
        nodes_split(boxes@, old(nodes)@),
        nodes_even(old(nodes)@),
        items@.no_duplicates(),
        old(nodes).len() + 2 * items.len() <= usize::MAX,
    ensures
        nodes_split(boxes@, final(nodes)@),
        nodes_even(final(nodes)@),
        old(nodes).len() <= k,
        k == final(nodes).len() - 1,
        final(nodes).len() + 1 <= old(nodes).len() + 2 * items.len(),
        final(nodes)@.subrange(0, old(nodes).len() as int) == old(nodes)@,
        nodes_ok(boxes@, final(nodes)@),
        node_leaves(final(nodes)@, k as int) == items@.to_set(),
    decreases items.len(),
{
    let n = items.len();
    let ghost start = nodes@;
    if n == 1 {
        let j = items[0];
        let k = push_branch(boxes, nodes, Child::Leaf(j), Child::Leaf(j));
        proof {
            assert(nodes@.subrange(0, start.len() as int) == start);
            assert(items@.to_set() =~= set![j]) by {
                assert(items@.contains(j));
            }
            assert(node_leaves(nodes@, k as int) =~= set![j]);
            lemma_split_prefix(boxes@, start, nodes@);
            assert(split_along(boxes@, nodes@, k as int, 0));
            assert(split_ok(boxes@, nodes@, k as int));
            lemma_even_prefix(start, nodes@);
            assert(set![j].len() == 1);
            assert(split_even(nodes@, k as int));
        }
        return k;
    }
    let axis = random_index(2);
    if n == 2 {
        let a = items[0];
        let b = items[1];
        let (l, r) = if boxes[b].min.axis(axis) < boxes[a].min.axis(axis) {
            (b, a)
        } else {
            (a, b)
        };
        let k = push_branch(boxes, nodes, Child::Leaf(l), Child::Leaf(r));
        proof {
            assert(nodes@.subrange(0, start.len() as int) == start);
            assert(items@.to_set() =~= set![a, b]) by {
                assert(items@.contains(a));
                assert(items@.contains(b));
                assert(items@ == seq![a, b]);
            }
            assert(node_leaves(nodes@, k as int) =~= set![a, b]);
            lemma_split_prefix(boxes@, start, nodes@);
            assert(split_along(boxes@, nodes@, k as int, axis as int));
            assert(split_ok(boxes@, nodes@, k as int));
            lemma_even_prefix(start, nodes@);
            assert(a != b);
            assert(set![a, b].len() == 2);
            assert(split_even(nodes@, k as int));
        }
        return k;
    }
    let mut left = sort_by_key(boxes, &items, axis);
    let ghost sorted = left@;
    let right = left.split_off(n / 2);
    let ghost left_part = left@;
    let ghost right_part = right@;
    proof {
        items@.lemma_multiset_has_no_duplicates();
        assert forall|x: usize| sorted.to_multiset().contains(x) implies sorted.to_multiset().count(x)
            == 1 by {}
        sorted.lemma_multiset_has_no_duplicates_conv();
        assert(left_part.no_duplicates());
        assert(right_part.no_duplicates()) by {
            assert forall|i: int, j: int| 0 <= i < right_part.len() && 0 <= j < right_part.len() && i
                != j implies right_part[i] != right_part[j] by {
                assert(right_part[i] == sorted[i + left_part.len()]);
                assert(right_part[j] == sorted[j + left_part.len()]);
            }
        }
        assert(left_part.to_set().disjoint(right_part.to_set())) by {
            assert forall|x: usize| left_part.to_set().contains(x) implies !right_part.to_set().contains(
                x,
            ) by {
                let i = choose|i: int| 0 <= i < left_part.len() && left_part[i] == x;
                if right_part.contains(x) {
                    let j = choose|j: int| 0 <= j < right_part.len() && right_part[j] == x;
                    assert(sorted[i] == x);
                    assert(sorted[j + left_part.len()] == x);
                }
            }
        }
        left_part.unique_seq_to_set();
        right_part.unique_seq_to_set();
        items@.unique_seq_to_set();
        assert(sorted == left@ + right@);
        lemma_to_set_concat(left@, right@);
        lemma_same_multiset_same_set(sorted, items@);
    }
    let lk = build(boxes, nodes, left);
    let ghost after_left = nodes@;
    let rk = build(boxes, nodes, right);
    let ghost after_right = nodes@;
    proof {
        lemma_node_leaves_prefix(after_left, after_right, lk as int);
    }
    let k = push_branch(boxes, nodes, Child::Node(lk), Child::Node(rk));
    proof {
        assert(nodes@.subrange(0, after_right.len() as int) == after_right);
        lemma_node_leaves_prefix(after_right, nodes@, lk as int);
        lemma_node_leaves_prefix(after_right, nodes@, rk as int);
        assert(after_right.subrange(0, after_left.len() as int) == after_left);
        assert(nodes@.subrange(0, start.len() as int) == start) by {
            assert(after_left.subrange(0, start.len() as int) == start);
            assert forall|q: int| 0 <= q < start.len() implies nodes@[q] == start[q] by {
                assert(after_left[q] == start[q]);
                assert(after_right[q] == after_left[q]);
                assert(nodes@[q] == after_right[q]);
            }
            assert(nodes@.subrange(0, start.len() as int) =~= start);
        }
        assert(node_leaves(nodes@, k as int) =~= items@.to_set());
        lemma_split_prefix(boxes@, after_right, nodes@);
        assert forall|a: usize, b: usize|
            #[trigger] child_leaves(nodes@, nodes@[k as int].left, k as int).contains(a)
                && #[trigger] child_leaves(nodes@, nodes@[k as int].right, k as int).contains(b)
            implies leaf_key(boxes@, a, axis as int) <= leaf_key(boxes@, b, axis as int) by {
            assert(left_part.contains(a));
            assert(right_part.contains(b));
            let i = choose|i: int| 0 <= i < left_part.len() && left_part[i] == a;
            let j = choose|j: int| 0 <= j < right_part.len() && right_part[j] == b;
            assert(sorted[i] == a);
            assert(sorted[j + left_part.len()] == b);
        }
        assert(split_along(boxes@, nodes@, k as int, axis as int));
        assert(split_ok(boxes@, nodes@, k as int));
        lemma_even_prefix(after_right, nodes@);
        assert(split_even(nodes@, k as int));
    }
    k
}

/// The box test never rejects a box that holds the box of a leaf whose
/// test gives a hit before the bound: a box test `box_hit(b, t)` may answer
/// `false` only when no leaf inside `b` is hit before `t`.
pub open spec fn box_test_conservative<B: Fn(AABB, i64) -> bool, L: Fn(usize) -> Option<i64>>(
    boxes: Seq<AABB>,
    box_hit: B,
    leaf_hit: L,
) -> bool {
    forall|bx: AABB, t: i64, j: usize, s: i64, r: bool|
        #![trigger box_hit.ensures((bx, t), r), leaf_hit.ensures((j,), Some(s))]
        j < boxes.len() && bx.contains_box(boxes[j as int]) && leaf_hit.ensures((j,), Some(s))
            && s < t && box_hit.ensures((bx, t), r) ==> r
}

impl BvhNode {
    /// The tree has consistent children and boxes, each node separates its
    /// leaves along some axis and splits them at the middle, and the root reaches exactly the leaves
    /// `0..boxes.len()`.
    pub open spec fn wf(self) -> bool {
        &&& nodes_ok(self.boxes@, self.nodes@)
        &&& nodes_split(self.boxes@, self.nodes@)
        &&& nodes_even(self.nodes@)
        &&& (self.boxes.len() == 0 <==> self.nodes.len() == 0)
        &&& self.nodes.len() > 0 ==> node_leaves(self.nodes@, self.nodes.len() - 1) == all_leaves(
            self.boxes.len() as int,
        )
    }

    /// The empty hierarchy: no leaves, no nodes; every query misses.
    pub fn new() -> (t: BvhNode)
        ensures
            t.wf(),
            t.boxes@.len() == 0,
    {
        BvhNode { boxes: Vec::new(), nodes: Vec::new() }
    }

    /// Builds the hierarchy over the leaves whose boxes are given, leaf `j`
    /// having box `boxes[j]`. Each node draws an axis at random; two leaves
    /// are ordered by their boxes' minimum along it, more are sorted by that
    /// key (stably) and split at the middle. Each node caches the union of
    /// its children's boxes. A hierarchy over no leaves is a configuration
    /// error, which `requires` rules out.
    pub fn from(boxes: Vec<AABB>) -> (t: BvhNode)
        requires
            1 <= boxes.len() <= usize::MAX / 4,
        ensures
            t.wf(),
            t.boxes@ == boxes@,
            t.nodes.len() >= 1,
    {
        let mut nodes: Vec<BvhBranch> = Vec::new();
        let n = boxes.len();
        let mut items: Vec<usize> = Vec::new();
        let mut i: usize = 0;
        while i < n
            invariant
                n == boxes.len(),
                i <= n,
                items@ == Seq::new(i as nat, |q: int| q as usize),
            decreases n - i,
        {
            items.push(i);
            i = i + 1;
        }
        let ghost all = items@;
        assert(all.no_duplicates());
        let root = build(&boxes, &mut nodes, items);
        proof {
            assert forall|j: usize| all.to_set().contains(j) <==> all_leaves(n as int).contains(j) by {
                if j < n {
                    assert(all[j as int] == j);
                }
            }
            assert(all.to_set() =~= all_leaves(n as int));
        }
        BvhNode { boxes, nodes }
    }
}

/// The hierarchy's query finds what the linear scan finds. Given the same
/// leaf test over leaves `0..n`, a result `r1` of [`BvhNode::hit`] and a
/// result `r2` of [`crate::hittable_list::closest_hit`] (both are nearest
/// hits, by their contracts) either both miss or both hit at the same
/// parameter; and when a single leaf may report a hit at that parameter,
/// they name the same leaf.
pub proof fn lemma_hit_agrees_with_scan(
    outcome: spec_fn(usize, i64) -> bool,
    n: int,
    t_max: i64,
    r1: Option<(usize, i64)>,
    r2: Option<(usize, i64)>,
)
    requires
        is_nearest(outcome, all_leaves(n), t_max, r1),
        is_nearest(outcome, all_leaves(n), t_max, r2),
    ensures
        r1 is Some <==> r2 is Some,
        r1 matches Some((j1, s1)) ==> r2 matches Some((j2, s2)) && s1 == s2,
        (r1 matches Some((j1, s1)) && (forall|k: usize|
            #[trigger] all_leaves(n).contains(k) && outcome(k, s1) ==> k == j1)) ==> r1 == r2,
{
    let leaves = all_leaves(n);
    match r1 {
        Some((j1, s1)) => match r2 {
            Some((j2, s2)) => {
                assert(leaves.contains(j1) && outcome(j1, s1));
                assert(leaves.contains(j2) && outcome(j2, s2));
            },
            None => {
                assert(leaves.contains(j1) && outcome(j1, s1));
            },
        },
        None => match r2 {
            Some((j2, s2)) => {
                assert(leaves.contains(j2) && outcome(j2, s2));
            },
            None => {},
        },
    }
}

impl BvhNode {
    fn hit_child<B, L>(&self, c: Child, k: usize, t_max: i64, box_hit: &B, leaf_hit: &L) -> (r:
        Option<(usize, i64)>) where B: Fn(AABB, i64) -> bool, L: Fn(usize) -> Option<i64>
        requires
            nodes_ok(self.boxes@, self.nodes@),
            k < self.nodes.len(),
            child_ok(c, k as int, self.boxes.len() as int),
            forall|b: AABB, t: i64| box_hit.requires((b, t)),
            forall|j: usize| j < self.boxes.len() ==> leaf_hit.requires((j,)),
            leaf_deterministic(*leaf_hit),
            box_test_conservative(self.boxes@, *box_hit, *leaf_hit),
        ensures
            is_nearest(leaf_outcome(*leaf_hit), child_leaves(self.nodes@, c, k as int), t_max, r),
        decreases k, 0int,
    {
        match c {
            Child::Leaf(j) => {
                let o = leaf_hit(j);
                let r = match o {
                    Some(s) => if s < t_max {
                        Some((j, s))
                    } else {
                        None
                    },
                    None => None,
                };
                proof {
                    lemma_leaf_result(*leaf_hit, j, o, t_max);
                    assert(child_leaves(self.nodes@, c, k as int) == set![j]);
                }
                r
            },
            Child::Node(m) => self.hit_node(m, t_max, box_hit, leaf_hit),
        }
    }

    fn hit_node<B, L>(&self, k: usize, t_max: i64, box_hit: &B, leaf_hit: &L) -> (r: Option<
        (usize, i64),
    >) where B: Fn(AABB, i64) -> bool, L: Fn(usize) -> Option<i64>
        requires
            nodes_ok(self.boxes@, self.nodes@),
            k < self.nodes.len(),
            forall|b: AABB, t: i64| box_hit.requires((b, t)),
            forall|j: usize| j < self.boxes.len() ==> leaf_hit.requires((j,)),
            leaf_deterministic(*leaf_hit),
            box_test_conservative(self.boxes@, *box_hit, *leaf_hit),
        ensures
            is_nearest(leaf_outcome(*leaf_hit), node_leaves(self.nodes@, k as int), t_max, r),
        decreases k, 1int,
    {
        let node = self.nodes[k];
        assert(branch_ok(self.boxes@, self.nodes@, k as int));
        let ok = box_hit(node.aabb_box, t_max);
        if !ok {
            proof {
                lemma_node_box_holds_leaves(self.boxes@, self.nodes@, k as int);
                let outcome = leaf_outcome(*leaf_hit);
                assert forall|j: usize, s: i64| #[trigger]
                    node_leaves(self.nodes@, k as int).contains(j) && #[trigger] outcome(j, s)
                    implies t_max <= s by {
                    assert(leaf_hit.ensures((j,), Some(s)));
                    assert(box_hit.ensures((node.aabb_box, t_max), ok));
                }
            }
            return None;
        }
        let rl = self.hit_child(node.left, k, t_max, box_hit, leaf_hit);
        let bound = match rl {
            Some((_, s)) => s,
            None => t_max,
        };
        let rr = self.hit_child(node.right, k, bound, box_hit, leaf_hit);
        let r = if rr.is_some() {
            rr
        } else {
            rl
        };
        proof {
            lemma_nearest_join(
                leaf_outcome(*leaf_hit),
                child_leaves(self.nodes@, node.left, k as int),
                child_leaves(self.nodes@, node.right, k as int),
                t_max,
                rl,
                rr,
            );
        }
        r
    }

    /// Nearest hit through the hierarchy. A node whose box fails
    /// `box_hit(box, bound)` is skipped with everything below it; otherwise
    /// its left child is searched, then its right child below the left's
    /// hit. With a deterministic leaf test and a box test that never rejects
    /// a box around a leaf hit before the bound, the result is a nearest hit
    /// over all leaves, exactly as for the linear scan
    /// [`crate::hittable_list::closest_hit`].
    pub fn hit<B, L>(&self, t_max: i64, box_hit: &B, leaf_hit: &L) -> (r: Option<(usize, i64)>) where
        B: Fn(AABB, i64) -> bool,
        L: Fn(usize) -> Option<i64>,

        requires
            self.wf(),
            forall|b: AABB, t: i64| box_hit.requires((b, t)),
            forall|j: usize| j < self.boxes.len() ==> leaf_hit.requires((j,)),
            leaf_deterministic(*leaf_hit),
            box_test_conservative(self.boxes@, *box_hit, *leaf_hit),
        ensures
            is_nearest(leaf_outcome(*leaf_hit), all_leaves(self.boxes.len() as int), t_max, r),
    {
        if self.nodes.len() == 0 {
            proof {
                assert(all_leaves(self.boxes.len() as int) =~= Set::empty());
            }
            return None;
        }
        self.hit_node(self.nodes.len() - 1, t_max, box_hit, leaf_hit)
    }

    /// The box around every leaf: the root's box, which is the union of all
    /// leaf boxes; `None` for an empty tree.
    pub fn bounding_box(&self) -> (r: Option<AABB>)
        requires
            self.wf(),
        ensures
            r is None <==> self.boxes.len() == 0,
            r matches Some(b) ==> b == union_seq(self.boxes@),
    {
        if self.nodes.len() == 0 {
            return None;
        }
        let k = self.nodes.len() - 1;
        proof {
            let n = self.boxes.len() as int;
            lemma_node_box_is_hull(self.boxes@, self.nodes@, k as int);
            lemma_union_seq_hull(self.boxes@, n);
            assert(self.boxes@.subrange(0, n) == self.boxes@);
            assert(all_leaves(n) =~= Set::new(|j: usize| j < n));
            lemma_hull_unique(
                self.boxes@,
                all_leaves(n),
                self.nodes@[k as int].aabb_box,
                union_seq(self.boxes@),
            );
        }
        Some(self.nodes[k].aabb_box)
    }
}

} // verus!
