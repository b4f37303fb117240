//! A bounding volume hierarchy over a list of objects, each known by its
//! index and its bounding box. The tree lives in an arena: every node's
//! children are objects or nodes stored before it, and the root is the last
//! node.
use vstd::prelude::*;
use crate::aabb::{AABB, Axis};
use vstd::arithmetic::power2::{pow2, lemma_pow2_unfold};

verus! {

/// Relies on rand's `Rng::gen_range` on the thread-local generator: a value
/// drawn from `0..3`, so below 3.
#[verifier::external_body]
fn random_axis_index() -> (r: usize)
    ensures
        r < 3,
{
    rand::Rng::gen_range(&mut rand::thread_rng(), 0..3usize)
}

/// An axis drawn uniformly at random.
pub fn random_axis() -> (r: Axis) {
    let i = random_axis_index();
    if i == 0 {
        Axis::X
    } else if i == 1 {
        Axis::Y
    } else {
        Axis::Z
    }
}

/// What a node's child is: an object, by index, or an earlier node.
#[derive(Clone, Copy, Debug, PartialEq, Eq, Structural)]
pub enum Child {
    Object(usize),
    Node(usize),
}

#[derive(Clone, Copy, Debug)]
pub struct BvhNode {
    pub left: Child,
    pub right: Child,
    pub aabb: AABB,
    /// The axis along which this node's objects were ordered before the split.
    pub axis: Axis,
}

/// Why a hierarchy could not be built.
#[derive(Clone, Copy, Debug, PartialEq, Eq, Structural)]
pub enum BvhError {
    /// There is no object to build over.
    Empty,
    /// The bounding box of the object at this index has a NaN bound.
    InvalidBox(usize),
}

pub struct BVH {
    pub nodes: Vec<BvhNode>,
    pub boxes: Vec<AABB>,
}

/// A hit that a test on one object reported: the ray parameter `t` and
/// whatever else the caller keeps of it.
pub struct Hit<D> {
    pub t: crate::scalar::Scalar,
    pub record: D,
}

/// The value that `f` returns on `a`, for a function that returns one value
/// for each argument.
pub open spec fn answer<A, R, F: Fn(A) -> R>(f: F, a: A) -> R {
    choose|r: R| call_ensures(f, (a,), r)
}

/// `f` can be called on every argument and returns the same value each time.
pub open spec fn well_behaved<A, R, F: Fn(A) -> R>(f: F) -> bool {
    &&& forall|a: A| call_requires(f, (a,))
    &&& forall|a: A, r1: R, r2: R| call_ensures(f, (a,), r1) && call_ensures(f, (a,), r2) ==> r1 == r2
}

proof fn lemma_answer<A, R, F: Fn(A) -> R>(f: F, a: A, r: R)
    requires
        well_behaved(f),
        call_ensures(f, (a,), r),
    ensures
        answer(f, a) == r,
{
}

/// Every box of the list is valid.
pub open spec fn boxes_valid(boxes: Seq<AABB>) -> bool {
    forall|i: int| 0 <= i < boxes.len() ==> (#[trigger] boxes[i]).valid()
}

pub open spec fn child_below(c: Child, k: int, n: int) -> bool {
    match c {
        Child::Object(i) => i < n,
        Child::Node(j) => j < k,
    }
}

pub open spec fn child_box(nodes: Seq<BvhNode>, boxes: Seq<AABB>, c: Child) -> AABB {
    match c {
        Child::Object(i) => boxes[i as int],
        Child::Node(j) => nodes[j as int].aabb,
    }
}

/// Node `k` refers only to objects of the list and to earlier nodes, and
/// its box is the union of its children's boxes.
pub open spec fn node_ok(nodes: Seq<BvhNode>, boxes: Seq<AABB>, k: int) -> bool {
    let nd = nodes[k];
    &&& child_below(nd.left, k, boxes.len() as int)
    &&& child_below(nd.right, k, boxes.len() as int)
    &&& nd.aabb == child_box(nodes, boxes, nd.left).spec_to_contain(child_box(nodes, boxes, nd.right))
}

pub open spec fn nodes_ok(nodes: Seq<BvhNode>, boxes: Seq<AABB>) -> bool {
    forall|k: int| 0 <= k < nodes.len() ==> #[trigger] node_ok(nodes, boxes, k)
}

/// The objects found below node `k`.
pub open spec fn objects_of(nodes: Seq<BvhNode>, k: int) -> Set<usize>
    decreases k, 1int,
{
    if 0 <= k < nodes.len() {
        let nd = nodes[k];
        let l = match nd.left {
            Child::Object(i) => set![i],
            Child::Node(j) => if j < k { objects_of(nodes, j as int) } else { Set::empty() },
        };
        let r = match nd.right {
            Child::Object(i) => set![i],
            Child::Node(j) => if j < k { objects_of(nodes, j as int) } else { Set::empty() },
        };
        l + r
    } else {
        Set::empty()
    }
}

/// The objects below a child of node `k`.
pub open spec fn child_set(nodes: Seq<BvhNode>, c: Child, k: int) -> Set<usize> {
    match c {
        Child::Object(i) => set![i],
        Child::Node(j) => if j < k { objects_of(nodes, j as int) } else { Set::empty() },
    }
}

/// Along node `k`'s axis, every object below its left child starts no later
/// than every object below its right child.
pub open spec fn split_ordered(nodes: Seq<BvhNode>, boxes: Seq<AABB>, k: int) -> bool {
    let nd = nodes[k];
    forall|i: usize, j: usize|
        #[trigger] child_set(nodes, nd.left, k).contains(i) && #[trigger] child_set(nodes, nd.right, k).contains(j)
            ==> key(boxes, nd.axis, i) <= key(boxes, nd.axis, j)
}

pub open spec fn splits_ordered(nodes: Seq<BvhNode>, boxes: Seq<AABB>) -> bool {
    forall|k: int| 0 <= k < nodes.len() ==> #[trigger] split_ordered(nodes, boxes, k)
}

/// Extending the arena keeps each earlier node's split ordered.
proof fn lemma_split_prefix(n1: Seq<BvhNode>, n2: Seq<BvhNode>, boxes: Seq<AABB>, k: int)
    requires
        n1.len() <= n2.len(),
        forall|j: int| 0 <= j < n1.len() ==> n1[j] == n2[j],
        0 <= k < n1.len(),
        split_ordered(n1, boxes, k),
    ensures
        split_ordered(n2, boxes, k),
{
    let nd = n1[k];
    match nd.left {
        Child::Node(j) => if j < k { lemma_objects_prefix(n1, n2, j as int); },
        _ => {},
    }
    match nd.right {
        Child::Node(j) => if j < k { lemma_objects_prefix(n1, n2, j as int); },
        _ => {},
    }
    assert(child_set(n1, nd.left, k) == child_set(n2, nd.left, k));
    assert(child_set(n1, nd.right, k) == child_set(n2, nd.right, k));
}

/// The number of nodes on the longest path down from node `k`, node `k`
/// included.
pub open spec fn height_of(nodes: Seq<BvhNode>, k: int) -> nat
    decreases k,
{
    if 0 <= k < nodes.len() {
        let nd = nodes[k];
        let l = match nd.left {
            Child::Object(_) => 0,
            Child::Node(j) => if j < k { height_of(nodes, j as int) } else { 0 },
        };
        let r = match nd.right {
            Child::Object(_) => 0,
            Child::Node(j) => if j < k { height_of(nodes, j as int) } else { 0 },
        };
        1 + if l < r { r } else { l }
    } else {
        0
    }
}

/// A tree over `n` objects is no taller than `d` whenever `n <= 2^d`: its
/// height is the base-2 logarithm of `n`, rounded up (and at least one).
pub open spec fn balanced(nodes: Seq<BvhNode>, k: int, n: nat) -> bool {
    forall|d: nat| d >= 1 && n <= #[trigger] pow2(d) ==> height_of(nodes, k) <= d
}

/// An arena that extends another keeps what the other says below each of
/// its nodes.
proof fn lemma_objects_prefix(n1: Seq<BvhNode>, n2: Seq<BvhNode>, k: int)
    requires
        n1.len() <= n2.len(),
        forall|j: int| 0 <= j < n1.len() ==> n1[j] == n2[j],
        0 <= k < n1.len(),
    ensures
        objects_of(n1, k) == objects_of(n2, k),
        height_of(n1, k) == height_of(n2, k),
    decreases k,
{
    let nd = n1[k];
    match nd.left {
        Child::Node(j) => if j < k { lemma_objects_prefix(n1, n2, j as int); },
        _ => {},
    }
    match nd.right {
        Child::Node(j) => if j < k { lemma_objects_prefix(n1, n2, j as int); },
        _ => {},
    }
}

/// The key by which objects are ordered along an axis: the least coordinate
/// of the object's box on that axis.
pub open spec fn key(boxes: Seq<AABB>, a: Axis, i: usize) -> int {
    boxes[i as int].spec_axis(a).min.rank()
}

pub open spec fn sorted_by(boxes: Seq<AABB>, a: Axis, items: Seq<usize>) -> bool {
    forall|x: int, y: int| 0 <= x < y < items.len() ==> key(boxes, a, #[trigger] items[x]) <= key(boxes, a, #[trigger] items[y])
}

pub open spec fn indices_below(items: Seq<usize>, n: int) -> bool {
    forall|x: int| 0 <= x < items.len() ==> (#[trigger] items[x]) < n
}

/// Orders the object indices by the least coordinate of their boxes along
/// `a` (insertion sort, stable).
pub fn sort_by_axis(boxes: &Vec<AABB>, a: Axis, items: &mut Vec<usize>)
    requires
        boxes_valid(boxes@),
        indices_below(old(items)@, boxes@.len() as int),
    ensures
        final(items)@.to_multiset() == old(items)@.to_multiset(),
        final(items)@.len() == old(items)@.len(),
        indices_below(final(items)@, boxes@.len() as int),
        sorted_by(boxes@, a, final(items)@),
{
    let n = items.len();
    let ghost orig = items@;
    let mut i: usize = 1;
    if n == 0 {
        return;
    }
    while i < n
        invariant
            1 <= i <= n,
            n == items@.len(),
            boxes_valid(boxes@),
            indices_below(items@, boxes@.len() as int),
            items@.to_multiset() == orig.to_multiset(),
            forall|x: int, y: int| 0 <= x < y < i ==> key(boxes@, a, #[trigger] items@[x]) <= key(boxes@, a, #[trigger] items@[y]),
        decreases n - i,
    {
        let mut j: usize = i;
        while j > 0 && boxes[items[j]].axis(a).min.lt(boxes[items[j - 1]].axis(a).min)
            invariant
                0 <= j <= i < n,
                n == items@.len(),
                boxes_valid(boxes@),
                indices_below(items@, boxes@.len() as int),
                items@.to_multiset() == orig.to_multiset(),
                forall|x: int, y: int| 0 <= x < y <= i && x != j && y != j ==> key(boxes@, a, #[trigger] items@[x]) <= key(boxes@, a, #[trigger] items@[y]),
                forall|y: int| j < y <= i ==> key(boxes@, a, items@[j as int]) < key(boxes@, a, #[trigger] items@[y]),
            decreases j,
        {
            let hi = items[j];
            let lo = items[j - 1];
            let ghost s0 = items@;
            items.set(j, lo);
            items.set(j - 1, hi);
            proof {
                let s1 = s0.update(j as int, lo);
                vstd::seq_lib::to_multiset_update(s0, j as int, lo);
                vstd::seq_lib::to_multiset_update(s1, j - 1, hi);
                assert(s1.update(j - 1, hi) == items@);
                assert(s0[j as int] == hi);
                assert(s1[j - 1] == lo);
                broadcast use vstd::multiset::group_multiset_axioms;
                assert(s0.to_multiset().count(hi) > 0) by {
                    vstd::seq_lib::to_multiset_contains(s0, hi);
                    assert(s0.contains(hi)) by { assert(s0[j as int] == hi); }
                }
                assert(items@.to_multiset() =~= s0.to_multiset());
            }
            j = j - 1;
        }
        i = i + 1;
    }
}

/// Node `k`'s box is valid and holds the box of every object below it.
proof fn lemma_node_encloses(nodes: Seq<BvhNode>, boxes: Seq<AABB>, k: int)
    requires
        nodes_ok(nodes, boxes),
        boxes_valid(boxes),
        0 <= k < nodes.len(),
    ensures
        nodes[k].aabb.valid(),
        forall|i: usize| #[trigger] objects_of(nodes, k).contains(i) ==> i < boxes.len() && nodes[k].aabb.encloses(boxes[i as int]),
    decreases k,
{
    let nd = nodes[k];
    assert(node_ok(nodes, boxes, k));
    match nd.left {
        Child::Node(j) => lemma_node_encloses(nodes, boxes, j as int),
        Child::Object(i) => assert(boxes[i as int].valid()),
    }
    match nd.right {
        Child::Node(j) => lemma_node_encloses(nodes, boxes, j as int),
        Child::Object(i) => assert(boxes[i as int].valid()),
    }
    let lb = child_box(nodes, boxes, nd.left);
    let rb = child_box(nodes, boxes, nd.right);
    assert forall|i: usize| #[trigger] objects_of(nodes, k).contains(i) implies i < boxes.len() && nodes[k].aabb.encloses(boxes[i as int]) by {
        let ls = match nd.left {
            Child::Object(o) => set![o],
            Child::Node(j) => objects_of(nodes, j as int),
        };
        let rs = match nd.right {
            Child::Object(o) => set![o],
            Child::Node(j) => objects_of(nodes, j as int),
        };
        assert(objects_of(nodes, k) == ls + rs);
        if ls.contains(i) {
            match nd.left {
                Child::Object(o) => assert(i == o),
                Child::Node(j) => assert(objects_of(nodes, j as int).contains(i)),
            }
            assert(lb.encloses(boxes[i as int]));
        } else {
            assert(rs.contains(i));
            match nd.right {
                Child::Object(o) => assert(i == o),
                Child::Node(j) => assert(objects_of(nodes, j as int).contains(i)),
            }
            assert(rb.encloses(boxes[i as int]));
        }
    }
}

/// Builds the subtree over `items` at the end of the arena and returns the
/// index of its root. The objects are ordered along an axis (the given one,
/// or one drawn at random) by the least coordinate of their boxes; one
/// object makes a node whose two children are that object, two objects make
/// a node with one child each, and more are split at the median into two
/// subtrees.
fn build_node(boxes: &Vec<AABB>, items: Vec<usize>, fixed: Option<Axis>, nodes: &mut Vec<BvhNode>) -> (r: usize)
    requires
        items@.len() >= 1,
        boxes_valid(boxes@),
        indices_below(items@, boxes@.len() as int),
        nodes_ok(old(nodes)@, boxes@),
    ensures
        final(nodes)@.len() > old(nodes)@.len(),
        forall|j: int| 0 <= j < old(nodes)@.len() ==> final(nodes)@[j] == old(nodes)@[j],
        nodes_ok(final(nodes)@, boxes@),
        r == final(nodes)@.len() - 1,
        objects_of(final(nodes)@, r as int) == items@.to_set(),
        balanced(final(nodes)@, r as int, items@.len()),
        splits_ordered(old(nodes)@, boxes@) ==> splits_ordered(final(nodes)@, boxes@),
    decreases items@.len(),
{
    let axis = match fixed {
        Some(a) => a,
        None => random_axis(),
    };
    let ghost given = items@;
    let mut items = items;
    sort_by_axis(boxes, axis, &mut items);
    proof {
        broadcast use vstd::seq_lib::to_multiset_contains;
        assert(items@.to_set() =~= given.to_set()) by {
            assert forall|x: usize| items@.contains(x) <==> given.contains(x) by {
                assert(items@.to_multiset().count(x) == given.to_multiset().count(x));
            }
        }
    }
    let n = items.len();
    let ghost old_nodes = nodes@;
    if n == 1 {
        let i = items[0];
        let b = boxes[i];
        let nd = BvhNode { left: Child::Object(i), right: Child::Object(i), aabb: b, axis };
        nodes.push(nd);
        proof {
            let k = nodes@.len() - 1;
            assert(nodes@[k] == nd);
            assert(b.spec_to_contain(b) == b);
            assert forall|j: int| 0 <= j < nodes@.len() implies #[trigger] node_ok(nodes@, boxes@, j) by {
                if j < k {
                    assert(node_ok(old_nodes, boxes@, j));
                }
            }
            assert(height_of(nodes@, k) == 1);
            if splits_ordered(old_nodes, boxes@) {
                assert forall|m: int| 0 <= m < nodes@.len() implies #[trigger] split_ordered(nodes@, boxes@, m) by {
                    if m < k {
                        lemma_split_prefix(old_nodes, nodes@, boxes@, m);
                    }
                }
            }
            assert(objects_of(nodes@, k) =~= items@.to_set()) by {
                assert forall|x: usize| items@.contains(x) <==> x == i by {
                    if items@.contains(x) {
                        let w = choose|w: int| 0 <= w < items@.len() && items@[w] == x;
                    }
                    if x == i {
                        assert(items@[0] == x);
                    }
                }
            }
        }
        return nodes.len() - 1;
    }
    if n == 2 {
        let i = items[0];
        let j = items[1];
        let nd = BvhNode {
            left: Child::Object(i),
            right: Child::Object(j),
            aabb: boxes[i].to_contain(&boxes[j]),
            axis,
        };
        nodes.push(nd);
        proof {
            let k = nodes@.len() - 1;
            assert(nodes@[k] == nd);
            assert forall|m: int| 0 <= m < nodes@.len() implies #[trigger] node_ok(nodes@, boxes@, m) by {
                if m < k {
                    assert(node_ok(old_nodes, boxes@, m));
                }
            }
            assert(height_of(nodes@, k) == 1);
            if splits_ordered(old_nodes, boxes@) {
                assert forall|m: int| 0 <= m < nodes@.len() implies #[trigger] split_ordered(nodes@, boxes@, m) by {
                    if m < k {
                        lemma_split_prefix(old_nodes, nodes@, boxes@, m);
                    } else {
                        assert(key(boxes@, axis, items@[0]) <= key(boxes@, axis, items@[1]));
                    }
                }
            }
            assert(objects_of(nodes@, k) =~= items@.to_set()) by {
                assert forall|x: usize| items@.contains(x) <==> (x == i || x == j) by {
                    if items@.contains(x) {
                        let w = choose|w: int| 0 <= w < items@.len() && items@[w] == x;
                    }
                    if x == i {
                        assert(items@[0] == x);
                    }
                    if x == j {
                        assert(items@[1] == x);
                    }
                }
            }
        }
        return nodes.len() - 1;
    }
    let mid = n / 2;
    let mut left_items: Vec<usize> = Vec::new();
    let mut right_items: Vec<usize> = Vec::new();
    let mut w: usize = 0;
    while w < n
        invariant
            w <= n,
            n == items@.len(),
            mid == n / 2,
            left_items@ == items@.subrange(0, if w < mid { w as int } else { mid as int }),
            right_items@ == items@.subrange(mid as int, if w < mid { mid as int } else { w as int }),
        decreases n - w,
    {
        if w < mid {
            left_items.push(items[w]);
        } else {
            right_items.push(items[w]);
        }
        w = w + 1;
    }
    proof {
        assert(left_items@ =~= items@.subrange(0, mid as int));
        assert(right_items@ =~= items@.subrange(mid as int, n as int));
        assert(items@.to_set() =~= left_items@.to_set() + right_items@.to_set()) by {
            assert forall|x: usize| items@.contains(x) implies left_items@.contains(x) || right_items@.contains(x) by {
                let q = choose|q: int| 0 <= q < items@.len() && items@[q] == x;
                if q < mid {
                    assert(left_items@[q] == x);
                } else {
                    assert(right_items@[q - mid] == x);
                }
            }
            assert forall|x: usize| left_items@.contains(x) implies items@.contains(x) by {
                let q = choose|q: int| 0 <= q < left_items@.len() && left_items@[q] == x;
                assert(items@[q] == x);
            }
            assert forall|x: usize| right_items@.contains(x) implies items@.contains(x) by {
                let q = choose|q: int| 0 <= q < right_items@.len() && right_items@[q] == x;
                assert(items@[q + mid] == x);
            }
        }
    }
    let ghost left_seq = left_items@;
    let ghost right_seq = right_items@;
    let ghost left_set = left_seq.to_set();
    let ghost right_set = right_seq.to_set();
    let l = build_node(boxes, left_items, fixed, nodes);
    let ghost after_left = nodes@;
    let r = build_node(boxes, right_items, fixed, nodes);
    let ghost after_right = nodes@;
    let lb = nodes[l].aabb;
    let rb = nodes[r].aabb;
    let nd = BvhNode { left: Child::Node(l), right: Child::Node(r), aabb: lb.to_contain(&rb), axis };
    nodes.push(nd);
    proof {
        let k = nodes@.len() - 1;
        assert(nodes@[k] == nd);
        lemma_objects_prefix(after_left, after_right, l as int);
        lemma_objects_prefix(after_left, nodes@, l as int);
        lemma_objects_prefix(after_right, nodes@, r as int);
        assert forall|m: int| 0 <= m < nodes@.len() implies #[trigger] node_ok(nodes@, boxes@, m) by {
            if m < k {
                assert(node_ok(after_right, boxes@, m));
            }
        }
        assert forall|j: int| 0 <= j < old_nodes.len() implies nodes@[j] == old_nodes[j] by {
            assert(after_left[j] == old_nodes[j]);
        }
        assert(objects_of(nodes@, k) =~= items@.to_set());
        if splits_ordered(old_nodes, boxes@) {
            assert forall|m: int| 0 <= m < nodes@.len() implies #[trigger] split_ordered(nodes@, boxes@, m) by {
                if m < k {
                    lemma_split_prefix(after_right, nodes@, boxes@, m);
                } else {
                    assert forall|x: usize, y: usize|
                        #[trigger] child_set(nodes@, nd.left, k).contains(x) && #[trigger] child_set(nodes@, nd.right, k).contains(y)
                        implies key(boxes@, axis, x) <= key(boxes@, axis, y) by {
                        assert(left_set.contains(x));
                        assert(right_set.contains(y));
                        let p = choose|p: int| 0 <= p < left_seq.len() && left_seq[p] == x;
                        let q = choose|q: int| 0 <= q < right_seq.len() && right_seq[q] == y;
                        assert(items@[p] == x);
                        assert(items@[q + mid] == y);
                    }
                }
            }
        }
        let hl = height_of(nodes@, l as int);
        let hr = height_of(nodes@, r as int);
        assert(height_of(nodes@, k) == 1 + if hl < hr { hr } else { hl });
        assert forall|d: nat| d >= 1 && n <= #[trigger] pow2(d) implies height_of(nodes@, k) <= d by {
            lemma_pow2_unfold(d);
            if d == 1 {
                assert(pow2(0) == 1) by {
                    vstd::arithmetic::power::lemma_pow0(2);
                }
                assert(false);
            }
            let e = (d - 1) as nat;
            assert(mid <= pow2(e));
            assert(n - mid <= pow2(e));
            assert(hl <= e);
            assert(hr <= e);
        }
    }
    nodes.len() - 1
}

/// Of two candidate hits, the one with the smaller `t`; the left one on a
/// tie or when only it exists.
pub open spec fn closer<D>(l: Option<(usize, Hit<D>)>, r: Option<(usize, Hit<D>)>) -> Option<(usize, Hit<D>)> {
    match l {
        Some(a) => match r {
            Some(b) => if a.1.t.spec_le(b.1.t) { l } else { r },
            None => l,
        },
        None => r,
    }
}

pub open spec fn object_answer<D, G: Fn(usize) -> Option<Hit<D>>>(oh: G, i: usize) -> Option<(usize, Hit<D>)> {
    match answer(oh, i) {
        Some(h) => Some((i, h)),
        None => None,
    }
}

/// What the query returns at node `k`: nothing if the ray misses the node's
/// box, else the closer of the answers of its two children (both are asked
/// over the same parameter range).
pub open spec fn node_answer<D, F: Fn(AABB) -> bool, G: Fn(usize) -> Option<Hit<D>>>(
    nodes: Seq<BvhNode>,
    k: int,
    bh: F,
    oh: G,
) -> Option<(usize, Hit<D>)>
    decreases k,
{
    if 0 <= k < nodes.len() {
        let nd = nodes[k];
        if !answer(bh, nd.aabb) {
            None
        } else {
            let l = match nd.left {
                Child::Object(i) => object_answer(oh, i),
                Child::Node(j) => if j < k { node_answer(nodes, j as int, bh, oh) } else { None },
            };
            let r = match nd.right {
                Child::Object(i) => object_answer(oh, i),
                Child::Node(j) => if j < k { node_answer(nodes, j as int, bh, oh) } else { None },
            };
            closer(l, r)
        }
    } else {
        None
    }
}

/// A box test that says "miss" is right: no object whose box lies inside a
/// missed box reports a hit.
pub open spec fn prunes_soundly<D, F: Fn(AABB) -> bool, G: Fn(usize) -> Option<Hit<D>>>(
    boxes: Seq<AABB>,
    bh: F,
    oh: G,
) -> bool {
    forall|b: AABB, i: usize|
        i < boxes.len() && b.encloses(boxes[i as int]) && !#[trigger] answer(bh, b) ==> (#[trigger] answer(oh, i)) is None
}

/// No object reports a hit at a NaN parameter.
pub open spec fn hits_are_numbers<D, G: Fn(usize) -> Option<Hit<D>>>(oh: G) -> bool {
    forall|i: usize| #[trigger] answer(oh, i) matches Some(h) ==> !h.t.nan()
}

/// `r` is a hit with the least `t` among the objects of `s`, or nothing when
/// none of them is hit.
pub open spec fn closest_among<D, G: Fn(usize) -> Option<Hit<D>>>(
    s: Set<usize>,
    oh: G,
    r: Option<(usize, Hit<D>)>,
) -> bool {
    match r {
        None => forall|i: usize| s.contains(i) ==> (#[trigger] answer(oh, i)) is None,
        Some(c) => {
            &&& s.contains(c.0)
            &&& answer(oh, c.0) == Some(c.1)
            &&& forall|j: usize|
                s.contains(j) ==> match #[trigger] answer(oh, j) {
                    Some(h2) => c.1.t.rank() <= h2.t.rank(),
                    None => true,
                }
        },
    }
}

proof fn lemma_node_closest<D, F: Fn(AABB) -> bool, G: Fn(usize) -> Option<Hit<D>>>(
    nodes: Seq<BvhNode>,
    boxes: Seq<AABB>,
    k: int,
    bh: F,
    oh: G,
)
    requires
        nodes_ok(nodes, boxes),
        boxes_valid(boxes),
        0 <= k < nodes.len(),
        prunes_soundly(boxes, bh, oh),
        hits_are_numbers(oh),
    ensures
        closest_among(objects_of(nodes, k), oh, node_answer(nodes, k, bh, oh)),
    decreases k,
{
    let nd = nodes[k];
    assert(node_ok(nodes, boxes, k));
    lemma_node_encloses(nodes, boxes, k);
    let s = objects_of(nodes, k);
    if !answer(bh, nd.aabb) {
        assert forall|i: usize| s.contains(i) implies (#[trigger] answer(oh, i)) is None by {
            assert(nd.aabb.encloses(boxes[i as int]));
        }
        return;
    }
    let ls = match nd.left {
        Child::Object(o) => set![o],
        Child::Node(j) => objects_of(nodes, j as int),
    };
    let rs = match nd.right {
        Child::Object(o) => set![o],
        Child::Node(j) => objects_of(nodes, j as int),
    };
    let l = match nd.left {
        Child::Object(i) => object_answer(oh, i),
        Child::Node(j) => node_answer(nodes, j as int, bh, oh),
    };
    let r = match nd.right {
        Child::Object(i) => object_answer(oh, i),
        Child::Node(j) => node_answer(nodes, j as int, bh, oh),
    };
    match nd.left {
        Child::Node(j) => lemma_node_closest(nodes, boxes, j as int, bh, oh),
        Child::Object(i) => {
            assert(closest_among(ls, oh, l)) by {
                assert forall|x: usize| ls.contains(x) implies x == i by {}
            }
        },
    }
    match nd.right {
        Child::Node(j) => lemma_node_closest(nodes, boxes, j as int, bh, oh),
        Child::Object(i) => {
            assert(closest_among(rs, oh, r)) by {
                assert forall|x: usize| rs.contains(x) implies x == i by {}
            }
        },
    }
    assert(s == ls + rs);
    assert(node_answer(nodes, k, bh, oh) == closer(l, r));
    match l {
        Some(a) => {
            assert(!a.1.t.nan());
        },
        None => {},
    }
    match r {
        Some(b) => {
            assert(!b.1.t.nan());
        },
        None => {},
    }
}

/// Two answers that are both closest among the same objects agree on
/// whether there is a hit and on its `t`, whatever produced them: trees of
/// different shapes over one object list give the same closest hit.
pub proof fn lemma_closest_unique<D, G: Fn(usize) -> Option<Hit<D>>>(
    s: Set<usize>,
    oh: G,
    r1: Option<(usize, Hit<D>)>,
    r2: Option<(usize, Hit<D>)>,
)
    requires
        closest_among(s, oh, r1),
        closest_among(s, oh, r2),
    ensures
        r1 is None <==> r2 is None,
        r1 matches Some(a) ==> r2 matches Some(b) ==> a.1.t.rank() == b.1.t.rank(),
{
    match r1 {
        Some(a) => {
            assert(answer(oh, a.0) matches Some(_));
            match r2 {
                Some(b) => {
                    assert(answer(oh, b.0) matches Some(_));
                },
                None => {},
            }
        },
        None => {
            match r2 {
                Some(b) => {
                    assert(answer(oh, b.0) matches Some(_));
                },
                None => {},
            }
        },
    }
}

/// Two hierarchies over the same boxes, whatever their shapes (for
/// instance built with different split axes), give the same answer to a
/// query whose box test never hides a hit: both find a hit or neither does,
/// and the hits found have the same `t`.
pub proof fn lemma_same_closest_hit<D, F: Fn(AABB) -> bool, G: Fn(usize) -> Option<Hit<D>>>(
    t1: &BVH,
    t2: &BVH,
    box_hit: F,
    obj_hit: G,
)
    requires
        t1.wf(),
        t2.wf(),
        t1.boxes@ == t2.boxes@,
        prunes_soundly(t1.boxes@, box_hit, obj_hit),
        hits_are_numbers(obj_hit),
    ensures
        node_answer(t1.nodes@, t1.root(), box_hit, obj_hit) is None
            <==> node_answer(t2.nodes@, t2.root(), box_hit, obj_hit) is None,
        node_answer(t1.nodes@, t1.root(), box_hit, obj_hit) matches Some(a)
            ==> node_answer(t2.nodes@, t2.root(), box_hit, obj_hit) matches Some(b)
            ==> a.1.t.rank() == b.1.t.rank(),
{
    lemma_node_closest(t1.nodes@, t1.boxes@, t1.root(), box_hit, obj_hit);
    lemma_node_closest(t2.nodes@, t2.boxes@, t2.root(), box_hit, obj_hit);
    assert(t1.all_objects() == t2.all_objects());
    lemma_closest_unique(
        t1.all_objects(),
        obj_hit,
        node_answer(t1.nodes@, t1.root(), box_hit, obj_hit),
        node_answer(t2.nodes@, t2.root(), box_hit, obj_hit),
    );
}

impl BVH {
    pub open spec fn root(&self) -> int {
        self.nodes@.len() - 1
    }

    /// The objects of the list, by index.
    pub open spec fn all_objects(&self) -> Set<usize> {
        Set::new(|i: usize| i < self.boxes@.len())
    }

    /// The arena is a tree over exactly the objects of the list, every box
    /// is valid and every node's box is the union of its children's.
    pub open spec fn wf(&self) -> bool {
        &&& self.nodes@.len() > 0
        &&& nodes_ok(self.nodes@, self.boxes@)
        &&& boxes_valid(self.boxes@)
        &&& objects_of(self.nodes@, self.root()) == self.all_objects()
        &&& balanced(self.nodes@, self.root(), self.boxes@.len())
        &&& splits_ordered(self.nodes@, self.boxes@)
    }

    /// Builds the hierarchy over objects with the given bounding boxes,
    /// drawing the split axis of each node at random.
    pub fn new(boxes: Vec<AABB>) -> (r: Result<BVH, BvhError>)
        ensures
            Self::build_outcome(boxes@, r),
    {
        Self::build(boxes, None)
    }

    /// Builds the hierarchy over objects with the given bounding boxes,
    /// splitting every node along `a`.
    pub fn with_axis(boxes: Vec<AABB>, a: Axis) -> (r: Result<BVH, BvhError>)
        ensures
            Self::build_outcome(boxes@, r),
    {
        Self::build(boxes, Some(a))
    }

    /// A hierarchy comes back exactly when there is at least one box and no
    /// box has a NaN bound; else the first invalid box, or `Empty`, is named.
    pub open spec fn build_outcome(boxes: Seq<AABB>, r: Result<BVH, BvhError>) -> bool {
        match r {
            Ok(b) => boxes.len() > 0 && boxes_valid(boxes) && b.wf() && b.boxes@ == boxes,
            Err(BvhError::Empty) => boxes.len() == 0,
            Err(BvhError::InvalidBox(i)) => {
                &&& i < boxes.len()
                &&& !boxes[i as int].valid()
                &&& forall|j: int| 0 <= j < i ==> (#[trigger] boxes[j]).valid()
            },
        }
    }

    fn build(boxes: Vec<AABB>, fixed: Option<Axis>) -> (r: Result<BVH, BvhError>)
        ensures
            Self::build_outcome(boxes@, r),
    {
        let n = boxes.len();
        if n == 0 {
            return Err(BvhError::Empty);
        }
        let mut items: Vec<usize> = Vec::new();
        let mut i: usize = 0;
        while i < n
            invariant
                i <= n,
                n == boxes@.len(),
                items@.len() == i,
                forall|j: int| 0 <= j < i ==> items@[j] == j,
                forall|j: int| 0 <= j < i ==> (#[trigger] boxes@[j]).valid(),
            decreases n - i,
        {
            if !boxes[i].is_valid() {
                return Err(BvhError::InvalidBox(i));
            }
            items.push(i);
            i = i + 1;
        }
        let mut nodes: Vec<BvhNode> = Vec::new();
        let ghost all = items@.to_set();
        let root = build_node(&boxes, items, fixed, &mut nodes);
        let b = BVH { nodes, boxes };
        proof {
            assert(all =~= b.all_objects()) by {
                assert forall|x: usize| x < n implies items@.contains(x) by {
                    assert(items@[x as int] == x);
                }
            }
        }
        Ok(b)
    }

    /// The box of the whole hierarchy: it holds every object's box.
    pub fn bounding_box(&self) -> (r: AABB)
        requires
            self.wf(),
        ensures
            r == self.nodes@[self.root()].aabb,
            forall|i: usize| i < self.boxes@.len() ==> r.encloses(#[trigger] self.boxes@[i as int]),
    {
        proof {
            lemma_node_encloses(self.nodes@, self.boxes@, self.root());
            assert forall|i: usize| i < self.boxes@.len() implies self.nodes@[self.root()].aabb.encloses(#[trigger] self.boxes@[i as int]) by {
                assert(self.all_objects().contains(i));
                assert(objects_of(self.nodes@, self.root()).contains(i));
            }
        }
        self.nodes[self.nodes.len() - 1].aabb
    }

    /// The closest hit of a ray. `box_hit` is the ray's test against a box
    /// and `obj_hit` its test against an object, both over the caller's
    /// parameter range. A node whose box is missed is skipped with all below
    /// it; otherwise both children are asked and the hit with the smaller
    /// `t` is kept, the left one on a tie. When a missed box never hides a
    /// hit object, the result is the closest hit among all objects,
    /// whatever the shape of the tree.
    pub fn hit<D, F: Fn(AABB) -> bool, G: Fn(usize) -> Option<Hit<D>>>(
        &self,
        box_hit: &F,
        obj_hit: &G,
    ) -> (r: Option<(usize, Hit<D>)>)
        requires
            self.wf(),
            well_behaved(*box_hit),
            well_behaved(*obj_hit),
        ensures
            r == node_answer(self.nodes@, self.root(), *box_hit, *obj_hit),
            prunes_soundly(self.boxes@, *box_hit, *obj_hit) && hits_are_numbers(*obj_hit)
                ==> closest_among(self.all_objects(), *obj_hit, r),
    {
        let r = self.hit_node(self.nodes.len() - 1, box_hit, obj_hit);
        proof {
            if prunes_soundly(self.boxes@, *box_hit, *obj_hit) && hits_are_numbers(*obj_hit) {
                lemma_node_closest(self.nodes@, self.boxes@, self.root(), *box_hit, *obj_hit);
            }
        }
        r
    }

    fn object_hit<D, G: Fn(usize) -> Option<Hit<D>>>(i: usize, obj_hit: &G) -> (r: Option<(usize, Hit<D>)>)
        requires
            well_behaved(*obj_hit),
        ensures
            r == object_answer(*obj_hit, i),
    {
        let h = obj_hit(i);
        proof {
            lemma_answer(*obj_hit, i, h);
        }
        match h {
            Some(h) => Some((i, h)),
            None => None,
        }
    }

    fn hit_node<D, F: Fn(AABB) -> bool, G: Fn(usize) -> Option<Hit<D>>>(
        &self,
        k: usize,
        box_hit: &F,
        obj_hit: &G,
    ) -> (r: Option<(usize, Hit<D>)>)
        requires
            nodes_ok(self.nodes@, self.boxes@),
            k < self.nodes@.len(),
            well_behaved(*box_hit),
            well_behaved(*obj_hit),
        ensures
            r == node_answer(self.nodes@, k as int, *box_hit, *obj_hit),
        decreases k,
    {
        let nd = self.nodes[k];
        proof {
            assert(node_ok(self.nodes@, self.boxes@, k as int));
        }
        let inside = box_hit(nd.aabb);
        proof {
            lemma_answer(*box_hit, nd.aabb, inside);
        }
        if !inside {
            return None;
        }
        let l = match nd.left {
            Child::Object(i) => Self::object_hit(i, obj_hit),
            Child::Node(j) => self.hit_node(j, box_hit, obj_hit),
        };
        let r = match nd.right {
            Child::Object(i) => Self::object_hit(i, obj_hit),
            Child::Node(j) => self.hit_node(j, box_hit, obj_hit),
        };
        match (l, r) {
            (Some(a), Some(b)) => if a.1.t.le(b.1.t) {
                Some(a)
            } else {
                Some(b)
            },
            (Some(a), None) => Some(a),
            (None, r) => r,
        }
    }
}

} // verus!
