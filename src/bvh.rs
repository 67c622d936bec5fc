use vstd::prelude::*;
use vstd::seq_lib::{
    lemma_multiset_commutative, to_multiset_build, to_multiset_contains, to_multiset_insert,
};

use crate::aabb::{lemma_union_at, union, AABB};
use crate::axis::Axis;

verus! {

/// A child of an inner node: one primitive, by its index, or another inner node,
/// by its position in the node arena.
#[derive(Clone, Copy, Debug, PartialEq, Eq, Structural)]
pub enum Child {
    Leaf(usize),
    Node(usize),
}

/// An inner node of the hierarchy: two children, the box that surrounds both,
/// and the axis along which its primitives were ordered before the split.
#[derive(Clone, Copy, Debug, PartialEq, Eq, Structural)]
pub struct Node {
    pub left: Child,
    pub right: Child,
    pub bbox: AABB,
    pub axis: Axis,
}

/// Whether a child refers to an existing primitive (of `n`), or to a node that
/// comes before position `k` in the arena.
pub open spec fn child_in(c: Child, n: nat, k: int) -> bool {
    match c {
        Child::Leaf(i) => i < n,
        Child::Node(j) => j < k,
    }
}

/// The box of a child: the primitive's own box, or the node's box.
pub open spec fn child_box(nodes: Seq<Node>, boxes: Seq<AABB>, c: Child) -> AABB {
    match c {
        Child::Leaf(i) => boxes[i as int],
        Child::Node(j) => nodes[j as int].bbox,
    }
}

/// A node refers only to earlier nodes and to existing primitives, and its box
/// is the union of its children's boxes.
pub open spec fn node_ok(nodes: Seq<Node>, boxes: Seq<AABB>, k: int) -> bool {
    &&& child_in(nodes[k].left, boxes.len(), k)
    &&& child_in(nodes[k].right, boxes.len(), k)
    &&& nodes[k].bbox == union(
        child_box(nodes, boxes, nodes[k].left),
        child_box(nodes, boxes, nodes[k].right),
    )
}

/// Every node of the arena is well formed.
pub open spec fn nodes_ok(nodes: Seq<Node>, boxes: Seq<AABB>) -> bool {
    forall|k: int| 0 <= k < nodes.len() ==> #[trigger] node_ok(nodes, boxes, k)
}

/// The primitives below node `k`, from left to right.
pub open spec fn node_leaves(nodes: Seq<Node>, k: int) -> Seq<usize>
    decreases k,
{
    if 0 <= k < nodes.len() {
        let l = match nodes[k].left {
            Child::Leaf(i) => seq![i],
            Child::Node(j) => if j < k {
                node_leaves(nodes, j as int)
            } else {
                seq![]
            },
        };
        let r = match nodes[k].right {
            Child::Leaf(i) => seq![i],
            Child::Node(j) => if j < k {
                node_leaves(nodes, j as int)
            } else {
                seq![]
            },
        };
        l + r
    } else {
        seq![]
    }
}

/// The primitives below a child.
pub open spec fn child_leaves(nodes: Seq<Node>, c: Child) -> Seq<usize> {
    match c {
        Child::Leaf(i) => seq![i],
        Child::Node(j) => node_leaves(nodes, j as int),
    }
}

/// The sort key of primitive `i` along an axis: the minimum corner of its box.
pub open spec fn sort_key(boxes: Seq<AABB>, i: usize, axis: Axis) -> u32 {
    boxes[i as int].min.at(axis)
}

/// The primitives are in order of their sort keys along the axis.
pub open spec fn sorted_on(s: Seq<usize>, boxes: Seq<AABB>, axis: Axis) -> bool {
    forall|a: int, b: int|
        0 <= a < b < s.len() ==> sort_key(boxes, #[trigger] s[a], axis) <= sort_key(
            boxes,
            #[trigger] s[b],
            axis,
        )
}

/// Every primitive below the node's left child comes, along the node's axis,
/// no later than every primitive below its right child.
pub open spec fn split_ok(nodes: Seq<Node>, sort_boxes: Seq<AABB>, k: int) -> bool {
    forall|a: usize, b: usize|
        #![trigger child_leaves(nodes, nodes[k].left).contains(a), child_leaves(nodes, nodes[k].right).contains(b)]
        child_leaves(nodes, nodes[k].left).contains(a) && child_leaves(
            nodes,
            nodes[k].right,
        ).contains(b) ==> sort_key(sort_boxes, a, nodes[k].axis) <= sort_key(
            sort_boxes,
            b,
            nodes[k].axis,
        )
}

/// Every node of the arena splits its primitives along its axis.
pub open spec fn splits_ok(nodes: Seq<Node>, sort_boxes: Seq<AABB>) -> bool {
    forall|k: int| 0 <= k < nodes.len() ==> #[trigger] split_ok(nodes, sort_boxes, k)
}

/// The node's run of `m` primitives is split into its first `m / 2`, below the
/// left child, and the other `m - m / 2`, below the right one; a child is a
/// leaf exactly when its part is a single primitive. With `split_ok`, the left
/// part is the first half of the run in the order along the node's axis.
pub open spec fn shape_ok(nodes: Seq<Node>, k: int) -> bool {
    let m = node_leaves(nodes, k).len();
    let lc = nodes[k].left;
    let rc = nodes[k].right;
    &&& child_leaves(nodes, lc).len() == m / 2
    &&& child_leaves(nodes, rc).len() == m - m / 2
    &&& (lc is Leaf <==> m / 2 == 1)
    &&& (rc is Leaf <==> m - m / 2 == 1)
}

/// Every node of the arena is split in halves.
pub open spec fn shapes_ok(nodes: Seq<Node>) -> bool {
    forall|k: int| 0 <= k < nodes.len() ==> #[trigger] shape_ok(nodes, k)
}

/// All primitives of the sequence exist.
pub open spec fn indices_below(s: Seq<usize>, n: nat) -> bool {
    forall|j: int| 0 <= j < s.len() ==> #[trigger] s[j] < n
}

/// The leaves below a node depend only on the nodes up to it.
proof fn lemma_leaves_prefix(a: Seq<Node>, b: Seq<Node>, k: int)
    requires
        0 <= k < a.len(),
        k < b.len(),
        forall|j: int| 0 <= j <= k ==> a[j] == b[j],
    ensures
        node_leaves(a, k) == node_leaves(b, k),
    decreases k,
{
    if let Child::Node(j) = a[k].left {
        if j < k {
            lemma_leaves_prefix(a, b, j as int);
        }
    }
    if let Child::Node(j) = a[k].right {
        if j < k {
            lemma_leaves_prefix(a, b, j as int);
        }
    }
}

/// Orders primitives by the minimum corner of their boxes along an axis,
/// keeping the order of primitives with equal keys.
fn sort_on_axis(seg: Vec<usize>, sort_boxes: &Vec<AABB>, axis: Axis) -> (r: Vec<usize>)
    requires
        indices_below(seg@, sort_boxes@.len()),
    ensures
        r@.to_multiset() == seg@.to_multiset(),
        r.len() == seg.len(),
        sorted_on(r@, sort_boxes@, axis),
        indices_below(r@, sort_boxes@.len()),
{
    let mut r: Vec<usize> = Vec::new();
    let mut j: usize = 0;
    proof {
        assert(seg@.subrange(0, 0) =~= r@);
    }
    while j < seg.len()
        invariant
            j <= seg.len(),
            indices_below(seg@, sort_boxes@.len()),
            r@.to_multiset() == seg@.subrange(0, j as int).to_multiset(),
            r.len() == j,
            sorted_on(r@, sort_boxes@, axis),
            indices_below(r@, sort_boxes@.len()),
        decreases seg.len() - j,
    {
        let x = seg[j];
        let kx = sort_boxes[x].min.get(axis);
        let mut p: usize = 0;
        while p < r.len() && sort_boxes[r[p]].min.get(axis) <= kx
            invariant
                p <= r.len(),
                indices_below(r@, sort_boxes@.len()),
                forall|q: int| 0 <= q < p ==> sort_key(sort_boxes@, #[trigger] r@[q], axis) <= kx,
            decreases r.len() - p,
        {
            p = p + 1;
        }
        let ghost old_r = r@;
        r.insert(p, x);
        proof {
            to_multiset_insert(old_r, p as int, x);
            assert(seg@.subrange(0, j as int + 1) =~= seg@.subrange(0, j as int).push(x));
            to_multiset_build(seg@.subrange(0, j as int), x);
            assert forall|a: int, b: int| 0 <= a < b < r@.len() implies sort_key(
                sort_boxes@,
                #[trigger] r@[a],
                axis,
            ) <= sort_key(sort_boxes@, #[trigger] r@[b], axis) by {
                if p < old_r.len() {
                    assert(sort_key(sort_boxes@, old_r[p as int], axis) > kx);
                }
                if a < p && b == p {
                } else if a < p && b > p {
                    assert(r@[b] == old_r[b - 1]);
                } else if a == p && b > p {
                    assert(r@[b] == old_r[b - 1]);
                    if b - 1 > p {
                        assert(sort_key(sort_boxes@, old_r[p as int], axis) <= sort_key(
                            sort_boxes@,
                            old_r[b - 1],
                            axis,
                        ));
                    }
                } else if a > p {
                    assert(r@[a] == old_r[a - 1]);
                    assert(r@[b] == old_r[b - 1]);
                } else {
                    assert(r@[a] == old_r[a]);
                    assert(r@[b] == old_r[b]);
                }
            }
        }
        j = j + 1;
    }
    proof {
        assert(seg@.subrange(0, seg.len() as int) =~= seg@);
    }
    r
}


fn child_box_of(nodes: &Vec<Node>, boxes: &Vec<AABB>, c: Child) -> (b: AABB)
    requires
        child_in(c, boxes@.len(), nodes@.len() as int),
    ensures
        b == child_box(nodes@, boxes@, c),
{
    match c {
        Child::Leaf(i) => boxes[i],
        Child::Node(j) => nodes[j].bbox,
    }
}

/// Builds the subtree over a run of primitives: a single primitive is a leaf;
/// otherwise the run is ordered along a random axis, split into its first half
/// (rounded down) and the rest, and each half becomes a subtree. New nodes are
/// appended to the arena, the subtree's own node last.
fn build(
    seg: Vec<usize>,
    sort_boxes: &Vec<AABB>,
    boxes: &Vec<AABB>,
    nodes: &mut Vec<Node>,
) -> (c: Child)
    requires
        seg.len() >= 1,
        indices_below(seg@, boxes@.len()),
        sort_boxes.len() == boxes.len(),
        nodes_ok(old(nodes)@, boxes@),
        splits_ok(old(nodes)@, sort_boxes@),
        shapes_ok(old(nodes)@),
        old(nodes).len() + seg.len() <= usize::MAX,
    ensures
        nodes_ok(final(nodes)@, boxes@),
        splits_ok(final(nodes)@, sort_boxes@),
        shapes_ok(final(nodes)@),
        child_leaves(final(nodes)@, c).len() == seg.len(),
        final(nodes).len() == old(nodes).len() + seg.len() - 1,
        forall|k: int| 0 <= k < old(nodes).len() ==> final(nodes)@[k] == old(nodes)@[k],
        child_in(c, boxes@.len(), final(nodes).len() as int),
        child_leaves(final(nodes)@, c).to_multiset() == seg@.to_multiset(),
        seg.len() == 1 ==> c == Child::Leaf(seg[0]),
        seg.len() >= 2 ==> c == Child::Node((final(nodes).len() - 1) as usize),
    decreases seg.len(),
{
    if seg.len() == 1 {
        let i = seg[0];
        proof {
            assert(seg@ =~= seq![i]);
        }
        return Child::Leaf(i);
    }
    let axis = Axis::random();
    let mut left = sort_on_axis(seg, sort_boxes, axis);
    let ghost sorted = left@;
    let half = left.len() / 2;
    let right = left.split_off(half);
    proof {
        assert(sorted =~= left@ + right@);
        lemma_multiset_commutative(left@, right@);
        assert forall|j: int| 0 <= j < left@.len() implies #[trigger] left@[j] < boxes@.len() by {
            assert(left@[j] == sorted[j]);
        }
        assert forall|j: int| 0 <= j < right@.len() implies #[trigger] right@[j] < boxes@.len() by {
            assert(right@[j] == sorted[half + j]);
        }
    }
    let ghost left_seg = left@;
    let ghost right_seg = right@;
    let l = build(left, sort_boxes, boxes, nodes);
    let ghost n1 = nodes@;
    let r = build(right, sort_boxes, boxes, nodes);
    let lb = child_box_of(nodes, boxes, l);
    let rb = child_box_of(nodes, boxes, r);
    let bbox = AABB::new_surrounding(&lb, &rb);
    let ghost n2 = nodes@;
    nodes.push(Node { left: l, right: r, bbox, axis });
    let k = nodes.len() - 1;
    proof {
        let fin = nodes@;
        assert forall|m: int| 0 <= m < fin.len() implies #[trigger] node_ok(fin, boxes@, m) by {
            if m < n2.len() {
                assert(node_ok(n2, boxes@, m));
                assert(fin[m] == n2[m]);
            }
        }
        if let Child::Node(j) = l {
            lemma_leaves_prefix(n1, fin, j as int);
        }
        if let Child::Node(j) = r {
            lemma_leaves_prefix(n2, fin, j as int);
        }
        assert forall|a: usize, b: usize|
            child_leaves(fin, l).contains(a) && child_leaves(fin, r).contains(b) implies sort_key(
            sort_boxes@,
            a,
            axis,
        ) <= sort_key(sort_boxes@, b, axis) by {
            to_multiset_contains(child_leaves(fin, l), a);
            to_multiset_contains(left_seg, a);
            to_multiset_contains(child_leaves(fin, r), b);
            to_multiset_contains(right_seg, b);
            let ia = choose|ia: int| 0 <= ia < left_seg.len() && left_seg[ia] == a;
            let ib = choose|ib: int| 0 <= ib < right_seg.len() && right_seg[ib] == b;
            assert(sorted[ia] == a);
            assert(sorted[half + ib] == b);
        }
        assert(split_ok(fin, sort_boxes@, k as int));
        assert forall|m: int| 0 <= m < fin.len() implies #[trigger] split_ok(
            fin,
            sort_boxes@,
            m,
        ) by {
            if m < n2.len() {
                assert(split_ok(n2, sort_boxes@, m));
                assert(node_ok(n2, boxes@, m));
                assert(fin[m] == n2[m]);
                if let Child::Node(j) = fin[m].left {
                    lemma_leaves_prefix(n2, fin, j as int);
                }
                if let Child::Node(j) = fin[m].right {
                    lemma_leaves_prefix(n2, fin, j as int);
                }
                assert(child_leaves(fin, fin[m].left) == child_leaves(n2, n2[m].left));
                assert(child_leaves(fin, fin[m].right) == child_leaves(n2, n2[m].right));
            }
        }
        assert(node_leaves(fin, k as int) == child_leaves(fin, l) + child_leaves(fin, r));
        lemma_multiset_commutative(child_leaves(fin, l), child_leaves(fin, r));
        assert(shape_ok(fin, k as int));
        assert forall|m: int| 0 <= m < fin.len() implies #[trigger] shape_ok(fin, m) by {
            if m < n2.len() {
                assert(shape_ok(n2, m));
                assert(node_ok(n2, boxes@, m));
                assert(fin[m] == n2[m]);
                lemma_leaves_prefix(n2, fin, m);
                if let Child::Node(j) = fin[m].left {
                    lemma_leaves_prefix(n2, fin, j as int);
                }
                if let Child::Node(j) = fin[m].right {
                    lemma_leaves_prefix(n2, fin, j as int);
                }
                assert(child_leaves(fin, fin[m].left) == child_leaves(n2, n2[m].left));
                assert(child_leaves(fin, fin[m].right) == child_leaves(n2, n2[m].right));
            }
        }
    }
    Child::Node(k)
}


/// The nearer of two optional hit keys: the smaller key; no hit is farther
/// than any hit.
pub open spec fn closer_key(a: Option<u32>, b: Option<u32>) -> Option<u32> {
    match (a, b) {
        (Some(x), Some(y)) => if x < y {
            a
        } else {
            b
        },
        (Some(_), None) => a,
        (None, _) => b,
    }
}

/// The nearer of two hits, each a key with the index of the primitive hit:
/// the one with the smaller key, the second on equal keys; no hit is farther
/// than any hit.
pub open spec fn nearer(a: Option<(u32, usize)>, b: Option<(u32, usize)>) -> Option<(u32, usize)> {
    match (a, b) {
        (Some(x), Some(y)) => if x.0 < y.0 {
            a
        } else {
            b
        },
        (Some(_), None) => a,
        (None, _) => b,
    }
}

/// The index of the primitive of a hit (zero when there is none).
pub open spec fn hit_index(h: Option<(u32, usize)>) -> usize {
    match h {
        Some(p) => p.1,
        None => 0,
    }
}

/// The hit of primitive `i` under `lf`: its key with its index.
pub open spec fn leaf_pick<T>(items: Seq<T>, i: usize, lf: spec_fn(T) -> Option<u32>) -> Option<
    (u32, usize),
> {
    match lf(items[i as int]) {
        Some(k) => Some((k, i)),
        None => None,
    }
}

/// The key of a hit, if there is one.
pub open spec fn hit_key<R>(r: Option<(u32, R)>) -> Option<u32> {
    match r {
        Some(p) => Some(p.0),
        None => None,
    }
}

/// The closure that tests a box answers as the spec function `bf` does.
pub open spec fn box_agrees<B: Fn(&AABB) -> bool>(f: B, bf: spec_fn(AABB) -> bool) -> bool {
    forall|b: AABB, r: bool| #[trigger] f.ensures((&b,), r) ==> r == bf(b)
}

/// The closure that tests a primitive answers, in the key of its hit, as the
/// spec function `lf` does.
pub open spec fn leaf_agrees<T, R, L: Fn(&T) -> Option<(u32, R)>>(
    f: L,
    lf: spec_fn(T) -> Option<u32>,
) -> bool {
    forall|t: T, r: Option<(u32, R)>| #[trigger] f.ensures((&t,), r) ==> hit_key(r) == lf(t)
}

/// The nearest hit below node `k`, as the traversal finds it, with the index
/// of the primitive hit: none if the node's box is missed; otherwise the
/// nearer of its two children's hits, each child tested with the same
/// interval, the right child's on equal keys.
pub open spec fn node_hit<T>(
    nodes: Seq<Node>,
    items: Seq<T>,
    k: int,
    bf: spec_fn(AABB) -> bool,
    lf: spec_fn(T) -> Option<u32>,
) -> Option<(u32, usize)>
    decreases k,
{
    if 0 <= k < nodes.len() && bf(nodes[k].bbox) {
        let l = match nodes[k].left {
            Child::Leaf(i) => leaf_pick(items, i, lf),
            Child::Node(j) => if j < k {
                node_hit(nodes, items, j as int, bf, lf)
            } else {
                None
            },
        };
        let r = match nodes[k].right {
            Child::Leaf(i) => leaf_pick(items, i, lf),
            Child::Node(j) => if j < k {
                node_hit(nodes, items, j as int, bf, lf)
            } else {
                None
            },
        };
        nearer(l, r)
    } else {
        None
    }
}

/// A bounding volume hierarchy over a set of primitives: a binary tree whose
/// inner nodes sit in an arena, children before parents, with the root last.
pub struct BVHNode<T> {
    items: Vec<T>,
    boxes: Vec<AABB>,
    sort_boxes: Ghost<Seq<AABB>>,
    nodes: Vec<Node>,
}

impl<T> BVHNode<T> {
    /// The primitives, by index.
    pub closed spec fn items_view(self) -> Seq<T> {
        self.items@
    }

    /// Each primitive's box over the shutter window.
    pub closed spec fn boxes_view(self) -> Seq<AABB> {
        self.boxes@
    }

    /// Each primitive's box at time zero, by which the build ordered them.
    pub closed spec fn sort_boxes_view(self) -> Seq<AABB> {
        self.sort_boxes@
    }

    /// The inner nodes.
    pub closed spec fn nodes_view(self) -> Seq<Node> {
        self.nodes@
    }

    /// The position of the root in the arena: the last node.
    pub open spec fn root(self) -> int {
        self.nodes_view().len() - 1
    }

    /// The hierarchy is well formed: one inner node fewer than primitives, each
    /// node's box the union of its children's, each node's run of `m`
    /// primitives split into the first `m / 2` along the node's axis (by the
    /// primitives' boxes at time zero) and the rest, a part of one primitive
    /// being a leaf, and every primitive below the root exactly once.
    pub open spec fn wf(self) -> bool {
        let n = self.items_view().len();
        let nodes = self.nodes_view();
        &&& 2 <= n <= usize::MAX
        &&& self.boxes_view().len() == n
        &&& self.sort_boxes_view().len() == n
        &&& nodes.len() == n - 1
        &&& nodes_ok(nodes, self.boxes_view())
        &&& splits_ok(nodes, self.sort_boxes_view())
        &&& shapes_ok(nodes)
        &&& node_leaves(nodes, self.root()).to_multiset() == Seq::new(
            n,
            |i: int| i as usize,
        ).to_multiset()
    }

    #[verifier::type_invariant]
    spec fn inv(self) -> bool {
        self.wf()
    }

    /// The nearest hit that traversal finds from the root when boxes are
    /// tested by `bf` and primitives by `lf`.
    pub open spec fn hit_spec(
        self,
        bf: spec_fn(AABB) -> bool,
        lf: spec_fn(T) -> Option<u32>,
    ) -> Option<(u32, usize)> {
        node_hit(self.nodes_view(), self.items_view(), self.root(), bf, lf)
    }

    /// Builds the hierarchy over `items`; `sort_boxes[i]` is primitive `i`'s box
    /// at time zero, by which the primitives are ordered, and `boxes[i]` its box
    /// over the shutter window, from which the nodes' boxes are made. Each node
    /// draws its axis at random, orders its run of primitives along it and
    /// splits the run into its first half, rounded down, and the rest; a half
    /// of one primitive is a leaf, so two primitives make two leaves.
    pub fn new(items: Vec<T>, sort_boxes: &Vec<AABB>, boxes: Vec<AABB>) -> (b: BVHNode<T>)
        requires
            items.len() >= 2,
            sort_boxes.len() == items.len(),
            boxes.len() == items.len(),
        ensures
            b.wf(),
            b.items_view() == items@,
            b.boxes_view() == boxes@,
            b.sort_boxes_view() == sort_boxes@,
    {
        let n = items.len();
        let mut seg: Vec<usize> = Vec::new();
        let mut i: usize = 0;
        while i < n
            invariant
                i <= n,
                seg@ == Seq::new(i as nat, |j: int| j as usize),
            decreases n - i,
        {
            seg.push(i);
            i = i + 1;
            proof {
                assert(seg@ =~= Seq::new(i as nat, |j: int| j as usize));
            }
        }
        let mut nodes: Vec<Node> = Vec::new();
        build(seg, sort_boxes, &boxes, &mut nodes);
        BVHNode { items, boxes, sort_boxes: Ghost(sort_boxes@), nodes }
    }

    /// The number of primitives.
    pub fn len(&self) -> (n: usize)
        ensures
            n == self.items_view().len(),
    {
        self.items.len()
    }

    /// The box that surrounds the whole hierarchy: the root's box.
    pub fn bounding_box(&self) -> (b: AABB)
        ensures
            b == self.nodes_view()[self.root()].bbox,
            is_tightest_box(b, self.boxes_view()),
    {
        proof {
            use_type_invariant(self);
            let root = self.root();
            let n = self.items@.len();
            let leaves = node_leaves(self.nodes@, root);
            let range = Seq::new(n, |i: int| i as usize);
            lemma_node_box(self.nodes@, self.boxes@, root);
            let bb = self.nodes@[root].bbox;
            assert forall|j: int| 0 <= j < n implies covers(bb, #[trigger] self.boxes@[j]) by {
                let i = j as usize;
                assert(range[j] == i);
                to_multiset_contains(range, i);
                to_multiset_contains(leaves, i);
                assert(leaves.contains(i));
            }
            lemma_attained_all(bb, leaves, range, self.boxes@, Axis::X);
            lemma_attained_all(bb, leaves, range, self.boxes@, Axis::Y);
            lemma_attained_all(bb, leaves, range, self.boxes@, Axis::Z);
        }
        self.nodes[self.nodes.len() - 1].bbox
    }

    /// The nearest hit of a ray among the primitives. `box_hit` tests a box
    /// against the ray's interval; `leaf_hit` tests a primitive and gives the
    /// order key of the hit distance with what it records of the hit. A node
    /// whose box is missed is skipped with everything below it; otherwise both
    /// children are tested with the same interval, and the nearer hit is kept,
    /// the right child's on equal keys.
    pub fn hit<R, B: Fn(&AABB) -> bool, L: Fn(&T) -> Option<(u32, R)>>(
        &self,
        box_hit: &B,
        leaf_hit: &L,
    ) -> (r: Option<(u32, R)>)
        requires
            forall|b: AABB| #[trigger] box_hit.requires((&b,)),
            forall|t: T| #[trigger] leaf_hit.requires((&t,)),
        ensures
            self.wf(),
            forall|bf: spec_fn(AABB) -> bool, lf: spec_fn(T) -> Option<u32>|
                #![trigger self.hit_spec(bf, lf)]
                box_agrees(*box_hit, bf) && leaf_agrees(*leaf_hit, lf) ==> {
                    &&& hit_key(r) == hit_key(self.hit_spec(bf, lf))
                    &&& r is Some ==> leaf_hit.ensures(
                        (&self.items_view()[hit_index(self.hit_spec(bf, lf)) as int],),
                        r,
                    )
                },
            r is Some ==> exists|i: usize|
                0 <= i < self.items_view().len() && #[trigger] leaf_hit.ensures(
                    (&self.items_view()[i as int],),
                    r,
                ),
    {
        proof {
            use_type_invariant(self);
        }
        let r = self.hit_node(self.nodes.len() - 1, box_hit, leaf_hit);
        proof {
            if r is Some {
                let i = choose|i: usize|
                    0 <= i < self.items@.len() && node_leaves(self.nodes@, self.root()).contains(i)
                        && #[trigger] leaf_hit.ensures((&self.items@[i as int],), r);
                assert(leaf_hit.ensures((&self.items_view()[i as int],), r));
            }
        }
        r
    }

    /// Tests one node and what lies below it.
    fn hit_node<R, B: Fn(&AABB) -> bool, L: Fn(&T) -> Option<(u32, R)>>(
        &self,
        k: usize,
        box_hit: &B,
        leaf_hit: &L,
    ) -> (r: Option<(u32, R)>)
        requires
            self.wf(),
            k < self.nodes@.len(),
            forall|b: AABB| #[trigger] box_hit.requires((&b,)),
            forall|t: T| #[trigger] leaf_hit.requires((&t,)),
        ensures
            forall|bf: spec_fn(AABB) -> bool, lf: spec_fn(T) -> Option<u32>|
                #![trigger node_hit(self.nodes@, self.items@, k as int, bf, lf)]
                box_agrees(*box_hit, bf) && leaf_agrees(*leaf_hit, lf) ==> {
                    let h = node_hit(self.nodes@, self.items@, k as int, bf, lf);
                    &&& hit_key(r) == hit_key(h)
                    &&& r is Some ==> leaf_hit.ensures((&self.items@[hit_index(h) as int],), r)
                },
            r is Some ==> exists|i: usize|
                0 <= i < self.items@.len() && node_leaves(self.nodes@, k as int).contains(i)
                    && #[trigger] leaf_hit.ensures((&self.items@[i as int],), r),
        decreases k,
    {
        let node = self.nodes[k];
        proof {
            assert(node_ok(self.nodes@, self.boxes@, k as int));
        }
        let inside = box_hit(&node.bbox);
        if !inside {
            proof {
                assert forall|bf: spec_fn(AABB) -> bool, lf: spec_fn(T) -> Option<u32>|
                    box_agrees(*box_hit, bf) && leaf_agrees(*leaf_hit, lf) implies node_hit(
                    self.nodes@,
                    self.items@,
                    k as int,
                    bf,
                    lf,
                ) is None by {
                    assert(box_hit.ensures((&node.bbox,), inside));
                }
            }
            return None;
        }
        let l = match node.left {
            Child::Leaf(i) => leaf_hit(&self.items[i]),
            Child::Node(j) => self.hit_node(j, box_hit, leaf_hit),
        };
        let r = match node.right {
            Child::Leaf(i) => leaf_hit(&self.items[i]),
            Child::Node(j) => self.hit_node(j, box_hit, leaf_hit),
        };
        let ghost gl = l;
        let ghost gr = r;
        proof {
            let lv = child_leaves(self.nodes@, node.left);
            let rv = child_leaves(self.nodes@, node.right);
            assert(node_leaves(self.nodes@, k as int) == lv + rv);
            assert forall|i: usize| lv.contains(i) implies (lv + rv).contains(i) by {
                let w = choose|w: int| 0 <= w < lv.len() && lv[w] == i;
                assert((lv + rv)[w] == i);
            }
            assert forall|i: usize| rv.contains(i) implies (lv + rv).contains(i) by {
                let w = choose|w: int| 0 <= w < rv.len() && rv[w] == i;
                assert((lv + rv)[lv.len() + w] == i);
            }
            if let Child::Leaf(i) = node.left {
                assert(lv[0] == i);
                assert(leaf_hit.ensures((&self.items@[i as int],), gl));
            }
            if let Child::Leaf(i) = node.right {
                assert(rv[0] == i);
                assert(leaf_hit.ensures((&self.items@[i as int],), gr));
            }
            if gl is Some {
                let i = choose|i: usize|
                    0 <= i < self.items@.len() && lv.contains(i) && #[trigger] leaf_hit.ensures(
                        (&self.items@[i as int],),
                        gl,
                    );
                assert((lv + rv).contains(i));
            }
            if gr is Some {
                let i = choose|i: usize|
                    0 <= i < self.items@.len() && rv.contains(i) && #[trigger] leaf_hit.ensures(
                        (&self.items@[i as int],),
                        gr,
                    );
                assert((lv + rv).contains(i));
            }
            assert forall|bf: spec_fn(AABB) -> bool, lf: spec_fn(T) -> Option<u32>|
                box_agrees(*box_hit, bf) && leaf_agrees(*leaf_hit, lf) implies {
                let hl = match node.left {
                    Child::Leaf(i) => leaf_pick(self.items@, i, lf),
                    Child::Node(j) => node_hit(self.nodes@, self.items@, j as int, bf, lf),
                };
                let hr = match node.right {
                    Child::Leaf(i) => leaf_pick(self.items@, i, lf),
                    Child::Node(j) => node_hit(self.nodes@, self.items@, j as int, bf, lf),
                };
                &&& hit_key(gl) == hit_key(hl)
                &&& gl is Some ==> leaf_hit.ensures((&self.items@[hit_index(hl) as int],), gl)
                &&& hit_key(gr) == hit_key(hr)
                &&& gr is Some ==> leaf_hit.ensures((&self.items@[hit_index(hr) as int],), gr)
                &&& node_hit(self.nodes@, self.items@, k as int, bf, lf) == nearer(hl, hr)
            } by {
                assert(box_hit.ensures((&node.bbox,), inside));
                if let Child::Leaf(i) = node.left {
                    assert(leaf_hit.ensures((&self.items@[i as int],), gl));
                }
                if let Child::Node(j) = node.left {
                    assert(node_hit(self.nodes@, self.items@, j as int, bf, lf) == node_hit(
                        self.nodes@,
                        self.items@,
                        j as int,
                        bf,
                        lf,
                    ));
                }
                if let Child::Leaf(i) = node.right {
                    assert(leaf_hit.ensures((&self.items@[i as int],), gr));
                }
                if let Child::Node(j) = node.right {
                    assert(node_hit(self.nodes@, self.items@, j as int, bf, lf) == node_hit(
                        self.nodes@,
                        self.items@,
                        j as int,
                        bf,
                        lf,
                    ));
                }
            }
        }
        match (l, r) {
            (Some(lh), Some(rh)) => {
                if lh.0 < rh.0 {
                    Some(lh)
                } else {
                    Some(rh)
                }
            },
            (Some(lh), None) => Some(lh),
            (None, Some(rh)) => Some(rh),
            (None, None) => None,
        }
    }
}


/// The outer box holds the inner one on every axis.
pub open spec fn covers(outer: AABB, inner: AABB) -> bool {
    &&& outer.min.x <= inner.min.x && outer.min.y <= inner.min.y && outer.min.z <= inner.min.z
    &&& inner.max.x <= outer.max.x && inner.max.y <= outer.max.y && inner.max.z <= outer.max.z
}

/// Along the axis, the box's minimum is that of one of the boxes of `boxes`
/// at the indices that `idx` holds, and so is its maximum.
pub open spec fn attained(b: AABB, idx: Seq<usize>, boxes: Seq<AABB>, a: Axis) -> bool {
    &&& exists|i: usize| idx.contains(i) && boxes[i as int].min.at(a) == b.min.at(a)
    &&& exists|i: usize| idx.contains(i) && boxes[i as int].max.at(a) == b.max.at(a)
}

/// `b` is the smallest box that holds every box of `boxes`: it holds each, and
/// each of its coordinates is that of one of them.
pub open spec fn is_tightest_box(b: AABB, boxes: Seq<AABB>) -> bool {
    let all = Seq::new(boxes.len(), |j: int| j as usize);
    &&& forall|j: int| 0 <= j < boxes.len() ==> covers(b, #[trigger] boxes[j])
    &&& attained(b, all, boxes, Axis::X)
    &&& attained(b, all, boxes, Axis::Y)
    &&& attained(b, all, boxes, Axis::Z)
}

/// `b` holds the boxes of all the primitives of `leaves`, which exist, and each
/// of its coordinates is that of one of them.
pub open spec fn box_facts(b: AABB, leaves: Seq<usize>, boxes: Seq<AABB>) -> bool {
    &&& forall|i: usize|
        #![trigger leaves.contains(i)]
        leaves.contains(i) ==> i < boxes.len() && covers(b, boxes[i as int])
    &&& attained(b, leaves, boxes, Axis::X)
    &&& attained(b, leaves, boxes, Axis::Y)
    &&& attained(b, leaves, boxes, Axis::Z)
}

proof fn lemma_attained_union(
    lb: AABB,
    lv: Seq<usize>,
    rb: AABB,
    rv: Seq<usize>,
    boxes: Seq<AABB>,
    a: Axis,
)
    requires
        attained(lb, lv, boxes, a),
        attained(rb, rv, boxes, a),
    ensures
        attained(union(lb, rb), lv + rv, boxes, a),
{
    lemma_union_at(lb, rb, a);
    let u = union(lb, rb);
    let s = lv + rv;
    let il = choose|i: usize| lv.contains(i) && boxes[i as int].min.at(a) == lb.min.at(a);
    let ir = choose|i: usize| rv.contains(i) && boxes[i as int].min.at(a) == rb.min.at(a);
    let jl = choose|i: usize| lv.contains(i) && boxes[i as int].max.at(a) == lb.max.at(a);
    let jr = choose|i: usize| rv.contains(i) && boxes[i as int].max.at(a) == rb.max.at(a);
    lemma_concat_contains(lv, rv, il);
    lemma_concat_contains(lv, rv, ir);
    lemma_concat_contains(lv, rv, jl);
    lemma_concat_contains(lv, rv, jr);
    if lb.min.at(a) <= rb.min.at(a) {
        assert(s.contains(il) && boxes[il as int].min.at(a) == u.min.at(a));
    } else {
        assert(s.contains(ir) && boxes[ir as int].min.at(a) == u.min.at(a));
    }
    if lb.max.at(a) >= rb.max.at(a) {
        assert(s.contains(jl) && boxes[jl as int].max.at(a) == u.max.at(a));
    } else {
        assert(s.contains(jr) && boxes[jr as int].max.at(a) == u.max.at(a));
    }
}

/// An element of two sequences joined is an element of one of them.
proof fn lemma_concat_contains(a: Seq<usize>, b: Seq<usize>, i: usize)
    ensures
        (a + b).contains(i) <==> a.contains(i) || b.contains(i),
{
    if a.contains(i) {
        let w = choose|w: int| 0 <= w < a.len() && a[w] == i;
        assert((a + b)[w] == i);
    }
    if b.contains(i) {
        let w = choose|w: int| 0 <= w < b.len() && b[w] == i;
        assert((a + b)[a.len() + w] == i);
    }
    if (a + b).contains(i) {
        let w = choose|w: int| 0 <= w < (a + b).len() && (a + b)[w] == i;
        if w < a.len() {
            assert(a[w] == i);
        } else {
            assert(b[w - a.len()] == i);
        }
    }
}

proof fn lemma_box_facts_union(
    lb: AABB,
    lv: Seq<usize>,
    rb: AABB,
    rv: Seq<usize>,
    boxes: Seq<AABB>,
)
    requires
        box_facts(lb, lv, boxes),
        box_facts(rb, rv, boxes),
    ensures
        box_facts(union(lb, rb), lv + rv, boxes),
{
    assert forall|i: usize| #[trigger] (lv + rv).contains(i) implies i < boxes.len() && covers(
        union(lb, rb),
        boxes[i as int],
    ) by {
        lemma_concat_contains(lv, rv, i);
    }
    lemma_attained_union(lb, lv, rb, rv, boxes, Axis::X);
    lemma_attained_union(lb, lv, rb, rv, boxes, Axis::Y);
    lemma_attained_union(lb, lv, rb, rv, boxes, Axis::Z);
}

/// A coordinate attained by a box of some indices is attained by the same box
/// of any indices that hold the same elements.
proof fn lemma_attained_all(b: AABB, idx: Seq<usize>, all: Seq<usize>, boxes: Seq<AABB>, a: Axis)
    requires
        attained(b, idx, boxes, a),
        idx.to_multiset() == all.to_multiset(),
    ensures
        attained(b, all, boxes, a),
{
    let i = choose|i: usize| idx.contains(i) && boxes[i as int].min.at(a) == b.min.at(a);
    let m = choose|i: usize| idx.contains(i) && boxes[i as int].max.at(a) == b.max.at(a);
    to_multiset_contains(idx, i);
    to_multiset_contains(all, i);
    to_multiset_contains(idx, m);
    to_multiset_contains(all, m);
}

/// A node's box holds the boxes of all the primitives below it, and each of
/// its coordinates is that of one of them.
proof fn lemma_node_box(nodes: Seq<Node>, boxes: Seq<AABB>, k: int)
    requires
        nodes_ok(nodes, boxes),
        0 <= k < nodes.len(),
    ensures
        box_facts(nodes[k].bbox, node_leaves(nodes, k), boxes),
    decreases k,
{
    assert(node_ok(nodes, boxes, k));
    let lc = nodes[k].left;
    let rc = nodes[k].right;
    assert(node_leaves(nodes, k) == child_leaves(nodes, lc) + child_leaves(nodes, rc));
    match lc {
        Child::Node(j) => lemma_node_box(nodes, boxes, j as int),
        Child::Leaf(i) => lemma_leaf_box(boxes, i),
    }
    match rc {
        Child::Node(j) => lemma_node_box(nodes, boxes, j as int),
        Child::Leaf(i) => lemma_leaf_box(boxes, i),
    }
    lemma_box_facts_union(
        child_box(nodes, boxes, lc),
        child_leaves(nodes, lc),
        child_box(nodes, boxes, rc),
        child_leaves(nodes, rc),
        boxes,
    );
}

proof fn lemma_leaf_box(boxes: Seq<AABB>, i: usize)
    requires
        i < boxes.len(),
    ensures
        box_facts(boxes[i as int], seq![i], boxes),
{
    let s = seq![i];
    assert(s[0] == i);
    assert(s.contains(i));
    assert forall|x: usize| s.contains(x) implies x == i by {}
}

/// The nearest of a sequence of optional hit keys, taken from first to last.
pub open spec fn nearest(ks: Seq<Option<u32>>) -> Option<u32>
    decreases ks.len(),
{
    if ks.len() == 0 {
        None
    } else {
        closer_key(nearest(ks.drop_last()), ks.last())
    }
}

/// The hit keys of the primitives at the given indices.
pub open spec fn leaf_keys<T>(idx: Seq<usize>, items: Seq<T>, lf: spec_fn(T) -> Option<u32>) -> Seq<
    Option<u32>,
> {
    idx.map_values(|i: usize| lf(items[i as int]))
}

/// The nearest hit that a linear scan of the primitives finds, with the index
/// of the primitive hit: a later hit replaces the one kept only when its key
/// is smaller, so of equal keys the first in order stays.
pub open spec fn list_hit<T>(items: Seq<T>, lf: spec_fn(T) -> Option<u32>) -> Option<(u32, usize)>
    decreases items.len(),
{
    if items.len() == 0 {
        None
    } else {
        let prev = list_hit(items.drop_last(), lf);
        let i = (items.len() - 1) as usize;
        match (lf(items.last()), prev) {
            (Some(k), Some(p)) => if k < p.0 {
                Some((k, i))
            } else {
                prev
            },
            (Some(k), None) => Some((k, i)),
            (None, _) => prev,
        }
    }
}

/// The scan finds the nearest key of all the primitives.
proof fn lemma_list_hit_nearest<T>(items: Seq<T>, lf: spec_fn(T) -> Option<u32>)
    ensures
        hit_key(list_hit(items, lf)) == nearest(items.map_values(lf)),
        list_hit(items, lf) is Some ==> hit_index(list_hit(items, lf)) < items.len(),
    decreases items.len(),
{
    if items.len() > 0 {
        lemma_list_hit_nearest(items.drop_last(), lf);
        assert(items.map_values(lf).drop_last() =~= items.drop_last().map_values(lf));
    }
}

/// A list of primitives, tested one after the other.
pub struct HittableList<T> {
    pub items: Vec<T>,
}

impl<T> HittableList<T> {
    /// The nearest hit among the primitives, scanning them in order and keeping
    /// the first of equal keys; `leaf_hit` gives the order key of a hit distance
    /// with what it records of the hit.
    pub fn hit<R, L: Fn(&T) -> Option<(u32, R)>>(&self, leaf_hit: &L) -> (r: Option<(u32, R)>)
        requires
            forall|t: T| #[trigger] leaf_hit.requires((&t,)),
        ensures
            forall|lf: spec_fn(T) -> Option<u32>|
                #![trigger list_hit(self.items@, lf)]
                leaf_agrees(*leaf_hit, lf) ==> {
                    &&& hit_key(r) == hit_key(list_hit(self.items@, lf))
                    &&& r is Some ==> leaf_hit.ensures(
                        (&self.items@[hit_index(list_hit(self.items@, lf)) as int],),
                        r,
                    )
                },
            r is Some ==> exists|i: usize|
                0 <= i < self.items@.len() && #[trigger] leaf_hit.ensures(
                    (&self.items@[i as int],),
                    r,
                ),
    {
        let mut result: Option<(u32, R)> = None;
        let mut i: usize = 0;
        while i < self.items.len()
            invariant
                i <= self.items@.len(),
                forall|t: T| #[trigger] leaf_hit.requires((&t,)),
                forall|lf: spec_fn(T) -> Option<u32>|
                    #![trigger leaf_agrees(*leaf_hit, lf)]
                    leaf_agrees(*leaf_hit, lf) ==> {
                        let h = list_hit(self.items@.subrange(0, i as int), lf);
                        &&& hit_key(result) == hit_key(h)
                        &&& result is Some ==> leaf_hit.ensures(
                            (&self.items@[hit_index(h) as int],),
                            result,
                        )
                    },
                result is Some ==> exists|j: usize|
                    0 <= j < self.items@.len() && #[trigger] leaf_hit.ensures(
                        (&self.items@[j as int],),
                        result,
                    ),
            decreases self.items@.len() - i,
        {
            let cur = leaf_hit(&self.items[i]);
            let ghost prev = result;
            let ghost gcur = cur;
            let better = match (&cur, &result) {
                (Some(c), Some(b)) => c.0 < b.0,
                (Some(_), None) => true,
                (None, _) => false,
            };
            if better {
                result = cur;
            }
            proof {
                assert forall|lf: spec_fn(T) -> Option<u32>|
                    #![trigger leaf_agrees(*leaf_hit, lf)]
                    leaf_agrees(*leaf_hit, lf) implies {
                    let h = list_hit(self.items@.subrange(0, i as int + 1), lf);
                    &&& hit_key(result) == hit_key(h)
                    &&& result is Some ==> leaf_hit.ensures(
                        (&self.items@[hit_index(h) as int],),
                        result,
                    )
                } by {
                    let s1 = self.items@.subrange(0, i as int + 1);
                    let s0 = self.items@.subrange(0, i as int);
                    assert(s1.drop_last() =~= s0);
                    assert(s1.last() == self.items@[i as int]);
                    lemma_list_hit_nearest(s0, lf);
                    assert(leaf_hit.ensures((&self.items@[i as int],), gcur));
                }
            }
            i = i + 1;
        }
        proof {
            assert(self.items@.subrange(0, i as int) =~= self.items@);
        }
        result
    }

    /// The box that surrounds every primitive of the list, or none if one of
    /// them has no box; `bbox` gives a primitive's box.
    pub fn bounding_box<BB: Fn(&T) -> Option<AABB>>(&self, bbox: &BB) -> (r: Option<AABB>)
        requires
            forall|t: T| #[trigger] bbox.requires((&t,)),
        ensures
            forall|f: spec_fn(T) -> Option<AABB>|
                #![trigger list_box(self.items@, f)]
                box_fn_agrees(*bbox, f) ==> r == list_box(self.items@, f),
    {
        let mut result = AABB::new_empty();
        let mut i: usize = 0;
        while i < self.items.len()
            invariant
                i <= self.items@.len(),
                forall|t: T| #[trigger] bbox.requires((&t,)),
                forall|f: spec_fn(T) -> Option<AABB>|
                    #![trigger box_fn_agrees(*bbox, f)]
                    box_fn_agrees(*bbox, f) ==> list_box(self.items@.subrange(0, i as int), f)
                        == Some(result),
            decreases self.items@.len() - i,
        {
            let b = bbox(&self.items[i]);
            proof {
                assert forall|f: spec_fn(T) -> Option<AABB>|
                    #![trigger box_fn_agrees(*bbox, f)]
                    box_fn_agrees(*bbox, f) implies list_box(
                    self.items@.subrange(0, i as int + 1),
                    f,
                ) == match b {
                    Some(x) => Some(union(result, x)),
                    None => None,
                } by {
                    let s = self.items@.subrange(0, i as int + 1);
                    assert(s.drop_last() =~= self.items@.subrange(0, i as int));
                    assert(bbox.ensures((&self.items@[i as int],), b));
                }
            }
            match b {
                Some(x) => {
                    result.add(&x);
                },
                None => {
                    proof {
                        assert forall|f: spec_fn(T) -> Option<AABB>|
                            #![trigger list_box(self.items@, f)]
                            box_fn_agrees(*bbox, f) implies list_box(self.items@, f) is None by {
                            lemma_list_box_none(self.items@, f, i as int + 1);
                        }
                    }
                    return None;
                },
            }
            i = i + 1;
        }
        proof {
            assert(self.items@.subrange(0, i as int) =~= self.items@);
        }
        Some(result)
    }
}

/// The closure that gives a primitive's box answers as the spec function `f` does.
pub open spec fn box_fn_agrees<T, BB: Fn(&T) -> Option<AABB>>(
    g: BB,
    f: spec_fn(T) -> Option<AABB>,
) -> bool {
    forall|t: T, r: Option<AABB>| #[trigger] g.ensures((&t,), r) ==> r == f(t)
}

/// The union of the primitives' boxes, starting from the empty box, or none if
/// one of them has no box.
pub open spec fn list_box<T>(items: Seq<T>, f: spec_fn(T) -> Option<AABB>) -> Option<AABB>
    decreases items.len(),
{
    if items.len() == 0 {
        Some(crate::aabb::empty())
    } else {
        match list_box(items.drop_last(), f) {
            Some(acc) => match f(items.last()) {
                Some(b) => Some(union(acc, b)),
                None => None,
            },
            None => None,
        }
    }
}

/// Once a primitive without a box is met, the list has no box.
proof fn lemma_list_box_none<T>(items: Seq<T>, f: spec_fn(T) -> Option<AABB>, m: int)
    requires
        0 < m <= items.len(),
        list_box(items.subrange(0, m), f) is None,
    ensures
        list_box(items, f) is None,
    decreases items.len() - m,
{
    if m < items.len() {
        let s = items.subrange(0, m + 1);
        assert(s.drop_last() =~= items.subrange(0, m));
        lemma_list_box_none(items, f, m + 1);
    } else {
        assert(items.subrange(0, m) =~= items);
    }
}


/// What the nearest key of a sequence is: none exactly when every entry is
/// none; otherwise a key that occurs and is no farther than any other.
proof fn lemma_nearest_is_min(ks: Seq<Option<u32>>)
    ensures
        nearest(ks) is None <==> forall|j: int| 0 <= j < ks.len() ==> ks[j] is None,
        nearest(ks) is Some ==> ks.contains(nearest(ks)),
        nearest(ks) is Some ==> forall|j: int|
            0 <= j < ks.len() && ks[j] is Some ==> nearest(ks)->0 <= ks[j]->0,
    decreases ks.len(),
{
    if ks.len() > 0 {
        let init = ks.drop_last();
        lemma_nearest_is_min(init);
        assert forall|j: int| 0 <= j < init.len() implies init[j] == ks[j] by {}
        if nearest(ks) is Some {
            if nearest(ks) == ks.last() {
                assert(ks[ks.len() - 1] == ks.last());
            } else {
                let w = choose|w: int| 0 <= w < init.len() && init[w] == nearest(init);
                assert(ks[w] == nearest(ks));
            }
        }
        if nearest(ks) is None {
            assert forall|j: int| 0 <= j < ks.len() implies ks[j] is None by {
                if j < ks.len() - 1 {
                    assert(init[j] == ks[j]);
                }
            }
        }
    }
}

/// Two sequences that hold the same keys have the same nearest key.
proof fn lemma_nearest_same_keys(a: Seq<Option<u32>>, b: Seq<Option<u32>>)
    requires
        forall|v: Option<u32>| a.contains(v) <==> b.contains(v),
    ensures
        nearest(a) == nearest(b),
{
    lemma_nearest_is_min(a);
    lemma_nearest_is_min(b);
    if nearest(a) is None && nearest(b) is Some {
        let w = choose|w: int| 0 <= w < a.len() && a[w] == nearest(b);
    }
    if nearest(b) is None && nearest(a) is Some {
        let w = choose|w: int| 0 <= w < b.len() && b[w] == nearest(a);
    }
    if nearest(a) is Some && nearest(b) is Some {
        let wa = choose|w: int| 0 <= w < b.len() && b[w] == nearest(a);
        let wb = choose|w: int| 0 <= w < a.len() && a[w] == nearest(b);
    }
}

/// The nearest key of two sequences joined is the nearer of their nearest keys.
proof fn lemma_nearest_concat(a: Seq<Option<u32>>, b: Seq<Option<u32>>)
    ensures
        nearest(a + b) == closer_key(nearest(a), nearest(b)),
    decreases b.len(),
{
    if b.len() == 0 {
        assert(a + b =~= a);
    } else {
        assert((a + b).drop_last() =~= a + b.drop_last());
        assert((a + b).last() == b.last());
        lemma_nearest_concat(a, b.drop_last());
    }
}

/// Under a box test that never misses a box holding a hit, a primitive below a
/// node that is hit makes the node's box hit.
proof fn lemma_hit_inside_box<T>(
    nodes: Seq<Node>,
    items: Seq<T>,
    boxes: Seq<AABB>,
    k: int,
    i: usize,
    bf: spec_fn(AABB) -> bool,
    lf: spec_fn(T) -> Option<u32>,
)
    requires
        nodes_ok(nodes, boxes),
        items.len() == boxes.len(),
        0 <= k < nodes.len(),
        node_leaves(nodes, k).contains(i),
        lf(items[i as int]) is Some,
        forall|j: int| 0 <= j < items.len() && (#[trigger] lf(items[j])) is Some ==> bf(boxes[j]),
        forall|a: AABB, b: AABB| bf(a) || bf(b) ==> #[trigger] bf(union(a, b)),
    ensures
        bf(nodes[k].bbox),
    decreases k,
{
    assert(node_ok(nodes, boxes, k));
    let lv = child_leaves(nodes, nodes[k].left);
    let rv = child_leaves(nodes, nodes[k].right);
    assert(node_leaves(nodes, k) == lv + rv);
    let w = choose|w: int| 0 <= w < (lv + rv).len() && (lv + rv)[w] == i;
    let c = if w < lv.len() {
        assert(lv[w] == i);
        nodes[k].left
    } else {
        assert(rv[w - lv.len()] == i);
        nodes[k].right
    };
    assert(child_leaves(nodes, c).contains(i));
    match c {
        Child::Leaf(j) => {
            assert(child_leaves(nodes, c)[0] == j);
            assert(i < items.len());
            assert(bf(boxes[i as int]));
        },
        Child::Node(j) => {
            lemma_hit_inside_box(nodes, items, boxes, j as int, i, bf, lf);
        },
    }
    assert(bf(child_box(nodes, boxes, c)));
    assert(bf(union(child_box(nodes, boxes, nodes[k].left), child_box(nodes, boxes, nodes[k].right))));
}

/// Under a box test that never misses a box holding a hit, traversal from a
/// node finds the nearest of the hits of all the primitives below it.
proof fn lemma_node_hit_nearest<T>(
    nodes: Seq<Node>,
    items: Seq<T>,
    boxes: Seq<AABB>,
    k: int,
    bf: spec_fn(AABB) -> bool,
    lf: spec_fn(T) -> Option<u32>,
)
    requires
        nodes_ok(nodes, boxes),
        items.len() == boxes.len(),
        0 <= k < nodes.len(),
        forall|j: int| 0 <= j < items.len() && (#[trigger] lf(items[j])) is Some ==> bf(boxes[j]),
        forall|a: AABB, b: AABB| bf(a) || bf(b) ==> #[trigger] bf(union(a, b)),
    ensures
        hit_key(node_hit(nodes, items, k, bf, lf)) == nearest(
            leaf_keys(node_leaves(nodes, k), items, lf),
        ),
    decreases k,
{
    assert(node_ok(nodes, boxes, k));
    let lv = child_leaves(nodes, nodes[k].left);
    let rv = child_leaves(nodes, nodes[k].right);
    assert(node_leaves(nodes, k) == lv + rv);
    let keys = leaf_keys(lv + rv, items, lf);
    assert(keys =~= leaf_keys(lv, items, lf) + leaf_keys(rv, items, lf));
    lemma_nearest_concat(leaf_keys(lv, items, lf), leaf_keys(rv, items, lf));
    match nodes[k].left {
        Child::Leaf(i) => {
            assert(leaf_keys(lv, items, lf).drop_last() =~= Seq::<Option<u32>>::empty());
            assert(nearest(leaf_keys(lv, items, lf).drop_last()) == None::<u32>);
            assert(leaf_keys(lv, items, lf).last() == lf(items[i as int]));
            assert(nearest(leaf_keys(lv, items, lf)) == lf(items[i as int]));
        },
        Child::Node(j) => {
            lemma_node_hit_nearest(nodes, items, boxes, j as int, bf, lf);
        },
    }
    match nodes[k].right {
        Child::Leaf(i) => {
            assert(leaf_keys(rv, items, lf).drop_last() =~= Seq::<Option<u32>>::empty());
            assert(nearest(leaf_keys(rv, items, lf).drop_last()) == None::<u32>);
            assert(leaf_keys(rv, items, lf).last() == lf(items[i as int]));
            assert(nearest(leaf_keys(rv, items, lf)) == lf(items[i as int]));
        },
        Child::Node(j) => {
            lemma_node_hit_nearest(nodes, items, boxes, j as int, bf, lf);
        },
    }
    if !bf(nodes[k].bbox) {
        lemma_nearest_is_min(keys);
        assert forall|j: int| 0 <= j < keys.len() implies keys[j] is None by {
            let i = (lv + rv)[j];
            assert(node_leaves(nodes, k).contains(i));
            if lf(items[i as int]) is Some {
                lemma_hit_inside_box(nodes, items, boxes, k, i, bf, lf);
            }
        }
    }
}

/// Traversing the hierarchy finds the same nearest hit key as a linear scan of
/// the same primitives, whatever axes the build drew, for any box test that
/// never misses a box holding a hit: a primitive that is hit has its own box
/// hit, and a box that is hit makes every box that contains it hit. (Of hits
/// at equal keys the two may return different primitives.)
pub proof fn lemma_bvh_matches_list<T>(
    bvh: BVHNode<T>,
    list: HittableList<T>,
    bf: spec_fn(AABB) -> bool,
    lf: spec_fn(T) -> Option<u32>,
)
    requires
        bvh.wf(),
        list.items@ == bvh.items_view(),
        forall|j: int|
            0 <= j < bvh.items_view().len() && (#[trigger] lf(bvh.items_view()[j])) is Some ==> bf(
                bvh.boxes_view()[j],
            ),
        forall|a: AABB, b: AABB| bf(a) || bf(b) ==> #[trigger] bf(union(a, b)),
    ensures
        hit_key(bvh.hit_spec(bf, lf)) == hit_key(list_hit(list.items@, lf)),
{
    lemma_bvh_keys_match_scan(bvh, bf, lf);
}

proof fn lemma_bvh_keys_match_scan<T>(
    bvh: BVHNode<T>,
    bf: spec_fn(AABB) -> bool,
    lf: spec_fn(T) -> Option<u32>,
)
    requires
        bvh.wf(),
        forall|j: int|
            0 <= j < bvh.items_view().len() && (#[trigger] lf(bvh.items_view()[j])) is Some ==> bf(
                bvh.boxes_view()[j],
            ),
        forall|a: AABB, b: AABB| bf(a) || bf(b) ==> #[trigger] bf(union(a, b)),
    ensures
        hit_key(bvh.hit_spec(bf, lf)) == hit_key(list_hit(bvh.items_view(), lf)),
{
    lemma_list_hit_nearest(bvh.items@, lf);
    let items = bvh.items@;
    let n = items.len();
    let leaves = node_leaves(bvh.nodes@, bvh.root());
    lemma_node_hit_nearest(bvh.nodes@, items, bvh.boxes@, bvh.root(), bf, lf);
    let range = Seq::new(n, |i: int| i as usize);
    let a = leaf_keys(leaves, items, lf);
    let b = items.map_values(lf);
    assert forall|v: Option<u32>| a.contains(v) <==> b.contains(v) by {
        if a.contains(v) {
            let w = choose|w: int| 0 <= w < a.len() && a[w] == v;
            let i = leaves[w];
            assert(leaves.contains(i));
            to_multiset_contains(leaves, i);
            to_multiset_contains(range, i);
            let x = choose|x: int| 0 <= x < range.len() && range[x] == i;
            assert(b[i as int] == v);
        }
        if b.contains(v) {
            let w = choose|w: int| 0 <= w < b.len() && b[w] == v;
            let i = w as usize;
            assert(i as int == w);
            assert(range[w] == i);
            assert(range.contains(i));
            to_multiset_contains(range, i);
            to_multiset_contains(leaves, i);
            let x = choose|x: int| 0 <= x < leaves.len() && leaves[x] == i;
            assert(a[x] == lf(items[i as int]));
            assert(a[x] == v);
        }
    }
    lemma_nearest_same_keys(a, b);
}

/// Two hierarchies built over the same primitives and boxes find the same
/// nearest hit key, whatever axes either build drew, for any box test that
/// never misses a box holding a hit.
pub proof fn lemma_bvh_independent_of_build<T>(
    a: BVHNode<T>,
    b: BVHNode<T>,
    bf: spec_fn(AABB) -> bool,
    lf: spec_fn(T) -> Option<u32>,
)
    requires
        a.wf(),
        b.wf(),
        a.items_view() == b.items_view(),
        a.boxes_view() == b.boxes_view(),
        forall|j: int|
            0 <= j < a.items_view().len() && (#[trigger] lf(a.items_view()[j])) is Some ==> bf(
                a.boxes_view()[j],
            ),
        forall|x: AABB, y: AABB| bf(x) || bf(y) ==> #[trigger] bf(union(x, y)),
    ensures
        hit_key(a.hit_spec(bf, lf)) == hit_key(b.hit_spec(bf, lf)),
{
    lemma_bvh_keys_match_scan(a, bf, lf);
    lemma_bvh_keys_match_scan(b, bf, lf);
}

/// The number of halvings, rounding up, that bring `m` down to one.
pub open spec fn ceil_log2(m: nat) -> nat
    decreases m,
{
    if m <= 1 {
        0
    } else {
        1 + ceil_log2((m - m / 2) as nat)
    }
}

/// The height of node `k`: the most inner nodes on a path from it down to a leaf.
pub open spec fn node_height(nodes: Seq<Node>, k: int) -> nat
    decreases k,
{
    if 0 <= k < nodes.len() {
        let hl = match nodes[k].left {
            Child::Leaf(_) => 0,
            Child::Node(j) => if j < k {
                node_height(nodes, j as int)
            } else {
                0
            },
        };
        let hr = match nodes[k].right {
            Child::Leaf(_) => 0,
            Child::Node(j) => if j < k {
                node_height(nodes, j as int)
            } else {
                0
            },
        };
        1 + if hl >= hr {
            hl
        } else {
            hr
        }
    } else {
        0
    }
}

proof fn lemma_ceil_log2_monotone(a: nat, b: nat)
    requires
        a <= b,
    ensures
        ceil_log2(a) <= ceil_log2(b),
    decreases b,
{
    if a > 1 {
        lemma_ceil_log2_monotone((a - a / 2) as nat, (b - b / 2) as nat);
    }
}

/// A node over `m` primitives, split in halves all the way down, has height
/// `ceil_log2(m)`.
proof fn lemma_node_height(nodes: Seq<Node>, boxes: Seq<AABB>, k: int)
    requires
        nodes_ok(nodes, boxes),
        shapes_ok(nodes),
        0 <= k < nodes.len(),
    ensures
        node_leaves(nodes, k).len() >= 2,
        node_height(nodes, k) == ceil_log2(node_leaves(nodes, k).len()),
    decreases k,
{
    assert(node_ok(nodes, boxes, k));
    assert(shape_ok(nodes, k));
    let m = node_leaves(nodes, k).len();
    let lc = nodes[k].left;
    let rc = nodes[k].right;
    assert(node_leaves(nodes, k) == child_leaves(nodes, lc) + child_leaves(nodes, rc));
    if let Child::Node(j) = lc {
        lemma_node_height(nodes, boxes, j as int);
    }
    if let Child::Node(j) = rc {
        lemma_node_height(nodes, boxes, j as int);
    }
    assert(m >= 2);
    lemma_ceil_log2_monotone(m / 2, (m - m / 2) as nat);
    assert(ceil_log2(1) == 0);
}

/// The hierarchy over `n` primitives is balanced: its height is `ceil_log2(n)`.
pub proof fn lemma_bvh_height<T>(bvh: BVHNode<T>)
    requires
        bvh.wf(),
    ensures
        node_height(bvh.nodes_view(), bvh.root()) == ceil_log2(bvh.items_view().len()),
{
    let n = bvh.items@.len();
    let leaves = node_leaves(bvh.nodes@, bvh.root());
    lemma_node_height(bvh.nodes@, bvh.boxes@, bvh.root());
    vstd::seq_lib::to_multiset_len(leaves);
    vstd::seq_lib::to_multiset_len(Seq::new(n, |i: int| i as usize));
}

} // verus!
