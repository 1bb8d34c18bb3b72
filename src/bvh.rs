//! The bounding-volume hierarchy: a binary tree over the scene's items,
//! held as an arena of nodes, each branch annotated with the box that
//! surrounds its subtree.

use crate::aabb::{contains, surrounding, AABB};
use crate::hittable_list::scan;
use crate::hittable::{
    box_fn, box_test_ok, hit_view, item_fn, item_test_ok, lemma_box_call, lemma_item_call, Hit,
};
use rand::rngs::StdRng;
use rand::Rng;
use vstd::prelude::*;

verus! {

broadcast use vstd::seq_lib::group_to_multiset_ensures;

/// rand's seedable generator, held opaque: the tree draws its split axes
/// from one that the caller seeds.
#[verifier::external_type_specification]
#[verifier::external_body]
pub struct ExStdRng(rand::rngs::StdRng);

/// Relies on rand's `Rng::gen_range` (rand 0.7): a value drawn uniformly
/// from `[low, high)`; it panics only when `low >= high`.
#[verifier::external_body]
fn random_axis(rng: &mut StdRng) -> (axis: usize)
    ensures
        axis < 3,
{
    rng.gen_range(0, 3)
}

/// A node of the tree: a single item, or two subtrees and their box.
/// Children are indices of earlier nodes in the arena.
#[derive(Clone, Copy, Debug, PartialEq, Eq, Structural)]
pub enum BvhNode {
    Leaf { item: usize },
    Branch { left: usize, right: usize, bounds: AABB },
}

/// Why a tree could not be built.
#[derive(Clone, Copy, Debug, PartialEq, Eq, Structural)]
pub enum BvhError {
    /// There is nothing to build a tree over.
    Empty,
    /// The item at `index` is unbounded; the first such item is reported.
    NoBoundingBox { index: usize },
}

/// The box of node `i`: its item's box for a leaf, the stored box for a branch.
pub open spec fn node_box(nodes: Seq<BvhNode>, items: Seq<AABB>, i: int) -> AABB {
    match nodes[i] {
        BvhNode::Leaf { item } => items[item as int],
        BvhNode::Branch { bounds, .. } => bounds,
    }
}

/// Node `i` names an existing item, or two earlier nodes and the box
/// surrounding theirs.
pub open spec fn node_wf(nodes: Seq<BvhNode>, items: Seq<AABB>, i: int) -> bool {
    match nodes[i] {
        BvhNode::Leaf { item } => item < items.len(),
        BvhNode::Branch { left, right, bounds } => {
            &&& left < i
            &&& right < i
            &&& bounds == surrounding(
                node_box(nodes, items, left as int),
                node_box(nodes, items, right as int),
            )
        },
    }
}

pub open spec fn nodes_wf(nodes: Seq<BvhNode>, items: Seq<AABB>) -> bool {
    forall|i: int| 0 <= i < nodes.len() ==> #[trigger] node_wf(nodes, items, i)
}

/// The items under node `i`, left subtree first.
pub open spec fn leaves(nodes: Seq<BvhNode>, i: int) -> Seq<usize>
    decreases i,
{
    if 0 <= i < nodes.len() {
        match nodes[i] {
            BvhNode::Leaf { item } => seq![item],
            BvhNode::Branch { left, right, .. } => if left < i && right < i {
                leaves(nodes, left as int) + leaves(nodes, right as int)
            } else {
                Seq::empty()
            },
        }
    } else {
        Seq::empty()
    }
}

/// Appending nodes leaves the earlier nodes, their boxes and their leaves
/// as they were.
proof fn lemma_extend_keeps(nodes: Seq<BvhNode>, more: Seq<BvhNode>, items: Seq<AABB>, i: int)
    requires
        nodes == more.subrange(0, nodes.len() as int),
        nodes.len() <= more.len(),
        nodes_wf(nodes, items),
        0 <= i < nodes.len(),
    ensures
        leaves(more, i) == leaves(nodes, i),
        node_box(more, items, i) == node_box(nodes, items, i),
        node_wf(more, items, i),
    decreases i,
{
    assert(nodes[i] == more[i]);
    assert(node_wf(nodes, items, i));
    match nodes[i] {
        BvhNode::Leaf { .. } => {},
        BvhNode::Branch { left, right, .. } => {
            lemma_extend_keeps(nodes, more, items, left as int);
            lemma_extend_keeps(nodes, more, items, right as int);
        },
    }
}

/// The sort key of an item along `axis`: the sum of its box's two corner
/// keys there, twice the key-space centre.
pub open spec fn centre_key(b: AABB, axis: int) -> int {
    b.lo.at(axis) + b.hi.at(axis)
}

fn centre(b: &AABB, axis: usize) -> (r: i128)
    requires
        axis < 3,
    ensures
        r == centre_key(*b, axis as int),
{
    (b.lo.axis(axis) as i128) + (b.hi.axis(axis) as i128)
}

/// The indices in `order[start..end)` are in ascending order of their items'
/// sort keys along `axis`.
pub open spec fn sorted_by_centre(order: Seq<usize>, items: Seq<AABB>, axis: int, start: int, end: int) -> bool {
    forall|a: int, b: int|
        start <= a < b < end ==> centre_key(items[order[a] as int], axis) <= centre_key(
            items[order[b] as int],
            axis,
        )
}

proof fn lemma_swap_multiset(s: Seq<usize>, i: int, j: int)
    requires
        0 <= i < s.len(),
        0 <= j < s.len(),
    ensures
        s.update(i, s[j]).update(j, s[i]).to_multiset() =~= s.to_multiset(),
{
    broadcast use vstd::multiset::group_multiset_axioms;

    let s1 = s.update(i, s[j]);
    assert(s1.to_multiset() == s.to_multiset().insert(s[j]).remove(s[i]));
    assert(s1.update(j, s[i]).to_multiset() == s1.to_multiset().insert(s[i]).remove(s1[j]));
}

/// Sorts `order[start..end)` by the items' sort keys along `axis`, by
/// insertion.
fn sort_range(items: &Vec<AABB>, order: &mut Vec<usize>, start: usize, end: usize, axis: usize)
    requires
        start <= end <= old(order).len(),
        axis < 3,
        forall|k: int| 0 <= k < old(order).len() ==> old(order)[k] < items.len(),
    ensures
        final(order).len() == old(order).len(),
        final(order)@.to_multiset() == old(order)@.to_multiset(),
        forall|k: int|
            0 <= k < old(order).len() && !(start <= k < end) ==> final(order)[k] == old(order)[k],
        forall|k: int| 0 <= k < final(order).len() ==> final(order)[k] < items.len(),
        sorted_by_centre(final(order)@, items@, axis as int, start as int, end as int),
{
    let ghost initial = order@;
    let mut i: usize = start;
    while i < end
        invariant
            start <= i <= end <= order.len(),
            order.len() == initial.len(),
            axis < 3,
            order@.to_multiset() == initial.to_multiset(),
            forall|k: int|
                0 <= k < initial.len() && !(start <= k < end) ==> order[k] == initial[k],
            forall|k: int| 0 <= k < order.len() ==> order[k] < items.len(),
            sorted_by_centre(order@, items@, axis as int, start as int, i as int),
        decreases end - i,
    {
        let mut j: usize = i;
        while j > start
            invariant
                start <= j <= i < end <= order.len(),
                order.len() == initial.len(),
                axis < 3,
                order@.to_multiset() == initial.to_multiset(),
                forall|k: int|
                    0 <= k < initial.len() && !(start <= k < end) ==> order[k] == initial[k],
                forall|k: int| 0 <= k < order.len() ==> order[k] < items.len(),
                sorted_by_centre(order@, items@, axis as int, start as int, j as int),
                sorted_by_centre(order@, items@, axis as int, j as int, i + 1),
                forall|a: int, b: int|
                    start <= a < j && j < b <= i ==> centre_key(items[order[a] as int], axis as int)
                        <= centre_key(items[order[b] as int], axis as int),
            ensures
                sorted_by_centre(order@, items@, axis as int, start as int, i + 1),
            decreases j,
        {
            let prev = order[j - 1];
            let cur = order[j];
            if centre(&items[prev], axis) <= centre(&items[cur], axis) {
                assert(sorted_by_centre(order@, items@, axis as int, start as int, i + 1)) by {
                    assert forall|a: int, b: int| start <= a < b < i + 1 implies centre_key(
                        items[order[a] as int],
                        axis as int,
                    ) <= centre_key(items[order[b] as int], axis as int) by {
                        if a < j && b == j && a < j - 1 {
                            assert(centre_key(items[order[a] as int], axis as int) <= centre_key(
                                items[order[j - 1] as int],
                                axis as int,
                            ));
                        }
                    }
                }
                break;
            }
            proof {
                lemma_swap_multiset(order@, j - 1, j as int);
            }
            order.set(j - 1, cur);
            order.set(j, prev);
            j = j - 1;
        }
        i = i + 1;
    }
}

proof fn lemma_push_keeps_wf(nodes: Seq<BvhNode>, node: BvhNode, items: Seq<AABB>)
    requires
        nodes_wf(nodes, items),
        node_wf(nodes.push(node), items, nodes.len() as int),
    ensures
        nodes_wf(nodes.push(node), items),
        forall|i: int|
            0 <= i < nodes.len() ==> leaves(nodes.push(node), i) == leaves(nodes, i)
                && node_box(nodes.push(node), items, i) == node_box(nodes, items, i),
{
    let more = nodes.push(node);
    assert(nodes =~= more.subrange(0, nodes.len() as int));
    assert forall|i: int| 0 <= i < nodes.len() implies leaves(more, i) == leaves(nodes, i)
        && node_box(more, items, i) == node_box(nodes, items, i) && node_wf(more, items, i) by {
        lemma_extend_keeps(nodes, more, items, i);
    }
    assert forall|i: int| 0 <= i < more.len() implies #[trigger] node_wf(more, items, i) by {
        if i < nodes.len() {
            lemma_extend_keeps(nodes, more, items, i);
        }
    }
}

fn box_of(nodes: &Vec<BvhNode>, items: &Vec<AABB>, i: usize) -> (r: AABB)
    requires
        i < nodes.len(),
        node_wf(nodes@, items@, i as int),
    ensures
        r == node_box(nodes@, items@, i as int),
{
    match nodes[i] {
        BvhNode::Leaf { item } => items[item],
        BvhNode::Branch { bounds, .. } => bounds,
    }
}

/// Builds the subtree over the items named in `order[start..end)`, appending
/// its nodes to the arena, and returns the index of its root, the last node
/// appended. The range is reordered along the way.
fn build(
    items: &Vec<AABB>,
    order: &mut Vec<usize>,
    start: usize,
    end: usize,
    nodes: &mut Vec<BvhNode>,
    rng: &mut StdRng,
) -> (idx: usize)
    requires
        start < end <= old(order).len(),
        nodes_wf(old(nodes)@, items@),
        forall|k: int| 0 <= k < old(order).len() ==> old(order)[k] < items.len(),
    ensures
        final(nodes).len() > old(nodes).len(),
        idx == final(nodes).len() - 1,
        old(nodes)@ == final(nodes)@.subrange(0, old(nodes).len() as int),
        nodes_wf(final(nodes)@, items@),
        final(order).len() == old(order).len(),
        final(order)@.to_multiset() == old(order)@.to_multiset(),
        forall|k: int|
            0 <= k < old(order).len() && !(start <= k < end) ==> final(order)[k] == old(order)[k],
        forall|k: int| 0 <= k < final(order).len() ==> final(order)[k] < items.len(),
        leaves(final(nodes)@, idx as int) == final(order)@.subrange(start as int, end as int),
    decreases end - start,
{
    let axis = random_axis(rng);
    if end - start == 1 {
        let idx = nodes.len();
        let node = BvhNode::Leaf { item: order[start] };
        proof {
            lemma_push_keeps_wf(nodes@, node, items@);
        }
        nodes.push(node);
        assert(leaves(nodes@, idx as int) =~= order@.subrange(start as int, end as int));
        return idx;
    }
    sort_range(items, order, start, end, axis);
    let mid = start + (end - start) / 2;
    let ghost order1 = order@;
    let ghost nodes0 = nodes@;
    let left = build(items, order, start, mid, nodes, rng);
    let ghost order2 = order@;
    let ghost nodes1 = nodes@;
    let right = build(items, order, mid, end, nodes, rng);
    let ghost nodes2 = nodes@;
    proof {
        lemma_extend_keeps(nodes1, nodes2, items@, left as int);
        assert(order@.subrange(start as int, mid as int) =~= order2.subrange(start as int, mid as int));
        assert(nodes0 =~= nodes2.subrange(0, nodes0.len() as int));
    }
    let box_left = box_of(nodes, items, left);
    let box_right = box_of(nodes, items, right);
    let bounds = AABB::surrounding_box(&box_left, &box_right);
    let idx = nodes.len();
    let node = BvhNode::Branch { left, right, bounds };
    proof {
        lemma_push_keeps_wf(nodes@, node, items@);
    }
    nodes.push(node);
    proof {
        assert(nodes2 =~= nodes@.subrange(0, nodes2.len() as int));
        assert(order@.subrange(start as int, end as int) =~= order@.subrange(start as int, mid as int)
            + order@.subrange(mid as int, end as int));
        assert(nodes0 =~= nodes@.subrange(0, nodes0.len() as int));
    }
    idx
}

/// The sequence `0, 1, ..., n - 1`.
pub open spec fn upto(n: nat) -> Seq<usize> {
    Seq::new(n, |i: int| i as usize)
}

/// The traversal from node `i` over `(lo, hi)`: a leaf tests its item; a
/// branch whose box the ray misses yields nothing, and otherwise its left
/// subtree is searched over `(lo, hi)` and its right subtree over
/// `(lo, closest)`, where `closest` is the left hit's parameter, if any; a
/// right hit is closer and wins.
pub open spec fn trace(
    nodes: Seq<BvhNode>,
    i: int,
    bf: spec_fn(AABB, int, int) -> bool,
    pf: spec_fn(int, int, int) -> Option<int>,
    lo: int,
    hi: int,
) -> Option<(int, int)>
    decreases i,
{
    if 0 <= i < nodes.len() {
        match nodes[i] {
            BvhNode::Leaf { item } => match pf(item as int, lo, hi) {
                Some(t) => Some((item as int, t)),
                None => None,
            },
            BvhNode::Branch { left, right, bounds } => if left < i && right < i && bf(
                bounds,
                lo,
                hi,
            ) {
                let r1 = trace(nodes, left as int, bf, pf, lo, hi);
                let hi2 = match r1 {
                    Some((_, t)) => t,
                    None => hi,
                };
                let r2 = trace(nodes, right as int, bf, pf, lo, hi2);
                if r2 is Some {
                    r2
                } else {
                    r1
                }
            } else {
                None
            },
        }
    } else {
        None
    }
}

/// A tree over a fixed list of items, built once and then only read.
pub struct BVH {
    items: Vec<AABB>,
    nodes: Vec<BvhNode>,
    root: usize,
    /// The box surrounding the whole tree.
    pub container: AABB,
}

impl BVH {
    /// The boxes of the items, in the order they were given.
    pub closed spec fn item_boxes(&self) -> Seq<AABB> {
        self.items@
    }

    pub closed spec fn arena(&self) -> Seq<BvhNode> {
        self.nodes@
    }

    pub closed spec fn container_box(&self) -> AABB {
        self.container
    }

    pub closed spec fn root_index(&self) -> int {
        self.root as int
    }

    /// The arena is well formed, its root is its last node, every item stands
    /// under the root exactly once, and the container is the root's box.
    pub open spec fn wf(&self) -> bool {
        &&& nodes_wf(self.arena(), self.item_boxes())
        &&& self.root_index() == self.arena().len() - 1
        &&& 0 <= self.root_index()
        &&& leaves(self.arena(), self.root_index()).to_multiset() == upto(
            self.item_boxes().len(),
        ).to_multiset()
        &&& self.container_box() == node_box(self.arena(), self.item_boxes(), self.root_index())
    }

    /// Builds the tree over items with the given boxes, drawing one split
    /// axis per node from `rng`. Each range of items is sorted along its axis
    /// and split at its midpoint; one item makes a leaf. Fails on an empty
    /// list, or on the first item without a box.
    pub fn new(boxes: &Vec<Option<AABB>>, rng: &mut StdRng) -> (r: Result<BVH, BvhError>)
        ensures
            boxes.len() == 0 ==> r == Err::<BVH, BvhError>(BvhError::Empty),
            r matches Err(BvhError::Empty) ==> boxes.len() == 0,
            boxes.len() > 0 ==> (r is Err <==> exists|i: int| 0 <= i < boxes.len() && boxes[i] is None),
            r matches Err(BvhError::NoBoundingBox { index }) ==> index < boxes.len() && boxes[index as int] is None
                && forall|j: int| 0 <= j < index ==> boxes[j] is Some,
            r matches Ok(t) ==> t.wf() && t.item_boxes().len() == boxes.len() && forall|i: int|
                0 <= i < boxes.len() ==> boxes[i] == Some(#[trigger] t.item_boxes()[i]),
    {
        if boxes.len() == 0 {
            return Err(BvhError::Empty);
        }
        let mut items: Vec<AABB> = Vec::new();
        let mut order: Vec<usize> = Vec::new();
        let mut i: usize = 0;
        while i < boxes.len()
            invariant
                i <= boxes.len(),
                items.len() == i,
                order@ == upto(i as nat),
                forall|j: int| 0 <= j < i ==> boxes[j] == Some(#[trigger] items@[j]),
            decreases boxes.len() - i,
        {
            match boxes[i] {
                Some(b) => {
                    items.push(b);
                    order.push(i);
                    assert(order@ =~= upto((i + 1) as nat));
                },
                None => {
                    assert forall|j: int| 0 <= j < i implies boxes[j] is Some by {
                        assert(boxes[j] == Some(items@[j]));
                    }
                    return Err(BvhError::NoBoundingBox { index: i });
                },
            }
            i = i + 1;
        }
        assert forall|j: int| 0 <= j < boxes.len() implies boxes[j] is Some by {
            assert(boxes[j] == Some(items@[j]));
        }
        let mut nodes: Vec<BvhNode> = Vec::new();
        let ghost order0 = order@;
        let root = build(&items, &mut order, 0, items.len(), &mut nodes, rng);
        proof {
            assert(order@.subrange(0, order@.len() as int) =~= order@);
        }
        let container = box_of(&nodes, &items, root);
        Ok(BVH { items, nodes, root, container })
    }
}

impl BVH {
    fn visit<B: Fn(AABB, i64, i64) -> bool, P: Fn(usize, i64, i64) -> Option<i64>>(
        &self,
        i: usize,
        box_hit: &B,
        item_hit: &P,
        lo: i64,
        hi: i64,
    ) -> (r: Option<Hit>)
        requires
            self.wf(),
            i < self.arena().len(),
            box_test_ok(*box_hit),
            item_test_ok(*item_hit),
        ensures
            hit_view(r) == trace(
                self.arena(),
                i as int,
                box_fn(*box_hit),
                item_fn(*item_hit),
                lo as int,
                hi as int,
            ),
        decreases i,
    {
        proof {
            assert(node_wf(self.nodes@, self.items@, i as int));
        }
        match self.nodes[i] {
            BvhNode::Leaf { item } => {
                let r = item_hit(item, lo, hi);
                proof {
                    lemma_item_call(*item_hit, item, lo, hi, r);
                }
                match r {
                    Some(t) => Some(Hit { item, t }),
                    None => None,
                }
            },
            BvhNode::Branch { left, right, bounds } => {
                let inside = box_hit(bounds, lo, hi);
                proof {
                    lemma_box_call(*box_hit, bounds, lo, hi, inside);
                }
                if !inside {
                    return None;
                }
                let r1 = self.visit(left, box_hit, item_hit, lo, hi);
                let hi2 = match r1 {
                    Some(h) => h.t,
                    None => hi,
                };
                let r2 = self.visit(right, box_hit, item_hit, lo, hi2);
                match r2 {
                    Some(_) => r2,
                    None => r1,
                }
            },
        }
    }

    /// The closest item that the ray meets in `(t_min, t_max)`, searching
    /// only subtrees whose box the ray meets.
    pub fn hit<B: Fn(AABB, i64, i64) -> bool, P: Fn(usize, i64, i64) -> Option<i64>>(
        &self,
        box_hit: &B,
        item_hit: &P,
        t_min: i64,
        t_max: i64,
    ) -> (r: Option<Hit>)
        requires
            self.wf(),
            box_test_ok(*box_hit),
            item_test_ok(*item_hit),
        ensures
            hit_view(r) == trace(
                self.arena(),
                self.root_index(),
                box_fn(*box_hit),
                item_fn(*item_hit),
                t_min as int,
                t_max as int,
            ),
    {
        self.visit(self.root, box_hit, item_hit, t_min, t_max)
    }

    /// The box around the whole tree.
    pub fn bounding_box(&self) -> (r: AABB)
        ensures
            r == self.container_box(),
    {
        self.container
    }
}

/// `pf` answers with the first parameter in an open interval at which the
/// ray meets an item: an answer lies inside the interval, and lowering the
/// interval's upper end keeps an answer below the new end and drops one at
/// or above it.
pub open spec fn first_hit_oracle(pf: spec_fn(int, int, int) -> Option<int>) -> bool {
    &&& forall|p: int, lo: int, hi: int|
        #[trigger] pf(p, lo, hi) is Some ==> lo < pf(p, lo, hi)->0 < hi
    &&& forall|p: int, lo: int, hi: int, h: int|
        #![trigger pf(p, lo, h), pf(p, lo, hi)]
        h <= hi ==> pf(p, lo, h) == (match pf(p, lo, hi) {
            Some(t) => if t < h {
                Some(t)
            } else {
                None
            },
            None => None,
        })
}

/// `bf` never rejects a box that encloses the box of an item the ray meets.
pub open spec fn box_test_sound(
    bf: spec_fn(AABB, int, int) -> bool,
    pf: spec_fn(int, int, int) -> Option<int>,
    boxes: Seq<AABB>,
) -> bool {
    forall|b: AABB, p: int, lo: int, hi: int|
        #![trigger bf(b, lo, hi), pf(p, lo, hi)]
        0 <= p < boxes.len() && contains(b, boxes[p]) && pf(p, lo, hi) is Some ==> bf(b, lo, hi)
}

/// `res` is a hit on a member at the least parameter among the members'
/// hits, or nothing where no member is hit.
pub open spec fn closest_among(
    res: Option<(int, int)>,
    members: spec_fn(usize) -> bool,
    pf: spec_fn(int, int, int) -> Option<int>,
    lo: int,
    hi: int,
) -> bool {
    match res {
        None => forall|q: usize| #[trigger] members(q) ==> pf(q as int, lo, hi) is None,
        Some((p, t)) => {
            &&& 0 <= p <= usize::MAX
            &&& members(p as usize)
            &&& pf(p, lo, hi) == Some(t)
            &&& forall|q: usize| #[trigger]
                members(q) && pf(q as int, lo, hi) is Some ==> t <= pf(q as int, lo, hi)->0
        },
    }
}

/// Every item under a node lies inside the node's box.
proof fn lemma_node_box_encloses(nodes: Seq<BvhNode>, items: Seq<AABB>, i: int)
    requires
        nodes_wf(nodes, items),
        0 <= i < nodes.len(),
    ensures
        forall|q: usize| #[trigger]
            leaves(nodes, i).contains(q) ==> q < items.len() && contains(
                node_box(nodes, items, i),
                items[q as int],
            ),
    decreases i,
{
    assert(node_wf(nodes, items, i));
    match nodes[i] {
        BvhNode::Leaf { item } => {
            assert forall|q: usize| #[trigger] leaves(nodes, i).contains(q) implies q < items.len()
                && contains(node_box(nodes, items, i), items[q as int]) by {
                assert(leaves(nodes, i)[0] == item);
            }
        },
        BvhNode::Branch { left, right, bounds } => {
            lemma_node_box_encloses(nodes, items, left as int);
            lemma_node_box_encloses(nodes, items, right as int);
            let l = leaves(nodes, left as int);
            let r = leaves(nodes, right as int);
            assert forall|q: usize| #[trigger] leaves(nodes, i).contains(q) implies q < items.len()
                && contains(node_box(nodes, items, i), items[q as int]) by {
                let k = choose|k: int| 0 <= k < (l + r).len() && (l + r)[k] == q;
                if k < l.len() {
                    assert(l[k] == q);
                    assert(l.contains(q));
                } else {
                    assert(r[k - l.len()] == q);
                    assert(r.contains(q));
                }
            }
        },
    }
}

proof fn lemma_concat_contains(l: Seq<usize>, r: Seq<usize>, q: usize)
    ensures
        (l + r).contains(q) <==> l.contains(q) || r.contains(q),
{
    if l.contains(q) {
        let k = choose|k: int| 0 <= k < l.len() && l[k] == q;
        assert((l + r)[k] == q);
    }
    if r.contains(q) {
        let k = choose|k: int| 0 <= k < r.len() && r[k] == q;
        assert((l + r)[l.len() + k] == q);
    }
    if (l + r).contains(q) {
        let k = choose|k: int| 0 <= k < (l + r).len() && (l + r)[k] == q;
        if k < l.len() {
            assert(l[k] == q);
        } else {
            assert(r[k - l.len()] == q);
        }
    }
}

/// The traversal from a node finds the closest hit among the items under it.
proof fn lemma_trace_closest(
    nodes: Seq<BvhNode>,
    items: Seq<AABB>,
    i: int,
    bf: spec_fn(AABB, int, int) -> bool,
    pf: spec_fn(int, int, int) -> Option<int>,
    lo: int,
    hi: int,
)
    requires
        nodes_wf(nodes, items),
        0 <= i < nodes.len(),
        first_hit_oracle(pf),
        box_test_sound(bf, pf, items),
    ensures
        closest_among(
            trace(nodes, i, bf, pf, lo, hi),
            |q: usize| leaves(nodes, i).contains(q),
            pf,
            lo,
            hi,
        ),
    decreases i,
{
    assert(node_wf(nodes, items, i));
    let members = |q: usize| leaves(nodes, i).contains(q);
    match nodes[i] {
        BvhNode::Leaf { item } => {
            assert(leaves(nodes, i)[0] == item);
            assert forall|q: usize| #[trigger] members(q) implies q == item by {
                let k = choose|k: int| 0 <= k < leaves(nodes, i).len() && leaves(nodes, i)[k] == q;
            }
        },
        BvhNode::Branch { left, right, bounds } => {
            lemma_node_box_encloses(nodes, items, i);
            let l = leaves(nodes, left as int);
            let r = leaves(nodes, right as int);
            assert forall|q: usize| #[trigger] members(q) == (l.contains(q) || r.contains(q)) by {
                lemma_concat_contains(l, r, q);
            }
            if !bf(bounds, lo, hi) {
                assert forall|q: usize| #[trigger] members(q) implies pf(q as int, lo, hi) is None by {
                    assert(leaves(nodes, i).contains(q));
                    if pf(q as int, lo, hi) is Some {
                        assert(bf(bounds, lo, hi));
                    }
                }
            } else {
                lemma_trace_closest(nodes, items, left as int, bf, pf, lo, hi);
                let r1 = trace(nodes, left as int, bf, pf, lo, hi);
                let hi2 = match r1 {
                    Some((_, t)) => t,
                    None => hi,
                };
                lemma_trace_closest(nodes, items, right as int, bf, pf, lo, hi2);
                let r2 = trace(nodes, right as int, bf, pf, lo, hi2);
                let lm = |q: usize| leaves(nodes, left as int).contains(q);
                let rm = |q: usize| leaves(nodes, right as int).contains(q);
                assert(closest_among(r1, lm, pf, lo, hi));
                assert(closest_among(r2, rm, pf, lo, hi2));
                if let Some((p1, t1)) = r1 {
                    assert(pf(p1, lo, hi) is Some);
                }
                assert(hi2 <= hi);
                match r2 {
                    Some((p2, t2)) => {
                        assert(pf(p2, lo, hi2) == Some(t2));
                        assert(pf(p2, lo, hi) == Some(t2));
                        assert forall|q: usize| #[trigger]
                            members(q) && pf(q as int, lo, hi) is Some implies t2 <= pf(
                            q as int,
                            lo,
                            hi,
                        )->0 by {
                            if lm(q) {
                                assert(r1 is Some);
                            } else {
                                assert(rm(q));
                                if pf(q as int, lo, hi)->0 < hi2 {
                                    assert(pf(q as int, lo, hi2) is Some);
                                }
                            }
                        }
                    },
                    None => {
                        match r1 {
                            None => {
                                assert forall|q: usize| #[trigger] members(q) implies pf(
                                    q as int,
                                    lo,
                                    hi,
                                ) is None by {
                                    if rm(q) {
                                        assert(pf(q as int, lo, hi2) is None);
                                    } else {
                                        assert(lm(q));
                                    }
                                }
                            },
                            Some((p1, t1)) => {
                                assert forall|q: usize| #[trigger]
                                    members(q) && pf(q as int, lo, hi) is Some implies t1 <= pf(
                                    q as int,
                                    lo,
                                    hi,
                                )->0 by {
                                    if rm(q) {
                                        assert(pf(q as int, lo, hi2) is None);
                                    } else {
                                        assert(lm(q));
                                    }
                                }
                            },
                        }
                    },
                }
            }
        },
    }
}

/// The linear scan over the first `k` items finds the closest hit among them.
proof fn lemma_scan_closest(pf: spec_fn(int, int, int) -> Option<int>, k: int, lo: int, hi: int)
    requires
        first_hit_oracle(pf),
        0 <= k <= usize::MAX + 1,
    ensures
        closest_among(scan(pf, k, lo, hi), |q: usize| (q as int) < k, pf, lo, hi),
    decreases k,
{
    if k > 0 {
        lemma_scan_closest(pf, k - 1, lo, hi);
        let prev = scan(pf, k - 1, lo, hi);
        let bound = match prev {
            Some((_, t)) => t,
            None => hi,
        };
        if let Some((p, t)) = prev {
            assert(pf(p, lo, hi) is Some);
        }
        assert(bound <= hi);
        let mp = |q: usize| (q as int) < k - 1;
        let m = |q: usize| (q as int) < k;
        assert(closest_among(prev, mp, pf, lo, hi));
        let here = pf(k - 1, lo, bound);
        let whole = pf(k - 1, lo, hi);
        if let Some(t) = whole {
            assert(lo < t < hi);
        }
        match here {
            Some(t) => {
                assert(whole == Some(t));
                assert(0 <= k - 1 <= usize::MAX);
                assert(m((k - 1) as usize));
                assert forall|q: usize| #[trigger]
                    m(q) && pf(q as int, lo, hi) is Some implies t <= pf(q as int, lo, hi)->0 by {
                    if (q as int) < k - 1 {
                        assert(mp(q));
                    }
                }
            },
            None => {
                match prev {
                    None => {
                        assert forall|q: usize| #[trigger] m(q) implies pf(q as int, lo, hi) is None by {
                            if (q as int) < k - 1 {
                                assert(mp(q));
                            }
                        }
                    },
                    Some((p, tp)) => {
                        assert(mp(p as usize));
                        assert forall|q: usize| #[trigger]
                            m(q) && pf(q as int, lo, hi) is Some implies tp <= pf(q as int, lo, hi)->0 by {
                            if (q as int) < k - 1 {
                                assert(mp(q));
                            }
                        }
                    },
                }
            },
        }
    }
}

/// The tree finds a hit exactly where a linear scan of the same items does,
/// and at the same parameter, whenever the item test answers with the first
/// hit inside the interval and the box test never rejects a box around an
/// item that the ray meets.
pub proof fn lemma_bvh_matches_linear_scan(
    tree: BVH,
    bf: spec_fn(AABB, int, int) -> bool,
    pf: spec_fn(int, int, int) -> Option<int>,
    lo: int,
    hi: int,
)
    requires
        tree.wf(),
        tree.item_boxes().len() <= usize::MAX,
        first_hit_oracle(pf),
        box_test_sound(bf, pf, tree.item_boxes()),
    ensures
        match (
            trace(tree.arena(), tree.root_index(), bf, pf, lo, hi),
            scan(pf, tree.item_boxes().len() as int, lo, hi),
        ) {
            (None, None) => true,
            (Some((_, t1)), Some((_, t2))) => t1 == t2,
            _ => false,
        },
{
    let nodes = tree.arena();
    let items = tree.item_boxes();
    let n = items.len();
    let root = tree.root_index();
    lemma_trace_closest(nodes, items, root, bf, pf, lo, hi);
    lemma_scan_closest(pf, n as int, lo, hi);
    let ls = leaves(nodes, root);
    assert forall|q: usize| #[trigger] ls.contains(q) == ((q as int) < n) by {
        assert(ls.to_multiset() == upto(n).to_multiset());
        assert(ls.contains(q) <==> ls.to_multiset().count(q) > 0);
        assert(upto(n).contains(q) <==> upto(n).to_multiset().count(q) > 0);
        if (q as int) < n {
            assert(upto(n)[q as int] == q);
            assert(upto(n).contains(q));
        }
        if upto(n).contains(q) {
            let k = choose|k: int| 0 <= k < upto(n).len() && upto(n)[k] == q;
        }
    }
    let a = trace(nodes, root, bf, pf, lo, hi);
    let b = scan(pf, n as int, lo, hi);
    let tm = |q: usize| leaves(nodes, root).contains(q);
    let sm = |q: usize| (q as int) < n;
    assert(closest_among(a, tm, pf, lo, hi));
    assert(closest_among(b, sm, pf, lo, hi));
    match (a, b) {
        (Some((p1, t1)), Some((p2, t2))) => {
            assert(tm(p2 as usize));
            assert(sm(p1 as usize));
        },
        (Some((p1, t1)), None) => {
            assert(sm(p1 as usize));
        },
        (None, Some((p2, t2))) => {
            assert(tm(p2 as usize));
        },
        _ => {},
    }
}

} // verus!
