use crate::aabb::{is_union_of, lemma_encloses_trans, lemma_union_encloses, AABB};
use crate::world::{
    all_objects, hits_follow, lemma_all_objects_contains, lemma_nearest_among_same_members, misses,
    nearest_among,
};
use rand::rngs::StdRng;
use vstd::prelude::*;
use vstd::seq_lib::*;

verus! {

broadcast use group_to_multiset_ensures;

#[verifier::external_type_specification]
#[verifier::external_body]
pub struct ExStdRng(StdRng);

/// Relies on rand's `Rng::gen_range` over `0..3`: the value drawn lies in that range
/// (the range is not empty, so the call does not panic).
#[verifier::external_body]
fn random_axis(rng: &mut StdRng) -> (r: usize)
    ensures
        r < 3,
{
    rand::Rng::gen_range(rng, 0..3)
}

/// One child of a hierarchy node: an object of the scene, by its index, or another
/// node of the hierarchy, by its index in the node arena.
#[derive(Clone, Copy, Debug, PartialEq, Eq)]
pub enum Child {
    Object(usize),
    Node(usize),
}

/// A node of the hierarchy. A leaf has one child (`right` is `None`); every other
/// node has two, split along `axis`.
#[derive(Clone, Copy, Debug, PartialEq, Eq)]
pub struct BvhNode {
    pub left: Child,
    pub right: Option<Child>,
    pub axis: usize,
    pub bounding_box: AABB,
}

/// Why a hierarchy could not be built.
#[derive(Clone, Copy, Debug, PartialEq, Eq)]
pub enum BvhError {
    /// There were no objects.
    Empty,
    /// The object at this index has no bounding box; it is the first such object.
    MissingBox(usize),
}

/// A bounding volume hierarchy over a list of objects: the nodes are stored in an
/// arena in which every node follows its children, and `root` is the last of them.
pub struct Bvh {
    pub nodes: Vec<BvhNode>,
    pub root: usize,
    /// The objects' boxes the hierarchy was built over.
    pub boxes: Ghost<Seq<AABB>>,
}

/// A measure that decreases from a node to its children.
pub open spec fn rank(c: Child) -> nat {
    match c {
        Child::Object(_) => 0,
        Child::Node(m) => m as nat + 1,
    }
}

/// The key of object `i`'s box along `axis`: the lower corner's coordinate.
pub open spec fn axis_key(boxes: Seq<AABB>, i: usize, axis: usize) -> u64 {
    boxes[i as int].min@[axis as int]
}

/// The objects under a child, from left to right.
pub open spec fn items_of(nodes: Seq<BvhNode>, c: Child) -> Seq<usize>
    decreases rank(c),
{
    match c {
        Child::Object(i) => seq![i],
        Child::Node(m) => {
            if m < nodes.len() {
                let node = nodes[m as int];
                let l = if rank(node.left) < rank(c) {
                    items_of(nodes, node.left)
                } else {
                    Seq::empty()
                };
                let r = match node.right {
                    Some(rc) => if rank(rc) < rank(c) {
                        items_of(nodes, rc)
                    } else {
                        Seq::empty()
                    },
                    None => Seq::empty(),
                };
                l + r
            } else {
                Seq::empty()
            }
        },
    }
}

/// The bounding box of a child: the object's own box, or the node's stored box.
pub open spec fn box_of(nodes: Seq<BvhNode>, boxes: Seq<AABB>, c: Child) -> AABB {
    match c {
        Child::Object(i) => boxes[i as int],
        Child::Node(m) => nodes[m as int].bounding_box,
    }
}

/// A child of node `m` names an existing object or a node built before `m`.
pub open spec fn child_ok(c: Child, m: int, n_objects: int) -> bool {
    match c {
        Child::Object(i) => i < n_objects,
        Child::Node(k) => k < m,
    }
}

/// Node `m` is well formed: its children exist, its box is exactly its children's
/// union, and along its axis no object on the left has a larger key than one on the
/// right.
pub open spec fn node_ok(nodes: Seq<BvhNode>, boxes: Seq<AABB>, m: int) -> bool {
    let node = nodes[m];
    &&& child_ok(node.left, m, boxes.len() as int)
    &&& node.axis < 3
    &&& match node.right {
        None => node.bounding_box == box_of(nodes, boxes, node.left),
        Some(rc) => {
            &&& child_ok(rc, m, boxes.len() as int)
            &&& is_union_of(
                node.bounding_box,
                box_of(nodes, boxes, node.left),
                box_of(nodes, boxes, rc),
            )
            &&& forall|x: usize, y: usize|
                #[trigger] items_of(nodes, node.left).contains(x) && #[trigger] items_of(
                    nodes,
                    rc,
                ).contains(y) ==> axis_key(boxes, x, node.axis) <= axis_key(
                    boxes,
                    y,
                    node.axis,
                )
        },
    }
}

/// Every node of the arena is well formed.
pub open spec fn arena_wf(nodes: Seq<BvhNode>, boxes: Seq<AABB>) -> bool {
    forall|m: int| 0 <= m < nodes.len() ==> #[trigger] node_ok(nodes, boxes, m)
}

/// The boxes of a list in which every object has one.
pub open spec fn present_boxes(boxes: Seq<Option<AABB>>) -> Seq<AABB> {
    Seq::new(boxes.len(), |i: int| boxes[i]->0)
}

impl Bvh {
    /// The hierarchy is well formed over its objects' boxes and holds each object
    /// exactly once.
    pub open spec fn wf(&self) -> bool {
        &&& arena_wf(self.nodes@, self.boxes@)
        &&& self.boxes@.len() <= usize::MAX
        &&& self.root < self.nodes@.len()
        &&& items_of(self.nodes@, Child::Node(self.root)).to_multiset() == all_objects(
            self.boxes@.len(),
        ).to_multiset()
    }
}

/// The objects under a child do not change when nodes are appended to the arena.
proof fn lemma_items_stable(nodes: Seq<BvhNode>, ext: Seq<BvhNode>, n_objects: int, c: Child)
    requires
        nodes.len() <= ext.len(),
        ext.subrange(0, nodes.len() as int) == nodes,
        forall|m: int|
            0 <= m < nodes.len() ==> child_ok(#[trigger] nodes[m].left, m, n_objects) && (
            nodes[m].right matches Some(rc) ==> child_ok(rc, m, n_objects)),
        rank(c) <= nodes.len(),
    ensures
        items_of(ext, c) == items_of(nodes, c),
    decreases rank(c),
{
    if let Child::Node(m) = c {
        assert(ext[m as int] == nodes[m as int]);
        let node = nodes[m as int];
        assert(child_ok(node.left, m as int, n_objects));
        lemma_items_stable(nodes, ext, n_objects, node.left);
        if let Some(rc) = node.right {
            lemma_items_stable(nodes, ext, n_objects, rc);
        }
    }
}

/// Appending nodes keeps every earlier node well formed.
proof fn lemma_arena_extends(nodes: Seq<BvhNode>, ext: Seq<BvhNode>, boxes: Seq<AABB>)
    requires
        arena_wf(nodes, boxes),
        nodes.len() <= ext.len(),
        ext.subrange(0, nodes.len() as int) == nodes,
    ensures
        forall|m: int| 0 <= m < nodes.len() ==> #[trigger] node_ok(ext, boxes, m),
{
    assert forall|m: int|
        0 <= m < nodes.len() implies child_ok(#[trigger] nodes[m].left, m, boxes.len() as int)
        && (nodes[m].right matches Some(rc) ==> child_ok(rc, m, boxes.len() as int)) by {
        assert(node_ok(nodes, boxes, m));
    }
    assert forall|m: int| 0 <= m < nodes.len() implies #[trigger] node_ok(ext, boxes, m) by {
        assert(node_ok(nodes, boxes, m));
        assert(ext[m] == nodes[m]);
        let node = nodes[m];
        lemma_items_stable(nodes, ext, boxes.len() as int, node.left);
        if let Child::Node(k) = node.left {
            assert(ext[k as int] == nodes[k as int]);
        }
        if let Some(rc) = node.right {
            lemma_items_stable(nodes, ext, boxes.len() as int, rc);
            if let Child::Node(k) = rc {
                assert(ext[k as int] == nodes[k as int]);
            }
        }
    }
}

/// Membership in a concatenation.
proof fn lemma_concat_contains(a: Seq<usize>, b: Seq<usize>)
    ensures
        forall|x: usize| #[trigger] (a + b).contains(x) <==> a.contains(x) || b.contains(x),
{
    assert forall|x: usize| #[trigger] (a + b).contains(x) implies a.contains(x) || b.contains(
        x,
    ) by {
        let k = choose|k: int| 0 <= k < (a + b).len() && (a + b)[k] == x;
        if k >= a.len() {
            assert(b[k - a.len()] == x);
        }
    }
    assert forall|x: usize| a.contains(x) || b.contains(x) implies #[trigger] (a + b).contains(
        x,
    ) by {
        if a.contains(x) {
            let k = choose|k: int| 0 <= k < a.len() && a[k] == x;
            assert((a + b)[k] == x);
        } else {
            let k = choose|k: int| 0 <= k < b.len() && b[k] == x;
            assert((a + b)[a.len() + k] == x);
        }
    }
}

/// A node's box holds the box of every object under it.
pub proof fn lemma_box_encloses_items(nodes: Seq<BvhNode>, boxes: Seq<AABB>, c: Child)
    requires
        arena_wf(nodes, boxes),
        child_ok(c, nodes.len() as int, boxes.len() as int),
    ensures
        forall|x: usize|
            #[trigger] items_of(nodes, c).contains(x) ==> x < boxes.len() && box_of(
                nodes,
                boxes,
                c,
            ).encloses(boxes[x as int]),
    decreases rank(c),
{
    match c {
        Child::Object(i) => {
            assert forall|x: usize| #[trigger] items_of(nodes, c).contains(x) implies x
                < boxes.len() && box_of(nodes, boxes, c).encloses(boxes[x as int]) by {
                assert(items_of(nodes, c) =~= seq![i]);
                assert(items_of(nodes, c)[0] == i);
            }
        },
        Child::Node(m) => {
            let node = nodes[m as int];
            assert(node_ok(nodes, boxes, m as int));
            lemma_box_encloses_items(nodes, boxes, node.left);
            let li = items_of(nodes, node.left);
            let ri = match node.right {
                Some(rc) => items_of(nodes, rc),
                None => Seq::empty(),
            };
            assert(items_of(nodes, c) == li + ri);
            lemma_concat_contains(li, ri);
            if let Some(rc) = node.right {
                lemma_box_encloses_items(nodes, boxes, rc);
                lemma_union_encloses(
                    box_of(nodes, boxes, node.left),
                    box_of(nodes, boxes, rc),
                    node.bounding_box,
                );
            }
            assert forall|x: usize| #[trigger] items_of(nodes, c).contains(x) implies x
                < boxes.len() && box_of(nodes, boxes, c).encloses(boxes[x as int]) by {
                if li.contains(x) {
                    if node.right is None {
                        assert(box_of(nodes, boxes, c) == box_of(nodes, boxes, node.left));
                    } else {
                        lemma_encloses_trans(
                            box_of(nodes, boxes, c),
                            box_of(nodes, boxes, node.left),
                            boxes[x as int],
                        );
                    }
                } else {
                    assert(ri.contains(x));
                    lemma_encloses_trans(
                        box_of(nodes, boxes, c),
                        box_of(nodes, boxes, node.right->0),
                        boxes[x as int],
                    );
                }
            }
        },
    }
}

/// A well-formed hierarchy holds every object exactly once, and its root's box holds
/// the box of every object.
pub proof fn lemma_bvh_covers_objects(bvh: &Bvh)
    requires
        bvh.wf(),
    ensures
        forall|x: usize|
            x < bvh.boxes@.len() ==> #[trigger] items_of(
                bvh.nodes@,
                Child::Node(bvh.root),
            ).to_multiset().count(x) == 1 && bvh.nodes@[bvh.root as int].bounding_box.encloses(
                bvh.boxes@[x as int],
            ),
{
    let n = bvh.boxes@.len();
    let all = all_objects(n);
    let items = items_of(bvh.nodes@, Child::Node(bvh.root));
    lemma_all_objects_contains(n);
    assert(all.no_duplicates()) by {
        assert forall|i: int, j: int| 0 <= i < all.len() && 0 <= j < all.len() && i != j implies all[i]
            != all[j] by {
            assert(all[i] == i as usize && all[j] == j as usize);
        }
    }
    all.lemma_multiset_has_no_duplicates();
    lemma_box_encloses_items(bvh.nodes@, bvh.boxes@, Child::Node(bvh.root));
    assert forall|x: usize| x < n implies #[trigger] items.to_multiset().count(x) == 1
        && bvh.nodes@[bvh.root as int].bounding_box.encloses(bvh.boxes@[x as int]) by {
        assert(all.contains(x));
        assert(all.to_multiset().contains(x));
        assert(items.contains(x));
    }
}

/// The box test is conservative: it rejects a box over `[lo, hi]` only when the ray
/// meets none of the objects inside that box within `[lo, hi]`.
pub open spec fn boxes_conservative<B: Fn(AABB, u64, u64) -> bool>(
    box_hit: B,
    model: spec_fn(usize) -> Set<u64>,
    boxes: Seq<AABB>,
) -> bool {
    forall|b: AABB, lo: u64, hi: u64, x: usize|
        #[trigger] box_hit.ensures((b, lo, hi), false) && x < boxes.len() && #[trigger] b.encloses(
            boxes[x as int],
        ) ==> misses(model(x), lo, hi)
}

/// Sorts object indices by their boxes' keys along `axis` (stable insertion sort).
fn sort_by_axis(items: &mut Vec<usize>, boxes: &Vec<AABB>, axis: usize)
    requires
        axis < 3,
        forall|k: int| 0 <= k < old(items)@.len() ==> #[trigger] old(items)@[k] < boxes@.len(),
    ensures
        final(items)@.len() == old(items)@.len(),
        final(items)@.to_multiset() == old(items)@.to_multiset(),
        forall|k: int| 0 <= k < final(items)@.len() ==> #[trigger] final(items)@[k] < boxes@.len(),
        forall|i: int, j: int|
            0 <= i <= j < final(items)@.len() ==> axis_key(boxes@, #[trigger] final(items)@[i], axis)
                <= axis_key(boxes@, #[trigger] final(items)@[j], axis),
{
    let n = items.len();
    let mut i: usize = 0;
    while i < n
        invariant
            n == items@.len(),
            0 <= i <= n,
            axis < 3,
            items@.to_multiset() == old(items)@.to_multiset(),
            forall|k: int| 0 <= k < n ==> #[trigger] items@[k] < boxes@.len(),
            forall|a: int, b: int|
                0 <= a <= b < i ==> axis_key(boxes@, #[trigger] items@[a], axis) <= axis_key(
                    boxes@,
                    #[trigger] items@[b],
                    axis,
                ),
        decreases n - i,
    {
        let mut j: usize = i;
        while j > 0 && boxes[items[j - 1]].min[axis] > boxes[items[j]].min[axis]
            invariant
                n == items@.len(),
                0 <= j <= i < n,
                axis < 3,
                items@.to_multiset() == old(items)@.to_multiset(),
                forall|k: int| 0 <= k < n ==> #[trigger] items@[k] < boxes@.len(),
                forall|a: int, b: int|
                    0 <= a <= b <= i && a != j && b != j ==> axis_key(
                        boxes@,
                        #[trigger] items@[a],
                        axis,
                    ) <= axis_key(boxes@, #[trigger] items@[b], axis),
                forall|b: int|
                    j < b <= i ==> axis_key(boxes@, items@[j as int], axis) <= axis_key(
                        boxes@,
                        #[trigger] items@[b],
                        axis,
                    ),
            decreases j,
        {
            let prev = items[j - 1];
            let cur = items[j];
            proof {
                let s = items@;
                let s1 = s.update(j - 1, cur);
                let s2 = s1.update(j as int, prev);
                assert(s2.to_multiset() =~= s.to_multiset());
            }
            items[j - 1] = cur;
            items[j] = prev;
            j = j - 1;
        }
        proof {
            assert forall|a: int, b: int|
                0 <= a <= b < i + 1 implies axis_key(boxes@, #[trigger] items@[a], axis)
                <= axis_key(boxes@, #[trigger] items@[b], axis) by {
                if a == j as int && b != j as int {
                } else if b == j as int && a != j as int {
                    assert(axis_key(boxes@, items@[a], axis) <= axis_key(
                        boxes@,
                        items@[j - 1],
                        axis,
                    ));
                }
            }
        }
        i = i + 1;
    }
}

/// Builds the node for a non-empty list of objects, appends it (after the nodes of
/// its subtrees) to the arena, and returns its index.
fn build_node(
    items: Vec<usize>,
    boxes: &Vec<AABB>,
    rng: &mut StdRng,
    nodes: &mut Vec<BvhNode>,
) -> (r: usize)
    requires
        items@.len() >= 1,
        forall|k: int| 0 <= k < items@.len() ==> #[trigger] items@[k] < boxes@.len(),
        arena_wf(old(nodes)@, boxes@),
    ensures
        arena_wf(final(nodes)@, boxes@),
        old(nodes)@.len() <= r,
        r + 1 == final(nodes)@.len(),
        final(nodes)@.subrange(0, old(nodes)@.len() as int) == old(nodes)@,
        items_of(final(nodes)@, Child::Node(r)).to_multiset() == items@.to_multiset(),
    decreases items@.len(),
{
    let ghost start = nodes@;
    let axis = random_axis(rng);
    let n = items.len();
    if n == 1 {
        let i = items[0];
        let node = BvhNode { left: Child::Object(i), right: None, axis, bounding_box: boxes[i] };
        nodes.push(node);
        let m = nodes.len() - 1;
        proof {
            assert(nodes@.subrange(0, start.len() as int) =~= start);
            lemma_arena_extends(start, nodes@, boxes@);
            assert(nodes@[m as int] == node);
            assert(node_ok(nodes@, boxes@, m as int));
            assert(items_of(nodes@, Child::Object(i)) =~= seq![i]);
            assert(items_of(nodes@, Child::Node(m)) =~= items@);
        }
        m
    } else if n == 2 {
        let a = items[0];
        let b = items[1];
        let (l, r) = if boxes[b].min[axis] < boxes[a].min[axis] {
            (b, a)
        } else {
            (a, b)
        };
        let bounding_box = boxes[l].surrounding_box(&boxes[r]);
        let node = BvhNode {
            left: Child::Object(l),
            right: Some(Child::Object(r)),
            axis,
            bounding_box,
        };
        nodes.push(node);
        let m = nodes.len() - 1;
        proof {
            assert(nodes@.subrange(0, start.len() as int) =~= start);
            lemma_arena_extends(start, nodes@, boxes@);
            assert(nodes@[m as int] == node);
            assert(items_of(nodes@, Child::Object(l)) =~= seq![l]);
            assert(items_of(nodes@, Child::Object(r)) =~= seq![r]);
            assert(node_ok(nodes@, boxes@, m as int));
            let got = items_of(nodes@, Child::Node(m));
            assert(got =~= seq![l, r]);
            if l == a {
                assert(got =~= items@);
            } else {
                assert(got.to_multiset() =~= items@.to_multiset()) by {
                    assert(items@ =~= seq![a].push(b));
                    assert(got =~= seq![b].push(a));
                    assert(seq![a] =~= Seq::<usize>::empty().push(a));
                    assert(seq![b] =~= Seq::<usize>::empty().push(b));
                }
            }
        }
        m
    } else {
        let mut sorted = items;
        sort_by_axis(&mut sorted, boxes, axis);
        let ghost whole = sorted@;
        let mid = n / 2;
        let others = sorted.split_off(mid);
        proof {
            assert(whole =~= sorted@ + others@);
        }
        let left = build_node(sorted, boxes, rng, nodes);
        let ghost after_left = nodes@;
        let right = build_node(others, boxes, rng, nodes);
        let ghost after_right = nodes@;
        let bounding_box = nodes[left].bounding_box.surrounding_box(&nodes[right].bounding_box);
        let node = BvhNode {
            left: Child::Node(left),
            right: Some(Child::Node(right)),
            axis,
            bounding_box,
        };
        nodes.push(node);
        let m = nodes.len() - 1;
        proof {
            assert(nodes@.subrange(0, after_right.len() as int) =~= after_right);
            assert(nodes@.subrange(0, start.len() as int) =~= start) by {
                assert(after_left.subrange(0, start.len() as int) == start);
                assert(after_right.subrange(0, after_left.len() as int) == after_left);
            }
            lemma_arena_extends(after_right, nodes@, boxes@);
            assert(after_right.subrange(0, after_left.len() as int) == after_left) by {
                assert(after_right.subrange(0, after_left.len() as int) =~= after_left);
            }
            assert forall|k: int|
                0 <= k < after_left.len() implies child_ok(
                    #[trigger] after_left[k].left,
                    k,
                    boxes@.len() as int,
                ) && (after_left[k].right matches Some(rc) ==> child_ok(
                    rc,
                    k,
                    boxes@.len() as int,
                )) by {
                assert(node_ok(after_left, boxes@, k));
            }
            assert forall|k: int|
                0 <= k < after_right.len() implies child_ok(
                    #[trigger] after_right[k].left,
                    k,
                    boxes@.len() as int,
                ) && (after_right[k].right matches Some(rc) ==> child_ok(
                    rc,
                    k,
                    boxes@.len() as int,
                )) by {
                assert(node_ok(after_right, boxes@, k));
            }
            assert(nodes@.subrange(0, after_left.len() as int) =~= after_left);
            lemma_items_stable(after_left, nodes@, boxes@.len() as int, Child::Node(left));
            lemma_items_stable(after_right, nodes@, boxes@.len() as int, Child::Node(right));
            let li = items_of(nodes@, Child::Node(left));
            let ri = items_of(nodes@, Child::Node(right));
            assert(nodes@[left as int] == after_right[left as int]);
            assert(nodes@[right as int] == after_right[right as int]);
            assert forall|x: usize, y: usize|
                #[trigger] li.contains(x) && #[trigger] ri.contains(y) implies axis_key(
                boxes@,
                x,
                axis,
            ) <= axis_key(boxes@, y, axis) by {
                assert(li.to_multiset().count(x) > 0);
                assert(ri.to_multiset().count(y) > 0);
                let p = choose|p: int| 0 <= p < whole.subrange(0, mid as int).len() && whole.subrange(0, mid as int)[p] == x;
                let q = choose|q: int| 0 <= q < whole.subrange(mid as int, n as int).len() && whole.subrange(mid as int, n as int)[q] == y;
                assert(whole[p] == x);
                assert(whole[mid + q] == y);
            }
            assert(nodes@[m as int] == node);
            assert(node_ok(nodes@, boxes@, m as int));
            assert(items_of(nodes@, Child::Node(m)) == li + ri);
            lemma_multiset_commutative(li, ri);
            lemma_multiset_commutative(whole.subrange(0, mid as int), whole.subrange(mid as int, n as int));
            assert(whole =~= whole.subrange(0, mid as int) + whole.subrange(mid as int, n as int));
        }
        m
    }
}

impl Bvh {
    /// Builds a hierarchy over objects given by their bounding boxes, splitting each
    /// node along an axis drawn from `rng`. Fails when there is no object, or when an
    /// object has no bounding box (an unbounded object cannot be placed).
    pub fn new(boxes: &Vec<Option<AABB>>, rng: &mut StdRng) -> (r: Result<Bvh, BvhError>)
        ensures
            boxes@.len() == 0 ==> r == Err::<Bvh, BvhError>(BvhError::Empty),
            boxes@.len() > 0 ==> match r {
                Err(BvhError::Empty) => false,
                Err(BvhError::MissingBox(i)) => i < boxes@.len() && boxes@[i as int] is None
                    && forall|j: int| 0 <= j < i ==> #[trigger] boxes@[j] is Some,
                Ok(bvh) => (forall|j: int| 0 <= j < boxes@.len() ==> #[trigger] boxes@[j] is Some)
                    && bvh.boxes@ == present_boxes(boxes@) && bvh.wf(),
            },
    {
        if boxes.len() == 0 {
            return Err(BvhError::Empty);
        }
        let mut present: Vec<AABB> = Vec::new();
        let mut items: Vec<usize> = Vec::new();
        let mut i: usize = 0;
        while i < boxes.len()
            invariant
                0 <= i <= boxes@.len(),
                present@.len() == i,
                items@ == all_objects(i as nat),
                forall|j: int| 0 <= j < i ==> #[trigger] boxes@[j] is Some,
                forall|j: int| 0 <= j < i ==> #[trigger] present@[j] == boxes@[j]->0,
            decreases boxes@.len() - i,
        {
            match &boxes[i] {
                Some(b) => {
                    present.push(*b);
                },
                None => {
                    return Err(BvhError::MissingBox(i));
                },
            }
            items.push(i);
            proof {
                assert(items@ =~= all_objects((i + 1) as nat));
            }
            i = i + 1;
        }
        proof {
            assert(present@ =~= present_boxes(boxes@));
        }
        let mut nodes: Vec<BvhNode> = Vec::new();
        let root = build_node(items, &present, rng, &mut nodes);
        Ok(Bvh { nodes, root, boxes: Ghost(present@) })
    }

    /// The nearest hit among the objects under `c`, within `[t_min, t_max]`.
    fn hit_child<B: Fn(AABB, u64, u64) -> bool, H: Fn(usize, u64, u64) -> Option<u64>>(
        &self,
        c: Child,
        t_min: u64,
        t_max: u64,
        box_hit: &B,
        object_hit: &H,
    ) -> (r: Option<(u64, usize)>)
        requires
            self.wf(),
            child_ok(c, self.nodes@.len() as int, self.boxes@.len() as int),
            forall|b: AABB, lo: u64, hi: u64| box_hit.requires((b, lo, hi)),
            forall|i: usize, lo: u64, hi: u64| object_hit.requires((i, lo, hi)),
        ensures
            r matches Some((_, x)) ==> items_of(self.nodes@, c).contains(x),
            forall|model: spec_fn(usize) -> Set<u64>|
                #[trigger] hits_follow(*object_hit, model) && boxes_conservative(
                    *box_hit,
                    model,
                    self.boxes@,
                ) ==> nearest_among(model, items_of(self.nodes@, c), t_min, t_max, r),
        decreases rank(c),
    {
        match c {
            Child::Object(i) => {
                let o = object_hit(i, t_min, t_max);
                proof {
                    assert(items_of(self.nodes@, c) =~= seq![i]);
                    assert(items_of(self.nodes@, c)[0] == i);
                    assert forall|x: usize| #[trigger] items_of(self.nodes@, c).contains(x) implies x
                        == i by {}
                }
                match o {
                    Some(t) => Some((t, i)),
                    None => None,
                }
            },
            Child::Node(m) => {
                let node = self.nodes[m];
                proof {
                    assert(node_ok(self.nodes@, self.boxes@, m as int));
                    lemma_box_encloses_items(self.nodes@, self.boxes@, c);
                }
                let li = Ghost(items_of(self.nodes@, node.left));
                let ri = Ghost(
                    match node.right {
                        Some(rc) => items_of(self.nodes@, rc),
                        None => Seq::empty(),
                    },
                );
                proof {
                    assert(items_of(self.nodes@, c) == li@ + ri@);
                    lemma_concat_contains(li@, ri@);
                }
                if !box_hit(node.bounding_box, t_min, t_max) {
                    proof {
                        assert forall|model: spec_fn(usize) -> Set<u64>|
                            #[trigger] hits_follow(*object_hit, model) && boxes_conservative(
                                *box_hit,
                                model,
                                self.boxes@,
                            ) implies nearest_among(
                            model,
                            items_of(self.nodes@, c),
                            t_min,
                            t_max,
                            None,
                        ) by {
                            assert forall|x: usize| #[trigger]
                                items_of(self.nodes@, c).contains(x) implies misses(
                                model(x),
                                t_min,
                                t_max,
                            ) by {
                                assert(node.bounding_box.encloses(self.boxes@[x as int]));
                            }
                        }
                    }
                    return None;
                }
                let rl = self.hit_child(node.left, t_min, t_max, box_hit, object_hit);
                let hi = match rl {
                    Some((t, _)) => t,
                    None => t_max,
                };
                let rr = match node.right {
                    Some(rc) => self.hit_child(rc, t_min, hi, box_hit, object_hit),
                    None => None,
                };
                let r = match (rl, rr) {
                    (Some(a), Some(b)) => if b.0 <= a.0 {
                        rr
                    } else {
                        rl
                    },
                    (None, _) => rr,
                    (_, None) => rl,
                };
                proof {
                    assert forall|model: spec_fn(usize) -> Set<u64>|
                        #[trigger] hits_follow(*object_hit, model) && boxes_conservative(
                            *box_hit,
                            model,
                            self.boxes@,
                        ) implies nearest_among(
                        model,
                        items_of(self.nodes@, c),
                        t_min,
                        t_max,
                        r,
                    ) by {
                        assert(nearest_among(model, li@, t_min, t_max, rl));
                        if node.right is Some {
                            assert(nearest_among(model, ri@, t_min, hi, rr));
                        }
                        let all = items_of(self.nodes@, c);
                        match r {
                            None => {
                                assert forall|x: usize| #[trigger] all.contains(x) implies misses(
                                    model(x),
                                    t_min,
                                    t_max,
                                ) by {
                                    if li@.contains(x) {
                                    } else {
                                        assert(ri@.contains(x));
                                    }
                                }
                            },
                            Some((t, x)) => {
                                assert forall|y: usize, u: u64|
                                    #[trigger] all.contains(y) && #[trigger] model(y).contains(u)
                                        && t_min <= u <= t_max implies t <= u by {
                                    if li@.contains(y) {
                                    } else {
                                        assert(ri@.contains(y));
                                    }
                                }
                            },
                        }
                    }
                }
                r
            },
        }
    }

    /// The nearest hit of a ray among all the objects, within `[t_min, t_max]`. The
    /// query descends only into nodes whose box `box_hit` accepts over the current
    /// range, and once the left subtree has a hit it searches the right one only up
    /// to that hit. `object_hit(i, lo, hi)` answers for object `i` with the
    /// parameter of its nearest hit within `[lo, hi]`.
    pub fn hit<B: Fn(AABB, u64, u64) -> bool, H: Fn(usize, u64, u64) -> Option<u64>>(
        &self,
        t_min: u64,
        t_max: u64,
        box_hit: &B,
        object_hit: &H,
    ) -> (r: Option<(u64, usize)>)
        requires
            self.wf(),
            forall|b: AABB, lo: u64, hi: u64| box_hit.requires((b, lo, hi)),
            forall|i: usize, lo: u64, hi: u64| object_hit.requires((i, lo, hi)),
        ensures
            r matches Some((_, x)) ==> x < self.boxes@.len(),
            forall|model: spec_fn(usize) -> Set<u64>|
                #[trigger] hits_follow(*object_hit, model) && boxes_conservative(
                    *box_hit,
                    model,
                    self.boxes@,
                ) ==> nearest_among(
                    model,
                    all_objects(self.boxes@.len()),
                    t_min,
                    t_max,
                    r,
                ),
    {
        let r = self.hit_child(Child::Node(self.root), t_min, t_max, box_hit, object_hit);
        proof {
            let items = items_of(self.nodes@, Child::Node(self.root));
            let all = all_objects(self.boxes@.len());
            lemma_all_objects_contains(self.boxes@.len());
            assert forall|x: usize| #[trigger] items.contains(x) <==> all.contains(x) by {
                assert(items.to_multiset().count(x) == all.to_multiset().count(x));
            }
            assert forall|model: spec_fn(usize) -> Set<u64>|
                #[trigger] hits_follow(*object_hit, model) && boxes_conservative(
                    *box_hit,
                    model,
                    self.boxes@,
                ) implies nearest_among(model, all, t_min, t_max, r) by {
                lemma_nearest_among_same_members(model, items, all, t_min, t_max, r);
            }
        }
        r
    }
}

} // verus!
