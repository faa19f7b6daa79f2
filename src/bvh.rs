use vstd::prelude::*;
use rand::rngs::SmallRng;
use crate::aabb::{lemma_hit_before_far_end, lemma_hit_enclosing, lemma_hit_narrow, lemma_surrounding_box_exact, Aabb};
use crate::ray::{lemma_le_lt_trans, lemma_lt_le_trans, Param, Ray};
use crate::rng::gen_range_i64;

verus! {

/// Sort key of object `id` along `axis`: the minimum corner of its box.
pub open spec fn box_key(boxes: Seq<Aabb>, id: usize, axis: int) -> int {
    boxes[id as int].min.coord(axis)
}

/// Every handle names one of the boxes.
pub open spec fn handles_valid(ids: Seq<usize>, boxes: Seq<Aabb>) -> bool {
    forall|i: int| 0 <= i < ids.len() ==> #[trigger] ids[i] < boxes.len()
}

/// The handles are ordered by their boxes' minimum corner along `axis`.
pub open spec fn sorted_by_axis(ids: Seq<usize>, boxes: Seq<Aabb>, axis: int) -> bool {
    forall|i: int, j: int|
        0 <= i < j < ids.len() ==> box_key(boxes, #[trigger] ids[i], axis) <= box_key(boxes, #[trigger] ids[j], axis)
}

/// Inserting an element adds it to the multiset of a sequence.
proof fn lemma_insert_multiset(s: Seq<usize>, pos: int, e: usize)
    requires
        0 <= pos <= s.len(),
    ensures
        s.insert(pos, e).to_multiset() == s.to_multiset().insert(e),
{
    let a = s.subrange(0, pos);
    let b = s.subrange(pos, s.len() as int);
    assert(s =~= a + b);
    assert(s.insert(pos, e) =~= a.push(e) + b);
    vstd::seq_lib::lemma_multiset_commutative(a, b);
    vstd::seq_lib::lemma_multiset_commutative(a.push(e), b);
    a.to_multiset_ensures();
    assert(s.insert(pos, e).to_multiset() =~= s.to_multiset().insert(e));
}

/// Stable insertion sort of object handles by their boxes' minimum corner
/// along `axis`.
pub fn sort_by_axis(objects: &mut Vec<usize>, boxes: &Vec<Aabb>, axis: usize)
    requires
        handles_valid(old(objects)@, boxes@),
        axis < 3,
    ensures
        final(objects)@.to_multiset() == old(objects)@.to_multiset(),
        final(objects)@.len() == old(objects)@.len(),
        handles_valid(final(objects)@, boxes@),
        sorted_by_axis(final(objects)@, boxes@, axis as int),
{
    let mut sorted: Vec<usize> = Vec::new();
    let mut i: usize = 0;
    assert(objects@.take(0) =~= sorted@);
    while i < objects.len()
        invariant
            i <= objects.len(),
            handles_valid(objects@, boxes@),
            handles_valid(sorted@, boxes@),
            axis < 3,
            sorted@.to_multiset() == objects@.take(i as int).to_multiset(),
            sorted@.len() == i,
            sorted_by_axis(sorted@, boxes@, axis as int),
        decreases objects.len() - i,
    {
        let id = objects[i];
        let key = boxes[id].min.get(axis);
        let mut pos: usize = 0;
        while pos < sorted.len()
            invariant
                pos <= sorted.len(),
                handles_valid(sorted@, boxes@),
                axis < 3,
                key == box_key(boxes@, id, axis as int),
                forall|j: int| 0 <= j < pos ==> box_key(boxes@, #[trigger] sorted@[j], axis as int) <= key,
            ensures
                pos <= sorted.len(),
                forall|j: int| 0 <= j < pos ==> box_key(boxes@, #[trigger] sorted@[j], axis as int) <= key,
                pos < sorted.len() ==> box_key(boxes@, sorted@[pos as int], axis as int) > key,
            decreases sorted.len() - pos,
        {
            if boxes[sorted[pos]].min.get(axis) > key {
                break;
            }
            pos = pos + 1;
        }
        let ghost before = sorted@;
        proof {
            if pos < sorted.len() {
                assert(box_key(boxes@, sorted@[pos as int], axis as int) > key);
            }
            lemma_insert_multiset(before, pos as int, id);
            objects@.take(i as int).to_multiset_ensures();
            assert(objects@.take(i as int + 1) =~= objects@.take(i as int).push(id));
        }
        sorted.insert(pos, id);
        proof {
            assert forall|a: int, b: int|
                0 <= a < b < sorted@.len() implies box_key(boxes@, #[trigger] sorted@[a], axis as int) <= box_key(
                boxes@,
                #[trigger] sorted@[b],
                axis as int,
            ) by {
                if b < pos {
                } else if b == pos {
                    assert(sorted@[a] == before[a]);
                } else if a < pos {
                    assert(sorted@[b] == before[b - 1]);
                    assert(sorted@[a] == before[a]);
                    if pos < before.len() {
                        assert(box_key(boxes@, before[pos as int], axis as int) <= box_key(boxes@, before[b - 1], axis as int));
                    }
                } else if a == pos {
                    assert(sorted@[b] == before[b - 1]);
                    assert(box_key(boxes@, before[pos as int], axis as int) <= box_key(boxes@, before[b - 1], axis as int));
                } else {
                    assert(sorted@[b] == before[b - 1]);
                    assert(sorted@[a] == before[a - 1]);
                }
            }
            assert forall|j: int| 0 <= j < sorted@.len() implies #[trigger] sorted@[j] < boxes@.len() by {
                if j < pos {
                    assert(sorted@[j] == before[j]);
                } else if j > pos {
                    assert(sorted@[j] == before[j - 1]);
                }
            }
        }
        i = i + 1;
    }
    proof {
        assert(objects@.take(objects@.len() as int) =~= objects@);
    }
    *objects = sorted;
}

/// A bounding-volume hierarchy over object handles: a handle at a leaf, or an
/// inner node with two subtrees.
pub enum BvhTree {
    Leaf(usize),
    Node(Box<BvhNode>),
}

/// An inner node: two subtrees and the box that encloses both.
pub struct BvhNode {
    pub left: BvhTree,
    pub right: BvhTree,
    pub boxx: Aabb,
}

/// A hierarchy built over a scene's objects.
pub struct Bvh {
    pub root: BvhTree,
}

impl BvhTree {
    /// The handles at the leaves, left to right.
    pub open spec fn leaves(self) -> Seq<usize>
        decreases self,
    {
        match self {
            BvhTree::Leaf(id) => seq![id],
            BvhTree::Node(n) => n.left.leaves() + n.right.leaves(),
        }
    }

    /// The box of the tree: the object's own box at a leaf, the cached box
    /// at a node.
    pub open spec fn spec_box(self, boxes: Seq<Aabb>) -> Aabb {
        match self {
            BvhTree::Leaf(id) => boxes[id as int],
            BvhTree::Node(n) => n.boxx,
        }
    }

    /// Every leaf names a box, and every node caches the surrounding box of
    /// its two children.
    pub open spec fn wf(self, boxes: Seq<Aabb>) -> bool
        decreases self,
    {
        match self {
            BvhTree::Leaf(id) => id < boxes.len(),
            BvhTree::Node(n) => {
                &&& n.left.wf(boxes)
                &&& n.right.wf(boxes)
                &&& n.boxx == Aabb::spec_surrounding(n.left.spec_box(boxes), n.right.spec_box(boxes))
            },
        }
    }

    /// The box that encloses every object below this tree.
    pub fn bounding_box(&self, boxes: &Vec<Aabb>) -> (r: Aabb)
        requires
            self.wf(boxes@),
        ensures
            r == self.spec_box(boxes@),
    {
        match self {
            BvhTree::Leaf(id) => boxes[*id],
            BvhTree::Node(n) => n.boxx,
        }
    }
}

impl BvhNode {
    /// Builds a hierarchy over `objects`: one object is a leaf by itself;
    /// otherwise the objects are sorted along an axis drawn at random by the
    /// minimum corner of their boxes, split at the midpoint, and each half is
    /// built in turn.  `objects` is consumed.
    pub fn build(objects: &mut Vec<usize>, boxes: &Vec<Aabb>, rng: &mut SmallRng) -> (r: BvhTree)
        requires
            old(objects).len() > 0,
            handles_valid(old(objects)@, boxes@),
        ensures
            r.wf(boxes@),
            r.leaves().to_multiset() == old(objects)@.to_multiset(),
        decreases old(objects).len(),
    {
        let axis = gen_range_i64(rng, 0, 3) as usize;
        sort_by_axis(objects, boxes, axis);
        let ghost sorted = objects@;
        let len = objects.len();
        if len == 1 {
            let id = objects.remove(0);
            proof {
                assert(sorted =~= seq![id]);
            }
            return BvhTree::Leaf(id);
        }
        let mut objects2 = objects.split_off(len / 2);
        proof {
            assert(sorted =~= objects@ + objects2@);
            vstd::seq_lib::lemma_multiset_commutative(objects@, objects2@);
        }
        let ghost first = objects@;
        let ghost second = objects2@;
        let left = BvhNode::build(objects, boxes, rng);
        let right = BvhNode::build(&mut objects2, boxes, rng);
        let boxx = Aabb::surrounding_box(left.bounding_box(boxes), right.bounding_box(boxes));
        proof {
            vstd::seq_lib::lemma_multiset_commutative(left.leaves(), right.leaves());
        }
        BvhTree::Node(Box::new(BvhNode { left, right, boxx }))
    }
}

impl BvhNode {
    /// A node over two prepared subtrees, caching the box around both.
    pub fn new(left: BvhTree, right: BvhTree, boxes: &Vec<Aabb>) -> (r: BvhTree)
        requires
            left.wf(boxes@),
            right.wf(boxes@),
        ensures
            r.wf(boxes@),
            r.leaves() == left.leaves() + right.leaves(),
            r.spec_box(boxes@) == Aabb::spec_surrounding(left.spec_box(boxes@), right.spec_box(boxes@)),
    {
        let boxx = Aabb::surrounding_box(left.bounding_box(boxes), right.bounding_box(boxes));
        BvhTree::Node(Box::new(BvhNode { left, right, boxx }))
    }
}

impl Bvh {
    /// Closest hit among all objects of the hierarchy.
    pub fn hit(&self, boxes: &Vec<Aabb>, ray: &Ray, t_min: Param, t_max: Param) -> (res: Option<(usize, Param)>)
        requires
            self.root.wf(boxes@),
            boxes_wf(boxes@),
            ray.in_scene(),
            t_min.wf(),
            t_max.wf(),
        ensures
            closest_hit(boxes@, self.root.leaves(), *ray, t_min, t_max, res),
    {
        self.root.hit(boxes, ray, t_min, t_max)
    }

    /// The box enclosing every object of the hierarchy.
    pub fn bounding_box(&self, boxes: &Vec<Aabb>) -> (r: Aabb)
        requires
            self.root.wf(boxes@),
        ensures
            r == self.root.spec_box(boxes@),
    {
        self.root.bounding_box(boxes)
    }

    /// The hierarchy over all of `objects`.
    pub fn new(objects: &mut Vec<usize>, boxes: &Vec<Aabb>, rng: &mut SmallRng) -> (r: Bvh)
        requires
            old(objects).len() > 0,
            handles_valid(old(objects)@, boxes@),
        ensures
            r.root.wf(boxes@),
            r.root.leaves().to_multiset() == old(objects)@.to_multiset(),
    {
        Bvh { root: BvhNode::build(objects, boxes, rng) }
    }
}

/// Every box is well formed.
pub open spec fn boxes_wf(boxes: Seq<Aabb>) -> bool {
    forall|i: int| 0 <= i < boxes.len() ==> (#[trigger] boxes[i]).wf()
}

/// `res` is a closest hit of the ray among the objects `ids` over
/// `(t_min, t_max)`: `None` when none of them is hit; otherwise a hit object
/// with its entry parameter, which no other hit among them precedes.
pub open spec fn closest_hit(
    boxes: Seq<Aabb>,
    ids: Seq<usize>,
    r: Ray,
    t_min: Param,
    t_max: Param,
    res: Option<(usize, Param)>,
) -> bool {
    match res {
        None => forall|j: usize| #[trigger] ids.contains(j) ==> !boxes[j as int].spec_hit(r, t_min, t_max),
        Some((id, t)) => {
            &&& ids.contains(id)
            &&& boxes[id as int].spec_hit(r, t_min, t_max)
            &&& t == boxes[id as int].enter_param(r, t_min)
            &&& t.wf()
            &&& forall|j: usize|
                #[trigger] ids.contains(j) && boxes[j as int].spec_hit(r, t_min, t_max) ==> t.le(
                    boxes[j as int].enter_param(r, t_min),
                )
        },
    }
}

/// An element of a concatenation comes from one of its parts.
proof fn lemma_concat_contains(a: Seq<usize>, b: Seq<usize>, x: usize)
    ensures
        (a + b).contains(x) == (a.contains(x) || b.contains(x)),
{
    if (a + b).contains(x) {
        let i = choose|i: int| 0 <= i < (a + b).len() && (a + b)[i] == x;
        if i < a.len() {
            assert(a[i] == x);
        } else {
            assert(b[i - a.len()] == x);
        }
    }
    if a.contains(x) {
        let i = choose|i: int| 0 <= i < a.len() && a[i] == x;
        assert((a + b)[i] == x);
    }
    if b.contains(x) {
        let i = choose|i: int| 0 <= i < b.len() && b[i] == x;
        assert((a + b)[a.len() + i] == x);
    }
}

/// Enclosure of boxes is transitive.
proof fn lemma_contains_trans(a: Aabb, b: Aabb, c: Aabb)
    requires
        a.contains(b),
        b.contains(c),
    ensures
        a.contains(c),
{
    assert forall|i: int| 0 <= i < 3 implies (#[trigger] a.min.coord(i)) <= c.min.coord(i) && c.max.coord(i)
        <= a.max.coord(i) by {
        assert(a.min.coord(i) <= b.min.coord(i));
        assert(b.min.coord(i) <= c.min.coord(i));
        assert(b.max.coord(i) <= a.max.coord(i));
        assert(c.max.coord(i) <= b.max.coord(i));
    }
}

impl BvhTree {
    /// The box of a well-formed tree over well-formed boxes is well formed
    /// and encloses the box of every object below it.
    pub proof fn lemma_box_encloses_leaves(self, boxes: Seq<Aabb>)
        requires
            self.wf(boxes),
            boxes_wf(boxes),
        ensures
            self.spec_box(boxes).wf(),
            forall|j: usize| #[trigger] self.leaves().contains(j) ==> j < boxes.len() && self.spec_box(boxes).contains(
                boxes[j as int],
            ),
        decreases self,
    {
        match self {
            BvhTree::Leaf(id) => {
                assert forall|j: usize| #[trigger] self.leaves().contains(j) implies j < boxes.len()
                    && self.spec_box(boxes).contains(boxes[j as int]) by {
                    assert(self.leaves()[0] == id);
                    let b = boxes[id as int];
                    assert forall|i: int| 0 <= i < 3 implies #[trigger] b.min.coord(i) <= b.min.coord(i)
                        && b.max.coord(i) <= b.max.coord(i) by {}
                }
            },
            BvhTree::Node(n) => {
                n.left.lemma_box_encloses_leaves(boxes);
                n.right.lemma_box_encloses_leaves(boxes);
                let lb = n.left.spec_box(boxes);
                let rb = n.right.spec_box(boxes);
                lemma_surrounding_box_exact(lb, rb, lb);
                assert forall|j: usize| #[trigger] self.leaves().contains(j) implies j < boxes.len()
                    && self.spec_box(boxes).contains(boxes[j as int]) by {
                    lemma_concat_contains(n.left.leaves(), n.right.leaves(), j);
                    if n.left.leaves().contains(j) {
                        lemma_contains_trans(n.boxx, lb, boxes[j as int]);
                    } else {
                        lemma_contains_trans(n.boxx, rb, boxes[j as int]);
                    }
                }
            },
        }
    }

    /// Closest hit of the ray among the objects below this tree, strictly
    /// between `t_min` and `t_max`.  A subtree whose box the ray misses is
    /// skipped; after a hit in the left subtree the right one is searched
    /// only up to that hit.
    pub fn hit(&self, boxes: &Vec<Aabb>, ray: &Ray, t_min: Param, t_max: Param) -> (res: Option<(usize, Param)>)
        requires
            self.wf(boxes@),
            boxes_wf(boxes@),
            ray.in_scene(),
            t_min.wf(),
            t_max.wf(),
        ensures
            closest_hit(boxes@, self.leaves(), *ray, t_min, t_max, res),
        decreases self,
    {
        match self {
            BvhTree::Leaf(id) => {
                let b = boxes[*id];
                proof {
                    assert(self.leaves()[0] == *id);
                    assert forall|j: usize| #[trigger] self.leaves().contains(j) implies j == *id by {}
                }
                match b.hit_param(ray, t_min, t_max) {
                    Some(t) => Some((*id, t)),
                    None => None,
                }
            },
            BvhTree::Node(n) => {
                proof {
                    self.lemma_box_encloses_leaves(boxes@);
                    n.left.lemma_box_encloses_leaves(boxes@);
                    n.right.lemma_box_encloses_leaves(boxes@);
                }
                if !n.boxx.hit(ray, t_min, t_max) {
                    proof {
                        assert forall|j: usize| #[trigger] self.leaves().contains(j) implies !boxes@[j as int].spec_hit(
                            *ray,
                            t_min,
                            t_max,
                        ) by {
                            if boxes@[j as int].spec_hit(*ray, t_min, t_max) {
                                lemma_hit_enclosing(n.boxx, boxes@[j as int], *ray, t_min, t_max);
                            }
                        }
                    }
                    return None;
                }
                let ghost ll = n.left.leaves();
                let ghost rl = n.right.leaves();
                match n.left.hit(boxes, ray, t_min, t_max) {
                    Some((id, t)) => {
                        proof {
                            lemma_hit_before_far_end(boxes@[id as int], *ray, t_min, t_max);
                        }
                        let far = n.right.hit(boxes, ray, t_min, t);
                        proof {
                            assert forall|j: usize|
                                #[trigger] rl.contains(j) implies (boxes@[j as int].spec_hit(*ray, t_min, t)
                                == (boxes@[j as int].spec_hit(*ray, t_min, t_max) && boxes@[j as int].enter_param(
                                *ray,
                                t_min,
                            ).lt(t))) by {
                                lemma_hit_narrow(boxes@[j as int], *ray, t_min, t_max, t);
                            }
                        }
                        match far {
                            Some((id2, t2)) => {
                                proof {
                                    lemma_concat_contains(ll, rl, id2);
                                    assert forall|j: usize|
                                        #[trigger] self.leaves().contains(j) && boxes@[j as int].spec_hit(
                                            *ray,
                                            t_min,
                                            t_max,
                                        ) implies t2.le(boxes@[j as int].enter_param(*ray, t_min)) by {
                                        lemma_concat_contains(ll, rl, j);
                                        let pj = boxes@[j as int].enter_param(*ray, t_min);
                                        lemma_hit_before_far_end(boxes@[j as int], *ray, t_min, t_max);
                                        if ll.contains(j) {
                                            lemma_lt_le_trans(t2, t, pj);
                                        } else if !pj.lt(t) {
                                            lemma_lt_le_trans(t2, t, pj);
                                        }
                                    }
                                }
                                Some((id2, t2))
                            },
                            None => {
                                proof {
                                    lemma_concat_contains(ll, rl, id);
                                    assert forall|j: usize|
                                        #[trigger] self.leaves().contains(j) && boxes@[j as int].spec_hit(
                                            *ray,
                                            t_min,
                                            t_max,
                                        ) implies t.le(boxes@[j as int].enter_param(*ray, t_min)) by {
                                        lemma_concat_contains(ll, rl, j);
                                    }
                                }
                                Some((id, t))
                            },
                        }
                    },
                    None => {
                        let res = n.right.hit(boxes, ray, t_min, t_max);
                        proof {
                            if let Some((id2, t2)) = res {
                                lemma_concat_contains(ll, rl, id2);
                                assert forall|j: usize|
                                    #[trigger] self.leaves().contains(j) && boxes@[j as int].spec_hit(*ray, t_min, t_max)
                                    implies t2.le(boxes@[j as int].enter_param(*ray, t_min)) by {
                                    lemma_concat_contains(ll, rl, j);
                                }
                            } else {
                                assert forall|j: usize| #[trigger] self.leaves().contains(j) implies !boxes@[j as int].spec_hit(
                                    *ray,
                                    t_min,
                                    t_max,
                                ) by {
                                    lemma_concat_contains(ll, rl, j);
                                }
                            }
                        }
                        res
                    },
                }
            },
        }
    }
}

} // verus!
