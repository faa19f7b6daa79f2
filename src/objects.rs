use vstd::prelude::*;
use crate::aabb::{lemma_hit_before_far_end, lemma_hit_narrow, lemma_surrounding_box_exact, Aabb};
use crate::bvh::{boxes_wf, closest_hit, handles_valid};
use crate::ray::{lemma_lt_le_trans, Param, Ray};

verus! {

/// A plain list of objects, searched one by one.
pub struct ObjectList {
    pub objects: Vec<usize>,
}

/// The box that encloses the boxes of all of `ids`, built up left to right.
pub open spec fn hull(boxes: Seq<Aabb>, ids: Seq<usize>) -> Aabb
    decreases ids.len(),
{
    if ids.len() <= 1 {
        boxes[ids[0] as int]
    } else {
        Aabb::spec_surrounding(hull(boxes, ids.drop_last()), boxes[ids.last() as int])
    }
}

/// An element of `s.push(x)` is `x` or an element of `s`.
proof fn lemma_push_contains(s: Seq<usize>, x: usize, j: usize)
    ensures
        s.push(x).contains(j) == (s.contains(j) || j == x),
{
    let t = s.push(x);
    if t.contains(j) && j != x {
        let k = choose|k: int| 0 <= k < t.len() && t[k] == j;
        assert(k < s.len());
        assert(s[k] == j);
    }
    if s.contains(j) {
        let k = choose|k: int| 0 <= k < s.len() && s[k] == j;
        assert(t[k] == j);
    }
    if j == x {
        assert(t[s.len() as int] == j);
    }
}

impl ObjectList {
    pub fn new() -> (r: ObjectList)
        ensures
            r.objects@ == Seq::<usize>::empty(),
    {
        ObjectList { objects: Vec::new() }
    }

    /// Appends an object.
    pub fn add(&mut self, object: usize)
        ensures
            final(self).objects@ == old(self).objects@.push(object),
    {
        self.objects.push(object);
    }

    /// Closest hit among all objects, strictly between `t_min` and `t_max`:
    /// each object is tested up to the closest hit found so far.
    pub fn hit(&self, boxes: &Vec<Aabb>, ray: &Ray, t_min: Param, t_max: Param) -> (res: Option<(usize, Param)>)
        requires
            handles_valid(self.objects@, boxes@),
            boxes_wf(boxes@),
            ray.in_scene(),
            t_min.wf(),
            t_max.wf(),
        ensures
            closest_hit(boxes@, self.objects@, *ray, t_min, t_max, res),
    {
        let ghost ids = self.objects@;
        let mut ans: Option<(usize, Param)> = None;
        let mut closest = t_max;
        let mut i: usize = 0;
        while i < self.objects.len()
            invariant
                ids == self.objects@,
                i <= ids.len(),
                handles_valid(ids, boxes@),
                boxes_wf(boxes@),
                ray.in_scene(),
                t_min.wf(),
                t_max.wf(),
                closest.wf(),
                closest.le(t_max),
                closest_hit(boxes@, ids.take(i as int), *ray, t_min, t_max, ans),
                ans.is_none() ==> closest == t_max,
                ans.is_some() ==> closest == ans.unwrap().1,
            decreases ids.len() - i,
        {
            let id = self.objects[i];
            let b = boxes[id];
            proof {
                assert(boxes@[id as int].wf());
                lemma_hit_narrow(b, *ray, t_min, t_max, closest);
                assert(ids.take(i as int + 1) =~= ids.take(i as int).push(id));
                assert forall|j: usize| #[trigger] ids.take(i as int + 1).contains(j) <==> (ids.take(i as int).contains(j)
                    || j == id) by {
                    lemma_push_contains(ids.take(i as int), id, j);
                }
            }
            match b.hit_param(ray, t_min, closest) {
                Some(t) => {
                    proof {
                        let prev = ids.take(i as int);
                        assert forall|j: usize|
                            #[trigger] ids.take(i as int + 1).contains(j) && boxes@[j as int].spec_hit(*ray, t_min, t_max)
                            implies t.le(boxes@[j as int].enter_param(*ray, t_min)) by {
                            if j != id {
                                assert(prev.contains(j));
                                lemma_hit_before_far_end(boxes@[j as int], *ray, t_min, t_max);
                                if let Some((_, c)) = ans {
                                    lemma_lt_le_trans(t, c, boxes@[j as int].enter_param(*ray, t_min));
                                }
                            }
                        }
                    }
                    ans = Some((id, t));
                    closest = t;
                    proof {
                        lemma_hit_before_far_end(b, *ray, t_min, t_max);
                    }
                },
                None => {
                    proof {
                        let prev = ids.take(i as int);
                        if let Some((id0, c)) = ans {
                            assert(prev.contains(id0));
                            assert forall|j: usize|
                                #[trigger] ids.take(i as int + 1).contains(j) && boxes@[j as int].spec_hit(
                                    *ray,
                                    t_min,
                                    t_max,
                                ) implies c.le(boxes@[j as int].enter_param(*ray, t_min)) by {
                                if j != id {
                                    assert(prev.contains(j));
                                }
                            }
                        } else {
                            assert forall|j: usize| #[trigger] ids.take(i as int + 1).contains(j) implies !boxes@[j as int].spec_hit(
                                *ray,
                                t_min,
                                t_max,
                            ) by {
                                if j != id {
                                    assert(prev.contains(j));
                                }
                            }
                        }
                    }
                },
            }
            i = i + 1;
        }
        proof {
            assert(ids.take(ids.len() as int) =~= ids);
        }
        ans
    }

    /// The box enclosing every object of the list; `None` for an empty list.
    pub fn bounding_box(&self, boxes: &Vec<Aabb>) -> (r: Option<Aabb>)
        requires
            handles_valid(self.objects@, boxes@),
        ensures
            r.is_none() == (self.objects.len() == 0),
            r.is_some() ==> r.unwrap() == hull(boxes@, self.objects@),
    {
        if self.objects.len() == 0 {
            return None;
        }
        let mut ans = boxes[self.objects[0]];
        let mut i: usize = 1;
        proof {
            assert(self.objects@.take(1).drop_last() =~= Seq::<usize>::empty());
        }
        while i < self.objects.len()
            invariant
                1 <= i <= self.objects.len(),
                handles_valid(self.objects@, boxes@),
                ans == hull(boxes@, self.objects@.take(i as int)),
            decreases self.objects.len() - i,
        {
            ans = Aabb::surrounding_box(ans, boxes[self.objects[i]]);
            proof {
                let t = self.objects@.take(i as int + 1);
                assert(t.drop_last() =~= self.objects@.take(i as int));
            }
            i = i + 1;
        }
        proof {
            assert(self.objects@.take(self.objects.len() as int) =~= self.objects@);
        }
        Some(ans)
    }
}

/// The closest hit does not depend on how the objects are arranged: a
/// hierarchy over the same objects as a list (the same multiset of handles)
/// reports a hit exactly when the list does, at the same parameter.
pub proof fn lemma_closest_hit_arrangement_invariant(
    boxes: Seq<Aabb>,
    a: Seq<usize>,
    b: Seq<usize>,
    r: Ray,
    t_min: Param,
    t_max: Param,
    res_a: Option<(usize, Param)>,
    res_b: Option<(usize, Param)>,
)
    requires
        a.to_multiset() == b.to_multiset(),
        closest_hit(boxes, a, r, t_min, t_max, res_a),
        closest_hit(boxes, b, r, t_min, t_max, res_b),
    ensures
        res_a.is_some() == res_b.is_some(),
        res_a.is_some() ==> res_a.unwrap().1.le(res_b.unwrap().1) && res_b.unwrap().1.le(res_a.unwrap().1),
{
    a.to_multiset_ensures();
    b.to_multiset_ensures();
    assert forall|j: usize| a.contains(j) <==> b.contains(j) by {
        assert(a.contains(j) <==> a.to_multiset().count(j) > 0);
        assert(b.contains(j) <==> b.to_multiset().count(j) > 0);
    }
    match (res_a, res_b) {
        (Some((ia, ta)), Some((ib, tb))) => {
            assert(a.contains(ib));
            assert(b.contains(ia));
        },
        (Some((ia, ta)), None) => {
            assert(b.contains(ia));
        },
        (None, Some((ib, tb))) => {
            assert(a.contains(ib));
        },
        (None, None) => {},
    }
}

} // verus!
