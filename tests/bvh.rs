use rand::rngs::SmallRng;
use rand::{Rng, SeedableRng};
use ray_tracer::aabb::Aabb;
use ray_tracer::bvh::{sort_by_axis, Bvh, BvhNode, BvhTree};
use ray_tracer::objects::ObjectList;
use ray_tracer::ray::{Param, Ray};
use ray_tracer::vec3::Vec3;

fn random_box(rng: &mut SmallRng) -> Aabb {
    let x = rng.gen_range(-1000, 1000);
    let y = rng.gen_range(-1000, 1000);
    let z = rng.gen_range(-1000, 1000);
    let s = rng.gen_range(1, 60);
    Aabb::new(Vec3::new(x, y, z), Vec3::new(x + s, y + s, z + s))
}

fn random_ray(rng: &mut SmallRng) -> Ray {
    let o = Vec3::new(rng.gen_range(-1500, 1500), rng.gen_range(-1500, 1500), rng.gen_range(-1500, 1500));
    let target = Vec3::new(rng.gen_range(-1000, 1000), rng.gen_range(-1000, 1000), rng.gen_range(-1000, 1000));
    Ray::new(o, Vec3::new(target.x - o.x, target.y - o.y, target.z - o.z), 0)
}

fn leaves(t: &BvhTree, out: &mut Vec<usize>) {
    match t {
        BvhTree::Leaf(id) => out.push(*id),
        BvhTree::Node(n) => {
            leaves(&n.left, out);
            leaves(&n.right, out);
        }
    }
}

fn check_boxes(t: &BvhTree, boxes: &Vec<Aabb>) -> Aabb {
    match t {
        BvhTree::Leaf(id) => boxes[*id],
        BvhTree::Node(n) => {
            let l = check_boxes(&n.left, boxes);
            let r = check_boxes(&n.right, boxes);
            assert_eq!(n.boxx, Aabb::surrounding_box(l, r));
            n.boxx
        }
    }
}

#[test]
fn sort_orders_handles_by_minimum_corner() {
    let boxes = vec![
        Aabb::new(Vec3::new(5, 0, 9), Vec3::new(6, 1, 10)),
        Aabb::new(Vec3::new(-2, 3, 1), Vec3::new(0, 4, 2)),
        Aabb::new(Vec3::new(5, -1, 0), Vec3::new(7, 0, 1)),
        Aabb::new(Vec3::new(1, 8, 4), Vec3::new(2, 9, 5)),
    ];
    let mut ids = vec![0, 1, 2, 3];
    sort_by_axis(&mut ids, &boxes, 0);
    // equal keys keep their order
    assert_eq!(ids, vec![1, 3, 0, 2]);
    sort_by_axis(&mut ids, &boxes, 1);
    assert_eq!(ids, vec![2, 0, 1, 3]);
    sort_by_axis(&mut ids, &boxes, 2);
    assert_eq!(ids, vec![2, 1, 3, 0]);
}

#[test]
fn build_keeps_every_object_once_and_caches_unions() {
    let mut rng = SmallRng::seed_from_u64(7);
    let boxes: Vec<Aabb> = (0..100).map(|_| random_box(&mut rng)).collect();
    let mut ids: Vec<usize> = (0..100).collect();
    let bvh = Bvh::new(&mut ids, &boxes, &mut rng);
    let mut found = vec![];
    leaves(&bvh.root, &mut found);
    found.sort();
    assert_eq!(found, (0..100).collect::<Vec<usize>>());
    check_boxes(&bvh.root, &boxes);
}

#[test]
fn single_object_is_a_leaf() {
    let mut rng = SmallRng::seed_from_u64(1);
    let boxes = vec![Aabb::new(Vec3::new(0, 0, 0), Vec3::new(1, 1, 1))];
    let mut ids = vec![0];
    match BvhNode::build(&mut ids, &boxes, &mut rng) {
        BvhTree::Leaf(id) => assert_eq!(id, 0),
        BvhTree::Node(_) => panic!("expected a leaf"),
    }
}

#[test]
fn bvh_closest_hit_matches_linear_scan() {
    let mut rng = SmallRng::seed_from_u64(42);
    let boxes: Vec<Aabb> = (0..500).map(|_| random_box(&mut rng)).collect();
    let mut list = ObjectList::new();
    for i in 0..500 {
        list.add(i);
    }
    let mut ids: Vec<usize> = (0..500).collect();
    let bvh = Bvh::new(&mut ids, &boxes, &mut rng);
    let t_min = Param::new(1, 1000);
    let t_max = Param::whole(1_000_000);
    let mut hits = 0;
    for _ in 0..10_000 {
        let ray = random_ray(&mut rng);
        let a = bvh.root.hit(&boxes, &ray, t_min, t_max);
        let b = list.hit(&boxes, &ray, t_min, t_max);
        assert_eq!(a.is_some(), b.is_some());
        if let (Some((_, ta)), Some((_, tb))) = (a, b) {
            assert_eq!(ta.num as i128 * tb.den as i128, tb.num as i128 * ta.den as i128);
            hits += 1;
        }
    }
    assert!(hits > 100);
}

#[test]
fn linear_scan_reports_the_nearest_box() {
    let boxes = vec![
        Aabb::new(Vec3::new(20, -1, -1), Vec3::new(21, 1, 1)),
        Aabb::new(Vec3::new(10, -1, -1), Vec3::new(11, 1, 1)),
        Aabb::new(Vec3::new(30, -1, -1), Vec3::new(31, 1, 1)),
    ];
    let list = ObjectList { objects: vec![0, 1, 2] };
    let ray = Ray::new(Vec3::new(0, 0, 0), Vec3::new(1, 0, 0), 0);
    let (id, t) = list.hit(&boxes, &ray, Param::whole(0), Param::whole(100)).unwrap();
    assert_eq!(id, 1);
    assert_eq!((t.num, t.den), (10, 1));
    assert!(list.hit(&boxes, &ray, Param::whole(0), Param::whole(10)).is_none());
}

#[test]
fn list_bounding_box() {
    let boxes = vec![
        Aabb::new(Vec3::new(0, 0, 0), Vec3::new(1, 1, 1)),
        Aabb::new(Vec3::new(-3, 2, 0), Vec3::new(0, 5, 2)),
    ];
    assert!(ObjectList::new().bounding_box(&boxes).is_none());
    let list = ObjectList { objects: vec![0, 1] };
    let b = list.bounding_box(&boxes).unwrap();
    assert_eq!(b, Aabb::new(Vec3::new(-3, 0, 0), Vec3::new(1, 5, 2)));
}

#[test]
fn node_over_two_leaves_caches_their_union() {
    let boxes = vec![
        Aabb::new(Vec3::new(0, 0, 0), Vec3::new(1, 1, 1)),
        Aabb::new(Vec3::new(5, -2, 3), Vec3::new(6, 0, 4)),
    ];
    let node = BvhNode::new(BvhTree::Leaf(0), BvhTree::Leaf(1), &boxes);
    let bvh = Bvh { root: node };
    assert_eq!(bvh.bounding_box(&boxes), Aabb::new(Vec3::new(0, -2, 0), Vec3::new(6, 1, 4)));
    let ray = Ray::new(Vec3::new(5, -1, -10), Vec3::new(0, 0, 1), 0);
    let (id, t) = bvh.hit(&boxes, &ray, Param::whole(0), Param::whole(100)).unwrap();
    assert_eq!(id, 1);
    assert_eq!((t.num, t.den), (13, 1));
}
