use ray_tracer::ray::{Param, Ray};
use ray_tracer::rect::{Cuboid, RectXY, RectXZ, RectYZ};
use ray_tracer::vec3::Vec3;

fn far() -> Param {
    Param::whole(1_000_000)
}

#[test]
fn rect_xy_hit_reports_the_plane_parameter() {
    let r = RectXY { x1: 0, x2: 10, y1: 0, y2: 10, k: 5 };
    let ray = Ray::new(Vec3::new(3, 4, -5), Vec3::new(0, 0, 2), 0);
    let t = r.hit(&ray, Param::whole(0), far()).unwrap();
    assert_eq!((t.num, t.den), (10, 2));
}

#[test]
fn rect_misses_outside_its_extent_and_interval() {
    let r = RectXY { x1: 0, x2: 10, y1: 0, y2: 10, k: 5 };
    let beside = Ray::new(Vec3::new(11, 4, -5), Vec3::new(0, 0, 1), 0);
    assert!(r.hit(&beside, Param::whole(0), far()).is_none());
    let ray = Ray::new(Vec3::new(3, 4, -5), Vec3::new(0, 0, 1), 0);
    assert!(r.hit(&ray, Param::whole(0), Param::whole(9)).is_none());
    // the interval is closed at both ends
    assert!(r.hit(&ray, Param::whole(0), Param::whole(10)).is_some());
    assert!(r.hit(&ray, Param::whole(10), far()).is_some());
    let parallel = Ray::new(Vec3::new(3, 4, 5), Vec3::new(1, 0, 0), 0);
    assert!(r.hit(&parallel, Param::whole(0), far()).is_none());
}

#[test]
fn oblique_ray_hits_at_exact_point() {
    let r = RectXZ { x1: 0, x2: 4, z1: 0, z2: 4, k: 3 };
    // reaches y = 3 at t = 3/2, where x = 1 + 3 = 4: on the edge
    let ray = Ray::new(Vec3::new(1, 0, 1), Vec3::new(2, 2, 0), 0);
    let t = r.hit(&ray, Param::whole(0), far()).unwrap();
    assert_eq!(t.num * 2, t.den * 3);
    let past = Ray::new(Vec3::new(1, 0, 1), Vec3::new(3, 2, 0), 0);
    assert!(r.hit(&past, Param::whole(0), far()).is_none());
}

#[test]
fn rect_yz_from_negative_side() {
    let r = RectYZ { y1: -1, y2: 1, z1: -1, z2: 1, k: -4 };
    let ray = Ray::new(Vec3::new(0, 0, 0), Vec3::new(-2, 0, 0), 0);
    let t = r.hit(&ray, Param::whole(0), far()).unwrap();
    assert_eq!(t.num * 1, t.den * 2);
}

#[test]
fn rect_boxes_are_one_unit_thick() {
    let r = RectXY { x1: 0, x2: 10, y1: 2, y2: 3, k: 5 };
    let b = r.bounding_box();
    assert_eq!((b.min, b.max), (Vec3::new(0, 2, 4), Vec3::new(10, 3, 6)));
    let b = RectXZ { x1: 0, x2: 1, z1: 2, z2: 3, k: 7 }.bounding_box();
    assert_eq!((b.min, b.max), (Vec3::new(0, 6, 2), Vec3::new(1, 8, 3)));
    let b = RectYZ { y1: 0, y2: 1, z1: 2, z2: 3, k: -7 }.bounding_box();
    assert_eq!((b.min, b.max), (Vec3::new(-8, 0, 2), Vec3::new(-6, 1, 3)));
}

#[test]
fn cuboid_hit_is_the_nearest_face() {
    let c = Cuboid::new(Vec3::new(0, 0, 0), Vec3::new(10, 10, 10));
    let ray = Ray::new(Vec3::new(5, 5, -10), Vec3::new(0, 0, 1), 0);
    let t = c.hit(&ray, Param::whole(0), far()).unwrap();
    assert_eq!(t.num, 10 * t.den);
    let back = Ray::new(Vec3::new(5, 5, 20), Vec3::new(0, 0, -1), 0);
    let t = c.hit(&back, Param::whole(0), far()).unwrap();
    assert_eq!(t.num, 10 * t.den);
    // from inside, the exit face
    let inside = Ray::new(Vec3::new(5, 5, 5), Vec3::new(1, 0, 0), 0);
    let t = c.hit(&inside, Param::whole(0), far()).unwrap();
    assert_eq!(t.num, 5 * t.den);
    let miss = Ray::new(Vec3::new(20, 20, 20), Vec3::new(1, 0, 0), 0);
    assert!(c.hit(&miss, Param::whole(0), far()).is_none());
    let b = c.bounding_box();
    assert_eq!((b.min, b.max), (Vec3::new(0, 0, 0), Vec3::new(10, 10, 10)));
}

#[test]
fn cuboid_faces_follow_corners() {
    let c = Cuboid::new(Vec3::new(1, 2, 3), Vec3::new(4, 5, 6));
    assert_eq!(c.sides.0, RectXY { x1: 1, x2: 4, y1: 2, y2: 5, k: 3 });
    assert_eq!(c.sides.1.k, 6);
    assert_eq!(c.sides.2, RectXZ { x1: 1, x2: 4, z1: 3, z2: 6, k: 2 });
    assert_eq!(c.sides.3.k, 5);
    assert_eq!(c.sides.4, RectYZ { y1: 2, y2: 5, z1: 3, z2: 6, k: 1 });
    assert_eq!(c.sides.5.k, 4);
}
