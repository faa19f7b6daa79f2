use ray_tracer::aabb::Aabb;
use ray_tracer::ray::{Param, Ray};
use ray_tracer::vec3::Vec3;

fn v(x: i64, y: i64, z: i64) -> Vec3 {
    Vec3::new(x, y, z)
}

fn unit_box() -> Aabb {
    Aabb::new(v(0, 0, 0), v(10, 10, 10))
}

fn far() -> Param {
    Param::whole(1_000_000)
}

#[test]
fn surrounding_box_takes_componentwise_extremes() {
    let a = Aabb::new(v(0, 5, -3), v(4, 9, 2));
    let b = Aabb::new(v(-2, 6, -1), v(3, 12, 7));
    let s = Aabb::surrounding_box(a, b);
    assert_eq!(s.min, v(-2, 5, -3));
    assert_eq!(s.max, v(4, 12, 7));
}

#[test]
fn surrounding_box_contains_both_boxes() {
    let a = Aabb::new(v(1, 1, 1), v(2, 2, 2));
    let b = Aabb::new(v(-5, 0, 3), v(-4, 8, 4));
    let s = Aabb::surrounding_box(a, b);
    for bx in [a, b] {
        assert!(s.min.x <= bx.min.x && s.min.y <= bx.min.y && s.min.z <= bx.min.z);
        assert!(s.max.x >= bx.max.x && s.max.y >= bx.max.y && s.max.z >= bx.max.z);
    }
}

#[test]
fn surrounding_box_of_a_box_with_itself_is_the_box() {
    let a = Aabb::new(v(-7, 3, 0), v(1, 4, 9));
    assert_eq!(Aabb::surrounding_box(a, a), a);
}

#[test]
fn ray_through_box_hits() {
    let r = Ray::new(v(-5, 5, 5), v(1, 0, 0), 0);
    assert!(unit_box().hit(&r, Param::whole(0), far()));
}

#[test]
fn ray_passing_beside_box_misses() {
    let r = Ray::new(v(-5, 15, 5), v(1, 0, 0), 0);
    assert!(!unit_box().hit(&r, Param::whole(0), far()));
}

#[test]
fn ray_pointing_away_misses() {
    let r = Ray::new(v(-5, 5, 5), v(-1, 0, 0), 0);
    assert!(!unit_box().hit(&r, Param::whole(0), far()));
}

#[test]
fn negative_direction_component_hits() {
    let r = Ray::new(v(20, 20, 5), v(-1, -1, 0), 0);
    assert!(unit_box().hit(&r, Param::whole(0), far()));
}

#[test]
fn interval_ending_before_the_box_misses() {
    // the ray enters at t = 5 and leaves at t = 15
    let r = Ray::new(v(-5, 5, 5), v(1, 0, 0), 0);
    assert!(!unit_box().hit(&r, Param::whole(0), Param::whole(5)));
    assert!(unit_box().hit(&r, Param::whole(0), Param::new(11, 2)));
    assert!(!unit_box().hit(&r, Param::whole(15), far()));
}

#[test]
fn hit_param_reports_the_entry() {
    let r = Ray::new(v(-5, 5, 5), v(2, 0, 0), 0);
    let t = unit_box().hit_param(&r, Param::whole(0), far()).unwrap();
    // enters at x = 0, i.e. t = 5 / 2
    assert_eq!(t.num * 2, t.den * 5);
    let inside = Ray::new(v(5, 5, 5), v(1, 1, 1), 0);
    let t0 = unit_box().hit_param(&inside, Param::whole(0), far()).unwrap();
    assert_eq!(t0.num, 0);
}

#[test]
fn parallel_ray_inside_slab_hits_and_outside_misses() {
    let inside = Ray::new(v(-5, 10, 0), v(1, 0, 0), 0);
    assert!(unit_box().hit(&inside, Param::whole(0), far()));
    let outside = Ray::new(v(-5, 11, 0), v(1, 0, 0), 0);
    assert!(!unit_box().hit(&outside, Param::whole(0), far()));
}

#[test]
fn zero_thickness_box_is_hit_head_on() {
    let flat = Aabb::new(v(0, 0, 5), v(10, 10, 5));
    let r = Ray::new(v(5, 5, -5), v(0, 0, 1), 0);
    // a box of no thickness has no interior between two parameters
    assert!(!flat.hit(&r, Param::whole(0), far()));
    let thin = Aabb::new(v(0, 0, 5), v(10, 10, 6));
    assert!(thin.hit(&r, Param::whole(0), far()));
}

#[test]
fn hit_is_invariant_to_swapped_corners() {
    let boxes = [
        Aabb::new(v(0, 0, 0), v(10, 10, 10)),
        Aabb::new(v(-3, 2, 7), v(4, 9, 8)),
        Aabb::new(v(5, 5, 5), v(6, 6, 6)),
    ];
    let rays = [
        Ray::new(v(-5, 5, 5), v(1, 0, 0), 0),
        Ray::new(v(20, 20, 20), v(-1, -1, -1), 0),
        Ray::new(v(0, -10, 7), v(0, 3, 0), 0),
        Ray::new(v(3, 3, 3), v(0, 0, 0), 0),
        Ray::new(v(-8, -8, 0), v(2, 1, 1), 0),
    ];
    for b in boxes {
        for r in rays {
            let expected = b.hit(&r, Param::whole(0), far());
            for axis in 0..3 {
                let mut s = b;
                match axis {
                    0 => std::mem::swap(&mut s.min.x, &mut s.max.x),
                    1 => std::mem::swap(&mut s.min.y, &mut s.max.y),
                    _ => std::mem::swap(&mut s.min.z, &mut s.max.z),
                }
                assert_eq!(s.hit(&r, Param::whole(0), far()), expected);
            }
        }
    }
}

#[test]
fn param_comparison_is_exact() {
    assert!(Param::new(1, 3).less_than(&Param::new(1, 2)));
    assert!(!Param::new(2, 4).less_than(&Param::new(1, 2)));
    assert!(Param::new(-1, 7).less_than(&Param::whole(0)));
}
