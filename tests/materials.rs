use ray_tracer::materials::schlick;
use ray_tracer::ray::Param;

#[test]
fn glass_reflectance_at_normal_incidence_is_four_percent() {
    let r = schlick(Param::whole(1), Param::new(3, 2));
    assert_eq!((r.num, r.den), (1, 25));
    assert_eq!(r.num * 100, r.den * 4);
}

#[test]
fn grazing_incidence_reflects_everything() {
    let r = schlick(Param::whole(0), Param::new(3, 2));
    assert_eq!(r.num, r.den);
}

#[test]
fn schlick_intermediate_angle() {
    // cos = 1/2: r0 + (1 - r0) / 32 with r0 = 1/25
    let r = schlick(Param::new(1, 2), Param::new(3, 2));
    // (1/25) + (24/25) / 32 = 1/25 + 3/100 = 7/100
    assert_eq!(r.num * 100, r.den * 7);
}

#[test]
fn matching_index_reflects_only_at_grazing_angles() {
    let r = schlick(Param::whole(1), Param::whole(1));
    assert_eq!(r.num, 0);
    let r = schlick(Param::new(1, 2), Param::whole(1));
    assert_eq!(r.num * 32, r.den);
}
