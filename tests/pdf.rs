use ray_tracer::pdf::{CosinePDF, ONB};
use ray_tracer::vec3::{cross, Vec3};

fn dot(a: Vec3, b: Vec3) -> i64 {
    a.x * b.x + a.y * b.y + a.z * b.z
}

#[test]
fn basis_is_orthogonal() {
    for w in [Vec3::new(0, 0, 1), Vec3::new(1, 0, 0), Vec3::new(3, -4, 12), Vec3::new(-7, 2, 1), Vec3::new(100, 1, 1)] {
        let b = ONB::build_from_w(w);
        assert_eq!(b.w, w);
        assert_eq!(dot(b.u, b.v), 0);
        assert_eq!(dot(b.v, b.w), 0);
        assert_eq!(dot(b.u, b.w), 0);
        assert_ne!(b.u, Vec3::new(0, 0, 0));
        assert_ne!(b.v, Vec3::new(0, 0, 0));
    }
}

#[test]
fn basis_around_z_axis() {
    let b = ONB::build_from_w(Vec3::new(0, 0, 1));
    assert_eq!(b.v, Vec3::new(0, 1, 0));
    assert_eq!(b.u, Vec3::new(-1, 0, 0));
}

#[test]
fn basis_near_x_axis_uses_y_helper() {
    let b = ONB::build_from_w(Vec3::new(10, 1, 0));
    assert_eq!(b.v, cross(Vec3::new(10, 1, 0), Vec3::new(0, 1, 0)));
    assert_eq!(b.v, Vec3::new(0, 0, 10));
}

#[test]
fn local_combines_axes() {
    let b = ONB::build_from_w(Vec3::new(0, 0, 1));
    assert_eq!(b.local(Vec3::new(2, 3, 5)), Vec3::new(-2, 3, 5));
}

#[test]
fn cosine_pdf_frame() {
    let p = CosinePDF::new(Vec3::new(1, 2, 3));
    assert_eq!(p.uvw, ONB::build_from_w(Vec3::new(1, 2, 3)));
}

#[test]
fn cross_product_values() {
    assert_eq!(cross(Vec3::new(1, 0, 0), Vec3::new(0, 1, 0)), Vec3::new(0, 0, 1));
    assert_eq!(cross(Vec3::new(2, 3, 4), Vec3::new(5, 6, 7)), Vec3::new(-3, 6, -3));
}
