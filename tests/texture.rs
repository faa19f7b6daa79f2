use rand::rngs::SmallRng;
use rand::SeedableRng;
use ray_tracer::ray::Param;
use ray_tracer::texture::{ImageTexture, Perlin, SolidColor};
use ray_tracer::vec3::Vec3;

#[test]
fn perlin_tables_are_permutations() {
    let mut rng = SmallRng::seed_from_u64(3);
    let p = Perlin::new(&mut rng);
    for perm in [&p.perm_x, &p.perm_y, &p.perm_z] {
        let mut s = perm.clone();
        s.sort();
        assert_eq!(s, (0..256).collect::<Vec<i32>>());
    }
    assert_eq!(p.ranvec.len(), 256);
    assert!(p.ranvec.iter().all(|g| g.x.abs() <= 65536 && g.y.abs() <= 65536 && g.z.abs() <= 65536));
    // a shuffle of 256 entries leaving all three tables in order is not credible
    let identity: Vec<i32> = (0..256).collect();
    assert!(p.perm_x != identity || p.perm_y != identity || p.perm_z != identity);
}

#[test]
fn perlin_cell_combines_tables() {
    let mut rng = SmallRng::seed_from_u64(11);
    let p = Perlin::new(&mut rng);
    for (i, j, k) in [(0, 0, 0), (1, 2, 3), (-1, 300, -257), (255, 256, 511)] {
        let c = p.cell(i, j, k);
        let expected = p.perm_x[(i & 255) as usize] ^ p.perm_y[(j & 255) as usize] ^ p.perm_z[(k & 255) as usize];
        assert_eq!(c, expected as usize);
        assert!(c < 256);
    }
}

#[test]
fn solid_color_is_constant() {
    let t = SolidColor::new(Vec3::new(1, 2, 3));
    assert_eq!(t.value(Vec3::new(9, 9, 9)), Vec3::new(1, 2, 3));
    assert_eq!(t.value(Vec3::new(-4, 0, 2)), Vec3::new(1, 2, 3));
}

fn texels() -> Vec<[u8; 3]> {
    // 3 wide, 2 high, top row first
    vec![[1, 0, 0], [2, 0, 0], [3, 0, 0], [4, 0, 0], [5, 0, 0], [6, 0, 0]]
}

#[test]
fn image_texture_rejects_wrong_sizes() {
    assert!(ImageTexture::new(3, 2, texels()).is_some());
    assert!(ImageTexture::new(2, 2, texels()).is_none());
    assert!(ImageTexture::new(0, 0, vec![]).is_none());
}

#[test]
fn image_texture_lookup() {
    let t = ImageTexture::new(3, 2, texels()).unwrap();
    // v = 0 is the bottom row
    assert_eq!(t.value(Param::whole(0), Param::whole(0)), [4, 0, 0]);
    assert_eq!(t.value(Param::whole(0), Param::whole(1)), [1, 0, 0]);
    assert_eq!(t.value(Param::new(1, 2), Param::new(1, 4)), [5, 0, 0]);
    assert_eq!(t.value(Param::new(2, 3), Param::new(3, 4)), [3, 0, 0]);
    // coordinates outside [0, 1] are clamped
    assert_eq!(t.value(Param::whole(5), Param::whole(-3)), [6, 0, 0]);
    assert_eq!(t.value(Param::new(-1, 2), Param::whole(2)), [1, 0, 0]);
}

#[test]
fn perlin_gradients_are_drawn_at_random() {
    let mut rng = SmallRng::seed_from_u64(5);
    let p = Perlin::new(&mut rng);
    let first = p.ranvec[0];
    assert!(p.ranvec.iter().any(|g| *g != first));
    assert!(p.ranvec.iter().any(|g| g.x > 0) && p.ranvec.iter().any(|g| g.x < 0));
}
