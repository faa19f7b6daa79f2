pub mod aabb;
pub mod bvh;
pub mod materials;
pub mod objects;
pub mod pdf;
pub mod ray;
pub mod rect;
pub mod rng;
pub mod texture;
pub mod tiles;
pub mod vec3;
